//! The directory of a store: file names with file contents, and the
//! fragments that such a listing holds.

use crate::error::StoreError;
use crate::image::{ascending, image_of, Fragment};
use crate::naming::{
    fragment_filename, fragment_id, fragment_name, fragment_number, has_log_extension,
    lemma_fragment_id_of_name, lemma_fragment_name_injective,
};
use vstd::pervasive::unreached;
use vstd::prelude::*;
use vstd::string::StringExecFns;

verus! {

/// A listing as plain values: each file's name and bytes.
pub open spec fn listing(files: Seq<(String, Vec<u8>)>) -> Seq<(Seq<char>, Seq<u8>)> {
    files.map_values(|f: (String, Vec<u8>)| (f.0@, f.1@))
}

/// From place `from` on, some file has the log extension and a stem that is
/// no fragment number.
pub open spec fn bad_name_from(files: Seq<(Seq<char>, Seq<u8>)>, from: int) -> bool {
    exists|i: int|
        from <= i < files.len() && has_log_extension((#[trigger] files[i]).0) && fragment_id(
            files[i].0,
        ) is None
}

/// From place `from` on, two files with the log extension have the same
/// name.
pub open spec fn repeated_from(files: Seq<(Seq<char>, Seq<u8>)>, from: int) -> bool {
    exists|i: int, j: int|
        from <= i < j < files.len() && has_log_extension((#[trigger] files[i]).0) && files[i].0 == (
        #[trigger] files[j]).0
}

/// The image has this fragment.
#[verifier::opaque]
pub open spec fn holds(image: Seq<(u64, Seq<u8>)>, fragment: (u64, Seq<u8>)) -> bool {
    exists|j: int| 0 <= j < image.len() && #[trigger] image[j] == fragment
}

/// From place `from` on, the listing has this file.
#[verifier::opaque]
pub open spec fn lists(files: Seq<(Seq<char>, Seq<u8>)>, from: int, file: (Seq<char>, Seq<u8>)) -> bool {
    exists|i: int| from <= i < files.len() && #[trigger] files[i] == file
}

/// `image` holds the fragments of the files from place `from` on, in
/// ascending order: every file with the log extension is named by a fragment
/// number and is a fragment of the image, and every fragment of the image is
/// such a file.
pub open spec fn is_image_from(
    files: Seq<(Seq<char>, Seq<u8>)>,
    from: int,
    image: Seq<(u64, Seq<u8>)>,
) -> bool {
    &&& ascending(image)
    &&& forall|i: int|
        from <= i < files.len() && has_log_extension((#[trigger] files[i]).0) ==> fragment_id(
            files[i].0,
        ) is Some && holds(image, (fragment_id(files[i].0).unwrap(), files[i].1))
    &&& forall|j: int|
        0 <= j < image.len() ==> lists(
            files,
            from,
            (fragment_name((#[trigger] image[j]).0), image[j].1),
        )
}

/// The listing cannot be the directory of a store: a file with the log
/// extension is named by no fragment number, or two such files have one
/// name.
pub open spec fn malformed(files: Seq<(Seq<char>, Seq<u8>)>) -> bool {
    bad_name_from(files, 0) || repeated_from(files, 0)
}

/// `image` holds the fragments of the listing, in ascending order.
pub open spec fn is_image_of(files: Seq<(Seq<char>, Seq<u8>)>, image: Seq<(u64, Seq<u8>)>) -> bool {
    is_image_from(files, 0, image)
}

/// The fragments of the listing, in ascending order.
pub open spec fn directory_image(files: Seq<(Seq<char>, Seq<u8>)>) -> Seq<(u64, Seq<u8>)> {
    choose|image: Seq<(u64, Seq<u8>)>| is_image_of(files, image)
}

/// The files that hold the fragments of the image.
pub open spec fn files_of(image: Seq<(u64, Seq<u8>)>) -> Seq<(Seq<char>, Seq<u8>)> {
    image.map_values(|f: (u64, Seq<u8>)| (fragment_name(f.0), f.1))
}

/// The place of a fragment that the image has.
pub proof fn lemma_held(image: Seq<(u64, Seq<u8>)>, fragment: (u64, Seq<u8>)) -> (j: int)
    requires
        holds(image, fragment),
    ensures
        0 <= j < image.len(),
        image[j] == fragment,
{
    reveal(holds);
    choose|j: int| 0 <= j < image.len() && #[trigger] image[j] == fragment
}

/// The image has each of its fragments.
pub proof fn lemma_holds(image: Seq<(u64, Seq<u8>)>, j: int)
    requires
        0 <= j < image.len(),
    ensures
        holds(image, image[j]),
{
    reveal(holds);
}

/// The place of a file that the listing has.
pub proof fn lemma_listed(files: Seq<(Seq<char>, Seq<u8>)>, from: int, file: (Seq<char>, Seq<u8>)) -> (i:
    int)
    requires
        lists(files, from, file),
    ensures
        from <= i < files.len(),
        files[i] == file,
{
    reveal(lists);
    choose|i: int| from <= i < files.len() && #[trigger] files[i] == file
}

/// The listing has each of its files.
pub proof fn lemma_lists(files: Seq<(Seq<char>, Seq<u8>)>, from: int, i: int)
    requires
        from <= i < files.len(),
    ensures
        lists(files, from, files[i]),
{
    reveal(lists);
}

/// Two ascending images of the same fragments are one image.
pub proof fn lemma_ascending_unique(a: Seq<(u64, Seq<u8>)>, b: Seq<(u64, Seq<u8>)>)
    requires
        ascending(a),
        ascending(b),
        forall|i: int| 0 <= i < a.len() ==> holds(b, #[trigger] a[i]),
        forall|j: int| 0 <= j < b.len() ==> holds(a, #[trigger] b[j]),
    ensures
        a == b,
    decreases a.len(),
{
    if a.len() == 0 {
        if b.len() > 0 {
            let i = lemma_held(a, b[0]);
        }
        assert(a =~= b);
    } else {
        let la = a.len() - 1;
        let jb = lemma_held(b, a[la]);
        let lb = b.len() - 1;
        let ia = lemma_held(a, b[lb]);
        if ia < la {
            assert(a[ia].0 < a[la].0);
        }
        if jb < lb {
            assert(b[jb].0 < b[lb].0);
        }
        assert(ia == la && jb == lb);
        let fa = a.drop_last();
        let fb = b.drop_last();
        assert forall|i: int, j: int| 0 <= i < j < fa.len() implies (#[trigger] fa[i]).0 < (
        #[trigger] fa[j]).0 by {
            assert(fa[i] == a[i] && fa[j] == a[j]);
        }
        assert forall|i: int, j: int| 0 <= i < j < fb.len() implies (#[trigger] fb[i]).0 < (
        #[trigger] fb[j]).0 by {
            assert(fb[i] == b[i] && fb[j] == b[j]);
        }
        assert forall|i: int| 0 <= i < fa.len() implies holds(fb, #[trigger] fa[i]) by {
            assert(fa[i] == a[i]);
            let j = lemma_held(b, a[i]);
            assert(a[i].0 < a[la].0);
            assert(j != lb);
            assert(fb[j] == b[j]);
            lemma_holds(fb, j);
        }
        assert forall|j: int| 0 <= j < fb.len() implies holds(fa, #[trigger] fb[j]) by {
            assert(fb[j] == b[j]);
            let i = lemma_held(a, b[j]);
            assert(b[j].0 < b[lb].0);
            assert(i != la);
            assert(fa[i] == a[i]);
            lemma_holds(fa, i);
        }
        lemma_ascending_unique(fa, fb);
        assert(a =~= fa.push(a[la]));
        assert(b =~= fb.push(b[lb]));
    }
}

/// A fragment of one image of a listing is a fragment of each image of it.
proof fn lemma_image_has(
    files: Seq<(Seq<char>, Seq<u8>)>,
    a: Seq<(u64, Seq<u8>)>,
    b: Seq<(u64, Seq<u8>)>,
    i: int,
)
    requires
        is_image_of(files, a),
        is_image_of(files, b),
        0 <= i < a.len(),
    ensures
        holds(b, a[i]),
{
    let f = lemma_listed(files, 0, (fragment_name(a[i].0), a[i].1));
    lemma_fragment_id_of_name(a[i].0);
    assert(has_log_extension(files[f].0));
}

/// A listing has one image at most.
pub proof fn lemma_image_unique(
    files: Seq<(Seq<char>, Seq<u8>)>,
    a: Seq<(u64, Seq<u8>)>,
    b: Seq<(u64, Seq<u8>)>,
)
    requires
        is_image_of(files, a),
        is_image_of(files, b),
    ensures
        a == b,
{
    assert forall|i: int| 0 <= i < a.len() implies holds(b, #[trigger] a[i]) by {
        lemma_image_has(files, a, b, i);
    }
    assert forall|j: int| 0 <= j < b.len() implies holds(a, #[trigger] b[j]) by {
        lemma_image_has(files, b, a, j);
    }
    lemma_ascending_unique(a, b);
}

/// The files of an ascending image are a well-formed listing, and the image
/// is theirs.
pub proof fn lemma_files_of_image(image: Seq<(u64, Seq<u8>)>)
    requires
        ascending(image),
    ensures
        !malformed(files_of(image)),
        is_image_of(files_of(image), image),
        directory_image(files_of(image)) == image,
{
    let files = files_of(image);
    assert forall|i: int| 0 <= i < files.len() implies has_log_extension((#[trigger] files[i]).0)
        && fragment_id(files[i].0) == Some(image[i].0) by {
        lemma_fragment_id_of_name(image[i].0);
    }
    assert forall|i: int, j: int| 0 <= i < j < files.len() implies (#[trigger] files[i]).0 != (
    #[trigger] files[j]).0 by {
        assert(image[i].0 < image[j].0);
        if files[i].0 == files[j].0 {
            lemma_fragment_name_injective(image[i].0, image[j].0);
        }
    }
    assert forall|i: int|
        0 <= i < files.len() && has_log_extension((#[trigger] files[i]).0) implies fragment_id(
        files[i].0,
    ) is Some && holds(image, (fragment_id(files[i].0).unwrap(), files[i].1)) by {
        lemma_holds(image, i);
    }
    assert forall|j: int| 0 <= j < image.len() implies lists(
        files,
        0,
        (fragment_name((#[trigger] image[j]).0), image[j].1),
    ) by {
        lemma_lists(files, 0, j);
    }
    assert(is_image_of(files, image));
    assert(is_image_of(files, directory_image(files)));
    lemma_image_unique(files, directory_image(files), image);
}

/// A file without the log extension changes nothing.
proof fn lemma_skip_file(files: Seq<(Seq<char>, Seq<u8>)>, k: int, image: Seq<(u64, Seq<u8>)>)
    requires
        0 < k <= files.len(),
        is_image_from(files, k, image),
        !repeated_from(files, k),
        !has_log_extension(files[k - 1].0),
    ensures
        is_image_from(files, k - 1, image),
        !repeated_from(files, k - 1),
{
    assert forall|j: int| 0 <= j < image.len() implies lists(
        files,
        k - 1,
        (fragment_name((#[trigger] image[j]).0), image[j].1),
    ) by {
        let i = lemma_listed(files, k, (fragment_name(image[j].0), image[j].1));
        lemma_lists(files, k - 1, i);
    }
}

/// A fragment file whose number the image has already is a repeated name.
proof fn lemma_repeated_file(
    files: Seq<(Seq<char>, Seq<u8>)>,
    k: int,
    image: Seq<(u64, Seq<u8>)>,
    j: int,
)
    requires
        0 < k <= files.len(),
        is_image_from(files, k, image),
        has_log_extension(files[k - 1].0),
        0 <= j < image.len(),
        fragment_id(files[k - 1].0) == Some(image[j].0),
    ensures
        repeated_from(files, 0),
{
    let i = lemma_listed(files, k, (fragment_name(image[j].0), image[j].1));
    assert(files[k - 1].0 == files[i].0);
}

/// A fragment file whose number the image has not yet takes its place in
/// the image.
proof fn lemma_add_file(
    files: Seq<(Seq<char>, Seq<u8>)>,
    k: int,
    image: Seq<(u64, Seq<u8>)>,
    id: u64,
    j: int,
)
    requires
        0 < k <= files.len(),
        is_image_from(files, k, image),
        !repeated_from(files, k),
        has_log_extension(files[k - 1].0),
        fragment_id(files[k - 1].0) == Some(id),
        0 <= j <= image.len(),
        forall|i: int| 0 <= i < j ==> (#[trigger] image[i]).0 < id,
        j < image.len() ==> id < image[j].0,
    ensures
        is_image_from(files, k - 1, image.insert(j, (id, files[k - 1].1))),
        !repeated_from(files, k - 1),
{
    let grown = image.insert(j, (id, files[k - 1].1));
    assert forall|a: int| 0 <= a < grown.len() implies #[trigger] grown[a] == (if a < j {
        image[a]
    } else if a == j {
        (id, files[k - 1].1)
    } else {
        image[a - 1]
    }) by {}
    assert forall|a: int, b: int| 0 <= a < b < grown.len() implies (#[trigger] grown[a]).0 < (
    #[trigger] grown[b]).0 by {
        if b < j {
            assert(image[a].0 < image[b].0);
        } else if b == j {
            assert(image[a].0 < id);
        } else if a < j {
            if j < b - 1 {
                assert(image[j].0 < image[b - 1].0);
            }
            assert(image[a].0 < id);
        } else if a == j {
            if j < b - 1 {
                assert(image[j].0 < image[b - 1].0);
            }
        } else {
            assert(image[a - 1].0 < image[b - 1].0);
        }
    }
    assert forall|i: int|
        k - 1 <= i < files.len() && has_log_extension((#[trigger] files[i]).0) implies fragment_id(
        files[i].0,
    ) is Some && holds(grown, (fragment_id(files[i].0).unwrap(), files[i].1)) by {
        if i == k - 1 {
            lemma_holds(grown, j);
        } else {
            let at = lemma_held(image, (fragment_id(files[i].0).unwrap(), files[i].1));
            if at < j {
                lemma_holds(grown, at);
            } else {
                lemma_holds(grown, at + 1);
            }
        }
    }
    assert forall|a: int| 0 <= a < grown.len() implies lists(
        files,
        k - 1,
        (fragment_name((#[trigger] grown[a]).0), grown[a].1),
    ) by {
        if a == j {
            lemma_lists(files, k - 1, k - 1);
        } else {
            let b = if a < j { a } else { a - 1 };
            let i = lemma_listed(files, k, (fragment_name(image[b].0), image[b].1));
            lemma_lists(files, k - 1, i);
        }
    }
    if repeated_from(files, k - 1) {
        let (a, b) = choose|a: int, b: int|
            k - 1 <= a < b < files.len() && has_log_extension((#[trigger] files[a]).0)
                && files[a].0 == (#[trigger] files[b]).0;
        assert(a == k - 1);
        let at = lemma_held(image, (fragment_id(files[b].0).unwrap(), files[b].1));
        assert(image[at].0 == id);
        if at < j {
            assert(image[at].0 < id);
        } else if j < at {
            assert(image[j].0 < image[at].0);
        }
    }
}

/// Reads the fragments out of a directory listing, in ascending order.
///
/// Files without the log extension are passed over. Fails with `Fragment`
/// exactly where the listing is malformed: a file with the log extension is
/// named by no fragment number, or two such files have one name.
pub fn read_directory(files: Vec<(String, Vec<u8>)>) -> (r: Result<Vec<Fragment>, StoreError>)
    ensures
        r is Err <==> malformed(listing(files@)),
        match r {
            Ok(fragments) => is_image_of(listing(files@), image_of(fragments@))
                && image_of(fragments@) == directory_image(listing(files@)),
            Err(e) => e is Fragment,
        },
{
    let ghost all = listing(files@);
    let mut rest = files;
    let mut fragments: Vec<Fragment> = Vec::new();
    proof {
        assert(listing(rest@) =~= all.take(rest@.len() as int));
        assert forall|j: int| 0 <= j < image_of(fragments@).len() implies lists(
            all,
            all.len() as int,
            (fragment_name((#[trigger] image_of(fragments@)[j]).0), image_of(fragments@)[j].1),
        ) by {}
    }
    while rest.len() > 0
        invariant
            all == listing(files@),
            rest@.len() <= all.len(),
            listing(rest@) == all.take(rest@.len() as int),
            is_image_from(all, rest@.len() as int, image_of(fragments@)),
            !repeated_from(all, rest@.len() as int),
        decreases rest@.len(),
    {
        let ghost k = rest@.len() as int;
        let ghost image = image_of(fragments@);
        let (name, data) = match rest.pop() {
            Some(file) => file,
            None => unreached(),
        };
        proof {
            assert(listing(rest@) =~= all.take(k - 1));
            assert(all.take(k)[k - 1] == all[k - 1]);
            assert(all[k - 1] == (name@, data@));
        }
        let id = match fragment_number(name.as_str()) {
            Ok(Some(id)) => id,
            Ok(None) => {
                proof {
                    lemma_skip_file(all, k, image);
                }
                continue ;
            },
            Err(e) => {
                proof {
                    assert(has_log_extension(all[k - 1].0) && fragment_id(all[k - 1].0) is None);
                }
                return Err(e);
            },
        };
        let mut j: usize = 0;
        while j < fragments.len() && fragments[j].id < id
            invariant
                j <= fragments@.len(),
                image == image_of(fragments@),
                forall|i: int| 0 <= i < j ==> (#[trigger] image[i]).0 < id,
            decreases fragments@.len() - j,
        {
            j += 1;
        }
        if j < fragments.len() && fragments[j].id == id {
            proof {
                lemma_repeated_file(all, k, image, j as int);
            }
            return Err(StoreError::Fragment(String::from_str("two files for one fragment")));
        }
        proof {
            lemma_add_file(all, k, image, id, j as int);
            assert(image_of(fragments@.insert(j as int, Fragment { id, data })) =~= image.insert(
                j as int,
                (id, data@),
            ));
        }
        fragments.insert(j, Fragment { id, data });
    }
    proof {
        lemma_image_unique(all, image_of(fragments@), directory_image(all));
    }
    Ok(fragments)
}

/// The files that hold the fragments: each under the name of its number,
/// with a copy of its bytes.
pub fn write_directory(fragments: &Vec<Fragment>) -> (files: Vec<(String, Vec<u8>)>)
    ensures
        listing(files@) == files_of(image_of(fragments@)),
{
    let mut files: Vec<(String, Vec<u8>)> = Vec::new();
    let mut i: usize = 0;
    while i < fragments.len()
        invariant
            i <= fragments@.len(),
            files@.len() == i,
            listing(files@) == files_of(image_of(fragments@)).take(i as int),
        decreases fragments@.len() - i,
    {
        let name = fragment_filename(fragments[i].id);
        let data = fragments[i].data.clone();
        assert(data@ =~= fragments@[i as int].data@);
        proof {
            let target = files_of(image_of(fragments@));
            let grown = listing(files@.push((name, data)));
            assert(target[i as int] == (name@, data@));
            assert forall|a: int| 0 <= a < grown.len() implies grown[a] == target.take(i + 1)[a] by {
                if a < i {
                    assert(grown[a] == listing(files@)[a]);
                    assert(target.take(i as int)[a] == target[a]);
                }
            }
            assert(grown =~= target.take(i + 1));
        }
        files.push((name, data));
        i += 1;
    }
    assert(files_of(image_of(fragments@)).take(fragments@.len() as int) =~= files_of(
        image_of(fragments@),
    ));
    files
}

} // verus!
