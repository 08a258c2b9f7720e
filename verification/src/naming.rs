//! Names of the fragment files.
//!
//! A fragment is kept in a file named by its number in decimal, without
//! leading zeros, and the extension `kv`. Files with another extension are
//! not the store's; a file with that extension and any other stem is an
//! error.

use crate::error::StoreError;
use vstd::prelude::*;
use vstd::string::{StrSliceExecFns, StringExecFns};

verus! {

/// File extension for logs.
pub const LOG_EXTENSION: &'static str = "kv";

/// The character of a decimal digit.
pub open spec fn digit_char(d: int) -> char {
    if d == 0 {
        '0'
    } else if d == 1 {
        '1'
    } else if d == 2 {
        '2'
    } else if d == 3 {
        '3'
    } else if d == 4 {
        '4'
    } else if d == 5 {
        '5'
    } else if d == 6 {
        '6'
    } else if d == 7 {
        '7'
    } else if d == 8 {
        '8'
    } else {
        '9'
    }
}

/// Whether `c` is a decimal digit.
pub open spec fn is_digit(c: char) -> bool {
    exists|d: int| 0 <= d < 10 && #[trigger] digit_char(d) == c
}

/// The digit that `c` stands for; 0 for a character that is no digit.
pub open spec fn digit_value(c: char) -> int {
    if c == '1' {
        1
    } else if c == '2' {
        2
    } else if c == '3' {
        3
    } else if c == '4' {
        4
    } else if c == '5' {
        5
    } else if c == '6' {
        6
    } else if c == '7' {
        7
    } else if c == '8' {
        8
    } else if c == '9' {
        9
    } else {
        0
    }
}

/// The decimal numeral of `n`, without leading zeros.
pub open spec fn decimal(n: nat) -> Seq<char>
    decreases n,
{
    if n < 10 {
        seq![digit_char(n as int)]
    } else {
        decimal(n / 10).push(digit_char((n % 10) as int))
    }
}

/// The number that a sequence of digits denotes.
pub open spec fn digits_value(digits: Seq<char>) -> nat
    decreases digits.len(),
{
    if digits.len() == 0 {
        0
    } else {
        (digits_value(digits.drop_last()) * 10 + digit_value(digits.last())) as nat
    }
}

/// The name of the file that holds the fragment `id`.
pub open spec fn fragment_name(id: u64) -> Seq<char> {
    decimal(id as nat) + ".kv"@
}

/// Whether a file of this name belongs to the store: it ends in `.kv`, and
/// something stands before that.
pub open spec fn has_log_extension(name: Seq<char>) -> bool {
    name.len() > 3 && name.subrange(name.len() - 3, name.len() as int) == ".kv"@
}

/// The fragment that a file of this name holds; `None` where it is the name
/// of no fragment.
pub open spec fn fragment_id(name: Seq<char>) -> Option<u64> {
    if exists|id: u64| #[trigger] fragment_name(id) == name {
        Some(choose|id: u64| #[trigger] fragment_name(id) == name)
    } else {
        None
    }
}

/// A numeral is made of digits, starts with a zero only where it is `0`, and
/// denotes its number.
pub proof fn lemma_decimal(n: nat)
    ensures
        decimal(n).len() >= 1,
        forall|i: int| 0 <= i < decimal(n).len() ==> is_digit(#[trigger] decimal(n)[i]),
        decimal(n)[0] == '0' ==> n == 0,
        digits_value(decimal(n)) == n,
    decreases n,
{
    if n < 10 {
        assert(is_digit(digit_char(n as int)));
        assert(decimal(n).drop_last() =~= Seq::<char>::empty());
        assert(digits_value(decimal(n).drop_last()) == 0);
    } else {
        lemma_decimal(n / 10);
        let head = decimal(n / 10);
        assert(is_digit(digit_char((n % 10) as int)));
        assert(decimal(n).drop_last() =~= head);
        assert(decimal(n)[0] == head[0]);
    }
}

/// Different fragments have different file names.
pub proof fn lemma_fragment_name_injective(a: u64, b: u64)
    requires
        fragment_name(a) == fragment_name(b),
    ensures
        a == b,
{
    let ext = ".kv"@;
    lemma_decimal(a as nat);
    lemma_decimal(b as nat);
    let da = decimal(a as nat);
    let db = decimal(b as nat);
    assert((da + ext).len() == (db + ext).len());
    assert(da =~= (da + ext).subrange(0, da.len() as int));
    assert(db =~= (db + ext).subrange(0, db.len() as int));
}

/// The fragment of a fragment's file name is that fragment.
pub proof fn lemma_fragment_id_of_name(id: u64)
    ensures
        fragment_id(fragment_name(id)) == Some(id),
        has_log_extension(fragment_name(id)),
{
    let name = fragment_name(id);
    let found = choose|other: u64| #[trigger] fragment_name(other) == name;
    lemma_fragment_name_injective(found, id);
    lemma_decimal(id as nat);
    reveal_strlit(".kv");
    let d = decimal(id as nat);
    assert(name.subrange(name.len() - 3, name.len() as int) =~= ".kv"@);
}

/// The text of one decimal digit.
fn digit_text(d: u64) -> (text: &'static str)
    requires
        d < 10,
    ensures
        text@ == seq![digit_char(d as int)],
{
    proof {
        reveal_strlit("0");
        reveal_strlit("1");
        reveal_strlit("2");
        reveal_strlit("3");
        reveal_strlit("4");
        reveal_strlit("5");
        reveal_strlit("6");
        reveal_strlit("7");
        reveal_strlit("8");
        reveal_strlit("9");
    }
    let text = if d == 0 {
        "0"
    } else if d == 1 {
        "1"
    } else if d == 2 {
        "2"
    } else if d == 3 {
        "3"
    } else if d == 4 {
        "4"
    } else if d == 5 {
        "5"
    } else if d == 6 {
        "6"
    } else if d == 7 {
        "7"
    } else if d == 8 {
        "8"
    } else {
        "9"
    };
    assert(text@ =~= seq![digit_char(d as int)]);
    text
}

/// Appends the decimal numeral of `n` to `out`.
fn push_decimal(out: &mut String, n: u64)
    ensures
        final(out)@ == old(out)@ + decimal(n as nat),
    decreases n,
{
    if n >= 10 {
        push_decimal(out, n / 10);
    }
    out.append(digit_text(n % 10));
    proof {
        if n >= 10 {
            assert(out@ =~= old(out)@ + decimal(n as nat));
        } else {
            assert(out@ =~= old(out)@ + decimal(n as nat));
        }
    }
}

/// The name of the file that holds the given fragment.
pub fn fragment_filename(fragment: u64) -> (name: String)
    ensures
        name@ == fragment_name(fragment),
{
    let mut name = String::new();
    push_decimal(&mut name, fragment);
    name.append(".");
    name.append(LOG_EXTENSION);
    proof {
        reveal_strlit(".");
        reveal_strlit("kv");
        reveal_strlit(".kv");
        assert(name@ =~= fragment_name(fragment));
    }
    name
}

/// The digit that `c` stands for, if it is one.
fn digit_of(c: char) -> (d: Option<u64>)
    ensures
        match d {
            Some(d) => d < 10 && digit_char(d as int) == c && digit_value(c) == d,
            None => !is_digit(c),
        },
{
    if c == '0' {
        Some(0)
    } else if c == '1' {
        Some(1)
    } else if c == '2' {
        Some(2)
    } else if c == '3' {
        Some(3)
    } else if c == '4' {
        Some(4)
    } else if c == '5' {
        Some(5)
    } else if c == '6' {
        Some(6)
    } else if c == '7' {
        Some(7)
    } else if c == '8' {
        Some(8)
    } else if c == '9' {
        Some(9)
    } else {
        None
    }
}

/// The value of a sequence of digits is at least that of each of its
/// beginnings.
proof fn lemma_digits_value_grows(digits: Seq<char>, n: int)
    requires
        0 <= n <= digits.len(),
    ensures
        digits_value(digits.take(n)) <= digits_value(digits),
    decreases digits.len() - n,
{
    if n == digits.len() {
        assert(digits.take(n) =~= digits);
    } else {
        lemma_digits_value_grows(digits, n + 1);
        assert(digits.take(n + 1).drop_last() =~= digits.take(n));
    }
}

/// A sequence of digits that does not start with a needless zero is the
/// numeral of its value.
proof fn lemma_digits_are_decimal(digits: Seq<char>)
    requires
        digits.len() >= 1,
        forall|i: int| 0 <= i < digits.len() ==> is_digit(#[trigger] digits[i]),
        digits.len() > 1 ==> digits[0] != '0',
    ensures
        decimal(digits_value(digits)) == digits,
        digits.len() > 1 ==> digits_value(digits) >= 10,
        digits_value(digits) == 0 ==> digits[0] == '0',
    decreases digits.len(),
{
    let last = digits.last();
    assert(is_digit(last));
    let front = digits.drop_last();
    if digits.len() == 1 {
        assert(front =~= Seq::<char>::empty());
        assert(digits_value(front) == 0);
        assert(digits =~= seq![last]);
    } else {
        assert(front[0] == digits[0]);
        assert forall|i: int| 0 <= i < front.len() implies is_digit(#[trigger] front[i]) by {
            assert(front[i] == digits[i]);
        }
        lemma_digits_are_decimal(front);
        let v = digits_value(front);
        assert(v >= 1);
        let n = digits_value(digits);
        assert(n == v * 10 + digit_value(last));
        assert(n / 10 == v && n % 10 == digit_value(last));
        assert(decimal(n) =~= digits);
    }
}

/// Reads a file name of the store's directory.
///
/// Returns `Ok(None)` for a name without the extension `kv`: that file is
/// not the store's. For a name with it, returns the fragment that the file
/// holds, or a `Fragment` error where the stem is not the decimal numeral of
/// a fragment number.
pub fn fragment_number(name: &str) -> (r: Result<Option<u64>, StoreError>)
    ensures
        !has_log_extension(name@) ==> r == Ok::<Option<u64>, StoreError>(None),
        has_log_extension(name@) ==> match fragment_id(name@) {
            Some(id) => r == Ok::<Option<u64>, StoreError>(Some(id)),
            None => r matches Err(e) && e is Fragment,
        },
{
    proof {
        reveal_strlit(".kv");
    }
    let len = name.unicode_len();
    if len <= 3 {
        return Ok(None);
    }
    let stem_len = len - 3;
    if name.get_char(stem_len) != '.' || name.get_char(stem_len + 1) != 'k' || name.get_char(
        stem_len + 2,
    ) != 'v' {
        proof {
            let ext = name@.subrange(name@.len() - 3, name@.len() as int);
            assert(ext[0] == name@[stem_len as int]);
            assert(ext[1] == name@[stem_len + 1]);
            assert(ext[2] == name@[stem_len + 2]);
        }
        return Ok(None);
    }
    assert(name@.subrange(name@.len() - 3, name@.len() as int) =~= ".kv"@);
    let ghost stem = name@.take(stem_len as int);
    assert(name@ =~= stem + ".kv"@);
    proof {
        // Whatever fragment the name belongs to, the stem is its numeral.
        assert forall|id: u64| #[trigger] fragment_name(id) == name@ implies decimal(id as nat)
            == stem by {
            lemma_decimal(id as nat);
            assert(decimal(id as nat) =~= fragment_name(id).take(stem_len as int));
        }
    }
    let mut value: u64 = 0;
    let mut i: usize = 0;
    while i < stem_len
        invariant
            i <= stem_len,
            stem_len + 3 == name@.len(),
            has_log_extension(name@),
            stem == name@.take(stem_len as int),
            value == digits_value(stem.take(i as int)),
            forall|j: int| 0 <= j < i ==> is_digit(#[trigger] stem[j]),
            i > 1 ==> stem[0] != '0',
            forall|id: u64| #[trigger] fragment_name(id) == name@ ==> decimal(id as nat) == stem,
        decreases stem_len - i,
    {
        let c = name.get_char(i);
        assert(c == stem[i as int]);
        proof {
            assert(stem.take(i + 1).drop_last() =~= stem.take(i as int));
            assert(stem.take(i + 1).last() == c);
            lemma_digits_value_grows(stem, i + 1);
        }
        let d = match digit_of(c) {
            Some(d) => d,
            None => {
                proof {
                    assert forall|id: u64| fragment_name(id) != name@ by {
                        if fragment_name(id) == name@ {
                            lemma_decimal(id as nat);
                            assert(is_digit(decimal(id as nat)[i as int]));
                        }
                    }
                }
                return Err(StoreError::Fragment(String::from_str("invalid fragment number")));
            },
        };
        if i == 1 && value == 0 {
            proof {
                assert(stem.take(1).drop_last() =~= Seq::<char>::empty());
                assert(digits_value(stem.take(1).drop_last()) == 0);
                assert(stem.take(1).last() == stem[0]);
                assert(digit_value(stem[0]) == 0);
                assert(is_digit(stem[0]));
                assert(stem[0] == '0');
                assert forall|id: u64| fragment_name(id) != name@ by {
                    if fragment_name(id) == name@ {
                        lemma_decimal(id as nat);
                        lemma_digits_value_grows(stem, 2);
                        assert(stem.take(2).drop_last() =~= stem.take(1));
                    }
                }
            }
            return Err(StoreError::Fragment(String::from_str("invalid fragment number")));
        }
        proof {
            if i == 1 {
                assert(stem.take(1).drop_last() =~= Seq::<char>::empty());
                assert(digits_value(stem.take(1).drop_last()) == 0);
                assert(stem.take(1).last() == stem[0]);
            }
        }
        let next = match value.checked_mul(10) {
            Some(tens) => tens.checked_add(d),
            None => None,
        };
        value = match next {
            Some(next) => next,
            None => {
                proof {
                    assert(digits_value(stem.take(i + 1)) > u64::MAX);
                    assert forall|id: u64| fragment_name(id) != name@ by {
                        if fragment_name(id) == name@ {
                            lemma_decimal(id as nat);
                        }
                    }
                }
                return Err(StoreError::Fragment(String::from_str("invalid fragment number")));
            },
        };
        i += 1;
    }
    proof {
        assert(stem.take(stem_len as int) =~= stem);
        lemma_digits_are_decimal(stem);
        assert(fragment_name(value) == name@);
        let found = choose|id: u64| #[trigger] fragment_name(id) == name@;
        lemma_fragment_name_injective(found, value);
    }
    Ok(Some(value))
}

} // verus!
