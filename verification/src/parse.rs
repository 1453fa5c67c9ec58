//! Reading a pair of values from text such as `"400x300"` or `"-1.5,0.25"`.

use vstd::prelude::*;
use std::str::FromStr;

verus! {

/// `text` is `left`, one separator, and `right`, and that separator is the
/// first in `text`.
pub open spec fn is_split(text: Seq<char>, sep: char, left: Seq<char>, right: Seq<char>) -> bool {
    &&& text == left + seq![sep] + right
    &&& !left.contains(sep)
}

/// Cuts `text` at the first separator into what stands before it and what
/// stands after it; `None` when `text` holds no separator.
pub fn split_pair<'a>(text: &'a str, sep: char) -> (fields: Option<(&'a str, &'a str)>)
    ensures
        match fields {
            Some((left, right)) => is_split(text@, sep, left@, right@),
            None => !text@.contains(sep),
        },
{
    let len: usize = text.unicode_len();
    let mut at: usize = 0;
    for c in iter: text.chars()
        invariant
            len == text@.len(),
            iter.seq() == text@,
            at == iter.index(),
            forall|k: int| 0 <= k < at ==> text@[k] != sep,
    {
        if c == sep {
            let left = text.substring_char(0, at);
            let right = text.substring_char(at + 1, len);
            proof {
                assert(text@ =~= left@ + seq![sep] + right@);
            }
            return Some((left, right));
        }
        at += 1;
    }
    None
}

/// Reads one value from `text` by `str::parse`, that is by the `FromStr`
/// implementation of `T`; `None` stands for its error. Nothing is claimed
/// of the result, which is whatever that implementation decides.
#[verifier::external_body]
fn parse_field<T: FromStr>(text: &str) -> (value: Option<T>) {
    text.parse::<T>().ok()
}

/// The pair of both values, when both fields could be read.
pub open spec fn paired<T>(first: Option<T>, second: Option<T>) -> Option<(T, T)> {
    match (first, second) {
        (Some(a), Some(b)) => Some((a, b)),
        _ => None,
    }
}

/// Joins what was read from the two fields: a pair when both were read, and
/// `None` when either was not.
pub fn pair_fields<T>(first: Option<T>, second: Option<T>) -> (pair: Option<(T, T)>)
    ensures
        pair == paired(first, second),
{
    match first {
        Some(a) => match second {
            Some(b) => Some((a, b)),
            None => None,
        },
        None => None,
    }
}

/// `value` is an answer that reading `text` as a `T` may give: the value
/// read, or `None` when `T` does not accept the text.
pub closed spec fn may_read<T: FromStr>(text: &str, value: Option<T>) -> bool {
    call_ensures(parse_field::<T>, (text,), value)
}

/// What reading the pair may answer for a text that holds the separator:
/// the pairing, in the order of the fields, of an answer read from the field
/// before the first separator and an answer read from the field after it.
pub open spec fn may_read_pair<T: FromStr>(text: &str, sep: char, pair: Option<(T, T)>) -> bool {
    exists|left: &str, right: &str, first: Option<T>, second: Option<T>|
        #![trigger is_split(text@, sep, left@, right@), paired(first, second)]
        is_split(text@, sep, left@, right@) && may_read(left, first) && may_read(right, second)
            && pair == paired(first, second)
}

/// Reads a pair of values of type `T` from `text`, in which the two stand on
/// either side of the first separator.
///
/// The answer is `None` when `text` holds no separator. Otherwise both
/// fields are read as a `T`, an empty field like any other, and the answer
/// is the pair of the two values in the order of the fields, or `None` when
/// either field is not accepted.
pub fn parse_pair<T: FromStr>(text: &str, sep: char) -> (pair: Option<(T, T)>)
    ensures
        !text@.contains(sep) ==> pair is None,
        text@.contains(sep) ==> may_read_pair(text, sep, pair),
{
    match split_pair(text, sep) {
        None => None,
        Some((left, right)) => {
            proof {
                assert(text@[left@.len() as int] == sep);
            }
            let first = parse_field::<T>(left);
            let second = parse_field::<T>(right);
            let pair = pair_fields(first, second);
            proof {
                assert(is_split(text@, sep, left@, right@) && may_read(left, first) && may_read(
                    right,
                    second,
                ) && pair == paired(first, second));
            }
            pair
        },
    }
}

} // verus!
