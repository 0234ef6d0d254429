//! Splitting of the texts that requests carry.
use vstd::prelude::*;
use vstd::std_specs::iter::IteratorSpec;

verus! {

/// The texts before and after position `at`, without the character there.
pub open spec fn parts_around(text: Seq<char>, at: int) -> (Seq<char>, Seq<char>) {
    (text.subrange(0, at), text.subrange(at + 1, text.len() as int))
}

/// `text` split at the first `sep`, if it holds one.
pub open spec fn first_split(text: Seq<char>, sep: char) -> Option<(Seq<char>, Seq<char>)> {
    match text.index_of_first(sep) {
        Some(at) => Some(parts_around(text, at)),
        None => None,
    }
}

/// `text` split at the last `sep`, if it holds one.
pub open spec fn last_split(text: Seq<char>, sep: char) -> Option<(Seq<char>, Seq<char>)> {
    match text.index_of_last(sep) {
        Some(at) => Some(parts_around(text, at)),
        None => None,
    }
}

/// The views of a pair of texts.
pub open spec fn pair_view(pair: Option<(String, String)>) -> Option<(Seq<char>, Seq<char>)> {
    match pair {
        Some((head, tail)) => Some((head@, tail@)),
        None => None,
    }
}

/// Copies the texts before and after position `at`.
fn split_around(text: &str, at: usize) -> (split: (String, String))
    requires
        at < text@.len(),
    ensures
        (split.0@, split.1@) == parts_around(text@, at as int),
{
    let len: usize = text.unicode_len();
    (text.substring_char(0, at).to_owned(), text.substring_char(at + 1, len).to_owned())
}

/// Splits `text` at the first `sep`.
pub fn split_once(text: &str, sep: char) -> (split: Option<(String, String)>)
    ensures
        pair_view(split) == first_split(text@, sep),
{
    let len: usize = text.unicode_len();
    let mut at: usize = 0;
    let mut chars = text.chars();
    loop
        invariant
            at <= len,
            len == text@.len(),
            chars.obeys_prophetic_iter_laws(),
            chars.remaining() =~= text@.skip(at as int),
            forall|j: int| 0 <= j < at ==> text@[j] != sep,
        decreases text@.len() - at,
    {
        proof {
            text@.index_of_first_ensures(sep);
        }
        match chars.next() {
            None => {
                return None;
            },
            Some(c) => {
                if c == sep {
                    return Some(split_around(text, at));
                }
                at = at + 1;
            },
        }
    }
}

/// Splits `text` at the last `sep`.
pub fn rsplit_once(text: &str, sep: char) -> (split: Option<(String, String)>)
    ensures
        pair_view(split) == last_split(text@, sep),
{
    let len: usize = text.unicode_len();
    let mut at: usize = 0;
    let mut last: Option<usize> = None;
    let mut chars = text.chars();
    loop
        invariant
            at <= len,
            len == text@.len(),
            chars.obeys_prophetic_iter_laws(),
            chars.remaining() =~= text@.skip(at as int),
            match last {
                Some(l) => l < at && text@[l as int] == sep && forall|j: int|
                    l < j < at ==> text@[j] != sep,
                None => forall|j: int| 0 <= j < at ==> text@[j] != sep,
            },
        decreases text@.len() - at,
    {
        proof {
            text@.index_of_last_ensures(sep);
        }
        match chars.next() {
            None => {
                return match last {
                    Some(l) => Some(split_around(text, l)),
                    None => None,
                };
            },
            Some(c) => {
                if c == sep {
                    last = Some(at);
                }
                at = at + 1;
            },
        }
    }
}

} // verus!
