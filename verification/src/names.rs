//! Station labels as text: substring occurrence and the short display name.

use vstd::prelude::*;

verus! {

/// The separator between the levels of a hierarchical station label.
pub const LEVEL_MARK: char = '.';

/// `needle` stands in `hay` starting at position `at`.
pub open spec fn occurs_at(needle: Seq<char>, hay: Seq<char>, at: int) -> bool {
    &&& 0 <= at
    &&& at + needle.len() <= hay.len()
    &&& hay.subrange(at, at + needle.len()) == needle
}

/// `needle` stands somewhere in `hay`.
pub open spec fn occurs_in(needle: Seq<char>, hay: Seq<char>) -> bool {
    exists|at: int| occurs_at(needle, hay, at)
}

/// `at` is the position of the first `mark` in `text`.
pub open spec fn is_first_mark(text: Seq<char>, mark: char, at: int) -> bool {
    &&& 0 <= at < text.len()
    &&& text[at] == mark
    &&& forall|j: int| 0 <= j < at ==> text[j] != mark
}

/// The label without its leading level: what follows the first separator, or
/// the whole label where it has none.
pub open spec fn short_of(label: Seq<char>) -> Seq<char> {
    if exists|at: int| is_first_mark(label, LEVEL_MARK, at) {
        label.skip((choose|at: int| is_first_mark(label, LEVEL_MARK, at)) + 1)
    } else {
        label
    }
}

/// The first mark of a text stands at one position only.
pub proof fn lemma_first_mark_unique(text: Seq<char>, mark: char, a: int, b: int)
    requires
        is_first_mark(text, mark, a),
        is_first_mark(text, mark, b),
    ensures
        a == b,
{
}

/// `str::contains` with a string pattern: whether `needle` is a substring of
/// `hay`. The empty needle occurs in every text.
#[verifier::external_body]
pub(crate) fn text_contains(hay: &str, needle: &str) -> (found: bool)
    ensures
        found == occurs_in(needle@, hay@),
{
    hay.contains(needle)
}

/// `str::split_once` with a character delimiter: the text before the first
/// `mark` and the text after it, or `None` where `text` holds no `mark`.
#[verifier::external_body]
pub(crate) fn text_split_once(text: &str, mark: char) -> (parts: Option<(String, String)>)
    ensures
        match parts {
            Some((head, tail)) => exists|at: int|
                is_first_mark(text@, mark, at) && head@ == text@.take(at) && tail@ == text@.skip(
                    at + 1,
                ),
            None => forall|at: int| 0 <= at < text@.len() ==> text@[at] != mark,
        },
{
    text.split_once(mark).map(|(head, tail)| (head.to_string(), tail.to_string()))
}

} // verus!
