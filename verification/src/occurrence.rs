//! What a match is, and which matches a scan reports.

use vstd::prelude::*;

verus! {

/// One occurrence of the needle: the half-open byte range `[start, end)` of
/// the haystack that it fills.
#[derive(Clone, Copy, Debug, PartialEq, Eq, Structural)]
pub struct Match {
    pub start: usize,
    pub end: usize,
}

/// The mathematical value of a [`Match`]: a half-open range of positions.
pub struct Span {
    pub start: int,
    pub end: int,
}

impl View for Match {
    type V = Span;

    open spec fn view(&self) -> Span {
        Span { start: self.start as int, end: self.end as int }
    }
}

/// The ranges of a list of matches, in order.
pub open spec fn spans(matches: Seq<Match>) -> Seq<Span> {
    matches.map_values(|m: Match| m@)
}

/// The needle fills the window of the haystack that starts at `at`. An empty
/// needle occurs nowhere.
pub open spec fn occurs_at(needle: Seq<u8>, haystack: Seq<u8>, at: int) -> bool {
    &&& 0 < needle.len()
    &&& 0 <= at
    &&& at + needle.len() <= haystack.len()
    &&& haystack.subrange(at, at + needle.len()) == needle
}

/// An occurrence is a window that fits inside the haystack and holds the
/// bytes of the needle, each at its place.
pub proof fn lemma_occurs_at_bytewise(needle: Seq<u8>, haystack: Seq<u8>, at: int)
    ensures
        occurs_at(needle, haystack, at) <==> {
            &&& 0 < needle.len()
            &&& 0 <= at
            &&& at + needle.len() <= haystack.len()
            &&& forall|j: int| 0 <= j < needle.len() ==> haystack[at + j] == #[trigger] needle[j]
        },
{
    if 0 <= at && at + needle.len() <= haystack.len() {
        let window = haystack.subrange(at, at + needle.len());
        if window == needle {
            assert forall|j: int| 0 <= j < needle.len() implies haystack[at + j]
                == #[trigger] needle[j] by {
                assert(window[j] == haystack[at + j]);
            }
        }
        if forall|j: int| 0 <= j < needle.len() ==> haystack[at + j] == #[trigger] needle[j] {
            assert(window =~= needle);
        }
    }
}

/// The matches of a left-to-right scan that starts at `from`: the first
/// occurrence at or after `from`, then the first one at or after its end,
/// and so on.
pub open spec fn scan_from(needle: Seq<u8>, haystack: Seq<u8>, from: int) -> Seq<Span>
    decreases haystack.len() - from,
{
    if needle.len() == 0 || from < 0 || from + needle.len() > haystack.len() {
        Seq::empty()
    } else if occurs_at(needle, haystack, from) {
        seq![Span { start: from, end: from + needle.len() }] + scan_from(
            needle,
            haystack,
            from + needle.len(),
        )
    } else {
        scan_from(needle, haystack, from + 1)
    }
}

/// The leftmost non-overlapping occurrences of the needle in the haystack.
pub open spec fn leftmost_matches(needle: Seq<u8>, haystack: Seq<u8>) -> Seq<Span> {
    scan_from(needle, haystack, 0)
}

} // verus!
