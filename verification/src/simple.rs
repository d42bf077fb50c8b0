//! The linear scanner.

use vstd::prelude::*;

use crate::equality::window_equals;
use crate::laws::{
    covers_occurrences, each_is_occurrence, lemma_matches_iff_occurs, lemma_scan_from_sound,
    non_overlapping,
};
use crate::occurrence::{
    leftmost_matches, lemma_occurs_at_bytewise, occurs_at, scan_from, spans, Match,
};

verus! {

/// The linear scanner: it tries the positions of the haystack one after the
/// other, and compares a whole window only where the first byte agrees.
pub struct SimpleMatcher;

impl SimpleMatcher {
    /// Finds the leftmost non-overlapping occurrences of `needle` in
    /// `haystack`, in ascending order. An empty needle, or a haystack shorter
    /// than the needle, gives an empty list.
    pub fn matches(needle: &[u8], haystack: &[u8]) -> (res: Vec<Match>)
        ensures
            spans(res@) == leftmost_matches(needle@, haystack@),
            each_is_occurrence(needle@, haystack@, spans(res@)),
            non_overlapping(spans(res@)),
            covers_occurrences(needle@, haystack@, spans(res@)),
            needle@.len() == 0 || haystack@.len() < needle@.len() ==> res@.len() == 0,
    {
        let mut i: usize = 0;
        let mut res: Vec<Match> = Vec::new();
        let needle_len = needle.len();
        let haystack_len = haystack.len();

        while needle_len > 0 && i < haystack_len
            invariant
                needle_len == needle@.len(),
                haystack_len == haystack@.len(),
                i <= haystack_len,
                spans(res@) + scan_from(needle@, haystack@, i as int) == leftmost_matches(
                    needle@,
                    haystack@,
                ),
            ensures
                spans(res@) == leftmost_matches(needle@, haystack@),
            decreases haystack_len - i,
        {
            let ghost before = spans(res@);
            let ghost at = i as int;
            if needle[0] == haystack[i] {
                if needle_len > haystack_len - i {
                    // no room is left for a match
                    break;
                }
                if window_equals(needle, haystack, i) {
                    res.push(Match { start: i, end: i + needle_len });
                    i = i + needle_len - 1;
                }
            } else {
                assert(!occurs_at(needle@, haystack@, i as int)) by {
                    lemma_occurs_at_bytewise(needle@, haystack@, i as int);
                    assert(needle@[0] != haystack@[i + 0]);
                }
            }
            i += 1;
            assert(before + scan_from(needle@, haystack@, at) == spans(res@) + scan_from(
                needle@,
                haystack@,
                i as int,
            ));
        }
        proof {
            lemma_scan_from_sound(needle@, haystack@, 0);
        }
        res
    }

    /// Tells whether `needle` occurs anywhere in `haystack`, which is to say
    /// whether `matches` would find anything. An empty needle occurs nowhere.
    pub fn contains(needle: &[u8], haystack: &[u8]) -> (found: bool)
        ensures
            found == exists|at: int| occurs_at(needle@, haystack@, at),
            found == (leftmost_matches(needle@, haystack@).len() > 0),
    {
        let mut i: usize = 0;
        let needle_len = needle.len();
        let haystack_len = haystack.len();

        while needle_len > 0 && i < haystack_len
            invariant
                needle_len == needle@.len(),
                haystack_len == haystack@.len(),
                i <= haystack_len,
                forall|p: int| 0 <= p < i ==> !occurs_at(needle@, haystack@, p),
            decreases haystack_len - i,
        {
            if needle[0] == haystack[i] {
                // a window that runs past the end is skipped by the comparison
                if window_equals(needle, haystack, i) {
                    proof {
                        lemma_matches_iff_occurs(needle@, haystack@);
                    }
                    return true;
                }
            } else {
                assert(!occurs_at(needle@, haystack@, i as int)) by {
                    lemma_occurs_at_bytewise(needle@, haystack@, i as int);
                    assert(needle@[0] != haystack@[i + 0]);
                }
            }
            i += 1;
        }
        proof {
            lemma_matches_iff_occurs(needle@, haystack@);
        }
        false
    }
}

} // verus!
