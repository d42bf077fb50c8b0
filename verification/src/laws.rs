//! What holds of every scan result, and why a scan result is unique.

use vstd::prelude::*;

use crate::occurrence::{leftmost_matches, occurs_at, scan_from, spans, Match, Span};

verus! {

/// Every listed range is a window that the needle fills.
pub open spec fn each_is_occurrence(needle: Seq<u8>, haystack: Seq<u8>, found: Seq<Span>) -> bool {
    forall|k: int|
        0 <= k < found.len() ==> {
            &&& occurs_at(needle, haystack, (#[trigger] found[k]).start)
            &&& found[k].end == found[k].start + needle.len()
        }
}

/// Each listed range begins at or after the end of every range listed before
/// it, and so of the one just before it.
pub open spec fn non_overlapping(found: Seq<Span>) -> bool {
    forall|j: int, k: int|
        0 <= j < k < found.len() ==> (#[trigger] found[j]).end <= (#[trigger] found[k]).start
}

/// The position `p` lies inside a listed range.
pub open spec fn covered(found: Seq<Span>, p: int) -> bool {
    exists|k: int| 0 <= k < found.len() && (#[trigger] found[k]).start <= p < found[k].end
}

/// Every occurrence that starts at or after `from` starts inside a listed
/// range: it is listed itself, or it overlaps a listed one that starts
/// before it.
pub open spec fn covers_occurrences_from(
    needle: Seq<u8>,
    haystack: Seq<u8>,
    found: Seq<Span>,
    from: int,
) -> bool {
    forall|p: int| from <= p && occurs_at(needle, haystack, p) ==> #[trigger] covered(found, p)
}

/// Every occurrence in the haystack starts inside a listed range.
pub open spec fn covers_occurrences(needle: Seq<u8>, haystack: Seq<u8>, found: Seq<Span>) -> bool {
    covers_occurrences_from(needle, haystack, found, 0)
}

/// Every listed range starts at or after `from`.
pub open spec fn starts_at_or_after(found: Seq<Span>, from: int) -> bool {
    forall|k: int| 0 <= k < found.len() ==> from <= (#[trigger] found[k]).start
}

/// A scan may jump over a stretch that holds no occurrence: the matches from
/// `from` on are those from `to` on.
pub proof fn lemma_scan_skips(needle: Seq<u8>, haystack: Seq<u8>, from: int, to: int)
    requires
        0 <= from <= to,
        forall|p: int| from <= p < to ==> !occurs_at(needle, haystack, p),
    ensures
        scan_from(needle, haystack, from) == scan_from(needle, haystack, to),
    decreases to - from,
{
    if from < to {
        lemma_scan_skips(needle, haystack, from + 1, to);
    }
}

/// The matches of a scan from `from` are occurrences that start at or after
/// `from`, do not overlap, and cover every occurrence from `from` on.
pub proof fn lemma_scan_from_sound(needle: Seq<u8>, haystack: Seq<u8>, from: int)
    requires
        0 <= from,
    ensures
        each_is_occurrence(needle, haystack, scan_from(needle, haystack, from)),
        starts_at_or_after(scan_from(needle, haystack, from), from),
        non_overlapping(scan_from(needle, haystack, from)),
        covers_occurrences_from(needle, haystack, scan_from(needle, haystack, from), from),
    decreases haystack.len() - from,
{
    let found = scan_from(needle, haystack, from);
    if needle.len() == 0 || from + needle.len() > haystack.len() {
    } else if occurs_at(needle, haystack, from) {
        let next = from + needle.len();
        let rest = scan_from(needle, haystack, next);
        lemma_scan_from_sound(needle, haystack, next);
        assert(found[0] == Span { start: from, end: next });
        assert forall|k: int| 0 < k < found.len() implies #[trigger] found[k] == rest[k - 1] by {}
        assert forall|p: int| from <= p && occurs_at(needle, haystack, p) implies #[trigger] covered(
            found,
            p,
        ) by {
            if next <= p {
                assert(covered(rest, p));
                let k = choose|k: int|
                    0 <= k < rest.len() && (#[trigger] rest[k]).start <= p < rest[k].end;
                assert(found[k + 1] == rest[k]);
            }
        }
    } else {
        lemma_scan_from_sound(needle, haystack, from + 1);
    }
}

/// Only one list is made of occurrences that start at or after `from`, do
/// not overlap, and cover every occurrence from `from` on: the matches of
/// the scan from `from`.
pub proof fn lemma_scan_from_unique(
    needle: Seq<u8>,
    haystack: Seq<u8>,
    found: Seq<Span>,
    from: int,
)
    requires
        0 <= from,
        each_is_occurrence(needle, haystack, found),
        starts_at_or_after(found, from),
        non_overlapping(found),
        covers_occurrences_from(needle, haystack, found, from),
    ensures
        found == scan_from(needle, haystack, from),
    decreases haystack.len() - from,
{
    if needle.len() == 0 || from + needle.len() > haystack.len() {
        if found.len() > 0 {
            assert(occurs_at(needle, haystack, found[0].start));
        }
    } else if occurs_at(needle, haystack, from) {
        let next = from + needle.len();
        assert(covered(found, from));
        let k = choose|k: int|
            0 <= k < found.len() && (#[trigger] found[k]).start <= from < found[k].end;
        assert(k == 0) by {
            assert(occurs_at(needle, haystack, found[0].start));
        }
        let rest = found.subrange(1, found.len() as int);
        assert forall|p: int| next <= p && occurs_at(needle, haystack, p) implies #[trigger] covered(
            rest,
            p,
        ) by {
            assert(covered(found, p));
            let c = choose|c: int|
                0 <= c < found.len() && (#[trigger] found[c]).start <= p < found[c].end;
            assert(rest[c - 1] == found[c]);
        }
        lemma_scan_from_unique(needle, haystack, rest, next);
    } else {
        lemma_scan_from_unique(needle, haystack, found, from + 1);
    }
}

/// The leftmost non-overlapping matches are occurrences, do not overlap, and
/// leave no occurrence uncovered; and they are the only list of which all
/// three hold.
pub proof fn lemma_leftmost_matches_characterized(
    needle: Seq<u8>,
    haystack: Seq<u8>,
    found: Seq<Span>,
)
    ensures
        found == leftmost_matches(needle, haystack) <==> {
            &&& each_is_occurrence(needle, haystack, found)
            &&& non_overlapping(found)
            &&& covers_occurrences(needle, haystack, found)
        },
{
    lemma_scan_from_sound(needle, haystack, 0);
    if each_is_occurrence(needle, haystack, found) && non_overlapping(found) && covers_occurrences(
        needle,
        haystack,
        found,
    ) {
        lemma_scan_from_unique(needle, haystack, found, 0);
    }
}

/// Two lists of matches with the ranges of the leftmost non-overlapping
/// occurrences are the same list. The two scanners both return such a list,
/// so they return identical results on every needle and haystack.
pub proof fn lemma_scanners_agree(
    needle: Seq<u8>,
    haystack: Seq<u8>,
    simple: Seq<Match>,
    turbo: Seq<Match>,
)
    requires
        spans(simple) == leftmost_matches(needle, haystack),
        spans(turbo) == leftmost_matches(needle, haystack),
    ensures
        simple == turbo,
{
    assert(simple.len() == turbo.len()) by {
        assert(spans(simple).len() == simple.len());
        assert(spans(turbo).len() == turbo.len());
    }
    assert forall|k: int| 0 <= k < simple.len() implies simple[k] == turbo[k] by {
        assert(simple[k]@ == spans(simple)[k]);
        assert(turbo[k]@ == spans(turbo)[k]);
    }
}

/// An occurrence that starts exactly where a match ends is the next match.
pub proof fn lemma_adjacent_occurrence_kept(needle: Seq<u8>, haystack: Seq<u8>, k: int)
    requires
        0 <= k < leftmost_matches(needle, haystack).len(),
        occurs_at(needle, haystack, leftmost_matches(needle, haystack)[k].end),
    ensures
        k + 1 < leftmost_matches(needle, haystack).len(),
        leftmost_matches(needle, haystack)[k + 1].start == leftmost_matches(needle, haystack)[k].end,
{
    let found = leftmost_matches(needle, haystack);
    let p = found[k].end;
    lemma_scan_from_sound(needle, haystack, 0);
    assert(covered(found, p));
}

/// The list of leftmost matches is non-empty exactly when the needle occurs
/// somewhere in the haystack.
pub proof fn lemma_matches_iff_occurs(needle: Seq<u8>, haystack: Seq<u8>)
    ensures
        leftmost_matches(needle, haystack).len() > 0 <==> exists|at: int|
            occurs_at(needle, haystack, at),
{
    let found = leftmost_matches(needle, haystack);
    lemma_scan_from_sound(needle, haystack, 0);
    if found.len() > 0 {
        assert(occurs_at(needle, haystack, found[0].start));
    }
    if exists|at: int| occurs_at(needle, haystack, at) {
        let at = choose|at: int| occurs_at(needle, haystack, at);
        assert(covered(found, at));
    }
}

} // verus!
