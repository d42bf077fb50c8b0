//! The Horspool scanner with the second, repetition-aware shift.

use vstd::prelude::*;

use crate::equality::window_equals;
use crate::laws::{
    covers_occurrences, each_is_occurrence, lemma_scan_from_sound, lemma_scan_skips,
    non_overlapping,
};
use crate::occurrence::{leftmost_matches, scan_from, spans, Match};
use crate::shifts::{
    bad_character_shift, last_index_of, lemma_bad_character_skip, lemma_last_index_of_is,
    lemma_md2_skip, lemma_shift_bounds, md2_shift,
};

verus! {

/// The number of byte values, and so of entries in a bad-character table.
pub const CHAR_COUNT: usize = 256;

/// Builds the bad-character table of the first `len` bytes of `needle`: one
/// shift for each byte value.
pub fn bad_character_table(needle: &[u8], len: usize) -> (table: Vec<usize>)
    requires
        len <= needle@.len(),
    ensures
        table@.len() == CHAR_COUNT,
        forall|byte: u8| #[trigger]
            table@[byte as int] == bad_character_shift(needle@.take(len as int), byte),
{
    let mut res: Vec<usize> = vec![len; CHAR_COUNT];
    for i in 0..len
        invariant
            len <= needle@.len(),
            res@.len() == CHAR_COUNT,
            forall|byte: u8| #[trigger]
                res@[byte as int] == len - 1 - last_index_of(needle@.take(i as int), byte),
    {
        let ghost seen = needle@.take(i as int);
        let ghost grown = needle@.take(i + 1);
        res[needle[i] as usize] = len - i - 1;
        assert(grown.drop_last() == seen);
    }
    res
}

/// Computes the second shift of the first `len` bytes of `needle`.
pub fn get_md2(needle: &[u8], len: usize) -> (shift: usize)
    requires
        len <= needle@.len(),
    ensures
        shift == md2_shift(needle@.take(len as int)),
        1 <= shift,
        len > 0 ==> shift <= len,
{
    if len == 0 {
        return 1;
    }
    let x: usize = len - 1;
    // the positions below `y` are those still to be tried
    let mut y: usize = x;
    while y > 0
        invariant
            x == len - 1,
            len <= needle@.len(),
            y <= x,
            forall|j: int| y <= j < x ==> needle@[j] != needle@[x as int],
        ensures
            y <= x,
            y > 0 ==> needle@[y - 1] == needle@[x as int],
            forall|j: int| y <= j < x ==> needle@[j] != needle@[x as int],
        decreases y,
    {
        if needle[y - 1] == needle[x] {
            break;
        }
        y -= 1;
    }
    proof {
        let prefix = needle@.take(len as int);
        lemma_last_index_of_is(prefix.drop_last(), prefix.last(), y - 1);
    }
    x - y + 1
}

/// The accelerated scanner: it looks at the last byte of each window and
/// moves the window by the bad-character shift of that byte, or, after a
/// failed comparison, by the second shift.
pub struct TBMMatcher;

impl TBMMatcher {
    /// Finds the leftmost non-overlapping occurrences of `needle` in
    /// `haystack`, in ascending order. An empty needle, or a haystack shorter
    /// than the needle, gives an empty list.
    pub fn matches(needle: &[u8], haystack: &[u8]) -> (res: Vec<Match>)
        ensures
            spans(res@) == leftmost_matches(needle@, haystack@),
            each_is_occurrence(needle@, haystack@, spans(res@)),
            non_overlapping(spans(res@)),
            covers_occurrences(needle@, haystack@, spans(res@)),
            needle@.len() == 0 || haystack@.len() < needle@.len() ==> res@.len() == 0,
    {
        let needle_len = needle.len();
        let haystack_len = haystack.len();

        let mut matches: Vec<Match> = Vec::new();
        proof {
            lemma_scan_from_sound(needle@, haystack@, 0);
        }
        if needle_len == 0 || haystack_len < needle_len {
            return matches;
        }
        assert(needle@.take(needle_len as int) == needle@);

        let r: Vec<usize> = bad_character_table(needle, needle_len);
        let shift = get_md2(needle, needle_len);
        // the last position at which a window still fits
        let last = haystack_len - needle_len;
        let mut i: usize = 0;

        while i <= last
            invariant
                0 < needle_len == needle@.len(),
                haystack_len == haystack@.len(),
                last == haystack_len - needle_len,
                i <= haystack_len,
                r@.len() == CHAR_COUNT,
                forall|byte: u8| #[trigger] r@[byte as int] == bad_character_shift(needle@, byte),
                shift == md2_shift(needle@),
                spans(matches@) + scan_from(needle@, haystack@, i as int) == leftmost_matches(
                    needle@,
                    haystack@,
                ),
            ensures
                spans(matches@) == leftmost_matches(needle@, haystack@),
            decreases haystack_len - i,
        {
            let ghost entry = i;
            let mut k = r[haystack[i + needle_len - 1] as usize];

            while k != 0 && k <= last - i
                invariant
                    entry <= i,
                    0 < needle_len == needle@.len(),
                    haystack_len == haystack@.len(),
                    last == haystack_len - needle_len,
                    i <= last,
                    r@.len() == CHAR_COUNT,
                    forall|byte: u8| #[trigger]
                        r@[byte as int] == bad_character_shift(needle@, byte),
                    k == bad_character_shift(needle@, haystack@[i + needle_len - 1]),
                    spans(matches@) + scan_from(needle@, haystack@, i as int) == leftmost_matches(
                        needle@,
                        haystack@,
                    ),
                decreases last - i,
            {
                proof {
                    lemma_bad_character_skip(needle@, haystack@, i as int);
                    lemma_scan_skips(needle@, haystack@, i as int, i + k);
                }
                i += k;
                k = r[haystack[i + needle_len - 1] as usize];
            }

            if k != 0 {
                // the shifted window would run past the end
                proof {
                    lemma_bad_character_skip(needle@, haystack@, i as int);
                    lemma_scan_skips(needle@, haystack@, i as int, i + k);
                }
                break;
            }
            let ghost before = spans(matches@);
            let ghost at = i as int;
            proof {
                lemma_shift_bounds(needle@, haystack@[i + needle_len - 1]);
            }
            if window_equals(needle, haystack, i) {
                matches.push(Match { start: i, end: i + needle_len });
                i += needle_len;
            } else {
                proof {
                    lemma_md2_skip(needle@, haystack@, i as int);
                    lemma_scan_skips(needle@, haystack@, i as int, i + shift);
                }
                i += shift;
            }
            assert(before + scan_from(needle@, haystack@, at) == spans(matches@) + scan_from(
                needle@,
                haystack@,
                i as int,
            ));
        }

        matches
    }
}

} // verus!
