//! The two shift distances of the accelerated scanner, and why a window may
//! move by them without passing over an occurrence.

use vstd::prelude::*;

use crate::occurrence::{lemma_occurs_at_bytewise, occurs_at};

verus! {

/// The last position of `byte` in `s`, or -1 where `s` does not hold it.
pub open spec fn last_index_of(s: Seq<u8>, byte: u8) -> int
    decreases s.len(),
{
    if s.len() == 0 {
        -1
    } else if s.last() == byte {
        s.len() - 1
    } else {
        last_index_of(s.drop_last(), byte)
    }
}

/// The bad-character shift for `byte`: the distance from the last position of
/// `byte` in the needle to the needle's last position. It is 0 for the
/// needle's own last byte, and the needle's length for a byte that the needle
/// does not hold.
pub open spec fn bad_character_shift(needle: Seq<u8>, byte: u8) -> int {
    needle.len() - 1 - last_index_of(needle, byte)
}

/// The second shift: the distance from the last earlier position of the
/// needle's last byte to the needle's last position, or the needle's length
/// where that byte stands nowhere else. For an empty needle it is 1.
pub open spec fn md2_shift(needle: Seq<u8>) -> int {
    if needle.len() == 0 {
        1
    } else {
        needle.len() - 1 - last_index_of(needle.drop_last(), needle.last())
    }
}

/// `last_index_of` is -1 or a position that holds the byte, and no later
/// position holds it.
pub proof fn lemma_last_index_of(s: Seq<u8>, byte: u8)
    ensures
        -1 <= last_index_of(s, byte) < s.len(),
        0 <= last_index_of(s, byte) ==> s[last_index_of(s, byte)] == byte,
        forall|j: int| last_index_of(s, byte) < j < s.len() ==> s[j] != byte,
    decreases s.len(),
{
    if s.len() > 0 && s.last() != byte {
        let front = s.drop_last();
        lemma_last_index_of(front, byte);
        assert forall|j: int| last_index_of(s, byte) < j < s.len() implies s[j] != byte by {
            if j < front.len() {
                assert(front[j] != byte);
            }
        }
    }
}

/// A position that holds the byte, with no later one that does, is
/// `last_index_of`; so is -1 where no position holds it.
pub proof fn lemma_last_index_of_is(s: Seq<u8>, byte: u8, at: int)
    requires
        -1 <= at < s.len(),
        0 <= at ==> s[at] == byte,
        forall|j: int| at < j < s.len() ==> s[j] != byte,
    ensures
        last_index_of(s, byte) == at,
{
    lemma_last_index_of(s, byte);
}

/// Both shifts stay within the needle's length, and the second is never 0.
pub proof fn lemma_shift_bounds(needle: Seq<u8>, byte: u8)
    ensures
        0 <= bad_character_shift(needle, byte) <= needle.len(),
        needle.len() > 0 ==> (bad_character_shift(needle, byte) == 0 <==> needle.last() == byte),
        bad_character_shift(needle, byte) == needle.len() <==> !needle.contains(byte),
        1 <= md2_shift(needle),
        needle.len() > 0 ==> md2_shift(needle) <= needle.len(),
{
    lemma_last_index_of(needle, byte);
    if needle.len() > 0 {
        lemma_last_index_of(needle.drop_last(), needle.last());
    }
    if needle.contains(byte) {
        let j = choose|j: int| 0 <= j < needle.len() && needle[j] == byte;
        assert(needle[j] == byte);
    }
}

/// A window whose last byte has the bad-character shift `k` may move by `k`:
/// none of the `k` positions from its start on holds an occurrence.
pub proof fn lemma_bad_character_skip(needle: Seq<u8>, haystack: Seq<u8>, at: int)
    requires
        0 < needle.len(),
        0 <= at,
        at + needle.len() <= haystack.len(),
    ensures
        forall|p: int|
            at <= p < at + bad_character_shift(needle, haystack[at + needle.len() - 1])
                ==> !occurs_at(needle, haystack, p),
{
    let byte = haystack[at + needle.len() - 1];
    lemma_last_index_of(needle, byte);
    assert forall|p: int| at <= p < at + bad_character_shift(needle, byte) implies !occurs_at(
        needle,
        haystack,
        p,
    ) by {
        if occurs_at(needle, haystack, p) {
            // the window's last byte would stand in the needle after its last position
            lemma_occurs_at_bytewise(needle, haystack, p);
            assert(needle[at + needle.len() - 1 - p] == byte);
        }
    }
}

/// A window that ends in the needle's last byte and holds no occurrence may
/// move by the second shift: none of the positions passed over holds one.
pub proof fn lemma_md2_skip(needle: Seq<u8>, haystack: Seq<u8>, at: int)
    requires
        0 < needle.len(),
        0 <= at,
        at + needle.len() <= haystack.len(),
        haystack[at + needle.len() - 1] == needle.last(),
        !occurs_at(needle, haystack, at),
    ensures
        forall|p: int| at <= p < at + md2_shift(needle) ==> !occurs_at(needle, haystack, p),
{
    let byte = needle.last();
    lemma_last_index_of(needle.drop_last(), byte);
    assert forall|p: int| at <= p < at + md2_shift(needle) implies !occurs_at(
        needle,
        haystack,
        p,
    ) by {
        if at < p && occurs_at(needle, haystack, p) {
            // the needle's last byte would stand again between its last two positions
            lemma_occurs_at_bytewise(needle, haystack, p);
            let j = at + needle.len() - 1 - p;
            assert(needle[j] == byte);
            assert(needle.drop_last()[j] == byte);
        }
    }
}

} // verus!
