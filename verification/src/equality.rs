//! Byte-range equality, the one comparison both scanners share.

use memcmp::Memcmp;
use vstd::prelude::*;

use crate::occurrence::occurs_at;

verus! {

/// Calls `memcmp::Memcmp::memcmp` on two byte slices. Trusted: the result is
/// `true` exactly when the slices have the same length and the same bytes.
#[verifier::external_body]
fn bytes_equal(a: &[u8], b: &[u8]) -> (same: bool)
    ensures
        same == (a@ == b@),
{
    a.memcmp(b)
}

/// Tells whether the needle fills the window of the haystack that starts at
/// `at`. An empty needle fills no window, and a window that does not fit
/// inside the haystack holds no occurrence.
pub fn window_equals(needle: &[u8], haystack: &[u8], at: usize) -> (same: bool)
    ensures
        same == occurs_at(needle@, haystack@, at as int),
{
    let needle_len = needle.len();
    let haystack_len = haystack.len();
    if needle_len == 0 || haystack_len < needle_len || at > haystack_len - needle_len {
        return false;
    }
    bytes_equal(needle, &haystack[at..at + needle_len])
}

} // verus!
