//! A verified core for bootstrapping a peer-to-peer file-sharing session:
//! a bencode codec, a torrent descriptor model, digest derivation, tracker
//! peer discovery, and the fixed-length peer handshake.
use vstd::prelude::*;
use vstd::string::StrSliceExecFns;

pub mod codec;
pub mod descriptor;
pub mod digest;
pub mod handshake;
pub mod tracker;

verus! {

/// The nesting scan over the textual form: walking from `i` with open
/// depth `count`, the position where the depth first reaches zero, or 0
/// if it never does.
pub open spec fn spec_find_e(s: Seq<char>, i: int, count: int) -> int
    decreases s.len() - i,
{
    if i < 0 || i >= s.len() {
        0
    } else {
        let next = if s[i] == 'e' {
            count - 1
        } else if s[i] == 'l' || s[i] == 'd' || s[i] == 'i' {
            count + 1
        } else {
            count
        };
        if next == 0 {
            i
        } else {
            spec_find_e(s, i + 1, next)
        }
    }
}

/// Scans for the `e` that closes the value opened at `index`: `l`, `d`
/// and `i` deepen the nesting, `e` closes one level. Returns the closing
/// position, or 0 when the string ends first.
pub fn find_e_for_index(s: &str, index: usize) -> (r: usize)
    requires
        index < usize::MAX,
    ensures
        r as int == spec_find_e(s@, index as int + 1, 1),
{
    let n = s.unicode_len();
    let mut count: u128 = 1;
    let mut i = index + 1;
    if i >= n {
        return 0;
    }
    while i < n
        invariant
            index + 1 <= i <= n,
            n == s@.len(),
            1 <= count,
            count <= i + 1,
            spec_find_e(s@, index as int + 1, 1) == spec_find_e(s@, i as int, count as int),
        decreases n - i,
    {
        let c = s.get_char(i);
        let next: u128 = if c == 'e' {
            count - 1
        } else if c == 'l' || c == 'd' || c == 'i' {
            count + 1
        } else {
            count
        };
        if next == 0 {
            return i;
        }
        count = next;
        i = i + 1;
    }
    0
}

} // verus!
