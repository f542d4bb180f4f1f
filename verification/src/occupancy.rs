//! Specification of the occupancy wire encoding.
//!
//! Occupancy arrives as a byte sequence read as a little-endian bit stream:
//! bit `i` of the stream is bit `i % 8` of byte `i / 8`, and a set bit means
//! that tag `i` currently contains a window.

use vstd::prelude::*;

verus! {

/// Bit `i` of the little-endian bit stream carried by `bytes`; bits past
/// the end of the sequence read as clear.
pub open spec fn stream_bit(bytes: Seq<u8>, i: nat) -> bool {
    i / 8 < bytes.len() && (bytes[(i / 8) as int] >> ((i % 8) as u8)) & 1u8 == 1u8
}

/// The ascending list of occupied tag indices below `n`: every stream bit
/// set among positions `0 .. n`, in order.
pub open spec fn occupied_below(bytes: Seq<u8>, n: nat) -> Seq<u8>
    decreases n,
{
    if n == 0 {
        Seq::empty()
    } else {
        let prefix = occupied_below(bytes, (n - 1) as nat);
        if stream_bit(bytes, (n - 1) as nat) {
            prefix.push((n - 1) as u8)
        } else {
            prefix
        }
    }
}

/// `occupied_below` holds exactly the occupied indices below `n`, each less
/// than `n`, in strictly ascending order.
pub proof fn lemma_occupied_below(bytes: Seq<u8>, n: nat)
    requires
        n <= 32,
    ensures
        forall|t: u8|
            #[trigger] occupied_below(bytes, n).contains(t) <==> ((t as nat) < n && stream_bit(
                bytes,
                t as nat,
            )),
        forall|k: int|
            0 <= k < occupied_below(bytes, n).len() ==> (#[trigger] occupied_below(bytes, n)[k] as nat)
                < n,
        forall|k1: int, k2: int|
            0 <= k1 < k2 < occupied_below(bytes, n).len() ==> occupied_below(bytes, n)[k1]
                < occupied_below(bytes, n)[k2],
    decreases n,
{
    if n > 0 {
        lemma_occupied_below(bytes, (n - 1) as nat);
        let prefix = occupied_below(bytes, (n - 1) as nat);
        let whole = occupied_below(bytes, n);
        if stream_bit(bytes, (n - 1) as nat) {
            assert(whole == prefix.push((n - 1) as u8));
            assert forall|t: u8| #[trigger] whole.contains(t) <==> ((t as nat) < n && stream_bit(
                bytes,
                t as nat,
            )) by {
                if whole.contains(t) {
                    let k = choose|k: int| 0 <= k < whole.len() && whole[k] == t;
                    if k < prefix.len() {
                        assert(prefix[k] == t);
                        assert(prefix.contains(t));
                    } else {
                        assert(t == (n - 1) as u8);
                    }
                }
                if (t as nat) < n && stream_bit(bytes, t as nat) {
                    if (t as nat) < n - 1 {
                        assert(prefix.contains(t));
                        let k = choose|k: int| 0 <= k < prefix.len() && prefix[k] == t;
                        assert(whole[k] == t);
                    } else {
                        assert(whole[whole.len() - 1] == t);
                    }
                }
            }
        } else {
            assert(whole == prefix);
            assert forall|t: u8| #[trigger] whole.contains(t) <==> ((t as nat) < n && stream_bit(
                bytes,
                t as nat,
            )) by {
                if (t as nat) < n && stream_bit(bytes, t as nat) {
                    assert((t as nat) != n - 1);
                }
            }
        }
    }
}

} // verus!
