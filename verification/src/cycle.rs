//! Specification of the tag-cycling algorithms.
//!
//! A selection is cycled either by a plain circular rotation of its low
//! `n` bits, or — when unoccupied tags are skipped and more than one tag is
//! occupied — by moving each set bit independently to the nearest occupied
//! tag in the requested direction.

use vstd::prelude::*;

use crate::bits::low_mask;
use crate::bits::lemma_or_single_bit;
use crate::bits::lemma_zero_bit;
use crate::bits::mask_bit;

verus! {

/// One plain rotation step towards higher indices: the bit at `n - 1` wraps
/// to position 0, every other bit moves up by one. Bits at or above `n` are
/// carried through the shift unchecked, so callers keep the mask below
/// `1 << n`.
pub open spec fn plain_next(tags: u32, n: u8) -> u32 {
    let last = 1u32 << ((n - 1) as u32);
    if tags & last != 0u32 {
        ((tags ^ last) << 1u32) | 1u32
    } else {
        tags << 1u32
    }
}

/// One plain rotation step towards lower indices: the bit at position 0
/// wraps to `n - 1`, every other bit moves down by one.
pub open spec fn plain_previous(tags: u32, n: u8) -> u32 {
    let last = 1u32 << ((n - 1) as u32);
    if tags & 1u32 != 0u32 {
        ((tags ^ 1u32) >> 1u32) | last
    } else {
        tags >> 1u32
    }
}

/// Whether `x` lies on the requested side of `t`: strictly above for the
/// next direction, strictly below for the previous one.
pub open spec fn is_candidate(next: bool, x: u8, t: u8) -> bool {
    if next {
        x > t
    } else {
        x < t
    }
}

/// The occupied index nearest to `t` in the requested direction: the least
/// entry of `occ` above `t` for next, the greatest entry below `t` for
/// previous; `None` when no entry qualifies.
pub open spec fn find_occupied(occ: Seq<u8>, next: bool, t: u8) -> Option<u8>
    decreases occ.len(),
{
    if occ.len() == 0 {
        None
    } else {
        let rest = find_occupied(occ.drop_last(), next, t);
        let x = occ.last();
        if is_candidate(next, x, t) {
            match rest {
                None => Some(x),
                Some(y) => if next {
                    Some(if x < y {
                        x
                    } else {
                        y
                    })
                } else {
                    Some(if x > y {
                        x
                    } else {
                        y
                    })
                },
            }
        } else {
            rest
        }
    }
}

/// `find_occupied` returns the nearest qualifying entry of `occ`, and `None`
/// exactly when no entry qualifies.
pub proof fn lemma_find_occupied(occ: Seq<u8>, next: bool, t: u8)
    ensures
        match find_occupied(occ, next, t) {
            Some(j) => occ.contains(j) && is_candidate(next, j, t) && forall|k: int|
                0 <= k < occ.len() && is_candidate(next, #[trigger] occ[k], t) ==> if next {
                    j <= occ[k]
                } else {
                    j >= occ[k]
                },
            None => forall|k: int| 0 <= k < occ.len() ==> !is_candidate(next, #[trigger] occ[k], t),
        },
    decreases occ.len(),
{
    if occ.len() > 0 {
        lemma_find_occupied(occ.drop_last(), next, t);
        let prefix = occ.drop_last();
        let rest = find_occupied(prefix, next, t);
        let x = occ.last();
        assert(x == occ[occ.len() - 1]);
        assert(forall|k: int| 0 <= k < prefix.len() ==> #[trigger] prefix[k] == occ[k]);
        if rest is Some {
            let y = rest->0;
            assert(prefix.contains(y));
            let ky = choose|k: int| 0 <= k < prefix.len() && prefix[k] == y;
            assert(occ[ky] == y);
            assert(occ.contains(y));
        }
        match find_occupied(occ, next, t) {
            Some(j) => {
                assert(occ.contains(j) && is_candidate(next, j, t));
                assert forall|k: int|
                    0 <= k < occ.len() && is_candidate(next, #[trigger] occ[k], t) implies if next {
                    j <= occ[k]
                } else {
                    j >= occ[k]
                } by {
                    if k < occ.len() - 1 {
                        assert(prefix[k] == occ[k]);
                        assert(rest is Some);
                    }
                }
            },
            None => {
                assert forall|k: int| 0 <= k < occ.len() implies !is_candidate(
                    next,
                    #[trigger] occ[k],
                    t,
                ) by {
                    if k < occ.len() - 1 {
                        assert(prefix[k] == occ[k]);
                    }
                }
            },
        }
    }
}

/// The index a cursor falls back to when nothing qualifies in its
/// direction: the first tag for next, the last for previous.
pub open spec fn wrap_target(next: bool, n: u8) -> u8 {
    if next {
        0u8
    } else {
        (n - 1) as u8
    }
}

/// Where the cursor at `t` lands: the nearest occupied index in the
/// requested direction, or the wrap target when none exists; when the wrap
/// target itself is unoccupied, one further search is made from it. That
/// second search is not repeated.
pub open spec fn destination(occ: Seq<u8>, next: bool, n: u8, t: u8) -> u8 {
    let wrap = wrap_target(next, n);
    let first = match find_occupied(occ, next, t) {
        Some(j) => j,
        None => wrap,
    };
    if first == wrap && !occ.contains(wrap) {
        match find_occupied(occ, next, first) {
            Some(j) => j,
            None => wrap,
        }
    } else {
        first
    }
}

/// With at least two occupied tags, listed in strictly ascending order and
/// all below `n`, every cursor destination is itself occupied: the wrap
/// target is only ever kept when it is occupied, and the one extra search
/// made from an unoccupied wrap target cannot come up empty.
pub proof fn lemma_destination_occupied(occ: Seq<u8>, next: bool, n: u8, t: u8)
    requires
        1 <= n <= 32,
        occ.len() >= 2,
        forall|k: int| 0 <= k < occ.len() ==> (#[trigger] occ[k]) < n,
        forall|k1: int, k2: int| 0 <= k1 < k2 < occ.len() ==> occ[k1] < occ[k2],
    ensures
        occ.contains(destination(occ, next, n, t)),
{
    let wrap = wrap_target(next, n);
    lemma_find_occupied(occ, next, t);
    if find_occupied(occ, next, t) is None && !occ.contains(wrap) {
        lemma_find_occupied(occ, next, wrap);
        if find_occupied(occ, next, wrap) is None {
            assert(!is_candidate(next, occ[0], wrap));
            assert(!is_candidate(next, occ[1], wrap));
            assert(occ[0] < occ[1]);
            if next {
                assert(occ[0] == 0 && occ[1] == 0);
            } else {
                assert(occ[0] == n - 1 && occ[1] == n - 1);
            }
        }
    }
}

/// Whether tag `t` is one of the cursors: an active tag that is set in the
/// current selection.
pub open spec fn selected(tags: u32, n: u8, t: u8) -> bool {
    t < n && mask_bit(tags, t)
}

/// Whether some cursor of the current selection lands on `j`.
pub open spec fn is_destination(tags: u32, occ: Seq<u8>, next: bool, n: u8, j: u8) -> bool {
    exists|t: u8| selected(tags, n, t) && (#[trigger] destination(occ, next, n, t)) == j
}

/// Bit `j` of the occupancy-aware result: set where some cursor lands,
/// cleared where a cursor stood and none lands, untouched elsewhere.
pub open spec fn occupancy_cycle_bit(tags: u32, occ: Seq<u8>, next: bool, n: u8, j: u8) -> bool {
    if is_destination(tags, occ, next, n, j) {
        true
    } else if selected(tags, n, j) {
        false
    } else {
        mask_bit(tags, j)
    }
}

/// The mask whose bits `0 .. k` are given by `f` and whose higher bits are
/// clear.
pub open spec fn mask_from_bits(f: spec_fn(u8) -> bool, k: nat) -> u32
    decreases k,
{
    if k == 0 {
        0u32
    } else {
        let rest = mask_from_bits(f, (k - 1) as nat);
        if f((k - 1) as u8) {
            rest | (1u32 << ((k - 1) as u32))
        } else {
            rest
        }
    }
}

/// Each bit of `mask_from_bits(f, k)` is `f` below `k` and clear above.
pub proof fn lemma_mask_from_bits(f: spec_fn(u8) -> bool, k: nat)
    requires
        k <= 32,
    ensures
        forall|j: u8| j < 32 ==> #[trigger] mask_bit(mask_from_bits(f, k), j) == (j < k && f(j)),
    decreases k,
{
    if k == 0 {
        assert forall|j: u8| j < 32 implies #[trigger] mask_bit(mask_from_bits(f, k), j) == (j < k
            && f(j)) by {
            lemma_zero_bit(j);
        }
    } else {
        lemma_mask_from_bits(f, (k - 1) as nat);
        let rest = mask_from_bits(f, (k - 1) as nat);
        let d = (k - 1) as u8;
        assert forall|j: u8| j < 32 implies #[trigger] mask_bit(mask_from_bits(f, k), j) == (j < k
            && f(j)) by {
            if f(d) {
                lemma_or_single_bit(rest, d, j);
                assert((d as u32) == ((k - 1) as u32));
            }
        }
    }
}

/// The occupancy-aware result as a mask: every cursor moved to its
/// destination, abandoned cursor positions cleared, inactive bits kept.
pub open spec fn occupancy_cycle(tags: u32, occ: Seq<u8>, next: bool, n: u8) -> u32 {
    mask_from_bits(|j: u8| occupancy_cycle_bit(tags, occ, next, n, j), 32)
}

/// Each bit of the occupancy-aware result equals `occupancy_cycle_bit`.
pub proof fn lemma_occupancy_cycle_bits(tags: u32, occ: Seq<u8>, next: bool, n: u8)
    ensures
        forall|j: u8| j < 32 ==> #[trigger] mask_bit(occupancy_cycle(tags, occ, next, n), j)
            == occupancy_cycle_bit(tags, occ, next, n, j),
{
    lemma_mask_from_bits(|j: u8| occupancy_cycle_bit(tags, occ, next, n, j), 32);
}

/// The full cycling step over a decoded occupancy list: occupancy-aware
/// when unoccupied tags are skipped and more than one tag is occupied,
/// plain rotation otherwise; an unrecognized direction yields the empty
/// selection.
pub open spec fn spec_cycle(tags: u32, direction: Seq<char>, n: u8, occ: Seq<u8>, skip: bool) -> u32 {
    if direction == "next"@ || direction == "previous"@ {
        let next = direction == "next"@;
        if skip && occ.len() > 1 {
            occupancy_cycle(tags, occ, next, n)
        } else if next {
            plain_next(tags, n)
        } else {
            plain_previous(tags, n)
        }
    } else {
        0u32
    }
}

/// Plain rotation towards higher indices is a circular left rotation of the
/// low `n` bits: bit `i` moves to position `(i + 1) % n`.
pub proof fn lemma_plain_next_rotates(m: u32, n: u8, i: u8)
    by (bit_vector)
    requires
        1 <= n <= 32,
        m & low_mask(n) == m,
        i < n,
    ensures
        mask_bit(plain_next(m, n), ((i + 1) % (n as int)) as u8) == mask_bit(m, i),
{
}

/// Plain rotation towards lower indices is a circular right rotation of the
/// low `n` bits: bit `(i + 1) % n` moves to position `i`.
pub proof fn lemma_plain_previous_rotates(m: u32, n: u8, i: u8)
    by (bit_vector)
    requires
        1 <= n <= 32,
        m & low_mask(n) == m,
        i < n,
    ensures
        mask_bit(plain_previous(m, n), i) == mask_bit(m, ((i + 1) % (n as int)) as u8),
{
}

/// A plain rotation towards higher indices followed by one towards lower
/// indices restores the selection, for any mask whose bits lie below `n`.
pub proof fn lemma_plain_round_trip(m: u32, n: u8)
    by (bit_vector)
    requires
        1 <= n <= 32,
        m & low_mask(n) == m,
    ensures
        plain_previous(plain_next(m, n), n) == m,
{
}

/// Law: cycling next and then previous in plain mode is the identity on any
/// selection whose bits lie below the tag count.
pub proof fn lemma_cycle_round_trip(m: u32, n: u8, occ: Seq<u8>)
    requires
        1 <= n <= 32,
        m & low_mask(n) == m,
    ensures
        spec_cycle(spec_cycle(m, "next"@, n, occ, false), "previous"@, n, occ, false) == m,
{
    reveal_strlit("next");
    reveal_strlit("previous");
    assert("next"@.len() == 4);
    assert("previous"@.len() == 8);
    assert("next"@ != "previous"@);
    lemma_plain_round_trip(m, n);
}

/// Law: an empty selection stays empty under plain rotation in either
/// direction.
pub proof fn lemma_cycle_empty_selection(n: u8)
    by (bit_vector)
    requires
        1 <= n <= 32,
    ensures
        plain_next(0u32, n) == 0u32,
        plain_previous(0u32, n) == 0u32,
{
}

/// Law: with at most one occupied tag, skipping unoccupied tags falls back
/// to plain rotation.
pub proof fn lemma_skip_single_occupied(tags: u32, direction: Seq<char>, n: u8, occ: Seq<u8>)
    requires
        occ.len() <= 1,
    ensures
        spec_cycle(tags, direction, n, occ, true) == spec_cycle(tags, direction, n, occ, false),
{
}

} // verus!
