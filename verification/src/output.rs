//! Per-output state and the tag-cycling engine.
//!
//! An output mirrors the state reported for one monitor: its name, whether
//! it is focused, its urgent and focused tag masks, and the raw occupancy
//! encoding. The cycling engine computes a new tag selection from that
//! state; delivering the state and sending the resulting selection onward
//! are the callers' concern.

use vstd::prelude::*;

use crate::bits::lemma_clear_single_bit;
use crate::bits::lemma_mask_ext;
use crate::bits::lemma_or_single_bit;
use crate::bits::mask_bit;
use crate::cycle::destination;
use crate::cycle::find_occupied;
use crate::cycle::lemma_find_occupied;
use crate::cycle::lemma_occupancy_cycle_bits;
use crate::cycle::occupancy_cycle;
use crate::cycle::occupancy_cycle_bit;
use crate::cycle::is_destination;
use crate::cycle::selected;
use crate::cycle::spec_cycle;
use crate::cycle::wrap_target;
use crate::occupancy::occupied_below;

verus! {

/// String equality over views; `String` comparison carries the
/// specification that plain `&str` comparison lacks.
pub(crate) fn str_eq(a: &str, b: &str) -> (r: bool)
    ensures
        r == (a@ == b@),
{
    let x: String = a.to_owned();
    let y: String = b.to_owned();
    x == y
}

/// Whether the byte `x` occurs in `v`.
pub(crate) fn contains_u8(v: &Vec<u8>, x: u8) -> (r: bool)
    ensures
        r == v@.contains(x),
{
    let mut i: usize = 0;
    while i < v.len()
        invariant
            i <= v.len(),
            forall|k: int| 0 <= k < i ==> v@[k] != x,
        decreases v.len() - i,
    {
        if v[i] == x {
            return true;
        }
        i += 1;
    }
    assert(!v@.contains(x));
    false
}

/// Appending an element extends membership by exactly that element.
proof fn lemma_push_contains(s: Seq<u8>, x: u8, y: u8)
    ensures
        s.push(x).contains(y) <==> (s.contains(y) || y == x),
{
    if s.push(x).contains(y) {
        let k = choose|k: int| 0 <= k < s.push(x).len() && s.push(x)[k] == y;
        if k < s.len() {
            assert(s[k] == y);
        }
    }
    if s.contains(y) {
        let k = choose|k: int| 0 <= k < s.len() && s[k] == y;
        assert(s.push(x)[k] == y);
    }
    if y == x {
        assert(s.push(x)[s.len() as int] == y);
    }
}

/// The mirrored state of one monitor output.
pub struct Output {
    /// The output's advertised name.
    pub name: String,
    /// Whether this output currently holds the focus.
    pub focused: bool,
    /// The mask of urgent tags, once a non-zero one has been reported.
    pub urgent_tags: Option<u32>,
    /// The mask of focused tags, once one has been reported.
    pub focused_tags: Option<u32>,
    /// The raw occupancy encoding: a little-endian bit stream in which a
    /// set bit marks a tag that contains at least one window.
    pub occupied_tags: Vec<u8>,
}

impl Output {
    /// The current selection: the focused tag mask, or the empty selection
    /// while none has been reported.
    pub open spec fn current_tags(&self) -> u32 {
        match self.focused_tags {
            Some(t) => t,
            None => 0u32,
        }
    }

    /// Set up the state for a freshly announced output.
    pub fn new(name: String) -> (r: Self)
        ensures
            r.name == name,
            !r.focused,
            r.urgent_tags is None,
            r.focused_tags is None,
            r.occupied_tags@.len() == 0,
    {
        Self { name, focused: false, urgent_tags: None, focused_tags: None, occupied_tags: Vec::new() }
    }

    /// Decode the occupancy encoding into the ascending list of occupied
    /// tag indices below `n_tags`.
    pub fn find_set_bits_positions(&self, n_tags: u8) -> (r: Vec<u8>)
        ensures
            r@ == occupied_below(self.occupied_tags@, n_tags as nat),
    {
        let mut result: Vec<u8> = Vec::new();
        let mut t: u8 = 0;
        while t < n_tags
            invariant
                t <= n_tags,
                result@ == occupied_below(self.occupied_tags@, t as nat),
            decreases n_tags - t,
        {
            let byte_index: usize = (t / 8) as usize;
            if byte_index < self.occupied_tags.len() {
                let byte = self.occupied_tags[byte_index];
                if (byte >> (t % 8)) & 1 == 1 {
                    result.push(t);
                }
            }
            proof {
                assert((t as nat) / 8 == byte_index as nat);
                assert(((t as nat) % 8) as u8 == t % 8);
            }
            t += 1;
        }
        result
    }

    /// Find the occupied index nearest to `tag_index` in the requested
    /// direction: the least entry above it for next, the greatest below it
    /// for previous.
    fn find_next_occupied(&self, occupied_tags: &Vec<u8>, next: bool, tag_index: u8) -> (r: Option<
        u8,
    >)
        ensures
            r == find_occupied(occupied_tags@, next, tag_index),
    {
        let mut result: Option<u8> = None;
        let mut i: usize = 0;
        while i < occupied_tags.len()
            invariant
                i <= occupied_tags.len(),
                result == find_occupied(occupied_tags@.take(i as int), next, tag_index),
            decreases occupied_tags.len() - i,
        {
            let x = occupied_tags[i];
            let condition = if next {
                x > tag_index
            } else {
                x < tag_index
            };
            if condition {
                result = Some(
                    match result {
                        Some(y) => if next {
                            if x < y {
                                x
                            } else {
                                y
                            }
                        } else {
                            if x > y {
                                x
                            } else {
                                y
                            }
                        },
                        None => x,
                    },
                );
            }
            proof {
                let taken = occupied_tags@.take(i + 1);
                assert(taken.drop_last() =~= occupied_tags@.take(i as int));
                assert(taken.last() == occupied_tags@[i as int]);
            }
            i += 1;
        }
        proof {
            assert(occupied_tags@.take(occupied_tags@.len() as int) =~= occupied_tags@);
        }
        result
    }

    /// Cycle the tag selection one step in the given direction.
    ///
    /// In plain mode — when `skip_unoccupied` is false or at most one tag
    /// is occupied — the low `n_tags` bits rotate circularly by one
    /// position; bits at or above `n_tags` ride through the shifts, so
    /// callers keep the selection below `1 << n_tags`. Otherwise each set
    /// bit moves independently to the nearest occupied tag in the
    /// direction, and formerly set bits on which no cursor lands are
    /// cleared. A direction other than "next" or "previous" yields the
    /// empty selection.
    pub fn cycle_tags(&self, direction: &str, n_tags: &u8, skip_unoccupied: bool) -> (r: u32)
        requires
            1 <= *n_tags <= 32,
        ensures
            r == spec_cycle(
                self.current_tags(),
                direction@,
                *n_tags,
                occupied_below(self.occupied_tags@, *n_tags as nat),
                skip_unoccupied,
            ),
    {
        let n: u8 = *n_tags;
        let tags: u32 = match self.focused_tags {
            Some(t) => t,
            None => 0,
        };
        let occupied = self.find_set_bits_positions(n);
        proof {
            crate::occupancy::lemma_occupied_below(self.occupied_tags@, n as nat);
            reveal_strlit("next");
            reveal_strlit("previous");
            assert("next"@.len() == 4);
            assert("previous"@.len() == 8);
        }
        let is_next = str_eq(direction, "next");
        let is_previous = str_eq(direction, "previous");

        if (is_next || is_previous) && skip_unoccupied && occupied.len() > 1 {
            let next = is_next;
            let ghost occ = occupied@;
            let wrap_around: u8 = if next {
                0
            } else {
                n - 1
            };
            let mut new_tags: u32 = tags;
            let mut old_bits: Vec<u8> = Vec::new();
            let mut new_bits: Vec<u8> = Vec::new();
            let mut t: u8 = 0;
            while t < n
                invariant
                    1 <= n <= 32,
                    t <= n,
                    wrap_around < n,
                    wrap_around == wrap_target(next, n),
                    occ == occupied@,
                    forall|k: int| 0 <= k < occ.len() ==> (#[trigger] occ[k]) < n,
                    old_bits@.len() == new_bits@.len(),
                    forall|k: int|
                        0 <= k < old_bits@.len() ==> selected(tags, n, #[trigger] old_bits@[k]),
                    forall|k: int|
                        0 <= k < new_bits@.len() ==> (#[trigger] new_bits@[k]) == destination(
                            occ,
                            next,
                            n,
                            old_bits@[k],
                        ) && new_bits@[k] < n,
                    forall|u: u8| u < t && selected(tags, n, u) ==> old_bits@.contains(u),
                    forall|j: u8|
                        j < 32 ==> #[trigger] mask_bit(new_tags, j) == (mask_bit(tags, j)
                            || new_bits@.contains(j)),
                decreases n - t,
            {
                if (tags >> (t as u32)) & 1u32 == 1u32 {
                    assert(selected(tags, n, t));
                    let found = self.find_next_occupied(&occupied, next, t);
                    proof {
                        lemma_find_occupied(occ, next, t);
                    }
                    let mut next_occupied: u8 = match found {
                        Some(j) => j,
                        None => wrap_around,
                    };
                    if next_occupied == wrap_around && !contains_u8(&occupied, wrap_around) {
                        let found_again = self.find_next_occupied(&occupied, next, wrap_around);
                        proof {
                            lemma_find_occupied(occ, next, wrap_around);
                        }
                        next_occupied = match found_again {
                            Some(j) => j,
                            None => wrap_around,
                        };
                    }
                    assert(next_occupied < n);
                    assert(next_occupied == destination(occ, next, n, t));
                    let ghost prev_mask = new_tags;
                    let ghost prev_new_bits = new_bits@;
                    let ghost prev_old_bits = old_bits@;
                    new_tags = new_tags | (1u32 << (next_occupied as u32));
                    old_bits.push(t);
                    new_bits.push(next_occupied);
                    proof {
                        assert forall|j: u8|
                            j < 32 implies #[trigger] mask_bit(new_tags, j) == (mask_bit(tags, j)
                            || new_bits@.contains(j)) by {
                            lemma_or_single_bit(prev_mask, next_occupied, j);
                            lemma_push_contains(prev_new_bits, next_occupied, j);
                        }
                        assert forall|u: u8| u < t + 1 && selected(tags, n, u) implies old_bits@
                            .contains(u) by {
                            lemma_push_contains(prev_old_bits, t, u);
                        }
                    }
                }
                t += 1;
            }
            let ghost full_new = new_bits@;
            let ghost full_old = old_bits@;
            let mut i: usize = 0;
            while i < old_bits.len()
                invariant
                    1 <= n <= 32,
                    i <= old_bits@.len(),
                    occ == occupied@,
                    old_bits@ == full_old,
                    new_bits@ == full_new,
                    old_bits@.len() == new_bits@.len(),
                    forall|k: int|
                        0 <= k < old_bits@.len() ==> selected(tags, n, #[trigger] old_bits@[k]),
                    forall|k: int|
                        0 <= k < new_bits@.len() ==> (#[trigger] new_bits@[k]) == destination(
                            occ,
                            next,
                            n,
                            old_bits@[k],
                        ) && new_bits@[k] < n,
                    forall|u: u8| u < n && selected(tags, n, u) ==> old_bits@.contains(u),
                    forall|j: u8|
                        j < 32 ==> #[trigger] mask_bit(new_tags, j) == ((mask_bit(tags, j)
                            || new_bits@.contains(j)) && !((exists|k: int|
                            0 <= k < i && old_bits@[k] == j) && !new_bits@.contains(j))),
                decreases old_bits@.len() - i,
            {
                let b = old_bits[i];
                let ghost prev_mask = new_tags;
                if !contains_u8(&new_bits, b) {
                    new_tags = new_tags & !(1u32 << (b as u32));
                }
                proof {
                    assert forall|j: u8|
                        j < 32 implies #[trigger] mask_bit(new_tags, j) == ((mask_bit(tags, j)
                        || new_bits@.contains(j)) && !((exists|k: int|
                        0 <= k < i + 1 && old_bits@[k] == j) && !new_bits@.contains(j))) by {
                        if !new_bits@.contains(b) {
                            lemma_clear_single_bit(prev_mask, b, j);
                        }
                        if (exists|k: int| 0 <= k < i + 1 && old_bits@[k] == j) && !(exists|k: int|
                            0 <= k < i && old_bits@[k] == j) {
                            assert(old_bits@[i as int] == j);
                        }
                        if exists|k: int| 0 <= k < i && old_bits@[k] == j {
                            let k = choose|k: int| 0 <= k < i && old_bits@[k] == j;
                            assert(0 <= k < i + 1 && old_bits@[k] == j);
                        }
                    }
                }
                i += 1;
            }
            proof {
                assert forall|j: u8|
                    j < 32 implies #[trigger] mask_bit(new_tags, j) == occupancy_cycle_bit(
                    tags,
                    occ,
                    next,
                    n,
                    j,
                ) by {
                    if is_destination(tags, occ, next, n, j) {
                        let u = choose|u: u8|
                            selected(tags, n, u) && (#[trigger] destination(occ, next, n, u)) == j;
                        assert(old_bits@.contains(u));
                        let k = choose|k: int| 0 <= k < old_bits@.len() && old_bits@[k] == u;
                        assert(new_bits@[k] == j);
                        assert(new_bits@.contains(j));
                    }
                    if new_bits@.contains(j) {
                        let k = choose|k: int| 0 <= k < new_bits@.len() && new_bits@[k] == j;
                        assert(selected(tags, n, old_bits@[k]) && destination(
                            occ,
                            next,
                            n,
                            old_bits@[k],
                        ) == j);
                        assert(is_destination(tags, occ, next, n, j));
                    }
                    if old_bits@.contains(j) {
                        let k = choose|k: int| 0 <= k < old_bits@.len() && old_bits@[k] == j;
                        assert(selected(tags, n, j));
                    }
                }
                lemma_occupancy_cycle_bits(tags, occ, next, n);
                lemma_mask_ext(new_tags, occupancy_cycle(tags, occ, next, n));
            }
            new_tags
        } else if is_next {
            let last: u32 = 1u32 << ((n - 1) as u32);
            if tags & last != 0 {
                ((tags ^ last) << 1) | 1
            } else {
                tags << 1
            }
        } else if is_previous {
            let last: u32 = 1u32 << ((n - 1) as u32);
            if tags & 1 != 0 {
                ((tags ^ 1) >> 1) | last
            } else {
                tags >> 1
            }
        } else {
            0
        }
    }

    /// Report whether the requested selection is already focused.
    pub fn toggle_tags(&self, to_tags: &u32) -> (r: bool)
        ensures
            r == (self.focused_tags == Some(*to_tags)),
    {
        match self.focused_tags {
            Some(t) => t == *to_tags,
            None => false,
        }
    }
}

} // verus!
