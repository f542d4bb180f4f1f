//! Selecting an output from the mirrored state.

use vstd::prelude::*;

use crate::output::str_eq;
use crate::output::Output;

verus! {

/// Whether an output is in the asked-for state: "focused" names the output
/// that holds the focus, "urgent" one with urgent tags; any other state
/// name matches nothing.
pub open spec fn matches_state(o: Output, state: Seq<char>) -> bool {
    if state == "focused"@ {
        o.focused
    } else if state == "urgent"@ {
        o.urgent_tags is Some
    } else {
        false
    }
}

/// Identify the first output in the asked-for state, by position.
pub fn find_output(outputs: &Vec<Output>, state: &str) -> (r: Option<usize>)
    ensures
        match r {
            Some(i) => i < outputs@.len() && matches_state(outputs@[i as int], state@) && forall|
                k: int,
            | 0 <= k < i ==> !matches_state(outputs@[k], state@),
            None => forall|k: int| 0 <= k < outputs@.len() ==> !matches_state(outputs@[k], state@),
        },
{
    proof {
        reveal_strlit("focused");
        reveal_strlit("urgent");
        assert("focused"@.len() == 7);
        assert("urgent"@.len() == 6);
    }
    let focused = str_eq(state, "focused");
    let urgent = str_eq(state, "urgent");
    let mut i: usize = 0;
    while i < outputs.len()
        invariant
            i <= outputs@.len(),
            focused == (state@ == "focused"@),
            urgent == (state@ == "urgent"@),
            forall|k: int| 0 <= k < i ==> !matches_state(outputs@[k], state@),
        decreases outputs@.len() - i,
    {
        let o = &outputs[i];
        let m = if focused {
            o.focused
        } else if urgent {
            o.urgent_tags.is_some()
        } else {
            false
        };
        if m {
            return Some(i);
        }
        i += 1;
    }
    None
}

} // verus!
