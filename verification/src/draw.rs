//! Allocation from a scope stack whose counters are shared atomics.

use std::sync::atomic::{AtomicU64, Ordering};
use std::sync::Arc;
use vstd::prelude::*;
use crate::id::SerializedDataId;
use crate::scope::{drawn_from, frame_key, model_frames, next_id_step, opt_key, scoped_next_id, IdScopes};

verus! {

/// Allocates the next identifier of the innermost scope: when it is anchored,
/// draws the next value of its counter (an atomic `fetch_add` of one, which
/// other holders of the counter share) and hands out the anchor's child
/// numbered by it; `"discard"` in a throwaway scope; nothing when no scope is
/// entered. The value drawn is whatever the counter held, which the contract
/// leaves open: for that value, the result is the model's allocation step.
pub fn next_id(scopes: &IdScopes<Arc<AtomicU64>>) -> (r: Option<SerializedDataId>)
    ensures
        exists|drawn: u64|
            #![trigger frame_key(scopes@.last(), drawn)]
            {
                &&& opt_key(r) == (if scopes@.len() == 0 {
                    None
                } else {
                    Some(frame_key(scopes@.last(), drawn))
                })
                &&& forall|num: spec_fn(Arc<AtomicU64>) -> nat, counters: Seq<u64>|
                    drawn_from(scopes@, num, counters, drawn) ==> opt_key(r) == (#[trigger] next_id_step(
                        model_frames(scopes@, num),
                        counters,
                    )).0
            },
{
    let drawn: u64 = match scopes.innermost_counter() {
        Some(counter) => counter.fetch_add(1, Ordering::Relaxed),
        None => 0,
    };
    let r = scoped_next_id(scopes, drawn);
    proof {
        let body = {
            &&& opt_key(r) == (if scopes@.len() == 0 {
                None
            } else {
                Some(frame_key(scopes@.last(), drawn))
            })
            &&& forall|num: spec_fn(Arc<AtomicU64>) -> nat, counters: Seq<u64>|
                drawn_from(scopes@, num, counters, drawn) ==> opt_key(r) == (#[trigger] next_id_step(
                    model_frames(scopes@, num),
                    counters,
                )).0
        };
        assert(body);
    }
    r
}

} // verus!
