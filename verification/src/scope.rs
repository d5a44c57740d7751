//! Identifier-allocation scopes: a stack of frames, each either anchored at
//! an identifier with a shared sequence counter, or throwaway.
//!
//! The stack holds each anchored frame's counter as an opaque handle `C`;
//! the next value is drawn from the innermost frame's counter (for shared
//! atomics, by `draw::next_id`) and handed to [`scoped_next_id`]. The spec
//! model below numbers the counters and lets allocation advance them, so that
//! laws over whole histories of entering, allocating and leaving can be
//! stated; the exec contracts are stated through `model_frames` under any
//! numbering of the counter handles.

use vstd::prelude::*;
use vstd::wrapping::u64_specs;
use crate::id::{child_key, is_tree_key, lemma_child_injective, lemma_child_stays_in_tree, throwaway_key, SerializedDataId};

verus! {

/// One frame of the scope stack.
pub enum IdScopeFrame<C> {
    /// Allocations extend the anchor with the values drawn from the counter.
    Anchored(SerializedDataId, C),
    /// Allocations are handed throwaway identifiers that are never
    /// serialized.
    Throwaway,
}

/// The key a frame hands out when `drawn` was drawn from its counter: the
/// child of its anchor numbered `drawn`, or the throwaway key.
pub open spec fn frame_key<C>(frame: IdScopeFrame<C>, drawn: u64) -> Seq<char> {
    match frame {
        IdScopeFrame::Anchored(anchor, _) => child_key(anchor@, drawn as nat),
        IdScopeFrame::Throwaway => throwaway_key(),
    }
}

/// The key of an optional identifier.
pub open spec fn opt_key(id: Option<SerializedDataId>) -> Option<Seq<char>> {
    match id {
        Some(id) => Some(id@),
        None => None,
    }
}

/// The stack of identifier-allocation scopes of one thread; anchored frames
/// hold a handle `C` of their shared counter.
pub struct IdScopes<C> {
    frames: Vec<IdScopeFrame<C>>,
}

impl<C> View for IdScopes<C> {
    /// The frames, innermost last.
    type V = Seq<IdScopeFrame<C>>;

    closed spec fn view(&self) -> Seq<IdScopeFrame<C>> {
        self.frames@
    }
}

/// Proof that a scope was entered; hand it back to leave the scope.
pub struct IdScopeGuard(());

impl<C> IdScopes<C> {
    /// An empty stack.
    pub fn new() -> (r: Self)
        ensures
            r@ == Seq::<IdScopeFrame<C>>::empty(),
    {
        IdScopes { frames: Vec::new() }
    }

    /// The counter of the innermost scope, when that scope is anchored: the
    /// counter the next allocation draws from.
    pub fn innermost_counter(&self) -> (r: Option<&C>)
        ensures
            r is Some <==> (self@.len() > 0 && self@.last() is Anchored),
            r matches Some(c) ==> self@.last()->1 == *c,
    {
        let n = self.frames.len();
        if n == 0 {
            return None;
        }
        match &self.frames[n - 1] {
            IdScopeFrame::Anchored(_, c) => Some(c),
            IdScopeFrame::Throwaway => None,
        }
    }
}

/// Enters an id-allocation scope anchored at `anchor`: until the scope is left,
/// identifiers allocated here extend the anchor with values drawn from
/// `counter`.
pub fn enter_id_scope<C>(scopes: &mut IdScopes<C>, anchor: SerializedDataId, counter: C) -> (g: IdScopeGuard)
    ensures
        final(scopes)@ == old(scopes)@.push(IdScopeFrame::Anchored(anchor, counter)),
        forall|num: spec_fn(C) -> nat| #[trigger] model_frames(final(scopes)@, num)
            == model_frames(old(scopes)@, num).push(ScopeFrame::Anchored(anchor@, num(counter))),
{
    let ghost a = anchor@;
    let ghost k = counter;
    scopes.frames.push(IdScopeFrame::Anchored(anchor, counter));
    proof {
        assert forall|num: spec_fn(C) -> nat| #[trigger] model_frames(scopes@, num)
            == model_frames(old(scopes)@, num).push(ScopeFrame::Anchored(a, num(k))) by {
            assert(model_frames(scopes@, num) =~= model_frames(old(scopes)@, num).push(ScopeFrame::Anchored(a, num(k))));
        }
    }
    IdScopeGuard(())
}

/// Enters a scope in which allocated identifiers are throwaway: they are
/// syntactically valid but can never collide with serialized data.
pub fn enter_throwaway_id_scope<C>(scopes: &mut IdScopes<C>) -> (g: IdScopeGuard)
    ensures
        final(scopes)@ == old(scopes)@.push(IdScopeFrame::Throwaway),
        forall|num: spec_fn(C) -> nat| #[trigger] model_frames(final(scopes)@, num)
            == model_frames(old(scopes)@, num).push(ScopeFrame::Throwaway),
{
    scopes.frames.push(IdScopeFrame::Throwaway);
    proof {
        assert forall|num: spec_fn(C) -> nat| #[trigger] model_frames(scopes@, num)
            == model_frames(old(scopes)@, num).push(ScopeFrame::Throwaway) by {
            assert(model_frames(scopes@, num) =~= model_frames(old(scopes)@, num).push(ScopeFrame::Throwaway));
        }
    }
    IdScopeGuard(())
}

/// Leaves the innermost scope, restoring the one before it.
pub fn exit_id_scope<C>(scopes: &mut IdScopes<C>, guard: IdScopeGuard)
    ensures
        final(scopes)@ == (if old(scopes)@.len() == 0 {
            old(scopes)@
        } else {
            old(scopes)@.drop_last()
        }),
        forall|num: spec_fn(C) -> nat| #[trigger] model_frames(final(scopes)@, num)
            == apply_op(model_frames(old(scopes)@, num), Seq::<u64>::empty(), ScopeOp::Exit).0,
{
    let _ = scopes.frames.pop();
    proof {
        if old(scopes)@.len() > 0 {
            assert(scopes@ =~= old(scopes)@.drop_last());
        }
        assert forall|num: spec_fn(C) -> nat| #[trigger] model_frames(scopes@, num)
            == apply_op(model_frames(old(scopes)@, num), Seq::<u64>::empty(), ScopeOp::Exit).0 by {
            if old(scopes)@.len() > 0 {
                assert(model_frames(scopes@, num) =~= model_frames(old(scopes)@, num).drop_last());
            }
        }
    }
}

/// Allocates the next identifier of the innermost scope, given the value
/// `drawn` from its counter (ignored by a throwaway scope): the child of its
/// anchor numbered `drawn`; `"discard"` in a throwaway scope; nothing when no
/// scope is entered.
pub fn scoped_next_id<C>(scopes: &IdScopes<C>, drawn: u64) -> (r: Option<SerializedDataId>)
    ensures
        opt_key(r) == (if scopes@.len() == 0 {
            None
        } else {
            Some(frame_key(scopes@.last(), drawn))
        }),
        forall|num: spec_fn(C) -> nat, counters: Seq<u64>|
            drawn_from(scopes@, num, counters, drawn) ==> opt_key(r) == (#[trigger] next_id_step(
                model_frames(scopes@, num),
                counters,
            )).0,
{
    proof {
        assert forall|num: spec_fn(C) -> nat, counters: Seq<u64>|
            drawn_from(scopes@, num, counters, drawn) implies (if scopes@.len() == 0 {
                None
            } else {
                Some(frame_key(scopes@.last(), drawn))
            }) == (#[trigger] next_id_step(model_frames(scopes@, num), counters)).0 by {
            if scopes@.len() > 0 {
                assert(model_frames(scopes@, num).last() == model_frame(scopes@.last(), num));
            }
        }
    }
    let n = scopes.frames.len();
    if n == 0 {
        return None;
    }
    match &scopes.frames[n - 1] {
        IdScopeFrame::Throwaway => Some(SerializedDataId::throwaway()),
        IdScopeFrame::Anchored(anchor, _) => Some(anchor.child(drawn)),
    }
}

/// A scope frame in the model of allocation: an anchor key with the number of
/// its shared counter, or a throwaway frame.
pub enum ScopeFrame {
    Anchored(Seq<char>, nat),
    Throwaway,
}

/// The model of a frame, counters numbered by `num`.
pub open spec fn model_frame<C>(frame: IdScopeFrame<C>, num: spec_fn(C) -> nat) -> ScopeFrame {
    match frame {
        IdScopeFrame::Anchored(anchor, c) => ScopeFrame::Anchored(anchor@, num(c)),
        IdScopeFrame::Throwaway => ScopeFrame::Throwaway,
    }
}

/// The model of a stack of frames, counters numbered by `num`.
pub open spec fn model_frames<C>(frames: Seq<IdScopeFrame<C>>, num: spec_fn(C) -> nat) -> Seq<ScopeFrame> {
    frames.map_values(|f: IdScopeFrame<C>| model_frame(f, num))
}

/// Whether, under the numbering `num`, the model counter of the innermost
/// frame (if anchored) holds `drawn`.
pub open spec fn drawn_from<C>(frames: Seq<IdScopeFrame<C>>, num: spec_fn(C) -> nat, counters: Seq<u64>, drawn: u64) -> bool {
    frames.len() > 0 && frames.last() is Anchored ==> counters[num(frames.last()->1) as int] == drawn
}

/// One allocation step of the model: given the frame stack and the counters,
/// the key the innermost frame hands out (none when no scope is entered) and
/// the counters afterwards. An anchored frame draws its counter (the atomic
/// `fetch_add` of one, which wraps) and hands out the child of its anchor
/// numbered by the value drawn, as [`scoped_next_id`] does; a throwaway frame
/// hands out the throwaway key.
pub open spec fn next_id_step(frames: Seq<ScopeFrame>, counters: Seq<u64>) -> (Option<Seq<char>>, Seq<u64>) {
    if frames.len() == 0 {
        (None, counters)
    } else {
        match frames.last() {
            ScopeFrame::Throwaway => (Some(throwaway_key()), counters),
            ScopeFrame::Anchored(anchor, c) => (
                Some(child_key(anchor, counters[c as int] as nat)),
                counters.update(c as int, u64_specs::wrapping_add(counters[c as int], 1)),
            ),
        }
    }
}

/// The counters after `k` allocations in the same scopes.
pub open spec fn counters_after(frames: Seq<ScopeFrame>, counters: Seq<u64>, k: nat) -> Seq<u64>
    decreases k,
{
    if k == 0 {
        counters
    } else {
        next_id_step(frames, counters_after(frames, counters, (k - 1) as nat)).1
    }
}

/// After entering a scope anchored at `anchor` whose counter stands at `v`,
/// the `k`-th allocation (counting from 0) hands out the anchor's child
/// numbered `v + k` and leaves the counter at `v + k + 1`, both counted
/// modulo 2^64 as the counter wraps; other counters stay untouched.
pub proof fn lemma_allocation_numbering(frames: Seq<ScopeFrame>, counters: Seq<u64>, k: nat)
    requires
        frames.len() > 0,
        frames.last() is Anchored,
        frame_in_range(frames.last(), counters),
    ensures
        ({
            let anchor = frames.last()->0;
            let c = frames.last()->1 as int;
            let v = counters[c];
            let before = counters_after(frames, counters, k);
            let after = counters_after(frames, counters, k + 1);
            &&& before.len() == counters.len()
            &&& before[c] == (v as int + k) % 0x1_0000_0000_0000_0000int
            &&& next_id_step(frames, before).0 == Some(child_key(anchor, ((v as int + k) % 0x1_0000_0000_0000_0000int) as nat))
            &&& after[c] == (v as int + k + 1) % 0x1_0000_0000_0000_0000int
            &&& forall|i: int| 0 <= i < counters.len() && i != c ==> #[trigger] after[i] == counters[i]
        }),
    decreases k,
{
    let c = frames.last()->1 as int;
    let v = counters[c];
    if k > 0 {
        lemma_allocation_numbering(frames, counters, (k - 1) as nat);
    } else {
        assert((v as int) % 0x1_0000_0000_0000_0000int == v as int);
    }
    let before = counters_after(frames, counters, k);
    let after = counters_after(frames, counters, k + 1);
    assert(after == next_id_step(frames, before).1);
    let x = before[c];
    vstd::arithmetic::div_mod::lemma_add_mod_noop(v as int + k, 1, 0x1_0000_0000_0000_0000int);
    assert(1int % 0x1_0000_0000_0000_0000int == 1);
    assert((x + 1) % 0x1_0000_0000_0000_0000int == (v as int + k + 1) % 0x1_0000_0000_0000_0000int);
    if x + 1 > u64::MAX {
        assert(x + 1 == 0x1_0000_0000_0000_0000int);
    }
}

/// One operation on the scope stack in the model: entering a frame, leaving
/// the innermost one, or allocating in it.
pub enum ScopeOp {
    Enter(ScopeFrame),
    Exit,
    Alloc,
}

/// The stack and the counters after one operation.
pub open spec fn apply_op(frames: Seq<ScopeFrame>, counters: Seq<u64>, op: ScopeOp) -> (Seq<ScopeFrame>, Seq<u64>) {
    match op {
        ScopeOp::Enter(f) => (frames.push(f), counters),
        ScopeOp::Exit => (if frames.len() == 0 {
            frames
        } else {
            frames.drop_last()
        }, counters),
        ScopeOp::Alloc => (frames, next_id_step(frames, counters).1),
    }
}

/// The stack and the counters after a history of operations, in order.
pub open spec fn run_ops(frames: Seq<ScopeFrame>, counters: Seq<u64>, ops: Seq<ScopeOp>) -> (Seq<ScopeFrame>, Seq<u64>)
    decreases ops.len(),
{
    if ops.len() == 0 {
        (frames, counters)
    } else {
        let (f, c) = run_ops(frames, counters, ops.drop_last());
        apply_op(f, c, ops.last())
    }
}

/// How many more scopes a history enters than it leaves.
pub open spec fn depth_change(ops: Seq<ScopeOp>) -> int
    decreases ops.len(),
{
    if ops.len() == 0 {
        0
    } else {
        depth_change(ops.drop_last()) + match ops.last() {
            ScopeOp::Enter(_) => 1int,
            ScopeOp::Exit => -1int,
            ScopeOp::Alloc => 0int,
        }
    }
}

/// Whether a history never leaves a scope it did not enter.
pub open spec fn never_below(ops: Seq<ScopeOp>) -> bool {
    forall|k: int| 0 <= k <= ops.len() ==> depth_change(#[trigger] ops.take(k)) >= 0
}

/// A history that never leaves a scope it did not enter keeps the frames it
/// started on, with as many more on top as it entered net.
proof fn lemma_run_keeps_prefix(frames: Seq<ScopeFrame>, counters: Seq<u64>, ops: Seq<ScopeOp>)
    requires
        never_below(ops),
    ensures
        run_ops(frames, counters, ops).0.len() == frames.len() + depth_change(ops),
        run_ops(frames, counters, ops).0.take(frames.len() as int) == frames,
    decreases ops.len(),
{
    if ops.len() == 0 {
        assert(frames.take(frames.len() as int) =~= frames);
    } else {
        let init = ops.drop_last();
        assert forall|k: int| 0 <= k <= init.len() implies depth_change(#[trigger] init.take(k)) >= 0 by {
            assert(init.take(k) =~= ops.take(k));
        }
        lemma_run_keeps_prefix(frames, counters, init);
        assert(ops.take(ops.len() as int) =~= ops);
        assert(ops.take(ops.len() as int).drop_last() =~= init);
        let (f, c) = run_ops(frames, counters, init);
        match ops.last() {
            ScopeOp::Enter(g) => {
                assert(f.push(g).take(frames.len() as int) =~= f.take(frames.len() as int));
            },
            ScopeOp::Exit => {
                assert(f.drop_last().take(frames.len() as int) =~= f.take(frames.len() as int));
            },
            ScopeOp::Alloc => {},
        }
    }
}

/// Running `op` first and then `ops` is running `ops` from the state `op`
/// leaves.
proof fn lemma_run_prepend(frames: Seq<ScopeFrame>, counters: Seq<u64>, op: ScopeOp, ops: Seq<ScopeOp>)
    ensures
        run_ops(frames, counters, seq![op] + ops) == run_ops(
            apply_op(frames, counters, op).0,
            apply_op(frames, counters, op).1,
            ops,
        ),
    decreases ops.len(),
{
    let all = seq![op] + ops;
    if ops.len() == 0 {
        assert(all.drop_last() =~= Seq::<ScopeOp>::empty());
        assert(all.last() == op);
        assert(run_ops(frames, counters, all.drop_last()) == (frames, counters));
    } else {
        assert(all.drop_last() =~= seq![op] + ops.drop_last());
        assert(all.last() == ops.last());
        lemma_run_prepend(frames, counters, op, ops.drop_last());
    }
}

/// Leaving a scope restores the allocation behaviour from before it was
/// entered, whatever nested scopes were entered and left and whatever was
/// allocated in between: the frames are those before entering, and the
/// counters keep the values they reached.
pub proof fn lemma_scope_exit_restores(frames: Seq<ScopeFrame>, counters: Seq<u64>, f: ScopeFrame, ops: Seq<ScopeOp>)
    requires
        never_below(ops),
        depth_change(ops) == 0,
    ensures
        ({
            let history = seq![ScopeOp::Enter(f)] + ops + seq![ScopeOp::Exit];
            let inner = run_ops(frames.push(f), counters, ops);
            let (fs, cs) = run_ops(frames, counters, history);
            &&& fs == frames
            &&& cs == inner.1
            &&& next_id_step(fs, cs) == next_id_step(frames, inner.1)
        }),
{
    let entered = seq![ScopeOp::Enter(f)] + ops;
    let history = entered + seq![ScopeOp::Exit];
    assert(history =~= seq![ScopeOp::Enter(f)] + ops + seq![ScopeOp::Exit]);
    assert(history.drop_last() =~= entered);
    lemma_run_prepend(frames, counters, ScopeOp::Enter(f), ops);
    lemma_run_keeps_prefix(frames.push(f), counters, ops);
    let inner = run_ops(frames.push(f), counters, ops);
    assert(inner.0 =~= frames.push(f)) by {
        assert(inner.0.len() == frames.len() + 1);
        assert(inner.0.take(frames.push(f).len() as int) =~= inner.0);
    }
    assert(frames.push(f).drop_last() =~= frames);
}

/// Whether allocations under two innermost frames touch different counters:
/// they are not both anchored on the same counter.
pub open spec fn frames_independent(f: ScopeFrame, g: ScopeFrame) -> bool {
    match (f, g) {
        (ScopeFrame::Anchored(_, c), ScopeFrame::Anchored(_, d)) => c != d,
        _ => true,
    }
}

/// Whether the counter an innermost frame uses, if any, exists.
pub open spec fn frame_in_range(f: ScopeFrame, counters: Seq<u64>) -> bool {
    match f {
        ScopeFrame::Anchored(_, c) => c < counters.len(),
        ScopeFrame::Throwaway => true,
    }
}

/// Allocations in scopes that share no counter commute: whichever of two
/// deferred subtrees allocates first, each receives the same identifier, and
/// the counters end in the same state.
pub proof fn lemma_allocation_order_independent(fa: Seq<ScopeFrame>, fb: Seq<ScopeFrame>, counters: Seq<u64>)
    requires
        fa.len() > 0,
        fb.len() > 0,
        frames_independent(fa.last(), fb.last()),
        frame_in_range(fa.last(), counters),
        frame_in_range(fb.last(), counters),
    ensures
        ({
            let (ia1, s1) = next_id_step(fa, counters);
            let (ib1, s2) = next_id_step(fb, s1);
            let (ib2, t1) = next_id_step(fb, counters);
            let (ia2, t2) = next_id_step(fa, t1);
            &&& ia1 == ia2
            &&& ib1 == ib2
            &&& s2 == t2
        }),
{
    let (ia1, s1) = next_id_step(fa, counters);
    let (ib1, s2) = next_id_step(fb, s1);
    let (ib2, t1) = next_id_step(fb, counters);
    let (ia2, t2) = next_id_step(fa, t1);
    match (fa.last(), fb.last()) {
        (ScopeFrame::Anchored(a, c), ScopeFrame::Anchored(b, d)) => {
            assert(s2 =~= t2);
        },
        _ => {},
    }
}

/// Leaving a scope just entered restores the allocation behaviour from before
/// it was entered.
pub proof fn lemma_enter_exit_restores(frames: Seq<ScopeFrame>, f: ScopeFrame, counters: Seq<u64>)
    ensures
        frames.push(f).drop_last() == frames,
        next_id_step(frames.push(f).drop_last(), counters) == next_id_step(frames, counters),
{
    assert(frames.push(f).drop_last() =~= frames);
}

/// Two successive allocations in one anchored scope are the anchor's children
/// numbered by consecutive counter values, and so differ (while the counter
/// does not wrap).
pub proof fn lemma_successive_ids_distinct(frames: Seq<ScopeFrame>, counters: Seq<u64>)
    requires
        frames.len() > 0,
        frames.last() is Anchored,
        frame_in_range(frames.last(), counters),
        counters[frames.last()->1 as int] < u64::MAX,
    ensures
        ({
            let anchor = frames.last()->0;
            let v = counters[frames.last()->1 as int];
            let (i1, s1) = next_id_step(frames, counters);
            let (i2, s2) = next_id_step(frames, s1);
            &&& i1 == Some(child_key(anchor, v as nat))
            &&& i2 == Some(child_key(anchor, (v + 1) as nat))
            &&& i1 != i2
        }),
{
    let anchor = frames.last()->0;
    let v = counters[frames.last()->1 as int];
    if child_key(anchor, v as nat) == child_key(anchor, (v + 1) as nat) {
        lemma_child_injective(anchor, v as nat, anchor, (v + 1) as nat);
    }
}

/// An anchored scope whose anchor is the root anchor or lies in the server's
/// identifier tree hands out identifiers in that tree, which never collide
/// with browser-local or throwaway identifiers.
pub proof fn lemma_anchored_ids_in_tree(frames: Seq<ScopeFrame>, counters: Seq<u64>)
    requires
        frames.len() > 0,
        frames.last() is Anchored,
        frames.last()->0.len() == 0 || is_tree_key(frames.last()->0),
    ensures
        next_id_step(frames, counters).0 is Some,
        is_tree_key(next_id_step(frames, counters).0->0),
{
    let anchor = frames.last()->0;
    let c = frames.last()->1;
    lemma_child_stays_in_tree(anchor, counters[c as int] as nat);
}


} // verus!
