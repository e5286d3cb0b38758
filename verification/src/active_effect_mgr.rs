//! Effects that stay active for a while, each batch under a handle.
use std::collections::HashMap;
use vstd::prelude::*;

verus! {

/// The values of an `ActiveEffectMgr`.
pub ghost struct ActiveEffectView<E> {
    pub next_idx: usize,
    pub map: Map<usize, Seq<E>>,
}

/// Batches of active effects keyed by the handle `push` gave them.
#[derive(Debug)]
pub struct ActiveEffectMgr<E> {
    next_idx: usize,
    pub map: HashMap<usize, Vec<E>>,
}

impl<E> View for ActiveEffectMgr<E> {
    type V = ActiveEffectView<E>;

    closed spec fn view(&self) -> ActiveEffectView<E> {
        ActiveEffectView { next_idx: self.next_idx, map: self.map@.map_values(|v: Vec<E>| v@) }
    }
}

/// Every live handle was handed out before `next_idx`.
pub open spec fn handles_below<E>(v: ActiveEffectView<E>) -> bool {
    forall|k: usize| #[trigger] v.map.contains_key(k) ==> k < v.next_idx
}

impl<E> ActiveEffectMgr<E> {
    /// No active effects; the first handle is `0`.
    pub fn new() -> (r: Self)
        ensures
            r@.next_idx == 0,
            r@.map == Map::<usize, Seq<E>>::empty(),
            handles_below(r@),
    {
        let r = ActiveEffectMgr { next_idx: 0, map: HashMap::new() };
        proof {
            assert(r@.map =~= Map::<usize, Seq<E>>::empty());
        }
        r
    }

    /// Stores a batch under the next handle and returns the handle.
    pub fn push(&mut self, effects: Vec<E>) -> (r: usize)
        requires
            old(self)@.next_idx < usize::MAX,
        ensures
            r == old(self)@.next_idx,
            final(self)@.next_idx == old(self)@.next_idx + 1,
            final(self)@.map == old(self)@.map.insert(r, effects@),
            handles_below(old(self)@) ==> handles_below(final(self)@),
    {
        let idx = self.next_idx;
        self.next_idx = self.next_idx + 1;
        let ghost e = effects@;
        self.map.insert(idx, effects);
        proof {
            assert(self@.map =~= old(self)@.map.insert(idx, e));
        }
        idx
    }

    /// Drops the batch under `idx`, if any.
    pub fn void(&mut self, idx: usize)
        ensures
            final(self)@.next_idx == old(self)@.next_idx,
            final(self)@.map == old(self)@.map.remove(idx),
            handles_below(old(self)@) ==> handles_below(final(self)@),
    {
        self.map.remove(&idx);
        proof {
            assert(self@.map =~= old(self)@.map.remove(idx));
        }
    }
}

/// Voiding the handle `push` returned leaves the batches as they were
/// before the push.
pub proof fn law_void_undoes_push<E>(v: ActiveEffectView<E>, effects: Seq<E>)
    requires
        handles_below(v),
    ensures
        v.map.insert(v.next_idx, effects).remove(v.next_idx) == v.map,
{
    assert(!v.map.contains_key(v.next_idx));
    assert(v.map.insert(v.next_idx, effects).remove(v.next_idx) =~= v.map);
}

/// One call on an `ActiveEffectMgr`: a `push` of a batch or a `void` of a
/// handle.
pub ghost enum EffectOp<E> {
    Push(Seq<E>),
    Void(usize),
}

/// The values after one call, as `push` and `void` state them.
pub open spec fn after_op<E>(v: ActiveEffectView<E>, op: EffectOp<E>) -> ActiveEffectView<E> {
    match op {
        EffectOp::Push(e) => ActiveEffectView { next_idx: (v.next_idx + 1) as usize, map: v.map.insert(v.next_idx, e) },
        EffectOp::Void(i) => ActiveEffectView { map: v.map.remove(i), ..v },
    }
}

/// The values after a run of calls.
pub open spec fn after_ops<E>(v: ActiveEffectView<E>, ops: Seq<EffectOp<E>>) -> ActiveEffectView<E>
    decreases ops.len(),
{
    if ops.len() == 0 {
        v
    } else {
        after_op(after_ops(v, ops.drop_last()), ops.last())
    }
}

/// The number of pushes in a run of calls.
pub open spec fn push_count<E>(ops: Seq<EffectOp<E>>) -> nat
    decreases ops.len(),
{
    if ops.len() == 0 {
        0
    } else {
        push_count(ops.drop_last()) + if ops.last() is Push { 1nat } else { 0nat }
    }
}

/// From a fresh manager, after any run of pushes and voids the next
/// `push` hands out the number of pushes so far: handles come out as
/// `0, 1, 2, ...` and voiding never lets one be reused, since every live
/// handle stays below the next.
pub proof fn law_push_hands_out_successive_handles<E>(ops: Seq<EffectOp<E>>)
    requires
        push_count(ops) <= usize::MAX,
    ensures
        after_ops(ActiveEffectView { next_idx: 0, map: Map::empty() }, ops).next_idx == push_count(ops),
        handles_below(after_ops(ActiveEffectView { next_idx: 0, map: Map::empty() }, ops)),
    decreases ops.len(),
{
    let v0 = ActiveEffectView::<E> { next_idx: 0, map: Map::empty() };
    if ops.len() > 0 {
        law_push_hands_out_successive_handles(ops.drop_last());
        let w = after_ops(v0, ops.drop_last());
        let w2 = after_ops(v0, ops);
        assert(w2 == after_op(w, ops.last()));
        assert forall|k: usize| #[trigger] w2.map.contains_key(k) implies k < w2.next_idx by {
            match ops.last() {
                EffectOp::Push(e) => {
                    if k != w.next_idx {
                        assert(w.map.contains_key(k));
                    }
                },
                EffectOp::Void(i) => {
                    assert(w.map.contains_key(k));
                },
            }
        }
    }
}

} // verus!
