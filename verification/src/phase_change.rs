//! Boss form changes: Will buffs queued from earlier waves and the form a
//! freshly spawned monster takes.
use vstd::prelude::*;

verus! {

/// Will buffs `(buff id, from uid)` waiting for the next wave's spawn.
#[derive(Debug)]
pub struct PhaseChangeState {
    pending_will_buffs: Vec<(i32, i64)>,
}

impl View for PhaseChangeState {
    type V = Seq<(i32, i64)>;

    closed spec fn view(&self) -> Seq<(i32, i64)> {
        self.pending_will_buffs@
    }
}

impl PhaseChangeState {
    /// Nothing queued.
    pub fn new() -> (r: Self)
        ensures
            r@ == Seq::<(i32, i64)>::empty(),
    {
        PhaseChangeState { pending_will_buffs: Vec::new() }
    }

    /// Queues a Will buff for the next wave's spawn.
    pub fn queue_will_buff(&mut self, buff_id: i32, from_uid: i64)
        ensures
            final(self)@ == old(self)@.push((buff_id, from_uid)),
    {
        self.pending_will_buffs.push((buff_id, from_uid));
    }

    /// Takes the queued buffs in queue order, leaving the queue empty.
    pub fn drain_pending(&mut self) -> (r: Vec<(i32, i64)>)
        ensures
            r@ == old(self)@,
            final(self)@ == Seq::<(i32, i64)>::empty(),
    {
        let mut out: Vec<(i32, i64)> = Vec::new();
        std::mem::swap(&mut out, &mut self.pending_will_buffs);
        out
    }

    /// The ids of the queued buffs, in queue order.
    pub fn pending_will_buff_ids(&self) -> (r: Vec<i32>)
        ensures
            r@ == self@.map_values(|p: (i32, i64)| p.0),
    {
        let mut out: Vec<i32> = Vec::new();
        let mut i: usize = 0;
        while i < self.pending_will_buffs.len()
            invariant
                i <= self@.len(),
                out@ == self@.take(i as int).map_values(|p: (i32, i64)| p.0),
            decreases self@.len() - i,
        {
            proof {
                assert(self@.take(i + 1) == self@.take(i as int).push(self@[i as int]));
            }
            out.push(self.pending_will_buffs[i].0);
            proof {
                assert(out@ =~= self@.take(i + 1).map_values(|p: (i32, i64)| p.0));
            }
            i += 1;
        }
        proof {
            assert(self@.take(self@.len() as int) =~= self@);
        }
        out
    }
}

/// The boss that changes form on spawn, and the form it takes.
pub const FORM_CHANGING_BOSS: i32 = 251417;

/// The form `FORM_CHANGING_BOSS` takes.
pub const BOSS_SPAWN_FORM: i32 = 251414;

/// The form a freshly spawned monster takes, if it changes: the
/// form-changing boss always takes its alternate form; the queued Will
/// buffs are not consulted.
pub fn determine_spawn_form(monster_id: i32, will_buff_ids: &[i32]) -> (r: Option<i32>)
    ensures
        r == (if monster_id == FORM_CHANGING_BOSS { Some(BOSS_SPAWN_FORM) } else { None }),
{
    if monster_id == FORM_CHANGING_BOSS {
        Some(BOSS_SPAWN_FORM)
    } else {
        None
    }
}

} // verus!
