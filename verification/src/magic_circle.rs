//! Magic circles: the skills a circle casts on its own side.
use vstd::prelude::*;
use crate::config::{BattleConfig, MagicCircleRow};
use crate::text::{parse_field, parse_field_range};

verus! {

/// Whether some magic circle lists `skill_id` as its own-side skill.
pub open spec fn is_self_skill(rows: Seq<MagicCircleRow>, skill_id: i32) -> bool {
    exists|i: int| 0 <= i < rows.len() && parse_field(#[trigger] rows[i].self_skills@) == Some(skill_id)
}

/// Whether `skill_id` is the own-side skill of some magic circle (the
/// circle's field read as a trimmed number).
pub fn is_magic_circle_self_skill(cfg: &BattleConfig, skill_id: i32) -> (r: bool)
    ensures
        r == is_self_skill(cfg.magic_circle@, skill_id),
{
    let rows = &cfg.magic_circle;
    let mut i: usize = 0;
    while i < rows.len()
        invariant
            i <= rows@.len(),
            rows@ == cfg.magic_circle@,
            forall|j: int| 0 <= j < i ==> parse_field(#[trigger] rows@[j].self_skills@) != Some(skill_id),
        decreases rows@.len() - i,
    {
        let text = &rows[i].self_skills;
        proof {
            assert(text@.subrange(0, text@.len() as int) =~= text@);
        }
        if parse_field_range(text.as_slice(), 0, text.len()) == Some(skill_id) {
            return true;
        }
        i += 1;
    }
    false
}

} // verus!
