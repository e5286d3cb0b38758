//! The data-table rows the battle logic consults, held as plain values.
use vstd::prelude::*;

verus! {

/// A row of the skill buff table.
#[derive(Debug)]
pub struct SkillBuffRow {
    pub id: i32,
    pub type_id: i32,
    pub during_time: i32,
    pub effect_count: i32,
    /// `|`-separated feature entries, each `act_id#param#...`.
    pub features: Vec<u8>,
}

/// A row of the buff type table.
#[derive(Debug)]
pub struct BuffTypeRow {
    pub id: i32,
    /// `#`-separated include-type tags.
    pub include_types: Vec<u8>,
}

/// A row of the buff act table.
#[derive(Debug)]
pub struct BuffActRow {
    pub id: i32,
    pub act_type: String,
}

/// A row of the monster skill template table.
#[derive(Debug, Clone, Copy)]
pub struct MonsterSkillTemplateRow {
    pub id: i32,
    pub unique_skill_point: i32,
}

/// The Empathy parameters an injury-bank buff carries, in permille of
/// the holder's max hp unless named otherwise.
#[derive(Debug, Clone, Copy)]
pub struct InjuryBankParams {
    pub storage_cap_permille: i32,
    pub storage_threshold_permille: i32,
    pub heal_permille: i32,
    pub insight_iii_bounce_skill_id: i32,
}

/// A buff whose features carry an injury-bank act, with its parameters.
#[derive(Debug, Clone, Copy)]
pub struct InjuryBankRow {
    pub buff_id: i32,
    pub params: InjuryBankParams,
}

/// A row of the magic circle table.
#[derive(Debug)]
pub struct MagicCircleRow {
    pub id: i32,
    /// The skill the circle casts on its own side, as text.
    pub self_skills: Vec<u8>,
}

/// A row of the skill effect table.
#[derive(Debug)]
pub struct SkillEffectRow {
    pub id: i32,
    /// The behavior slots in order, each `kind#param#...` or empty.
    pub behaviors: Vec<Vec<u8>>,
}

/// A row of the cloth level table.
#[derive(Debug, Clone, Copy)]
pub struct ClothLevelRow {
    pub id: i32,
    pub level: i32,
    /// Cloth power at the start of a battle.
    pub initial: i32,
    pub max_power: i32,
}

/// A row of the episode table.
#[derive(Debug, Clone, Copy)]
pub struct EpisodeRow {
    pub id: i32,
    pub battle_id: i32,
}

/// A row of the battle table.
#[derive(Debug)]
pub struct BattleRow {
    pub id: i32,
    /// The monster group of each wave, `#`-separated.
    pub monster_group_ids: Vec<u8>,
    /// The announced battle rules, `|`-separated `target#skill id` entries.
    pub addition_rule: Vec<u8>,
    /// The hidden battle rules, in the same form.
    pub hidden_rule: Vec<u8>,
}

/// The tables the battle managers consult.
#[derive(Debug)]
pub struct BattleConfig {
    pub skill_buff: Vec<SkillBuffRow>,
    pub skill_bufftype: Vec<BuffTypeRow>,
    pub buff_act: Vec<BuffActRow>,
    pub monster_skill_template: Vec<MonsterSkillTemplateRow>,
    /// The injury-bank parameters of the buffs that have them.
    pub injury_bank: Vec<InjuryBankRow>,
    pub magic_circle: Vec<MagicCircleRow>,
    pub skill_effect: Vec<SkillEffectRow>,
    pub cloth_level: Vec<ClothLevelRow>,
    pub episode: Vec<EpisodeRow>,
    pub battle: Vec<BattleRow>,
}

/// Index of the first skill buff row with the given id.
pub open spec fn buff_row_index(rows: Seq<SkillBuffRow>, id: i32) -> Option<int>
    decreases rows.len(),
{
    if rows.len() == 0 {
        None
    } else if rows[0].id == id {
        Some(0)
    } else {
        match buff_row_index(rows.skip(1), id) {
            Some(i) => Some(i + 1),
            None => None,
        }
    }
}

/// Index of the first buff type row with the given id.
pub open spec fn type_row_index(rows: Seq<BuffTypeRow>, id: i32) -> Option<int>
    decreases rows.len(),
{
    if rows.len() == 0 {
        None
    } else if rows[0].id == id {
        Some(0)
    } else {
        match type_row_index(rows.skip(1), id) {
            Some(i) => Some(i + 1),
            None => None,
        }
    }
}

/// The unique skill point of the first template with the given id,
/// `0` when none matches.
pub open spec fn template_skill_point(rows: Seq<MonsterSkillTemplateRow>, id: i32) -> i32
    decreases rows.len(),
{
    if rows.len() == 0 {
        0
    } else if rows[0].id == id {
        rows[0].unique_skill_point
    } else {
        template_skill_point(rows.skip(1), id)
    }
}

/// The first index `i` with `rows[i].id == id`, as a plain characterisation.
pub open spec fn is_first_buff_row(rows: Seq<SkillBuffRow>, id: i32, i: int) -> bool {
    &&& 0 <= i < rows.len()
    &&& rows[i].id == id
    &&& forall|j: int| 0 <= j < i ==> rows[j].id != id
}

proof fn lemma_buff_row_index(rows: Seq<SkillBuffRow>, id: i32)
    ensures
        match buff_row_index(rows, id) {
            Some(i) => is_first_buff_row(rows, id, i),
            None => forall|j: int| 0 <= j < rows.len() ==> rows[j].id != id,
        },
    decreases rows.len(),
{
    if rows.len() > 0 && rows[0].id != id {
        lemma_buff_row_index(rows.skip(1), id);
        assert forall|j: int| 1 <= j < rows.len() implies rows[j].id == rows.skip(1)[j - 1].id by {}
    }
}

proof fn lemma_type_row_index(rows: Seq<BuffTypeRow>, id: i32)
    ensures
        match type_row_index(rows, id) {
            Some(i) => 0 <= i < rows.len() && rows[i].id == id && forall|j: int| 0 <= j < i ==> rows[j].id != id,
            None => forall|j: int| 0 <= j < rows.len() ==> rows[j].id != id,
        },
    decreases rows.len(),
{
    if rows.len() > 0 && rows[0].id != id {
        lemma_type_row_index(rows.skip(1), id);
        assert forall|j: int| 1 <= j < rows.len() implies rows[j].id == rows.skip(1)[j - 1].id by {}
    }
}

proof fn lemma_template_skill_point(rows: Seq<MonsterSkillTemplateRow>, id: i32, i: int)
    requires
        0 <= i <= rows.len(),
        forall|j: int| 0 <= j < i ==> rows[j].id != id,
    ensures
        template_skill_point(rows, id) == template_skill_point(rows.skip(i), id),
    decreases i,
{
    if i > 0 {
        assert(rows[0].id != id);
        assert(rows.skip(1).skip(i - 1) =~= rows.skip(i));
        assert forall|j: int| 0 <= j < i - 1 implies rows.skip(1)[j].id != id by {
            assert(rows.skip(1)[j] == rows[j + 1]);
        }
        lemma_template_skill_point(rows.skip(1), id, i - 1);
    } else {
        assert(rows.skip(0) =~= rows);
    }
}

/// Finds the first skill buff row with the given id.
pub fn find_buff_row(rows: &Vec<SkillBuffRow>, id: i32) -> (r: Option<usize>)
    ensures
        match r {
            Some(i) => buff_row_index(rows@, id) == Some(i as int) && i < rows@.len(),
            None => buff_row_index(rows@, id).is_none(),
        },
{
    proof { lemma_buff_row_index(rows@, id); }
    let mut i: usize = 0;
    while i < rows.len()
        invariant
            i <= rows@.len(),
            forall|j: int| 0 <= j < i ==> rows@[j].id != id,
        decreases rows@.len() - i,
    {
        if rows[i].id == id {
            proof {
                lemma_buff_row_index(rows@, id);
                match buff_row_index(rows@, id) {
                    Some(k) => {
                        assert(k == i as int) by {
                            if k < i as int {} else if k > i as int {}
                        }
                    },
                    None => {},
                }
            }
            return Some(i);
        }
        i += 1;
    }
    proof { lemma_buff_row_index(rows@, id); }
    None
}

/// Finds the first buff type row with the given id.
pub fn find_type_row(rows: &Vec<BuffTypeRow>, id: i32) -> (r: Option<usize>)
    ensures
        match r {
            Some(i) => type_row_index(rows@, id) == Some(i as int) && i < rows@.len(),
            None => type_row_index(rows@, id).is_none(),
        },
{
    proof { lemma_type_row_index(rows@, id); }
    let mut i: usize = 0;
    while i < rows.len()
        invariant
            i <= rows@.len(),
            forall|j: int| 0 <= j < i ==> rows@[j].id != id,
        decreases rows@.len() - i,
    {
        if rows[i].id == id {
            proof {
                lemma_type_row_index(rows@, id);
                match type_row_index(rows@, id) {
                    Some(k) => {
                        assert(k == i as int) by {
                            if k < i as int {} else if k > i as int {}
                        }
                    },
                    None => {},
                }
            }
            return Some(i);
        }
        i += 1;
    }
    proof { lemma_type_row_index(rows@, id); }
    None
}

/// The unique skill point of the first template with the given id,
/// `0` when none matches.
pub fn lookup_skill_point(rows: &Vec<MonsterSkillTemplateRow>, id: i32) -> (r: i32)
    ensures
        r == template_skill_point(rows@, id),
{
    let mut i: usize = 0;
    while i < rows.len()
        invariant
            i <= rows@.len(),
            forall|j: int| 0 <= j < i ==> rows@[j].id != id,
        decreases rows@.len() - i,
    {
        if rows[i].id == id {
            proof {
                lemma_template_skill_point(rows@, id, i as int);
                assert(rows@.skip(i as int)[0] == rows@[i as int]);
            }
            return rows[i].unique_skill_point;
        }
        i += 1;
    }
    proof {
        lemma_template_skill_point(rows@, id, i as int);
    }
    0
}

} // verus!
