//! The battle snapshot the managers read and write: teams of entities,
//! each with its ids, hp, ex points and buffs, held as plain values.
use vstd::prelude::*;

verus! {

/// An attribute block; only hp is read by the battle managers.
#[derive(Debug, Clone, Copy, PartialEq, Eq)]
pub struct AttrInfo {
    pub hp: Option<i32>,
}

/// A buff as carried by an entity in the snapshot.
#[derive(Debug)]
pub struct BuffInfo {
    pub uid: Option<i64>,
    pub buff_id: Option<i32>,
    pub from_uid: Option<i64>,
    pub count: Option<i32>,
    pub layer: Option<i32>,
    pub act_common_params: Option<Vec<u8>>,
}

/// One entity (hero or monster) of a team.
#[derive(Debug)]
pub struct FightEntityInfo {
    pub uid: Option<i64>,
    pub model_id: Option<i32>,
    pub position: Option<i32>,
    pub team_type: Option<i32>,
    pub current_hp: Option<i32>,
    pub ex_point: Option<i32>,
    pub ex_point_type: Option<i32>,
    pub attr: Option<AttrInfo>,
    pub base_attr: Option<AttrInfo>,
    pub buffs: Vec<BuffInfo>,
    pub no_effect_buffs: Vec<BuffInfo>,
    pub passive_skill: Vec<i32>,
}

/// One side of the battle: the fielded entities and the substitutes, and
/// the side's cloth and cloth power.
#[derive(Debug, Clone)]
pub struct FightTeamInfo {
    pub entitys: Vec<FightEntityInfo>,
    pub sub_entitys: Vec<FightEntityInfo>,
    pub cloth_id: Option<i32>,
    pub power: Option<i32>,
}

/// The battle snapshot.
#[derive(Debug, Clone)]
pub struct Fight {
    pub battle_id: Option<i32>,
    pub episode_id: Option<i32>,
    pub cur_wave: Option<i32>,
    pub attacker: Option<FightTeamInfo>,
    pub defender: Option<FightTeamInfo>,
}

/// Per-entity ex point summary sent with a round.
#[derive(Debug, Clone, Copy, PartialEq, Eq)]
pub struct FightExPointInfo {
    pub uid: Option<i64>,
    pub ex_point: Option<i32>,
    pub current_hp: Option<i32>,
    pub ex_point_type: Option<i32>,
}

/// The entities of a team, fielded first, then substitutes.
pub open spec fn team_entities(t: FightTeamInfo) -> Seq<FightEntityInfo> {
    t.entitys@ + t.sub_entitys@
}

/// The entities of an optional team (none when absent).
pub open spec fn side_entities(t: Option<FightTeamInfo>) -> Seq<FightEntityInfo> {
    match t {
        Some(team) => team_entities(team),
        None => Seq::empty(),
    }
}

/// Every entity of the snapshot in the order the managers walk them:
/// attacker fielded, attacker substitutes, defender fielded, defender
/// substitutes.
pub open spec fn all_entities(f: Fight) -> Seq<FightEntityInfo> {
    side_entities(f.attacker) + side_entities(f.defender)
}

/// The fielded attacker entities (none without an attacker team).
pub open spec fn attacker_fielded(f: Fight) -> Seq<FightEntityInfo> {
    match f.attacker {
        Some(t) => t.entitys@,
        None => Seq::empty(),
    }
}

/// The value an `Option` holds, or `d`.
pub open spec fn opt_or<T>(o: Option<T>, d: T) -> T {
    match o {
        Some(v) => v,
        None => d,
    }
}

/// The hp in an optional attribute block.
pub open spec fn attr_hp(a: Option<AttrInfo>) -> Option<i32> {
    match a {
        Some(x) => x.hp,
        None => None,
    }
}

/// Reads an optional i32, `d` when absent.
pub fn i32_or(o: Option<i32>, d: i32) -> (r: i32)
    ensures
        r == opt_or(o, d),
{
    match o {
        Some(v) => v,
        None => d,
    }
}

/// Reads an optional i64, `d` when absent.
pub fn i64_or(o: Option<i64>, d: i64) -> (r: i64)
    ensures
        r == opt_or(o, d),
{
    match o {
        Some(v) => v,
        None => d,
    }
}

/// The hp of an optional attribute block.
pub fn attr_hp_of(a: &Option<AttrInfo>) -> (r: Option<i32>)
    ensures
        r == attr_hp(*a),
{
    match a {
        Some(x) => x.hp,
        None => None,
    }
}

/// Collects the entities of the snapshot in walking order.
pub fn collect_all_entities(f: &Fight) -> (r: Vec<&FightEntityInfo>)
    ensures
        r@.len() == all_entities(*f).len(),
        forall|i: int| 0 <= i < r@.len() ==> *r@[i] == all_entities(*f)[i],
{
    let mut out: Vec<&FightEntityInfo> = Vec::new();
    let ghost sides = seq![f.attacker, f.defender];
    if let Some(t) = &f.attacker {
        push_all(&mut out, &t.entitys);
        push_all(&mut out, &t.sub_entitys);
    }
    assert(out@.len() == side_entities(f.attacker).len());
    let ghost first = out@;
    if let Some(t) = &f.defender {
        push_all(&mut out, &t.entitys);
        push_all(&mut out, &t.sub_entitys);
    }
    assert forall|i: int| 0 <= i < out@.len() implies *out@[i] == all_entities(*f)[i] by {
        if i < side_entities(f.attacker).len() {
            assert(out@[i] == first[i]);
        }
    }
    out
}

fn push_all<'a>(out: &mut Vec<&'a FightEntityInfo>, v: &'a Vec<FightEntityInfo>)
    ensures
        final(out)@.len() == old(out)@.len() + v@.len(),
        forall|i: int| 0 <= i < old(out)@.len() ==> final(out)@[i] == old(out)@[i],
        forall|i: int| 0 <= i < v@.len() ==> *final(out)@[old(out)@.len() + i] == v@[i],
{
    let mut i: usize = 0;
    while i < v.len()
        invariant
            i <= v@.len(),
            out@.len() == old(out)@.len() + i,
            forall|j: int| 0 <= j < old(out)@.len() ==> out@[j] == old(out)@[j],
            forall|j: int| 0 <= j < i ==> *out@[old(out)@.len() + j] == v@[j],
        decreases v@.len() - i,
    {
        out.push(&v[i]);
        i += 1;
    }
}

} // verus!

verus! {

/// The map reached by walking `es` in order and, for each entity that has
/// a uid, storing `f(entity)` under that uid (later entities win).
pub open spec fn fold_by_uid(
    es: Seq<FightEntityInfo>,
    m: Map<i64, i32>,
    f: spec_fn(FightEntityInfo) -> i32,
) -> Map<i64, i32>
    decreases es.len(),
{
    if es.len() == 0 {
        m
    } else {
        let prev = fold_by_uid(es.drop_last(), m, f);
        match es.last().uid {
            Some(u) => prev.insert(u, f(es.last())),
            None => prev,
        }
    }
}

/// One step of `fold_by_uid`: the fold of a prefix one longer.
pub proof fn lemma_fold_by_uid_step(
    es: Seq<FightEntityInfo>,
    i: int,
    m: Map<i64, i32>,
    f: spec_fn(FightEntityInfo) -> i32,
)
    requires
        0 <= i < es.len(),
    ensures
        fold_by_uid(es.take(i + 1), m, f) == match es[i].uid {
            Some(u) => fold_by_uid(es.take(i), m, f).insert(u, f(es[i])),
            None => fold_by_uid(es.take(i), m, f),
        },
{
    assert(es.take(i + 1).drop_last() =~= es.take(i));
    assert(es.take(i + 1).last() == es[i]);
}

} // verus!

verus! {

/// The entity's ex points, `0` when absent.
pub open spec fn sel_ex_point() -> spec_fn(FightEntityInfo) -> i32 {
    |e: FightEntityInfo| opt_or(e.ex_point, 0)
}

/// The entity's ex point cap: `8` for ex point type `1`, else `5`.
pub open spec fn sel_ex_max() -> spec_fn(FightEntityInfo) -> i32 {
    |e: FightEntityInfo| if e.ex_point_type == Some(1i32) { 8i32 } else { 5i32 }
}

/// The entity's current hp, `0` when absent.
pub open spec fn sel_hp() -> spec_fn(FightEntityInfo) -> i32 {
    |e: FightEntityInfo| opt_or(e.current_hp, 0)
}

/// The entity's max hp from its attributes, its current hp when absent.
pub open spec fn sel_max_hp() -> spec_fn(FightEntityInfo) -> i32 {
    |e: FightEntityInfo| opt_or(attr_hp(e.attr), opt_or(e.current_hp, 0))
}

/// The ex point cap an entity starts with: `8` for ex point type `1`, else `5`.
pub fn entity_ex_max(e: &FightEntityInfo) -> (r: i32)
    ensures
        r == (sel_ex_max())(*e),
{
    if e.ex_point_type == Some(1i32) { 8 } else { 5 }
}

} // verus!

verus! {

/// Like `fold_by_uid`, but an entity whose selector gives `None` leaves
/// the map unchanged.
pub open spec fn fold_opt_by_uid(
    es: Seq<FightEntityInfo>,
    m: Map<i64, i32>,
    f: spec_fn(FightEntityInfo) -> Option<i32>,
) -> Map<i64, i32>
    decreases es.len(),
{
    if es.len() == 0 {
        m
    } else {
        let prev = fold_opt_by_uid(es.drop_last(), m, f);
        match (es.last().uid, f(es.last())) {
            (Some(u), Some(v)) => prev.insert(u, v),
            _ => prev,
        }
    }
}

/// One step of `fold_opt_by_uid`.
pub proof fn lemma_fold_opt_by_uid_step(
    es: Seq<FightEntityInfo>,
    i: int,
    m: Map<i64, i32>,
    f: spec_fn(FightEntityInfo) -> Option<i32>,
)
    requires
        0 <= i < es.len(),
    ensures
        fold_opt_by_uid(es.take(i + 1), m, f) == match (es[i].uid, f(es[i])) {
            (Some(u), Some(v)) => fold_opt_by_uid(es.take(i), m, f).insert(u, v),
            _ => fold_opt_by_uid(es.take(i), m, f),
        },
{
    assert(es.take(i + 1).drop_last() =~= es.take(i));
    assert(es.take(i + 1).last() == es[i]);
}

/// The entity's ex points floored at zero (`0` when absent).
pub open spec fn sel_ex_point_floored() -> spec_fn(FightEntityInfo) -> i32 {
    |e: FightEntityInfo| if opt_or(e.ex_point, 0) < 0 { 0i32 } else { opt_or(e.ex_point, 0) }
}

/// The entity's current hp floored at zero (`0` when absent).
pub open spec fn sel_hp_floored() -> spec_fn(FightEntityInfo) -> i32 {
    |e: FightEntityInfo| if opt_or(e.current_hp, 0) < 0 { 0i32 } else { opt_or(e.current_hp, 0) }
}

/// The entity's attribute max hp floored at zero, when it has one.
pub open spec fn sel_attr_max_hp_floored() -> spec_fn(FightEntityInfo) -> Option<i32> {
    |e: FightEntityInfo|
        match attr_hp(e.attr) {
            Some(h) => Some(if h < 0 { 0i32 } else { h }),
            None => None,
        }
}

} // verus!

verus! {

/// Two buffs hold the same values.
pub open spec fn same_buff(a: BuffInfo, b: BuffInfo) -> bool {
    &&& a.uid == b.uid
    &&& a.buff_id == b.buff_id
    &&& a.from_uid == b.from_uid
    &&& a.count == b.count
    &&& a.layer == b.layer
    &&& a.act_common_params.is_some() == b.act_common_params.is_some()
    &&& (a.act_common_params.is_some() ==> a.act_common_params.unwrap()@ == b.act_common_params.unwrap()@)
}

/// Two buff lists hold the same values, place by place.
pub open spec fn same_buffs(a: Seq<BuffInfo>, b: Seq<BuffInfo>) -> bool {
    &&& a.len() == b.len()
    &&& forall|i: int| 0 <= i < a.len() ==> #[trigger] same_buff(a[i], b[i])
}

/// Two entities hold the same values.
pub open spec fn same_entity(a: FightEntityInfo, b: FightEntityInfo) -> bool {
    &&& a.uid == b.uid
    &&& a.model_id == b.model_id
    &&& a.position == b.position
    &&& a.team_type == b.team_type
    &&& a.current_hp == b.current_hp
    &&& a.ex_point == b.ex_point
    &&& a.ex_point_type == b.ex_point_type
    &&& a.attr == b.attr
    &&& a.base_attr == b.base_attr
    &&& same_buffs(a.buffs@, b.buffs@)
    &&& same_buffs(a.no_effect_buffs@, b.no_effect_buffs@)
    &&& a.passive_skill@ == b.passive_skill@
}

impl Clone for BuffInfo {
    fn clone(&self) -> (r: Self)
        ensures
            same_buff(r, *self),
    {
        let params = match &self.act_common_params {
            Some(p) => Some(p.clone()),
            None => None,
        };
        proof {
            if self.act_common_params.is_some() {
                assert(params.unwrap()@ =~= self.act_common_params.unwrap()@);
            }
        }
        BuffInfo {
            uid: self.uid,
            buff_id: self.buff_id,
            from_uid: self.from_uid,
            count: self.count,
            layer: self.layer,
            act_common_params: params,
        }
    }
}

impl Clone for FightEntityInfo {
    fn clone(&self) -> (r: Self)
        ensures
            same_entity(r, *self),
    {
        let buffs = self.buffs.clone();
        let no_effect_buffs = self.no_effect_buffs.clone();
        let passive_skill = self.passive_skill.clone();
        proof {
            assert forall|i: int| 0 <= i < buffs@.len() implies #[trigger] same_buff(buffs@[i], self.buffs@[i]) by {
                assert(cloned::<BuffInfo>(self.buffs@[i], buffs@[i]));
            }
            assert forall|i: int| 0 <= i < no_effect_buffs@.len() implies #[trigger] same_buff(no_effect_buffs@[i], self.no_effect_buffs@[i]) by {
                assert(cloned::<BuffInfo>(self.no_effect_buffs@[i], no_effect_buffs@[i]));
            }
            assert(passive_skill@ =~= self.passive_skill@);
        }
        FightEntityInfo {
            uid: self.uid,
            model_id: self.model_id,
            position: self.position,
            team_type: self.team_type,
            current_hp: self.current_hp,
            ex_point: self.ex_point,
            ex_point_type: self.ex_point_type,
            attr: self.attr,
            base_attr: self.base_attr,
            buffs,
            no_effect_buffs,
            passive_skill,
        }
    }
}

} // verus!
