//! The steps a round emits: each step has an act type, a source and a
//! target, an act id and its effects; an effect may wrap a nested step.
use vstd::prelude::*;
use crate::fight::BuffInfo;

verus! {

/// What kind of act a step is.
#[derive(Debug, Clone, Copy, PartialEq, Eq, Structural)]
pub enum ActType {
    /// A container of effects.
    Effect,
    /// A skill cast.
    Skill,
    /// Any other act kind, by its code.
    Other(i32),
}

/// One effect of a step.
#[derive(Debug)]
pub struct Effect {
    pub effect_type: Option<i32>,
    pub target_id: Option<i64>,
    pub effect_num: Option<i32>,
    pub effect_num1: Option<i32>,
    pub reserve_id: Option<i64>,
    /// The buff an effect adds or updates.
    pub buff: Option<BuffInfo>,
    /// The step this effect wraps, if any.
    pub fight_step: Option<Box<Step>>,
}

/// One step of a round.
#[derive(Debug)]
pub struct Step {
    pub act_type: Option<ActType>,
    pub from_id: Option<i64>,
    pub to_id: Option<i64>,
    pub act_id: Option<i32>,
    pub act_effect: Vec<Effect>,
}

/// The effect type that wraps a nested step.
pub const FIGHT_STEP_EFFECT: i32 = 162;

/// The effect type of a buff update.
pub const BUFF_UPDATE_EFFECT: i32 = 7;

/// The effect type that opens the round end (card energy allocation).
pub const ALLOCATE_CARD_ENERGY_EFFECT: i32 = 276;

/// The type of the first effect of a step, when it has one.
pub open spec fn first_effect_type(s: Step) -> Option<i32> {
    if s.act_effect@.len() > 0 { s.act_effect@[0].effect_type } else { None }
}

/// The type of the first effect of `s`.
pub fn step_first_effect_type(s: &Step) -> (r: Option<i32>)
    ensures
        r == first_effect_type(*s),
{
    if s.act_effect.len() > 0 { s.act_effect[0].effect_type } else { None }
}

/// The value of an effect, its nested step included.
pub ghost struct EffectV {
    pub effect_type: Option<i32>,
    pub target_id: Option<i64>,
    pub effect_num: Option<i32>,
    pub effect_num1: Option<i32>,
    pub reserve_id: Option<i64>,
    pub buff: Option<BuffInfo>,
    pub fight_step: Option<Box<StepV>>,
}

/// The value of a step, its nested steps included.
pub ghost struct StepV {
    pub act_type: Option<ActType>,
    pub from_id: Option<i64>,
    pub to_id: Option<i64>,
    pub act_id: Option<i32>,
    pub effects: Seq<EffectV>,
}

/// The value of step `s`.
pub open spec fn step_v(s: Step) -> StepV
    decreases s, 1int,
{
    StepV {
        act_type: s.act_type,
        from_id: s.from_id,
        to_id: s.to_id,
        act_id: s.act_id,
        effects: effects_v(s.act_effect@, s.act_effect@.len() as int),
    }
}

/// The values of the first `n` effects of `es`.
pub open spec fn effects_v(es: Seq<Effect>, n: int) -> Seq<EffectV>
    decreases es, n,
{
    if n <= 0 || n > es.len() {
        Seq::empty()
    } else {
        effects_v(es, n - 1).push(effect_v(es[n - 1]))
    }
}

/// The value of effect `e`.
pub open spec fn effect_v(e: Effect) -> EffectV
    decreases e, 0int,
{
    EffectV {
        effect_type: e.effect_type,
        target_id: e.target_id,
        effect_num: e.effect_num,
        effect_num1: e.effect_num1,
        reserve_id: e.reserve_id,
        buff: e.buff,
        fight_step: match e.fight_step {
            Some(b) => Some(Box::new(step_v(*b))),
            None => None,
        },
    }
}

/// The values of all of `es`.
pub open spec fn values(es: Seq<Effect>) -> Seq<EffectV> {
    effects_v(es, es.len() as int)
}

/// The values of steps.
pub open spec fn step_values(ss: Seq<Step>) -> Seq<StepV> {
    ss.map_values(|s: Step| step_v(s))
}

/// An effect container holding `effects`, nothing else set.
pub open spec fn effect_step_v(effects: Seq<EffectV>) -> StepV {
    StepV { act_type: Some(ActType::Effect), from_id: None, to_id: None, act_id: None, effects }
}

/// `s` wrapped as an effect, nothing else set.
pub open spec fn wrap_v(s: StepV) -> EffectV {
    EffectV {
        effect_type: Some(FIGHT_STEP_EFFECT),
        target_id: None,
        effect_num: None,
        effect_num1: None,
        reserve_id: None,
        buff: None,
        fight_step: Some(Box::new(s)),
    }
}

/// `values` of a prefix: one value per effect, in order.
pub proof fn lemma_values_len(es: Seq<Effect>, n: int)
    requires
        0 <= n <= es.len(),
    ensures
        effects_v(es, n).len() == n,
        forall|k: int| 0 <= k < n ==> #[trigger] effects_v(es, n)[k] == effect_v(es[k]),
    decreases n,
{
    if n > 0 {
        lemma_values_len(es, n - 1);
    }
}

/// The values of `es` followed by `e`.
pub proof fn lemma_values_push(es: Seq<Effect>, e: Effect)
    ensures
        values(es.push(e)) == values(es).push(effect_v(e)),
{
    lemma_values_len(es.push(e), (es.len() + 1) as int);
    lemma_values_len(es, es.len() as int);
    assert(values(es.push(e)) =~= values(es).push(effect_v(e)));
}

/// The values of `a + b`.
pub proof fn lemma_values_add(a: Seq<Effect>, b: Seq<Effect>)
    ensures
        values(a + b) == values(a) + values(b),
{
    lemma_values_len(a + b, (a.len() + b.len()) as int);
    lemma_values_len(a, a.len() as int);
    lemma_values_len(b, b.len() as int);
    assert(values(a + b) =~= values(a) + values(b));
}

/// An effect container holding `effects`, nothing else set.
pub fn effect_step(effects: Vec<Effect>) -> (r: Step)
    ensures
        step_v(r) == effect_step_v(values(effects@)),
        r.act_effect@ == effects@,
{
    Step { act_type: Some(ActType::Effect), from_id: None, to_id: None, act_id: None, act_effect: effects }
}

/// `s` wrapped as an effect, nothing else set.
pub fn wrap_step(s: Step) -> (r: Effect)
    ensures
        effect_v(r) == wrap_v(step_v(s)),
        r.fight_step == Some(Box::new(s)),
{
    Effect {
        effect_type: Some(FIGHT_STEP_EFFECT),
        target_id: None,
        effect_num: None,
        effect_num1: None,
        reserve_id: None,
        buff: None,
        fight_step: Some(Box::new(s)),
    }
}

} // verus!
