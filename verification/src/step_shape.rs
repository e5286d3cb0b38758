//! The shape of a passive phase's output: its buff updates flat in one
//! effect step, everything else wrapped per phase step in another.
use vstd::prelude::*;
use crate::step::{
    Effect, EffectV, Step, StepV, BUFF_UPDATE_EFFECT, FIGHT_STEP_EFFECT, effect_step, effect_step_v, effect_v,
    lemma_values_add, lemma_values_len, lemma_values_push, step_v, step_values, values, wrap_step, wrap_v,
};

verus! {

/// The round-start wrapper that is kept whole.
pub const ROUND_START_WRAPPER_ACT_ID: i32 = 30630171;

/// The buff updates among `s`, in order.
pub open spec fn updates(s: Seq<EffectV>) -> Seq<EffectV>
    decreases s.len(),
{
    if s.len() == 0 {
        Seq::empty()
    } else if s.last().effect_type == Some(BUFF_UPDATE_EFFECT) {
        updates(s.drop_last()).push(s.last())
    } else {
        updates(s.drop_last())
    }
}

/// The effects among `s` that are not buff updates, in order.
pub open spec fn non_updates(s: Seq<EffectV>) -> Seq<EffectV>
    decreases s.len(),
{
    if s.len() == 0 {
        Seq::empty()
    } else if s.last().effect_type == Some(BUFF_UPDATE_EFFECT) {
        non_updates(s.drop_last())
    } else {
        non_updates(s.drop_last()).push(s.last())
    }
}

/// `e` wraps a step other than the round-start wrapper.
pub open spec fn splits_inner(e: EffectV) -> bool {
    e.effect_type == Some(FIGHT_STEP_EFFECT) && match e.fight_step {
        Some(inner) => inner.act_id != Some(ROUND_START_WRAPPER_ACT_ID),
        None => false,
    }
}

/// What `e` puts in the flat update step: itself when a buff update, the
/// buff updates of the step it wraps when that step is split.
pub open spec fn flat_of(e: EffectV) -> Seq<EffectV> {
    if e.effect_type == Some(BUFF_UPDATE_EFFECT) {
        seq![e]
    } else if splits_inner(e) {
        updates(e.fight_step->0.effects)
    } else {
        Seq::empty()
    }
}

/// What `e` keeps for the wrapped step: nothing when a buff update; when
/// it wraps a step that is split, itself with only the wrapped step's other
/// effects (nothing when none is left); otherwise itself.
pub open spec fn kept_of(e: EffectV) -> Seq<EffectV> {
    if e.effect_type == Some(BUFF_UPDATE_EFFECT) {
        Seq::empty()
    } else if splits_inner(e) {
        let inner = *e.fight_step->0;
        let rest = non_updates(inner.effects);
        if rest.len() == 0 {
            Seq::empty()
        } else {
            seq![EffectV { fight_step: Some(Box::new(StepV { effects: rest, ..inner })), ..e }]
        }
    } else {
        seq![e]
    }
}

/// The flat updates of the first `n` effects of `s`.
pub open spec fn flat_seq(s: Seq<EffectV>, n: int) -> Seq<EffectV>
    decreases n,
{
    if n <= 0 { Seq::empty() } else { flat_seq(s, n - 1) + flat_of(s[n - 1]) }
}

/// The kept effects of the first `n` effects of `s`.
pub open spec fn kept_seq(s: Seq<EffectV>, n: int) -> Seq<EffectV>
    decreases n,
{
    if n <= 0 { Seq::empty() } else { kept_seq(s, n - 1) + kept_of(s[n - 1]) }
}

/// The flat updates of the first `n` phase steps.
pub open spec fn all_flat(ps: Seq<StepV>, n: int) -> Seq<EffectV>
    decreases n,
{
    if n <= 0 { Seq::empty() } else { all_flat(ps, n - 1) + flat_seq(ps[n - 1].effects, ps[n - 1].effects.len() as int) }
}

/// The wrapped rest of the first `n` phase steps: one wrapper per step that
/// keeps anything.
pub open spec fn all_wrapped(ps: Seq<StepV>, n: int) -> Seq<EffectV>
    decreases n,
{
    if n <= 0 {
        Seq::empty()
    } else {
        let k = kept_seq(ps[n - 1].effects, ps[n - 1].effects.len() as int);
        if k.len() == 0 {
            all_wrapped(ps, n - 1)
        } else {
            all_wrapped(ps, n - 1).push(wrap_v(effect_step_v(k)))
        }
    }
}

/// A wrapper all of whose wrapped effects wrap the round-start wrapper.
pub open spec fn is_round_start_container(w: EffectV) -> bool {
    match w.fight_step {
        Some(s) => forall|k: int| 0 <= k < s.effects.len() ==> match (#[trigger] s.effects[k]).fight_step {
            Some(x) => x.act_id == Some(ROUND_START_WRAPPER_ACT_ID),
            None => false,
        },
        None => false,
    }
}

/// The phase output: the flat updates and the wrapped rest as one effect
/// step each; when every wrapper is a round-start container they join the
/// updates' step instead.
pub open spec fn split_output(ps: Seq<StepV>) -> Seq<StepV> {
    let f = all_flat(ps, ps.len() as int);
    let w = all_wrapped(ps, ps.len() as int);
    if f.len() > 0 {
        if w.len() > 0 && forall|k: int| 0 <= k < w.len() ==> is_round_start_container(#[trigger] w[k]) {
            seq![effect_step_v(f + w)]
        } else if w.len() > 0 {
            seq![effect_step_v(f), effect_step_v(w)]
        } else {
            seq![effect_step_v(f)]
        }
    } else if w.len() > 0 {
        seq![effect_step_v(w)]
    } else {
        Seq::empty()
    }
}

proof fn lemma_values_take(s: Seq<Effect>, j: int)
    requires
        0 <= j < s.len(),
    ensures
        values(s.take(j + 1)) == values(s.take(j)).push(effect_v(s[j])),
        values(s)[j] == effect_v(s[j]),
        values(s).len() == s.len(),
{
    assert(s.take(j + 1) =~= s.take(j).push(s[j]));
    lemma_values_push(s.take(j), s[j]);
    lemma_values_len(s, s.len() as int);
}

fn split_inner(effects: Vec<Effect>) -> (r: (Vec<Effect>, Vec<Effect>))
    ensures
        values(r.0@) == updates(values(effects@)),
        values(r.1@) == non_updates(values(effects@)),
{
    let ghost s = effects@;
    let mut src = effects;
    let mut ups: Vec<Effect> = Vec::new();
    let mut rest: Vec<Effect> = Vec::new();
    let mut j: usize = 0;
    proof {
        assert(s.take(0) =~= Seq::<Effect>::empty());
        assert(values(s.take(0)) =~= Seq::<EffectV>::empty());
        assert(values(ups@) =~= Seq::<EffectV>::empty());
        assert(values(rest@) =~= Seq::<EffectV>::empty());
        assert(s.len() == src.len());
    }
    while src.len() > 0
        invariant
            s.len() <= usize::MAX,
            j <= s.len(),
            src@ == s.skip(j as int),
            values(ups@) == updates(values(s.take(j as int))),
            values(rest@) == non_updates(values(s.take(j as int))),
        decreases src@.len(),
    {
        let e = src.remove(0);
        proof {
            assert(e == s[j as int]);
            assert(src@ =~= s.skip(j + 1));
            lemma_values_take(s, j as int);
            let v = values(s.take(j + 1));
            assert(v.drop_last() =~= values(s.take(j as int)));
            assert(v.last() == effect_v(e));
        }
        if e.effect_type == Some(BUFF_UPDATE_EFFECT) {
            proof { lemma_values_push(ups@, e); }
            ups.push(e);
        } else {
            proof { lemma_values_push(rest@, e); }
            rest.push(e);
        }
        j += 1;
    }
    proof {
        assert(s.take(s.len() as int) =~= s);
    }
    (ups, rest)
}

fn shape_effect(e: Effect, flat: &mut Vec<Effect>, kept: &mut Vec<Effect>)
    ensures
        values(final(flat)@) == values(old(flat)@) + flat_of(effect_v(e)),
        values(final(kept)@) == values(old(kept)@) + kept_of(effect_v(e)),
{
    let ghost ev = effect_v(e);
    if e.effect_type == Some(BUFF_UPDATE_EFFECT) {
        proof {
            lemma_values_push(flat@, e);
            assert(values(kept@) + Seq::<EffectV>::empty() =~= values(kept@));
        }
        flat.push(e);
        return ;
    }
    let splits = e.effect_type == Some(FIGHT_STEP_EFFECT) && match &e.fight_step {
        Some(inner) => inner.act_id != Some(ROUND_START_WRAPPER_ACT_ID),
        None => false,
    };
    if !splits {
        proof {
            lemma_values_push(kept@, e);
            assert(values(flat@) + Seq::<EffectV>::empty() =~= values(flat@));
        }
        kept.push(e);
        return ;
    }
    let Effect { effect_type, target_id, effect_num, effect_num1, reserve_id, buff, fight_step } = e;
    let boxed = match fight_step {
        Some(b) => b,
        None => {
            return ;
        },
    };
    let inner = *boxed;
    let ghost iv = step_v(inner);
    let Step { act_type, from_id, to_id, act_id, act_effect } = inner;
    proof {
        assert(iv.effects == values(act_effect@));
    }
    let (mut ups, rest) = split_inner(act_effect);
    let ghost f0 = flat@;
    let ghost u0 = ups@;
    flat.append(&mut ups);
    proof {
        assert(flat@ == f0 + u0);
        lemma_values_add(f0, u0);
    }
    if rest.len() > 0 {
        let ghost rv = values(rest@);
        let ne = Effect {
            effect_type,
            target_id,
            effect_num,
            effect_num1,
            reserve_id,
            buff,
            fight_step: Some(Box::new(Step { act_type, from_id, to_id, act_id, act_effect: rest })),
        };
        proof {
            lemma_values_push(kept@, ne);
            assert(effect_v(ne) == EffectV { fight_step: Some(Box::new(StepV { effects: rv, ..iv })), ..ev });
        }
        kept.push(ne);
    } else {
        proof {
            lemma_values_len(rest@, 0);
            assert(values(kept@) + Seq::<EffectV>::empty() =~= values(kept@));
        }
    }
}

fn round_start_container(w: &Effect) -> (r: bool)
    ensures
        r == is_round_start_container(effect_v(*w)),
{
    match &w.fight_step {
        Some(st) => {
            proof {
                lemma_values_len(st.act_effect@, st.act_effect@.len() as int);
            }
            let mut k: usize = 0;
            while k < st.act_effect.len()
                invariant
                    w.fight_step == Some(*st),
                    k <= st.act_effect@.len(),
                    values(st.act_effect@).len() == st.act_effect@.len(),
                    forall|j: int| 0 <= j < st.act_effect@.len() ==> #[trigger] values(st.act_effect@)[j] == effect_v(
                        st.act_effect@[j],
                    ),
                    forall|j: int| 0 <= j < k ==> match (#[trigger] values(st.act_effect@)[j]).fight_step {
                        Some(x) => x.act_id == Some(ROUND_START_WRAPPER_ACT_ID),
                        None => false,
                    },
                decreases st.act_effect@.len() - k,
            {
                let ok = match &st.act_effect[k].fight_step {
                    Some(x) => x.act_id == Some(ROUND_START_WRAPPER_ACT_ID),
                    None => false,
                };
                proof {
                    assert(values(st.act_effect@)[k as int] == effect_v(st.act_effect@[k as int]));
                }
                if !ok {
                    return false;
                }
                k += 1;
            }
            true
        },
        None => false,
    }
}

/// Splits a passive phase's steps into one effect step with every buff
/// update (those wrapped one level down hoisted out of their wrapper) and
/// one effect step wrapping, per phase step, everything else; when every
/// such wrapper only carries round-start wrappers, all of it goes into the
/// update step. See [`split_output`].
pub fn split_updates_and_wrap_rest(steps: Vec<Step>) -> (r: Vec<Step>)
    ensures
        step_values(r@) == split_output(step_values(steps@)),
{
    let ghost ss = steps@;
    let ghost ps = step_values(ss);
    let mut rest = steps;
    let mut flat: Vec<Effect> = Vec::new();
    let mut wrapped: Vec<Effect> = Vec::new();
    let mut i: usize = 0;
    proof {
        assert(ss.len() == rest.len());
        lemma_values_len(flat@, 0);
        assert(values(flat@) =~= all_flat(ps, 0));
        assert(values(wrapped@) =~= all_wrapped(ps, 0));
        assert(rest@ =~= ss.skip(0));
    }
    while rest.len() > 0
        invariant
            ss.len() <= usize::MAX,
            ps == step_values(ss),
            i <= ss.len(),
            rest@ == ss.skip(i as int),
            values(flat@) == all_flat(ps, i as int),
            values(wrapped@) == all_wrapped(ps, i as int),
        decreases rest@.len(),
    {
        let st = rest.remove(0);
        proof {
            assert(st == ss[i as int]);
            assert(rest@ =~= ss.skip(i + 1));
            assert(ps[i as int] == step_v(st));
        }
        let Step { act_type: _, from_id: _, to_id: _, act_id: _, act_effect } = st;
        let ghost es = act_effect@;
        let ghost pe = ps[i as int].effects;
        proof {
            assert(pe == values(es));
            lemma_values_len(es, es.len() as int);
            assert(es.len() == act_effect.len());
        }
        let mut src = act_effect;
        let mut kept: Vec<Effect> = Vec::new();
        let ghost flat0 = values(flat@);
        let mut j: usize = 0;
        proof {
            assert(values(kept@) =~= kept_seq(pe, 0));
            assert(values(flat@) =~= flat0 + flat_seq(pe, 0));
        }
        while src.len() > 0
            invariant
                es.len() <= usize::MAX,
                pe == values(es),
                pe.len() == es.len(),
                forall|k: int| 0 <= k < es.len() ==> #[trigger] pe[k] == effect_v(es[k]),
                j <= es.len(),
                src@ == es.skip(j as int),
                values(kept@) == kept_seq(pe, j as int),
                values(flat@) == flat0 + flat_seq(pe, j as int),
            decreases src@.len(),
        {
            let e = src.remove(0);
            proof {
                assert(e == es[j as int]);
                assert(src@ =~= es.skip(j + 1));
                assert(pe[j as int] == effect_v(e));
            }
            shape_effect(e, &mut flat, &mut kept);
            proof {
                assert(flat0 + flat_seq(pe, j as int) + flat_of(pe[j as int]) =~= flat0 + flat_seq(pe, j + 1));
            }
            j += 1;
        }
        proof {
            assert(flat0 + flat_seq(pe, pe.len() as int) == all_flat(ps, i + 1));
        }
        if kept.len() > 0 {
            let ghost kv = values(kept@);
            let w = wrap_step(effect_step(kept));
            proof {
                lemma_values_push(wrapped@, w);
                lemma_values_len(kept@, kept@.len() as int);
            }
            wrapped.push(w);
        } else {
            proof {
                lemma_values_len(kept@, 0);
            }
        }
        i += 1;
    }
    let ghost fv = values(flat@);
    let ghost wv = values(wrapped@);
    proof {
        assert(fv == all_flat(ps, ps.len() as int));
        assert(wv == all_wrapped(ps, ps.len() as int));
        lemma_values_len(flat@, flat@.len() as int);
        lemma_values_len(wrapped@, wrapped@.len() as int);
    }
    let mut out: Vec<Step> = Vec::new();
    if flat.len() > 0 {
        let mut all_containers = wrapped.len() > 0;
        let mut k: usize = 0;
        while k < wrapped.len()
            invariant
                k <= wrapped@.len(),
                wv == values(wrapped@),
                wv.len() == wrapped@.len(),
                forall|j: int| 0 <= j < wrapped@.len() ==> #[trigger] wv[j] == effect_v(wrapped@[j]),
                all_containers == (wrapped@.len() > 0 && forall|j: int| 0 <= j < k ==> is_round_start_container(
                    #[trigger] wv[j],
                )),
            decreases wrapped@.len() - k,
        {
            let c = round_start_container(&wrapped[k]);
            proof {
                assert(wv[k as int] == effect_v(wrapped@[k as int]));
            }
            all_containers = all_containers && c;
            k += 1;
        }
        if all_containers {
            let ghost f0 = flat@;
            let ghost w0 = wrapped@;
            let mut f = flat;
            let mut w = wrapped;
            f.append(&mut w);
            proof {
                lemma_values_add(f0, w0);
            }
            out.push(effect_step(f));
        } else if wrapped.len() > 0 {
            out.push(effect_step(flat));
            out.push(effect_step(wrapped));
        } else {
            out.push(effect_step(flat));
        }
    } else if wrapped.len() > 0 {
        out.push(effect_step(wrapped));
    }
    proof {
        assert(step_values(out@) =~= split_output(ps));
    }
    out
}

} // verus!
