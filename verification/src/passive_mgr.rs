//! Parsed passive and battle-rule effects: passives per entity, rules
//! once per matching entity.
use std::collections::HashMap;
use std::collections::hash_map::Entry;
use vstd::prelude::*;
use crate::fight::{Fight, FightEntityInfo, all_entities, collect_all_entities, opt_or};
use crate::manager::Manager;

verus! {

/// The effects stored for `uid`, empty when none.
pub open spec fn effects_of<E>(m: Map<i64, Seq<E>>, uid: i64) -> Seq<E> {
    if m.contains_key(uid) { m[uid] } else { Seq::empty() }
}

/// An entity whose passives are loaded: it has a uid, a position above
/// zero and at least one passive.
pub open spec fn loads_passives(e: FightEntityInfo) -> bool {
    e.uid.is_some() && opt_or(e.position, -1i32) > 0 && e.passive_skill@.len() > 0
}

/// `e` is what `parse` can give for some passive of `uid`.
pub open spec fn parsed_from<E, F: Fn(i32, i64) -> Option<E>>(parse: F, uid: i64, e: E) -> bool {
    exists|sid: i32| call_ensures(parse, (sid, uid), Some(e))
}

/// `e` is what `parse` can give for some rule of `rules` and some uid of
/// `uids` the rule applies to.
pub open spec fn rule_parsed<E, F: Fn(i32, i64) -> Option<E>>(
    parse: F,
    rules: Seq<(i32, i32)>,
    uids: Seq<i64>,
    e: E,
) -> bool {
    exists|rj: int, uid: i64|
        0 <= rj < rules.len() && uids.contains(uid) && rule_applies(rules[rj].0, uid) && call_ensures(
            parse,
            (rules[rj].1, uid),
            Some(e),
        )
}

/// `parse` can only succeed on passive `sid` of `uid`.
pub open spec fn parse_total<E, F: Fn(i32, i64) -> Option<E>>(parse: F, sid: i32, uid: i64) -> bool {
    forall|o: Option<E>| #[trigger] call_ensures(parse, (sid, uid), o) ==> o is Some
}

/// `parse` can only succeed on every passive of `e`.
pub open spec fn passives_parse<E, F: Fn(i32, i64) -> Option<E>>(parse: F, e: FightEntityInfo) -> bool {
    forall|k: int| 0 <= k < e.passive_skill@.len() ==> parse_total(parse, #[trigger] e.passive_skill@[k], e.uid->0)
}

/// The entry of `e`'s uid holds one effect per passive of `e`, in order,
/// each what `parse` gave for that passive.
pub open spec fn entry_complete<E, F: Fn(i32, i64) -> Option<E>>(
    parse: F,
    m: Map<i64, Seq<E>>,
    e: FightEntityInfo,
) -> bool {
    let uid = e.uid->0;
    &&& m.contains_key(uid)
    &&& m[uid].len() == e.passive_skill@.len()
    &&& forall|k: int|
        0 <= k < m[uid].len() ==> call_ensures(parse, (e.passive_skill@[k], uid), Some(#[trigger] m[uid][k]))
}

/// Entity `i` loads passives and no later entity before `end` that loads
/// passives carries the same uid, so its entry is the one that stays.
pub open spec fn last_loader(s: Seq<FightEntityInfo>, i: int, end: int) -> bool {
    &&& loads_passives(s[i])
    &&& forall|j: int| i < j < end && loads_passives(#[trigger] s[j]) ==> s[j].uid != s[i].uid
}

/// The effect lists of a map of vectors.
pub open spec fn seqs<E>(m: Map<i64, Vec<E>>) -> Map<i64, Seq<E>> {
    m.map_values(|v: Vec<E>| v@)
}

/// Parsed passive effects per entity uid.
#[derive(Debug)]
pub struct PassiveMgr<E> {
    map: HashMap<i64, Vec<E>>,
}

impl<E> View for PassiveMgr<E> {
    type V = Map<i64, Seq<E>>;

    closed spec fn view(&self) -> Map<i64, Seq<E>> {
        seqs(self.map@)
    }
}

proof fn lemma_seqs_insert<E>(m: Map<i64, Vec<E>>, k: i64, v: Vec<E>)
    ensures
        seqs(m.insert(k, v)) == seqs(m).insert(k, v@),
{
    assert(seqs(m.insert(k, v)) =~= seqs(m).insert(k, v@));
}

impl<E> PassiveMgr<E> {
    /// Parses the passives of every positioned entity with `parse`
    /// (passive id, entity uid); entities whose passives all fail to parse
    /// get no entry. Where two such entities share a uid, the later one's
    /// entry stays.
    pub fn new<F: Fn(i32, i64) -> Option<E>>(fight: &Fight, parse: F) -> (r: Self)
        requires
            forall|sid: i32, uid: i64| call_requires(parse, (sid, uid)),
        ensures
            forall|uid: i64| #[trigger] r@.contains_key(uid) ==> exists|i: int|
                0 <= i < all_entities(*fight).len() && loads_passives(all_entities(*fight)[i])
                    && all_entities(*fight)[i].uid == Some(uid),
            forall|uid: i64| #[trigger] r@.contains_key(uid) ==> r@[uid].len() > 0,
            forall|uid: i64, k: int|
                r@.contains_key(uid) && 0 <= k < r@[uid].len() ==> parsed_from(parse, uid, #[trigger] r@[uid][k]),
            forall|i: int|
                0 <= i < all_entities(*fight).len() && #[trigger] last_loader(
                    all_entities(*fight),
                    i,
                    all_entities(*fight).len() as int,
                ) && passives_parse(parse, all_entities(*fight)[i]) ==> entry_complete(
                    parse,
                    r@,
                    all_entities(*fight)[i],
                ),
    {
        let es = collect_all_entities(fight);
        let ghost s = all_entities(*fight);
        let mut map: HashMap<i64, Vec<E>> = HashMap::new();
        proof { assert(seqs(map@) =~= Map::<i64, Seq<E>>::empty()); }
        let mut i: usize = 0;
        while i < es.len()
            invariant
                es@.len() == s.len(),
                forall|j: int| 0 <= j < es@.len() ==> *es@[j] == s[j],
                i <= es@.len(),
                forall|sid: i32, uid: i64| call_requires(parse, (sid, uid)),
                forall|uid: i64| #[trigger] map@.contains_key(uid) ==> exists|j: int|
                    0 <= j < i && loads_passives(s[j]) && s[j].uid == Some(uid),
                forall|uid: i64| #[trigger] map@.contains_key(uid) ==> map@[uid]@.len() > 0,
                forall|uid: i64, k: int|
                    map@.contains_key(uid) && 0 <= k < map@[uid]@.len() ==> parsed_from(parse, uid, #[trigger] map@[uid]@[k]),
                forall|a: int|
                    0 <= a < i && #[trigger] last_loader(s, a, i as int) && passives_parse(parse, s[a]) ==> entry_complete(
                        parse,
                        seqs(map@),
                        s[a],
                    ),
            decreases es@.len() - i,
        {
            let e = es[i];
            let ghost m0 = map@;
            proof {
                assert(*e == s[i as int]);
            }
            if let Some(uid) = e.uid {
                let pos = match e.position {
                    Some(p) => p,
                    None => -1,
                };
                if pos > 0 && e.passive_skill.len() > 0 {
                    let mut effects: Vec<E> = Vec::new();
                    let mut j: usize = 0;
                    while j < e.passive_skill.len()
                        invariant
                            j <= e.passive_skill@.len(),
                            forall|sid: i32, uid2: i64| call_requires(parse, (sid, uid2)),
                            forall|k: int| 0 <= k < effects@.len() ==> parsed_from(parse, uid, #[trigger] effects@[k]),
                            (forall|k: int| 0 <= k < j ==> parse_total(parse, #[trigger] e.passive_skill@[k], uid))
                                ==> (effects@.len() == j && forall|k: int| 0 <= k < j ==> call_ensures(
                                parse,
                                (e.passive_skill@[k], uid),
                                Some(#[trigger] effects@[k]),
                            )),
                        decreases e.passive_skill@.len() - j,
                    {
                        let sid = e.passive_skill[j];
                        let ghost before = effects@;
                        let res = parse(sid, uid);
                        proof {
                            assert(call_ensures(parse, (sid, uid), res));
                        }
                        match res {
                            Some(eff) => {
                                proof {
                                    assert(parsed_from(parse, uid, eff));
                                }
                                effects.push(eff);
                                proof {
                                    assert forall|k: int| 0 <= k < effects@.len() implies parsed_from(
                                        parse,
                                        uid,
                                        #[trigger] effects@[k],
                                    ) by {
                                        if k < before.len() {
                                            assert(effects@[k] == before[k]);
                                        }
                                    }
                                    if forall|k: int| 0 <= k < j + 1 ==> parse_total(parse, #[trigger] e.passive_skill@[k], uid) {
                                        assert forall|k: int| 0 <= k < j implies parse_total(parse, #[trigger] e.passive_skill@[k], uid) by {
                                            assert(parse_total(parse, e.passive_skill@[k], uid));
                                        }
                                        assert forall|k: int| 0 <= k < j + 1 implies call_ensures(
                                            parse,
                                            (e.passive_skill@[k], uid),
                                            Some(#[trigger] effects@[k]),
                                        ) by {
                                            if k < j {
                                                assert(effects@[k] == before[k]);
                                            }
                                        }
                                    }
                                }
                            },
                            None => {
                                proof {
                                    if forall|k: int| 0 <= k < j + 1 ==> parse_total(parse, #[trigger] e.passive_skill@[k], uid) {
                                        assert(parse_total(parse, e.passive_skill@[j as int], uid));
                                        assert(false);
                                    }
                                }
                            },
                        }
                        j += 1;
                    }
                    if effects.len() > 0 {
                        let ghost ev = effects@;
                        map.insert(uid, effects);
                        proof {
                            lemma_seqs_insert(m0, uid, map@[uid]);
                            assert(map@[uid]@ == ev);
                            assert(loads_passives(s[i as int]));
                            assert forall|u: i64| #[trigger] map@.contains_key(u) implies exists|j: int|
                                0 <= j < i + 1 && loads_passives(s[j]) && s[j].uid == Some(u) by {
                                if u != uid {
                                    assert(m0.contains_key(u));
                                } else {
                                    assert(s[i as int].uid == Some(u));
                                }
                            }
                        }
                    }
                    proof {
                        assert forall|a: int|
                            0 <= a < i + 1 && #[trigger] last_loader(s, a, i + 1) && passives_parse(parse, s[a])
                            implies entry_complete(parse, seqs(map@), s[a]) by {
                            if a < i {
                                assert(last_loader(s, a, i as int));
                                assert(s[a].uid != s[i as int].uid);
                                assert(seqs(m0)[s[a].uid->0] == seqs(map@)[s[a].uid->0]);
                            } else {
                                assert(forall|k: int| 0 <= k < e.passive_skill@.len() ==> parse_total(parse, #[trigger] e.passive_skill@[k], uid));
                            }
                        }
                    }
                } else {
                    proof {
                        assert(!loads_passives(s[i as int]));
                        assert forall|a: int|
                            0 <= a < i + 1 && #[trigger] last_loader(s, a, i + 1) && passives_parse(parse, s[a])
                            implies entry_complete(parse, seqs(map@), s[a]) by {
                            assert(last_loader(s, a, i as int));
                        }
                    }
                }
            } else {
                proof {
                    assert(!loads_passives(s[i as int]));
                    assert forall|a: int|
                        0 <= a < i + 1 && #[trigger] last_loader(s, a, i + 1) && passives_parse(parse, s[a])
                        implies entry_complete(parse, seqs(map@), s[a]) by {
                        assert(last_loader(s, a, i as int));
                    }
                }
            }
            i += 1;
        }
        PassiveMgr { map }
    }

    /// The passive effects of `uid`, empty when none.
    pub fn get(&self, uid: i64) -> (r: &[E])
        ensures
            r@ == effects_of(self@, uid),
    {
        match self.map.get(&uid) {
            Some(v) => v.as_slice(),
            None => &[],
        }
    }

    /// The passive effects of `uid` for updating in place, empty when none.
    pub fn get_mut(&mut self, uid: i64) -> (r: &mut [E])
        ensures
            r@ == effects_of(old(self)@, uid),
            final(self)@ == (if old(self)@.contains_key(uid) {
                old(self)@.insert(uid, final(r)@)
            } else {
                old(self)@
            }),
    {
        match self.map.entry(uid) {
            Entry::Occupied(o) => o.into_mut().as_mut_slice(),
            Entry::Vacant(_) => &mut [],
        }
    }
}

/// Whether a rule with target `prefix` applies to `uid`: `1` players
/// (uid at least zero), `2` enemies (negative uid), anything else all.
pub open spec fn rule_applies(prefix: i32, uid: i64) -> bool {
    if prefix == 1 {
        uid >= 0
    } else if prefix == 2 {
        uid < 0
    } else {
        true
    }
}

/// Whether a rule with target `prefix` applies to `uid`.
pub fn rule_matches(prefix: i32, uid: i64) -> (r: bool)
    ensures
        r == rule_applies(prefix, uid),
{
    match prefix {
        1 => uid >= 0,
        2 => uid < 0,
        _ => true,
    }
}

/// The uids the snapshot's entities carry, in walking order.
pub open spec fn uids_of(es: Seq<FightEntityInfo>) -> Seq<i64>
    decreases es.len(),
{
    if es.len() == 0 {
        Seq::empty()
    } else {
        match es.last().uid {
            Some(u) => uids_of(es.drop_last()).push(u),
            None => uids_of(es.drop_last()),
        }
    }
}

/// The uid of every entity of the snapshot that has one, attackers first.
pub fn all_entity_uids(fight: &Fight) -> (r: Vec<i64>)
    ensures
        r@ == uids_of(all_entities(*fight)),
{
    let es = collect_all_entities(fight);
    let ghost s = all_entities(*fight);
    let mut out: Vec<i64> = Vec::new();
    let mut i: usize = 0;
    while i < es.len()
        invariant
            es@.len() == s.len(),
            forall|j: int| 0 <= j < es@.len() ==> *es@[j] == s[j],
            i <= es@.len(),
            out@ == uids_of(s.take(i as int)),
        decreases es@.len() - i,
    {
        proof {
            assert(s.take(i + 1).drop_last() =~= s.take(i as int));
            assert(s.take(i + 1).last() == s[i as int]);
        }
        if let Some(u) = es[i].uid {
            out.push(u);
        }
        i += 1;
    }
    proof {
        assert(s.take(s.len() as int) =~= s);
    }
    out
}

/// The (effect id, uid) pairs one rule parses: its effect id with every
/// uid of `us` its target prefix applies to, in order.
pub open spec fn rule_pairs_for(rule: (i32, i32), us: Seq<i64>) -> Seq<(i32, i64)>
    decreases us.len(),
{
    if us.len() == 0 {
        Seq::empty()
    } else if rule_applies(rule.0, us.last()) {
        rule_pairs_for(rule, us.drop_last()).push((rule.1, us.last()))
    } else {
        rule_pairs_for(rule, us.drop_last())
    }
}

/// The (effect id, uid) pairs of all rules, rule by rule.
pub open spec fn rule_pairs(rules: Seq<(i32, i32)>, us: Seq<i64>) -> Seq<(i32, i64)>
    decreases rules.len(),
{
    if rules.len() == 0 {
        Seq::empty()
    } else {
        rule_pairs(rules.drop_last(), us) + rule_pairs_for(rules.last(), us)
    }
}

/// `parse` can only succeed on every rule and uid it applies to.
pub open spec fn rules_parse<E, F: Fn(i32, i64) -> Option<E>>(parse: F, rules: Seq<(i32, i32)>, us: Seq<i64>) -> bool {
    forall|rj: int, uid: i64|
        0 <= rj < rules.len() && us.contains(uid) && rule_applies(rules[rj].0, uid) ==> #[trigger] parse_total(
            parse,
            rules[rj].1,
            uid,
        )
}

/// One effect per pair, in order, each what `parse` gave for its pair.
pub open spec fn effects_match<E, F: Fn(i32, i64) -> Option<E>>(
    parse: F,
    pairs: Seq<(i32, i64)>,
    effs: Seq<E>,
) -> bool {
    &&& effs.len() == pairs.len()
    &&& forall|k: int| 0 <= k < effs.len() ==> call_ensures(parse, pairs[k], Some(#[trigger] effs[k]))
}

proof fn lemma_match_push<E, F: Fn(i32, i64) -> Option<E>>(
    parse: F,
    pairs: Seq<(i32, i64)>,
    effs: Seq<E>,
    p: (i32, i64),
    e: E,
)
    requires
        effects_match(parse, pairs, effs),
        call_ensures(parse, p, Some(e)),
    ensures
        effects_match(parse, pairs.push(p), effs.push(e)),
{
    assert forall|k: int| 0 <= k < effs.len() + 1 implies call_ensures(
        parse,
        pairs.push(p)[k],
        Some(#[trigger] effs.push(e)[k]),
    ) by {
        if k < effs.len() {
            assert(effs.push(e)[k] == effs[k]);
            assert(pairs.push(p)[k] == pairs[k]);
        }
    }
}

/// Parsed battle-rule effects, one per rule and matching entity.
#[derive(Debug)]
pub struct RuleMgr<E> {
    pub effects: Vec<E>,
}

impl<E> RuleMgr<E> {
    /// Parses every rule `(prefix, effect id)` of `rules` with `parse` once
    /// for each entity uid the prefix applies to, rules in order, entities
    /// in walking order; parses that fail add nothing.
    pub fn new<F: Fn(i32, i64) -> Option<E>>(fight: &Fight, rules: &Vec<(i32, i32)>, parse: F) -> (r: Self)
        requires
            forall|eid: i32, uid: i64| call_requires(parse, (eid, uid)),
        ensures
            forall|k: int|
                0 <= k < r.effects@.len() ==> rule_parsed(
                    parse,
                    rules@,
                    uids_of(all_entities(*fight)),
                    #[trigger] r.effects@[k],
                ),
            r.effects@.len() <= rules@.len() * uids_of(all_entities(*fight)).len(),
            rules_parse(parse, rules@, uids_of(all_entities(*fight))) ==> effects_match(
                parse,
                rule_pairs(rules@, uids_of(all_entities(*fight))),
                r.effects@,
            ),
    {
        let uids = all_entity_uids(fight);
        let ghost us = uids@;
        let ghost total = rules_parse(parse, rules@, us);
        let mut effects: Vec<E> = Vec::new();
        let mut ri: usize = 0;
        proof {
            assert(rules@.take(0) =~= Seq::<(i32, i32)>::empty());
        }
        while ri < rules.len()
            invariant
                ri <= rules@.len(),
                uids@ == us,
                us == uids_of(all_entities(*fight)),
                total == rules_parse(parse, rules@, us),
                forall|eid: i32, uid: i64| call_requires(parse, (eid, uid)),
                effects@.len() <= ri * us.len(),
                forall|k: int| 0 <= k < effects@.len() ==> rule_parsed(parse, rules@, us, #[trigger] effects@[k]),
                total ==> effects_match(parse, rule_pairs(rules@.take(ri as int), us), effects@),
            decreases rules@.len() - ri,
        {
            let (prefix, effect_id) = rules[ri];
            let ghost start = effects@.len();
            let ghost base = rule_pairs(rules@.take(ri as int), us);
            let mut j: usize = 0;
            proof {
                assert(us.take(0) =~= Seq::<i64>::empty());
            }
            while j < uids.len()
                invariant
                    j <= uids@.len(),
                    ri < rules@.len(),
                    rules@[ri as int] == (prefix, effect_id),
                    uids@ == us,
                    total == rules_parse(parse, rules@, us),
                    forall|eid: i32, uid: i64| call_requires(parse, (eid, uid)),
                    effects@.len() <= start + j,
                    start <= ri * us.len(),
                    forall|k: int| 0 <= k < effects@.len() ==> rule_parsed(parse, rules@, us, #[trigger] effects@[k]),
                    total ==> effects_match(
                        parse,
                        base + rule_pairs_for((prefix, effect_id), us.take(j as int)),
                        effects@,
                    ),
                decreases uids@.len() - j,
            {
                let uid = uids[j];
                let ghost before = effects@;
                proof {
                    assert(us.take(j + 1).drop_last() =~= us.take(j as int));
                    assert(us.take(j + 1).last() == uid);
                    assert(us[j as int] == uid);
                    assert(us.contains(uid));
                }
                if rule_matches(prefix, uid) {
                    let res = parse(effect_id, uid);
                    proof {
                        assert(call_ensures(parse, (effect_id, uid), res));
                    }
                    match res {
                        Some(eff) => {
                            proof {
                                assert(rules@[ri as int].0 == prefix && rules@[ri as int].1 == effect_id);
                                assert(rule_applies(rules@[ri as int].0, uid));
                                let rr = ri as int;
                                assert(0 <= rr < rules@.len() && us.contains(uid) && rule_applies(rules@[rr].0, uid)
                                    && call_ensures(parse, (rules@[rr].1, uid), Some(eff)));
                                assert(rule_parsed(parse, rules@, us, eff));
                            }
                            effects.push(eff);
                            proof {
                                assert forall|k: int| 0 <= k < effects@.len() implies rule_parsed(
                                    parse,
                                    rules@,
                                    us,
                                    #[trigger] effects@[k],
                                ) by {
                                    if k < before.len() {
                                        assert(effects@[k] == before[k]);
                                    }
                                }
                                if total {
                                    lemma_match_push(
                                        parse,
                                        base + rule_pairs_for((prefix, effect_id), us.take(j as int)),
                                        before,
                                        (effect_id, uid),
                                        eff,
                                    );
                                    assert(base + rule_pairs_for((prefix, effect_id), us.take(j + 1)) =~= (base
                                        + rule_pairs_for((prefix, effect_id), us.take(j as int))).push((effect_id, uid)));
                                }
                            }
                        },
                        None => {
                            proof {
                                if total {
                                    assert(parse_total(parse, rules@[ri as int].1, uid));
                                    assert(false);
                                }
                            }
                        },
                    }
                } else {
                    proof {
                        assert(rule_pairs_for((prefix, effect_id), us.take(j + 1)) == rule_pairs_for(
                            (prefix, effect_id),
                            us.take(j as int),
                        ));
                    }
                }
                j += 1;
            }
            proof {
                assert(start + us.len() <= (ri + 1) * us.len()) by (nonlinear_arith)
                    requires
                        start <= ri * us.len(),
                ;
                assert(us.take(us.len() as int) =~= us);
                assert(rules@.take(ri + 1).drop_last() =~= rules@.take(ri as int));
                assert(rules@.take(ri + 1).last() == (prefix, effect_id));
            }
            ri += 1;
        }
        proof {
            assert(rules@.take(rules@.len() as int) =~= rules@);
        }
        RuleMgr { effects }
    }
}

impl<E> Manager for RuleMgr<E> {
}

} // verus!
