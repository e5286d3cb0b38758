//! Battle rules: the `target#skill id` entries a battle's rule texts list.
use vstd::prelude::*;
use crate::config::{BattleConfig, BattleRow};
use crate::fight::{Fight, opt_or};
use crate::round_mgr::find_battle;
use crate::table::first_index;
use crate::text::{parse_i32, parse_i32_range, split, split_range};

verus! {

/// One rule entry `target#skill id`: the target (1 players, 2 enemies,
/// 3 everyone) and the skill id, when both read as integers and the
/// target is one of those three.
pub open spec fn rule_entry(e: Seq<u8>) -> Option<(i32, i32)> {
    let parts = split(e, 35u8);
    match parse_i32(parts[0]) {
        Some(p) => if 1 <= p <= 3 && parts.len() >= 2 {
            match parse_i32(parts[1]) {
                Some(sk) => Some((p, sk)),
                None => None,
            }
        } else {
            None
        },
        None => None,
    }
}

/// The readable entries among `fields`, in order.
pub open spec fn rule_entries(fields: Seq<Seq<u8>>) -> Seq<(i32, i32)>
    decreases fields.len(),
{
    if fields.len() == 0 {
        Seq::empty()
    } else {
        match rule_entry(fields.last()) {
            Some(x) => rule_entries(fields.drop_last()).push(x),
            None => rule_entries(fields.drop_last()),
        }
    }
}

/// The entries of a `|`-separated rule text.
pub open spec fn rule_text_entries(s: Seq<u8>) -> Seq<(i32, i32)> {
    rule_entries(split(s, 124u8))
}

/// The `(target, skill id)` rules of battle `battle_id`: its announced
/// rules, then its hidden ones; none when the table has no such battle.
pub open spec fn battle_rules(cfg: BattleConfig, battle_id: i32) -> Seq<(i32, i32)> {
    match first_index(cfg.battle@, |b: BattleRow| b.id == battle_id) {
        Some(i) => rule_text_entries(cfg.battle@[i].addition_rule@) + rule_text_entries(cfg.battle@[i].hidden_rule@),
        None => Seq::empty(),
    }
}

fn entry_of(s: &Vec<u8>, a: usize, b: usize) -> (r: Option<(i32, i32)>)
    requires
        a <= b <= s@.len(),
    ensures
        r == rule_entry(s@.subrange(a as int, b as int)),
{
    let parts = split_range(s.as_slice(), a, b, 35u8);
    let prefix = match parse_i32_range(s.as_slice(), parts[0].0, parts[0].1) {
        Some(p) => p,
        None => return None,
    };
    if prefix < 1 || prefix > 3 || parts.len() < 2 {
        return None;
    }
    match parse_i32_range(s.as_slice(), parts[1].0, parts[1].1) {
        Some(sk) => Some((prefix, sk)),
        None => None,
    }
}

/// The entries of the rule text `s`, in order.
fn text_rules(s: &Vec<u8>, out: &mut Vec<(i32, i32)>)
    ensures
        final(out)@ == old(out)@ + rule_text_entries(s@),
{
    let fields = split_range(s.as_slice(), 0, s.len(), 124u8);
    let ghost fs = split(s@.subrange(0, s@.len() as int), 124u8);
    proof {
        assert(s@.subrange(0, s@.len() as int) =~= s@);
    }
    let ghost base = out@;
    let mut i: usize = 0;
    proof {
        assert(fs.take(0) =~= Seq::<Seq<u8>>::empty());
        assert(base + rule_entries(fs.take(0)) =~= base);
    }
    while i < fields.len()
        invariant
            fs == split(s@, 124u8),
            fields@.len() == fs.len(),
            forall|k: int| 0 <= k < fields@.len() ==> #[trigger] fields@[k].0 <= fields@[k].1 <= s@.len(),
            forall|k: int| 0 <= k < fields@.len() ==> s@.subrange(#[trigger] fields@[k].0 as int, fields@[k].1 as int) == fs[k],
            i <= fields@.len(),
            out@ == base + rule_entries(fs.take(i as int)),
        decreases fields@.len() - i,
    {
        let (a, b) = fields[i];
        let e = entry_of(s, a, b);
        proof {
            assert(fs.take(i + 1).drop_last() =~= fs.take(i as int));
            assert(fs.take(i + 1).last() == fs[i as int]);
        }
        match e {
            Some(x) => {
                out.push(x);
                proof {
                    assert(base + rule_entries(fs.take(i as int)).push(x) =~= (base + rule_entries(fs.take(i as int))).push(x));
                }
            },
            None => {},
        }
        i += 1;
    }
    proof {
        assert(fs.take(fs.len() as int) =~= fs);
    }
}

/// The rules of the battle `fight` is for, each with its skill id resolved
/// to a skill effect id by `resolve`: `(target, effect id)` in table
/// order, announced rules first.
pub fn collect_rules<F: Fn(i32) -> i32>(fight: &Fight, cfg: &BattleConfig, resolve: F) -> (r: Vec<(i32, i32)>)
    requires
        forall|sk: i32| call_requires(resolve, (sk,)),
    ensures
        r@.len() == battle_rules(*cfg, opt_or(fight.battle_id, 0)).len(),
        forall|k: int|
            0 <= k < r@.len() ==> (#[trigger] r@[k]).0 == battle_rules(*cfg, opt_or(fight.battle_id, 0))[k].0
                && call_ensures(resolve, (battle_rules(*cfg, opt_or(fight.battle_id, 0))[k].1,), r@[k].1),
{
    let battle_id = match fight.battle_id {
        Some(b) => b,
        None => 0,
    };
    let ghost rules = battle_rules(*cfg, battle_id);
    let idx = match find_battle(&cfg.battle, battle_id) {
        Some(i) => i,
        None => return Vec::new(),
    };
    let battle = &cfg.battle[idx];
    let mut raw: Vec<(i32, i32)> = Vec::new();
    text_rules(&battle.addition_rule, &mut raw);
    text_rules(&battle.hidden_rule, &mut raw);
    proof {
        assert(raw@ =~= rules);
    }
    let mut out: Vec<(i32, i32)> = Vec::new();
    let mut k: usize = 0;
    while k < raw.len()
        invariant
            raw@ == rules,
            k <= raw@.len(),
            out@.len() == k,
            forall|sk: i32| call_requires(resolve, (sk,)),
            forall|j: int| 0 <= j < k ==> (#[trigger] out@[j]).0 == rules[j].0 && call_ensures(resolve, (rules[j].1,), out@[j].1),
        decreases raw@.len() - k,
    {
        let (p, sk) = raw[k];
        let eid = resolve(sk);
        out.push((p, eid));
        k += 1;
    }
    out
}

/// The effect ids of the battle's rules, in the order `collect_rules`
/// gives them.
pub fn collect_battle_rule_skills<F: Fn(i32) -> i32>(fight: &Fight, cfg: &BattleConfig, resolve: F) -> (r: Vec<i32>)
    requires
        forall|sk: i32| call_requires(resolve, (sk,)),
    ensures
        r@.len() == battle_rules(*cfg, opt_or(fight.battle_id, 0)).len(),
        forall|k: int|
            0 <= k < r@.len() ==> call_ensures(resolve, (battle_rules(*cfg, opt_or(fight.battle_id, 0))[k].1,), #[trigger] r@[k]),
{
    let rules = collect_rules(fight, cfg, resolve);
    let mut out: Vec<i32> = Vec::new();
    let mut k: usize = 0;
    while k < rules.len()
        invariant
            k <= rules@.len(),
            out@.len() == k,
            rules@.len() == battle_rules(*cfg, opt_or(fight.battle_id, 0)).len(),
            forall|j: int|
                0 <= j < rules@.len() ==> call_ensures(resolve, (battle_rules(*cfg, opt_or(fight.battle_id, 0))[j].1,), (#[trigger] rules@[j]).1),
            forall|j: int| 0 <= j < k ==> out@[j] == rules@[j].1,
        decreases rules@.len() - k,
    {
        out.push(rules[k].1);
        k += 1;
    }
    out
}

} // verus!
