//! Nautika's carrier bundle (her psychube carrier or her channel host):
//! after the round end, Semmelweis's ally-side cycle broadcast moves into
//! the carrier-host bundle, and the orphan ally broadcasts and the
//! enemy-side cycle deletions go.
use vstd::prelude::*;
use crate::fight::opt_or;
use crate::step::{ActType, Effect, Step, ALLOCATE_CARD_ENERGY_EFFECT, FIGHT_STEP_EFFECT, first_effect_type, step_first_effect_type};
use crate::table::{first_index, lemma_first_index, lemma_first_index_is, lemma_first_index_none};

verus! {

/// The carrier-host wrapper act id the bundle is rooted under.
pub const CARRIER_HOST_ACT_ID: i32 = 31200193;

/// The ally-side battle-rule cycle broadcast skill.
pub const BOSS_CYCLE_ACT_ID: i32 = 530000151;

/// The enemy-side companion deletion the bundle absorbs.
pub const ENEMY_CYCLE_DEL_ACT_ID: i32 = 530000412;

/// The skill an effect wraps, as far as the bundle reads it.
#[derive(Debug, Clone, Copy, PartialEq, Eq, Structural)]
pub struct WrapInfo {
    pub act_id: Option<i32>,
    pub from_id: Option<i64>,
    pub to_id: Option<i64>,
}

/// Whether `s` is the carrier-host bundle of `host`: an effect step whose
/// first effect wraps an effect step with one of the host act ids
/// `hosts`, from and to `host`.
pub open spec fn is_bundle_step(s: Step, host: i64, hosts: Seq<i32>) -> bool {
    &&& s.act_type == Some(ActType::Effect)
    &&& s.act_effect@.len() > 0
    &&& s.act_effect@[0].effect_type == Some(FIGHT_STEP_EFFECT)
    &&& match s.act_effect@[0].fight_step {
        Some(w) => w.act_type == Some(ActType::Effect) && (match w.act_id {
            Some(a) => hosts.contains(a),
            None => false,
        }) && w.from_id == Some(host) && w.to_id == Some(host),
        None => false,
    }
}

fn contains_i32(v: &Vec<i32>, x: i32) -> (r: bool)
    ensures
        r == v@.contains(x),
{
    let mut i: usize = 0;
    while i < v.len()
        invariant
            i <= v@.len(),
            forall|k: int| 0 <= k < i ==> v@[k] != x,
        decreases v@.len() - i,
    {
        if v[i] == x {
            proof {
                assert(v@[i as int] == x);
            }
            return true;
        }
        i += 1;
    }
    false
}

fn bundle_step_check(s: &Step, host: i64, hosts: &Vec<i32>) -> (r: bool)
    ensures
        r == is_bundle_step(*s, host, hosts@),
{
    if s.act_type != Some(ActType::Effect) || s.act_effect.len() == 0 {
        return false;
    }
    let first = &s.act_effect[0];
    if first.effect_type != Some(FIGHT_STEP_EFFECT) {
        return false;
    }
    match &first.fight_step {
        Some(w) => w.act_type == Some(ActType::Effect) && (match w.act_id {
            Some(a) => contains_i32(hosts, a),
            None => false,
        }) && w.from_id == Some(host) && w.to_id == Some(host),
        None => false,
    }
}

/// What the sweep reads: the steps, the skill each of their effects wraps,
/// the round-end and bundle indices, Semmelweis's uid and whether the
/// ally broadcasts go.
pub ghost struct Sweep {
    pub steps: Seq<Step>,
    pub wraps: Seq<Seq<Option<WrapInfo>>>,
    pub round_end: int,
    pub bundle: int,
    pub semm: i64,
}

/// Step `i` is scanned: after the round end, not the bundle, an effect
/// step without act id.
pub open spec fn scanned(c: Sweep, i: int) -> bool {
    &&& c.round_end < i < c.steps.len()
    &&& i != c.bundle
    &&& c.steps[i].act_type == Some(ActType::Effect)
    &&& opt_or(c.steps[i].act_id, 0) == 0
}

/// Effect `j` of step `i` wraps an ally-side cycle broadcast.
pub open spec fn ally_at(c: Sweep, i: int, j: int) -> bool {
    &&& scanned(c, i)
    &&& 0 <= j < c.steps[i].act_effect@.len()
    &&& match c.wraps[i][j] {
        Some(w) => w.act_id == Some(BOSS_CYCLE_ACT_ID) && opt_or(w.from_id, 0) > 0,
        None => false,
    }
}

/// Effect `j` of step `i` wraps an enemy-side cycle deletion.
pub open spec fn enemy_at(c: Sweep, i: int, j: int) -> bool {
    &&& scanned(c, i)
    &&& 0 <= j < c.steps[i].act_effect@.len()
    &&& match c.wraps[i][j] {
        Some(w) => w.act_id == Some(ENEMY_CYCLE_DEL_ACT_ID) && opt_or(w.from_id, 0) < 0,
        None => false,
    }
}

/// Effect `j` of step `i` is Semmelweis's own ally broadcast.
pub open spec fn semm_at(c: Sweep, i: int, j: int) -> bool {
    ally_at(c, i, j) && opt_or(c.wraps[i][j]->0.from_id, 0) == c.semm
}

/// `(i2, j2)` comes before `(i, j)` in step-then-effect order.
pub open spec fn before(i2: int, j2: int, i: int, j: int) -> bool {
    i2 < i || (i2 == i && j2 < j)
}

/// `(i, j)` is the first of Semmelweis's ally broadcasts.
pub open spec fn first_semm(c: Sweep, i: int, j: int) -> bool {
    semm_at(c, i, j) && forall|i2: int, j2: int| #[trigger] before(i2, j2, i, j) ==> !semm_at(c, i2, j2)
}

/// Some ally broadcast is Semmelweis's.
pub open spec fn has_semm(c: Sweep) -> bool {
    exists|i: int, j: int| semm_at(c, i, j)
}

/// The bundle already carries Semmelweis's broadcast (from and to him).
pub open spec fn host_has_semm(c: Sweep) -> bool {
    exists|j: int|
        0 <= j < c.steps[c.bundle].act_effect@.len() && match #[trigger] c.wraps[c.bundle][j] {
            Some(w) => w.act_id == Some(BOSS_CYCLE_ACT_ID) && w.from_id == Some(c.semm) && w.to_id == Some(c.semm),
            None => false,
        }
}

/// Effect `j` of step `i` is removed: an enemy deletion, or an ally
/// broadcast once Semmelweis's broadcast is in (or going into) the bundle.
pub open spec fn removed_at(c: Sweep, i: int, j: int) -> bool {
    ((host_has_semm(c) || has_semm(c)) && ally_at(c, i, j)) || enemy_at(c, i, j)
}

/// The first `n` effects of `s` (those of step `i`) that are not removed.
pub open spec fn kept(c: Sweep, i: int, s: Seq<Effect>, n: int) -> Seq<Effect>
    decreases n,
{
    if n <= 0 {
        Seq::empty()
    } else if removed_at(c, i, n - 1) {
        kept(c, i, s, n - 1)
    } else {
        kept(c, i, s, n - 1).push(s[n - 1])
    }
}

/// One of the first `n` effects of step `i` is removed.
pub open spec fn any_removed(c: Sweep, i: int, n: int) -> bool
    decreases n,
{
    if n <= 0 { false } else { any_removed(c, i, n - 1) || removed_at(c, i, n - 1) }
}

/// The effects of step `i` once the broadcast `ins` joined the bundle.
pub open spec fn effects_in(c: Sweep, i: int, ins: Option<Effect>) -> Seq<Effect> {
    match ins {
        Some(e) => if i == c.bundle { c.steps[i].act_effect@.push(e) } else { c.steps[i].act_effect@ },
        None => c.steps[i].act_effect@,
    }
}

/// The effects step `i` keeps.
pub open spec fn new_effects(c: Sweep, i: int, ins: Option<Effect>) -> Seq<Effect> {
    kept(c, i, effects_in(c, i, ins), effects_in(c, i, ins).len() as int)
}

/// Step `i` goes: it lost effects and none is left.
pub open spec fn dropped(c: Sweep, i: int, ins: Option<Effect>) -> bool {
    any_removed(c, i, effects_in(c, i, ins).len() as int) && new_effects(c, i, ins).len() == 0
}

/// The indices of the first `n` steps that stay, in order.
pub open spec fn survivors(c: Sweep, ins: Option<Effect>, n: int) -> Seq<int>
    decreases n,
{
    if n <= 0 {
        Seq::empty()
    } else if dropped(c, n - 1, ins) {
        survivors(c, ins, n - 1)
    } else {
        survivors(c, ins, n - 1).push(n - 1)
    }
}

/// The sweep of `steps`, when everything it needs is there: Semmelweis
/// and Nautika are in the battle, the carrier host appears, a step opens
/// with the round end and Nautika's bundle is found.
pub open spec fn sweep_of(
    steps: Seq<Step>,
    wraps: Seq<Seq<Option<WrapInfo>>>,
    semm: Option<i64>,
    nautika: Option<i64>,
    hosts: Seq<i32>,
    carrier_present: bool,
) -> Option<Sweep> {
    match (semm, nautika) {
        (Some(s), Some(n)) => if !carrier_present {
            None
        } else {
            match (
                first_index(steps, |st: Step| first_effect_type(st) == Some(ALLOCATE_CARD_ENERGY_EFFECT)),
                first_index(steps, |st: Step| is_bundle_step(st, n, hosts)),
            ) {
                (Some(r), Some(b)) => Some(Sweep { steps, wraps, round_end: r, bundle: b, semm: s }),
                _ => None,
            }
        },
        _ => None,
    }
}

/// The broadcast that joins the bundle: the prepared form of Semmelweis's
/// first ally broadcast, when the bundle lacks his broadcast.
pub open spec fn inserted(c: Sweep, prepared: Seq<Seq<Option<Effect>>>) -> Option<Effect> {
    if !host_has_semm(c) && has_semm(c) {
        let (i, j) = choose|i: int, j: int| first_semm(c, i, j);
        prepared[i][j]
    } else {
        None
    }
}

/// `v` has one entry per effect of each step.
pub open spec fn shaped<T>(steps: Seq<Step>, v: Seq<Vec<T>>) -> bool {
    &&& v.len() == steps.len()
    &&& forall|i: int| 0 <= i < steps.len() ==> (#[trigger] v[i])@.len() == steps[i].act_effect@.len()
}

/// The views of a grid of vectors.
pub open spec fn grid<T>(v: Seq<Vec<T>>) -> Seq<Seq<T>> {
    v.map_values(|r: Vec<T>| r@)
}

proof fn lemma_first_semm_unique(c: Sweep, i: int, j: int, i2: int, j2: int)
    requires
        first_semm(c, i, j),
        first_semm(c, i2, j2),
    ensures
        i == i2 && j == j2,
{
    if before(i2, j2, i, j) {
        assert(!semm_at(c, i2, j2));
    } else if before(i, j, i2, j2) {
        assert(!semm_at(c, i, j));
    }
}

fn find_round_end(steps: &Vec<Step>) -> (r: Option<usize>)
    ensures
        match r {
            Some(i) => first_index(steps@, |st: Step| first_effect_type(st) == Some(ALLOCATE_CARD_ENERGY_EFFECT))
                == Some(i as int),
            None => first_index(steps@, |st: Step| first_effect_type(st) == Some(ALLOCATE_CARD_ENERGY_EFFECT))
                == None::<int>,
        },
{
    let ghost p = |st: Step| first_effect_type(st) == Some(ALLOCATE_CARD_ENERGY_EFFECT);
    let mut i: usize = 0;
    while i < steps.len()
        invariant
            i <= steps@.len(),
            p == (|st: Step| first_effect_type(st) == Some(ALLOCATE_CARD_ENERGY_EFFECT)),
            forall|k: int| 0 <= k < i ==> !p(#[trigger] steps@[k]),
        decreases steps@.len() - i,
    {
        if step_first_effect_type(&steps[i]) == Some(ALLOCATE_CARD_ENERGY_EFFECT) {
            proof { lemma_first_index_is(steps@, p, i as int); }
            return Some(i);
        }
        i += 1;
    }
    proof { lemma_first_index_none(steps@, p); }
    None
}

fn find_bundle(steps: &Vec<Step>, host: i64, hosts: &Vec<i32>) -> (r: Option<usize>)
    ensures
        match r {
            Some(i) => first_index(steps@, |st: Step| is_bundle_step(st, host, hosts@)) == Some(i as int),
            None => first_index(steps@, |st: Step| is_bundle_step(st, host, hosts@)) == None::<int>,
        },
{
    let ghost p = |st: Step| is_bundle_step(st, host, hosts@);
    let mut i: usize = 0;
    while i < steps.len()
        invariant
            i <= steps@.len(),
            p == (|st: Step| is_bundle_step(st, host, hosts@)),
            forall|k: int| 0 <= k < i ==> !p(#[trigger] steps@[k]),
        decreases steps@.len() - i,
    {
        if bundle_step_check(&steps[i], host, hosts) {
            proof { lemma_first_index_is(steps@, p, i as int); }
            return Some(i);
        }
        i += 1;
    }
    proof { lemma_first_index_none(steps@, p); }
    None
}

/// `(ally, enemy, Semmelweis's)` for effect `j` of step `i`.
fn classify(
    steps: &Vec<Step>,
    wraps: &Vec<Vec<Option<WrapInfo>>>,
    r: usize,
    b: usize,
    semm: i64,
    i: usize,
    j: usize,
    Ghost(c): Ghost<Sweep>,
) -> (out: (bool, bool, bool))
    requires
        c.steps == steps@,
        c.wraps == grid(wraps@),
        c.round_end == r,
        c.bundle == b,
        c.semm == semm,
        shaped(steps@, wraps@),
        i < steps@.len(),
        j < steps@[i as int].act_effect@.len(),
    ensures
        out.0 == ally_at(c, i as int, j as int),
        out.1 == enemy_at(c, i as int, j as int),
        out.2 == semm_at(c, i as int, j as int),
{
    let st = &steps[i];
    let act_id = match st.act_id {
        Some(a) => a,
        None => 0,
    };
    let scan = r < i && i != b && st.act_type == Some(ActType::Effect) && act_id == 0;
    proof {
        assert(c.wraps[i as int] == wraps@[i as int]@);
    }
    if !scan {
        return (false, false, false);
    }
    match wraps[i][j] {
        Some(w) => {
            let from = match w.from_id {
                Some(f) => f,
                None => 0,
            };
            let ally = w.act_id == Some(BOSS_CYCLE_ACT_ID) && from > 0;
            let enemy = w.act_id == Some(ENEMY_CYCLE_DEL_ACT_ID) && from < 0;
            (ally, enemy, ally && from == semm)
        },
        None => (false, false, false),
    }
}

fn host_has(steps: &Vec<Step>, wraps: &Vec<Vec<Option<WrapInfo>>>, b: usize, semm: i64, Ghost(c): Ghost<Sweep>) -> (r: bool)
    requires
        c.steps == steps@,
        c.wraps == grid(wraps@),
        c.bundle == b,
        c.semm == semm,
        shaped(steps@, wraps@),
        b < steps@.len(),
    ensures
        r == host_has_semm(c),
{
    let n = steps[b].act_effect.len();
    let row = &wraps[b];
    proof {
        assert(c.wraps[b as int] == row@);
    }
    let mut j: usize = 0;
    while j < n
        invariant
            c.steps == steps@,
            c.bundle == b,
            c.semm == semm,
            b < steps@.len(),
            j <= n,
            n == c.steps[b as int].act_effect@.len(),
            row@.len() == n,
            c.wraps[b as int] == row@,
            forall|k: int| 0 <= k < j ==> !(match #[trigger] c.wraps[c.bundle][k] {
                Some(w) => w.act_id == Some(BOSS_CYCLE_ACT_ID) && w.from_id == Some(c.semm) && w.to_id == Some(c.semm),
                None => false,
            }),
        decreases n - j,
    {
        match row[j] {
            Some(w) => {
                if w.act_id == Some(BOSS_CYCLE_ACT_ID) && w.from_id == Some(semm) && w.to_id == Some(semm) {
                    proof {
                        assert(c.wraps[c.bundle][j as int] == Some(w));
                    }
                    return true;
                }
            },
            None => {},
        }
        j += 1;
    }
    false
}

fn find_first_semm(
    steps: &Vec<Step>,
    wraps: &Vec<Vec<Option<WrapInfo>>>,
    r: usize,
    b: usize,
    semm: i64,
    Ghost(c): Ghost<Sweep>,
) -> (out: Option<(usize, usize)>)
    requires
        c.steps == steps@,
        c.wraps == grid(wraps@),
        c.round_end == r,
        c.bundle == b,
        c.semm == semm,
        shaped(steps@, wraps@),
    ensures
        match out {
            Some((i, j)) => i < steps@.len() && j < steps@[i as int].act_effect@.len() && first_semm(c, i as int, j as int),
            None => !has_semm(c),
        },
{
    let mut i: usize = 0;
    while i < steps.len()
        invariant
            c.steps == steps@,
            c.wraps == grid(wraps@),
            c.round_end == r,
            c.bundle == b,
            c.semm == semm,
            shaped(steps@, wraps@),
            i <= steps@.len(),
            forall|i2: int, j2: int| i2 < i ==> !#[trigger] semm_at(c, i2, j2),
        decreases steps@.len() - i,
    {
        let mut j: usize = 0;
        while j < steps[i].act_effect.len()
            invariant
                c.steps == steps@,
                c.wraps == grid(wraps@),
                c.round_end == r,
                c.bundle == b,
                c.semm == semm,
                shaped(steps@, wraps@),
                i < steps@.len(),
                j <= steps@[i as int].act_effect@.len(),
                forall|i2: int, j2: int| (i2 < i || (i2 == i && j2 < j)) ==> !#[trigger] semm_at(c, i2, j2),
            decreases steps@[i as int].act_effect@.len() - j,
        {
            let (_a, _e, hit) = classify(steps, wraps, r, b, semm, i, j, Ghost(c));
            if hit {
                proof {
                    assert forall|i2: int, j2: int| #[trigger] before(i2, j2, i as int, j as int) implies !semm_at(
                        c,
                        i2,
                        j2,
                    ) by {}
                }
                return Some((i, j));
            }
            j += 1;
        }
        proof {
            assert forall|i2: int, j2: int| i2 < i + 1 implies !#[trigger] semm_at(c, i2, j2) by {
                if i2 == i {
                    if j2 >= steps@[i as int].act_effect@.len() || j2 < 0 {
                    } else {
                        assert(j2 < j);
                    }
                }
            }
        }
        i += 1;
    }
    proof {
        assert forall|i2: int, j2: int| !semm_at(c, i2, j2) by {
            if i2 < i {
            }
        }
    }
    None
}

fn removal_flags(
    steps: &Vec<Step>,
    wraps: &Vec<Vec<Option<WrapInfo>>>,
    r: usize,
    b: usize,
    semm: i64,
    allies_go: bool,
    Ghost(c): Ghost<Sweep>,
) -> (flags: Vec<Vec<bool>>)
    requires
        c.steps == steps@,
        c.wraps == grid(wraps@),
        c.round_end == r,
        c.bundle == b,
        c.semm == semm,
        allies_go == (host_has_semm(c) || has_semm(c)),
        shaped(steps@, wraps@),
    ensures
        shaped(steps@, flags@),
        forall|i: int, j: int|
            0 <= i < steps@.len() && 0 <= j < steps@[i].act_effect@.len() ==> #[trigger] flags@[i]@[j] == removed_at(
                c,
                i,
                j,
            ),
{
    let mut flags: Vec<Vec<bool>> = Vec::new();
    let mut i: usize = 0;
    while i < steps.len()
        invariant
            c.steps == steps@,
            c.wraps == grid(wraps@),
            c.round_end == r,
            c.bundle == b,
            c.semm == semm,
            allies_go == (host_has_semm(c) || has_semm(c)),
            shaped(steps@, wraps@),
            i <= steps@.len(),
            flags@.len() == i,
            forall|i2: int| 0 <= i2 < i ==> (#[trigger] flags@[i2])@.len() == steps@[i2].act_effect@.len(),
            forall|i2: int, j: int|
                0 <= i2 < i && 0 <= j < steps@[i2].act_effect@.len() ==> #[trigger] flags@[i2]@[j] == removed_at(
                    c,
                    i2,
                    j,
                ),
        decreases steps@.len() - i,
    {
        let mut row: Vec<bool> = Vec::new();
        let mut j: usize = 0;
        while j < steps[i].act_effect.len()
            invariant
                c.steps == steps@,
                c.wraps == grid(wraps@),
                c.round_end == r,
                c.bundle == b,
                c.semm == semm,
                allies_go == (host_has_semm(c) || has_semm(c)),
                shaped(steps@, wraps@),
                i < steps@.len(),
                j <= steps@[i as int].act_effect@.len(),
                row@.len() == j,
                forall|j2: int| 0 <= j2 < j ==> #[trigger] row@[j2] == removed_at(c, i as int, j2),
            decreases steps@[i as int].act_effect@.len() - j,
        {
            let (ally, enemy, _h) = classify(steps, wraps, r, b, semm, i, j, Ghost(c));
            row.push((allies_go && ally) || enemy);
            j += 1;
        }
        flags.push(row);
        i += 1;
    }
    flags
}

/// Step `f` is step `o` with its effects replaced by `effects`.
pub open spec fn same_head_with(f: Step, o: Step, effects: Seq<Effect>) -> bool {
    &&& f.act_type == o.act_type
    &&& f.from_id == o.from_id
    &&& f.to_id == o.to_id
    &&& f.act_id == o.act_id
    &&& f.act_effect@ == effects
}

/// After the round end, folds Semmelweis's ally-side cycle broadcast into
/// Nautika's carrier-host bundle and strips the orphan ally broadcasts and
/// the enemy-side cycle deletions; steps left without effects go.
///
/// `semmelweis_uid` and `nautika_uid` are where the battle has those
/// heroes, `host_act_ids` the act ids of the carrier-host wrapper (the
/// psychube carrier [`CARRIER_HOST_ACT_ID`], or the channel-host buffs),
/// `carrier_present` whether any step carries a carrier host,
/// `wraps[i][j]` the skill effect `j` of step `i` wraps, and
/// `prepared[i][j]` that effect as it joins the bundle (normalised, with
/// its tail marker), `None` when it cannot be normalised.
pub fn consolidate_into_bundle(
    steps: &mut Vec<Step>,
    wraps: &Vec<Vec<Option<WrapInfo>>>,
    prepared: Vec<Vec<Option<Effect>>>,
    semmelweis_uid: Option<i64>,
    nautika_uid: Option<i64>,
    host_act_ids: &Vec<i32>,
    carrier_present: bool,
)
    requires
        shaped(old(steps)@, wraps@),
        shaped(old(steps)@, prepared@),
    ensures
        match sweep_of(old(steps)@, grid(wraps@), semmelweis_uid, nautika_uid, host_act_ids@, carrier_present) {
            None => final(steps)@ == old(steps)@,
            Some(c) => {
                let ins = inserted(c, grid(prepared@));
                let sv = survivors(c, ins, c.steps.len() as int);
                &&& final(steps)@.len() == sv.len()
                &&& forall|k: int|
                    0 <= k < sv.len() ==> same_head_with(
                        #[trigger] final(steps)@[k],
                        c.steps[sv[k]],
                        new_effects(c, sv[k], ins),
                    )
            },
        },
{
    let semm = match semmelweis_uid {
        Some(u) => u,
        None => return ,
    };
    let nautika = match nautika_uid {
        Some(u) => u,
        None => return ,
    };
    if !carrier_present {
        return ;
    }
    let r = match find_round_end(steps) {
        Some(i) => i,
        None => return ,
    };
    let b = match find_bundle(steps, nautika, host_act_ids) {
        Some(i) => i,
        None => return ,
    };
    let ghost c = Sweep { steps: steps@, wraps: grid(wraps@), round_end: r as int, bundle: b as int, semm };
    proof {
        lemma_first_index(steps@, |st: Step| is_bundle_step(st, nautika, host_act_ids@));
        assert(sweep_of(old(steps)@, grid(wraps@), semmelweis_uid, nautika_uid, host_act_ids@, carrier_present) == Some(c));
    }
    let host_broadcast = host_has(steps, wraps, b, semm, Ghost(c));
    let found = find_first_semm(steps, wraps, r, b, semm, Ghost(c));
    let allies_go = host_broadcast || found.is_some();
    let flags = removal_flags(steps, wraps, r, b, semm, allies_go, Ghost(c));
    let ghost pg = grid(prepared@);
    let mut ins: Option<Effect> = None;
    if !host_broadcast {
        match found {
            Some((i, j)) => {
                let mut prepared = prepared;
                proof {
                    assert(pg[i as int] == prepared@[i as int]@);
                }
                let mut row = prepared.remove(i);
                ins = row.remove(j);
                proof {
                    let (i2, j2) = choose|i2: int, j2: int| first_semm(c, i2, j2);
                    lemma_first_semm_unique(c, i as int, j as int, i2, j2);
                }
            },
            None => {},
        }
    }
    let ghost ins_g = ins;
    proof {
        assert(ins_g == inserted(c, pg));
    }
    match ins {
        Some(e) => {
            let mut host = steps.remove(b);
            host.act_effect.push(e);
            steps.insert(b, host);
        },
        None => {},
    }
    let ghost s1 = steps@;
    proof {
        assert(s1.len() == steps.len());
        assert(s1.len() == c.steps.len());
        assert forall|i: int| 0 <= i < s1.len() implies same_head_with(
            #[trigger] s1[i],
            c.steps[i],
            effects_in(c, i, ins_g),
        ) by {}
    }
    let mut rest: Vec<Step> = Vec::new();
    std::mem::swap(steps, &mut rest);
    let mut out: Vec<Step> = Vec::new();
    let mut i: usize = 0;
    proof {
        assert(rest@ =~= s1.skip(0));
    }
    while rest.len() > 0
        invariant
            i <= s1.len(),
            s1.len() <= usize::MAX,
            rest@ == s1.skip(i as int),
            s1.len() == c.steps.len(),
            forall|i2: int| 0 <= i2 < s1.len() ==> same_head_with(
                #[trigger] s1[i2],
                c.steps[i2],
                effects_in(c, i2, ins_g),
            ),
            shaped(c.steps, flags@),
            forall|i2: int, j: int|
                0 <= i2 < c.steps.len() && 0 <= j < c.steps[i2].act_effect@.len() ==> #[trigger] flags@[i2]@[j]
                    == removed_at(c, i2, j),
            out@.len() == survivors(c, ins_g, i as int).len(),
            forall|k: int|
                0 <= k < out@.len() ==> same_head_with(
                    #[trigger] out@[k],
                    c.steps[survivors(c, ins_g, i as int)[k]],
                    new_effects(c, survivors(c, ins_g, i as int)[k], ins_g),
                ),
        decreases rest@.len(),
    {
        let st = rest.remove(0);
        proof {
            assert(st == s1[i as int]);
            assert(rest@ =~= s1.skip(i + 1));
        }
        let Step { act_type, from_id, to_id, act_id, act_effect } = st;
        let ghost es = act_effect@;
        proof {
            assert(es.len() == act_effect.len());
        }
        let mut effs = act_effect;
        let mut kept_v: Vec<Effect> = Vec::new();
        let mut any = false;
        let mut j: usize = 0;
        proof {
            assert(effs@ =~= es.skip(0));
        }
        while effs.len() > 0
            invariant
                i < s1.len(),
                s1.len() == c.steps.len(),
                es == effects_in(c, i as int, ins_g),
                es.len() <= usize::MAX,
                j <= es.len(),
                effs@ == es.skip(j as int),
                shaped(c.steps, flags@),
                forall|i2: int, j2: int|
                    0 <= i2 < c.steps.len() && 0 <= j2 < c.steps[i2].act_effect@.len() ==> #[trigger] flags@[i2]@[j2]
                        == removed_at(c, i2, j2),
                kept_v@ == kept(c, i as int, es, j as int),
                any == any_removed(c, i as int, j as int),
            decreases effs@.len(),
        {
            let e = effs.remove(0);
            proof {
                assert(e == es[j as int]);
                assert(effs@ =~= es.skip(j + 1));
                assert(flags@[i as int]@.len() == c.steps[i as int].act_effect@.len());
            }
            let rm = j < flags[i].len() && flags[i][j];
            proof {
                if j >= flags@[i as int]@.len() {
                    assert(!ally_at(c, i as int, j as int));
                    assert(!enemy_at(c, i as int, j as int));
                }
                assert(rm == removed_at(c, i as int, j as int));
            }
            if rm {
                any = true;
            } else {
                kept_v.push(e);
            }
            j += 1;
        }
        proof {
            assert(kept_v@ == new_effects(c, i as int, ins_g));
        }
        let ghost sv0 = survivors(c, ins_g, i as int);
        if !(any && kept_v.len() == 0) {
            let ghost o = out@;
            out.push(Step { act_type, from_id, to_id, act_id, act_effect: kept_v });
            proof {
                assert(!dropped(c, i as int, ins_g));
                assert(survivors(c, ins_g, i + 1) == sv0.push(i as int));
                assert forall|k: int|
                    0 <= k < out@.len() implies same_head_with(
                    #[trigger] out@[k],
                    c.steps[survivors(c, ins_g, i + 1)[k]],
                    new_effects(c, survivors(c, ins_g, i + 1)[k], ins_g),
                ) by {
                    if k < o.len() {
                        assert(out@[k] == o[k]);
                    }
                }
            }
        } else {
            proof {
                assert(dropped(c, i as int, ins_g));
                assert(survivors(c, ins_g, i + 1) == sv0);
            }
        }
        i += 1;
    }
    proof {
        assert(i == s1.len());
    }
    *steps = out;
}

/// The effect type of the tail marker that closes a cycle broadcast.
pub const TAIL_MARKER_EFFECT_TYPE: i32 = 26;

/// Some effect of `s` has type `t`.
pub open spec fn has_type(s: Seq<Effect>, t: i32) -> bool {
    exists|k: int| 0 <= k < s.len() && (#[trigger] s[k]).effect_type == Some(t)
}

/// Index of the last effect of `s` of type `t`.
pub open spec fn last_of_type(s: Seq<Effect>, t: i32) -> Option<int>
    decreases s.len(),
{
    if s.len() == 0 {
        None
    } else if s.last().effect_type == Some(t) {
        Some(s.len() - 1)
    } else {
        last_of_type(s.drop_last(), t)
    }
}

/// The tail marker on `target`: effect number `0`, nothing else set.
pub open spec fn is_tail_marker(e: Effect, target: i64) -> bool {
    &&& e.effect_type == Some(TAIL_MARKER_EFFECT_TYPE)
    &&& e.target_id == Some(target)
    &&& e.effect_num == Some(0i32)
    &&& e.effect_num1 == None::<i32>
    &&& e.reserve_id == None::<i64>
    &&& e.buff is None
    &&& e.fight_step is None
}

/// Semmelweis's cycle broadcast (from and to him) that has buff updates
/// but no tail marker needs one.
pub open spec fn needs_tail_marker(skill: Step, semm: i64) -> bool {
    &&& skill.act_id == Some(BOSS_CYCLE_ACT_ID)
    &&& skill.from_id == Some(semm)
    &&& skill.to_id == Some(semm)
    &&& !has_type(skill.act_effect@, TAIL_MARKER_EFFECT_TYPE)
    &&& has_type(skill.act_effect@, crate::step::BUFF_UPDATE_EFFECT)
}

proof fn lemma_last_of_type(s: Seq<Effect>, t: i32)
    ensures
        match last_of_type(s, t) {
            Some(k) => 0 <= k < s.len() && s[k].effect_type == Some(t),
            None => !has_type(s, t),
        },
    decreases s.len(),
{
    if s.len() > 0 && s.last().effect_type != Some(t) {
        lemma_last_of_type(s.drop_last(), t);
        if last_of_type(s.drop_last(), t) is None {
            assert forall|k: int| 0 <= k < s.len() implies (#[trigger] s[k]).effect_type != Some(t) by {
                if k < s.len() - 1 {
                    assert(s[k] == s.drop_last()[k]);
                    if s[k].effect_type == Some(t) {
                        assert(has_type(s.drop_last(), t));
                    }
                }
            }
        }
    }
}

/// Closes Semmelweis's cycle broadcast `skill` with a tail marker on him,
/// right after its last buff update, when it has buff updates and no
/// marker yet; any other skill is left alone.
pub fn ensure_tail_marker(skill: &mut Step, semmelweis_uid: i64)
    ensures
        final(skill).act_type == old(skill).act_type,
        final(skill).from_id == old(skill).from_id,
        final(skill).to_id == old(skill).to_id,
        final(skill).act_id == old(skill).act_id,
        if needs_tail_marker(*old(skill), semmelweis_uid) {
            let at = last_of_type(old(skill).act_effect@, crate::step::BUFF_UPDATE_EFFECT)->0 + 1;
            &&& final(skill).act_effect@.len() == old(skill).act_effect@.len() + 1
            &&& final(skill).act_effect@.take(at) == old(skill).act_effect@.take(at)
            &&& final(skill).act_effect@.skip(at + 1) == old(skill).act_effect@.skip(at)
            &&& is_tail_marker(final(skill).act_effect@[at], semmelweis_uid)
        } else {
            final(skill).act_effect@ == old(skill).act_effect@
        },
{
    if skill.act_id != Some(BOSS_CYCLE_ACT_ID) || skill.from_id != Some(semmelweis_uid) || skill.to_id != Some(
        semmelweis_uid,
    ) {
        return ;
    }
    let n = skill.act_effect.len();
    let mut last: Option<usize> = None;
    let mut i: usize = 0;
    while i < n
        invariant
            n == skill.act_effect@.len(),
            i <= n,
            forall|k: int| 0 <= k < i ==> (#[trigger] skill.act_effect@[k]).effect_type != Some(TAIL_MARKER_EFFECT_TYPE),
            match last {
                Some(k) => k < i && last_of_type(skill.act_effect@.take(i as int), crate::step::BUFF_UPDATE_EFFECT) == Some(
                    k as int,
                ),
                None => last_of_type(skill.act_effect@.take(i as int), crate::step::BUFF_UPDATE_EFFECT) == None::<int>,
            },
        decreases n - i,
    {
        let t = skill.act_effect[i].effect_type;
        proof {
            assert(skill.act_effect@.take(i + 1).drop_last() =~= skill.act_effect@.take(i as int));
            assert(skill.act_effect@.take(i + 1).last() == skill.act_effect@[i as int]);
        }
        if t == Some(TAIL_MARKER_EFFECT_TYPE) {
            proof {
                assert(has_type(skill.act_effect@, TAIL_MARKER_EFFECT_TYPE));
            }
            return ;
        }
        if t == Some(crate::step::BUFF_UPDATE_EFFECT) {
            last = Some(i);
        }
        i += 1;
    }
    proof {
        assert(skill.act_effect@.take(n as int) =~= skill.act_effect@);
        lemma_last_of_type(skill.act_effect@, crate::step::BUFF_UPDATE_EFFECT);
        assert(!has_type(skill.act_effect@, TAIL_MARKER_EFFECT_TYPE));
    }
    match last {
        None => {},
        Some(k) => {
            let ghost before = skill.act_effect@;
            skill.act_effect.insert(
                k + 1,
                Effect {
                    effect_type: Some(TAIL_MARKER_EFFECT_TYPE),
                    target_id: Some(semmelweis_uid),
                    effect_num: Some(0),
                    effect_num1: None,
                    reserve_id: None,
                    buff: None,
                    fight_step: None,
                },
            );
            proof {
                assert(skill.act_effect@.take(k + 1) =~= before.take(k + 1));
                assert(skill.act_effect@.skip(k + 2) =~= before.skip(k + 1));
            }
        },
    }
}

/// Effect types of the flat post-round attribute noise.
pub open spec fn is_attr_noise_type(t: i32) -> bool {
    t == 60 || t == 61 || t == 96 || t == 211
}

/// An effect step with no act id, source or target.
pub open spec fn is_bare_effect_step(s: Step) -> bool {
    &&& s.act_type == Some(ActType::Effect)
    &&& opt_or(s.act_id, 0) == 0
    &&& opt_or(s.from_id, 0) == 0
    &&& opt_or(s.to_id, 0) == 0
    &&& s.act_effect@.len() > 0
}

/// A bare effect step all of whose effects wrap an enemy-side cycle
/// broadcast (`w` gives the skill each effect wraps).
pub open spec fn is_enemy_cycle_noise(s: Step, w: Seq<Option<WrapInfo>>) -> bool {
    &&& is_bare_effect_step(s)
    &&& forall|j: int| 0 <= j < s.act_effect@.len() ==> match #[trigger] w[j] {
        Some(x) => x.act_id == Some(BOSS_CYCLE_ACT_ID) && opt_or(x.from_id, 0) < 0,
        None => false,
    }
}

/// A bare effect step of at most three plain attribute-noise effects on
/// no target with number `0` or `1`.
pub open spec fn is_attr_noise(s: Step) -> bool {
    &&& is_bare_effect_step(s)
    &&& s.act_effect@.len() <= 3
    &&& forall|j: int| 0 <= j < s.act_effect@.len() ==> {
        let e = #[trigger] s.act_effect@[j];
        &&& e.fight_step is None
        &&& is_attr_noise_type(opt_or(e.effect_type, 0))
        &&& opt_or(e.target_id, 0) == 0
        &&& (opt_or(e.effect_num, 0) == 0 || opt_or(e.effect_num, 0) == 1)
    }
}

/// The first `n` steps without the noise after the round end `r`.
pub open spec fn without_noise(steps: Seq<Step>, wraps: Seq<Seq<Option<WrapInfo>>>, r: int, n: int) -> Seq<Step>
    decreases n,
{
    if n <= 0 {
        Seq::empty()
    } else if r < n - 1 && (is_enemy_cycle_noise(steps[n - 1], wraps[n - 1]) || is_attr_noise(steps[n - 1])) {
        without_noise(steps, wraps, r, n - 1)
    } else {
        without_noise(steps, wraps, r, n - 1).push(steps[n - 1])
    }
}

fn noise_check(st: &Step, w: &Vec<Option<WrapInfo>>) -> (r: bool)
    requires
        w@.len() == st.act_effect@.len(),
    ensures
        r == (is_enemy_cycle_noise(*st, w@) || is_attr_noise(*st)),
{
    let act_id = match st.act_id {
        Some(a) => a,
        None => 0,
    };
    let from = match st.from_id {
        Some(a) => a,
        None => 0,
    };
    let to = match st.to_id {
        Some(a) => a,
        None => 0,
    };
    if st.act_type != Some(ActType::Effect) || act_id != 0 || from != 0 || to != 0 || st.act_effect.len() == 0 {
        return false;
    }
    let n = st.act_effect.len();
    let mut enemy = true;
    let mut attr = n <= 3;
    let mut j: usize = 0;
    while j < n
        invariant
            n == st.act_effect@.len(),
            w@.len() == n,
            j <= n,
            enemy == forall|k: int| 0 <= k < j ==> match #[trigger] w@[k] {
                Some(x) => x.act_id == Some(BOSS_CYCLE_ACT_ID) && opt_or(x.from_id, 0) < 0,
                None => false,
            },
            attr == (n <= 3 && forall|k: int| 0 <= k < j ==> {
                let e = #[trigger] st.act_effect@[k];
                &&& e.fight_step is None
                &&& is_attr_noise_type(opt_or(e.effect_type, 0))
                &&& opt_or(e.target_id, 0) == 0
                &&& (opt_or(e.effect_num, 0) == 0 || opt_or(e.effect_num, 0) == 1)
            }),
        decreases n - j,
    {
        let ok_enemy = match w[j] {
            Some(x) => x.act_id == Some(BOSS_CYCLE_ACT_ID) && (match x.from_id {
                Some(f) => f,
                None => 0,
            }) < 0,
            None => false,
        };
        let e = &st.act_effect[j];
        let t = match e.effect_type {
            Some(v) => v,
            None => 0,
        };
        let tg = match e.target_id {
            Some(v) => v,
            None => 0,
        };
        let num = match e.effect_num {
            Some(v) => v,
            None => 0,
        };
        let ok_attr = e.fight_step.is_none() && (t == 60 || t == 61 || t == 96 || t == 211) && tg == 0 && (num == 0
            || num == 1);
        proof {
            if !ok_enemy {
                assert(!(match w@[j as int] {
                    Some(x) => x.act_id == Some(BOSS_CYCLE_ACT_ID) && opt_or(x.from_id, 0) < 0,
                    None => false,
                }));
            }
        }
        enemy = enemy && ok_enemy;
        attr = attr && ok_attr;
        j += 1;
    }
    enemy || attr
}

/// After the round end, drops the top-level steps that only rebroadcast
/// the enemy-side cycle and the flat post-round attribute-noise steps, when
/// a carrier host is present (`carrier_present`). `wraps[i][j]` is the
/// skill effect `j` of step `i` wraps.
pub fn strip_post_turn_noise(steps: &mut Vec<Step>, wraps: &Vec<Vec<Option<WrapInfo>>>, carrier_present: bool)
    requires
        shaped(old(steps)@, wraps@),
    ensures
        (!carrier_present || first_index(
            old(steps)@,
            |st: Step| first_effect_type(st) == Some(ALLOCATE_CARD_ENERGY_EFFECT),
        ) is None) ==> final(steps)@ == old(steps)@,
        carrier_present ==> match first_index(
            old(steps)@,
            |st: Step| first_effect_type(st) == Some(ALLOCATE_CARD_ENERGY_EFFECT),
        ) {
            Some(r) => final(steps)@ == without_noise(old(steps)@, grid(wraps@), r, old(steps)@.len() as int),
            None => true,
        },
{
    if !carrier_present {
        return ;
    }
    let r = match find_round_end(steps) {
        Some(i) => i,
        None => return ,
    };
    let ghost s0 = steps@;
    let ghost g = grid(wraps@);
    let n = steps.len();
    let mut flags: Vec<bool> = Vec::new();
    let mut i: usize = 0;
    while i < n
        invariant
            n == steps@.len(),
            steps@ == s0,
            g == grid(wraps@),
            shaped(s0, wraps@),
            i <= n,
            flags@.len() == i,
            forall|k: int| 0 <= k < i ==> #[trigger] flags@[k] == (r < k && (is_enemy_cycle_noise(s0[k], g[k])
                || is_attr_noise(s0[k]))),
        decreases n - i,
    {
        proof {
            assert(g[i as int] == wraps@[i as int]@);
        }
        let noisy = r < i && noise_check(&steps[i], &wraps[i]);
        flags.push(noisy);
        i += 1;
    }
    let mut rest: Vec<Step> = Vec::new();
    std::mem::swap(steps, &mut rest);
    let mut out: Vec<Step> = Vec::new();
    let mut i: usize = 0;
    proof {
        assert(rest@ =~= s0.skip(0));
    }
    while rest.len() > 0
        invariant
            n == s0.len(),
            i <= n,
            rest@ == s0.skip(i as int),
            flags@.len() == n,
            forall|k: int| 0 <= k < n ==> #[trigger] flags@[k] == (r < k && (is_enemy_cycle_noise(s0[k], g[k])
                || is_attr_noise(s0[k]))),
            out@ == without_noise(s0, g, r as int, i as int),
        decreases rest@.len(),
    {
        let st = rest.remove(0);
        proof {
            assert(st == s0[i as int]);
            assert(rest@ =~= s0.skip(i + 1));
        }
        if !flags[i] {
            out.push(st);
        }
        i += 1;
    }
    *steps = out;
}

} // verus!
