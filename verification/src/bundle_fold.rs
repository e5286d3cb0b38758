//! Round-end bundling: loose steps fold into the host wrapper of the hero
//! bundle that claims them, the lowest claim rank winning.
use vstd::prelude::*;
use crate::step::{ActType, Effect, Step, FIGHT_STEP_EFFECT};
use crate::table::{first_index, lemma_first_index_is, lemma_first_index_none};

verus! {

/// The host act id of an effect step whose first effect wraps an effect
/// step: that inner step's act id.
pub open spec fn host_act_id(s: Step) -> Option<i32> {
    if s.act_type == Some(ActType::Effect) && s.act_effect@.len() > 0 && s.act_effect@[0].effect_type == Some(
        FIGHT_STEP_EFFECT,
    ) {
        match s.act_effect@[0].fight_step {
            Some(h) => if h.act_type == Some(ActType::Effect) { h.act_id } else { None },
            None => None,
        }
    } else {
        None
    }
}

/// Step `s` is a host wrapper with one of the act ids `hosts`.
pub open spec fn is_host_of(s: Step, hosts: Seq<i32>) -> bool {
    match host_act_id(s) {
        Some(a) => hosts.contains(a),
        None => false,
    }
}

/// Index of the first host wrapper of a bundle with host act ids `hosts`.
pub open spec fn host_index(steps: Seq<Step>, hosts: Seq<i32>) -> Option<int> {
    first_index(steps, |st: Step| is_host_of(st, hosts))
}

/// What folding reads: the steps, each bundle's host act ids, and the
/// claim rank each bundle puts on each step (`ranks[i][s]`).
pub ghost struct Fold {
    pub steps: Seq<Step>,
    pub specs: Seq<Seq<i32>>,
    pub ranks: Seq<Seq<Option<u16>>>,
}

/// Step `i` is the host of some bundle.
pub open spec fn is_host(f: Fold, i: int) -> bool {
    exists|s: int| 0 <= s < f.specs.len() && #[trigger] host_index(f.steps, f.specs[s]) == Some(i)
}

/// Among the first `n` bundles, the one with a host whose claim rank on
/// step `i` is lowest, the first on ties.
pub open spec fn best_upto(f: Fold, i: int, n: int) -> Option<int>
    decreases n,
{
    if n <= 0 {
        None
    } else {
        let b = best_upto(f, i, n - 1);
        match f.ranks[i][n - 1] {
            Some(r) => if host_index(f.steps, f.specs[n - 1]) is Some && (b is None || (r as int) < (
            f.ranks[i][b->0]->0 as int)) {
                Some(n - 1)
            } else {
                b
            },
            None => b,
        }
    }
}

/// The bundle step `i` folds into, when it is not a host and some bundle
/// claims it.
pub open spec fn claim(f: Fold, i: int) -> Option<int> {
    if is_host(f, i) { None } else { best_upto(f, i, f.specs.len() as int) }
}

/// `st` wrapped as an effect.
pub open spec fn wrapped(st: Step) -> Effect {
    Effect {
        effect_type: Some(FIGHT_STEP_EFFECT),
        target_id: None,
        effect_num: None,
        effect_num1: None,
        reserve_id: None,
        buff: None,
        fight_step: Some(Box::new(st)),
    }
}

/// The wrapped steps among the first `n` that bundle `s` claims, in order.
pub open spec fn embeds(f: Fold, s: int, n: int) -> Seq<Effect>
    decreases n,
{
    if n <= 0 {
        Seq::empty()
    } else if claim(f, n - 1) == Some(s) {
        embeds(f, s, n - 1).push(wrapped(f.steps[n - 1]))
    } else {
        embeds(f, s, n - 1)
    }
}

/// What step `h` gains as the host of the first `n` bundles.
pub open spec fn host_extra(f: Fold, h: int, n: int) -> Seq<Effect>
    decreases n,
{
    if n <= 0 {
        Seq::empty()
    } else if host_index(f.steps, f.specs[n - 1]) == Some(h) {
        host_extra(f, h, n - 1) + embeds(f, n - 1, f.steps.len() as int)
    } else {
        host_extra(f, h, n - 1)
    }
}

/// The indices of the first `n` steps no bundle claims, in order.
pub open spec fn unclaimed(f: Fold, n: int) -> Seq<int>
    decreases n,
{
    if n <= 0 {
        Seq::empty()
    } else if claim(f, n - 1) is Some {
        unclaimed(f, n - 1)
    } else {
        unclaimed(f, n - 1).push(n - 1)
    }
}

/// Step `g` is step `o` with `extra` effects appended.
pub open spec fn extended(g: Step, o: Step, extra: Seq<Effect>) -> bool {
    &&& g.act_type == o.act_type
    &&& g.from_id == o.from_id
    &&& g.to_id == o.to_id
    &&& g.act_id == o.act_id
    &&& g.act_effect@ == o.act_effect@ + extra
}

/// The views of a grid of vectors.
pub open spec fn rows<T>(v: Seq<Vec<T>>) -> Seq<Seq<T>> {
    v.map_values(|r: Vec<T>| r@)
}

fn contains_i32(v: &Vec<i32>, x: i32) -> (r: bool)
    ensures
        r == v@.contains(x),
{
    let mut i: usize = 0;
    while i < v.len()
        invariant
            i <= v@.len(),
            forall|k: int| 0 <= k < i ==> v@[k] != x,
        decreases v@.len() - i,
    {
        if v[i] == x {
            proof {
                assert(v@[i as int] == x);
            }
            return true;
        }
        i += 1;
    }
    false
}

fn host_check(s: &Step, hosts: &Vec<i32>) -> (r: bool)
    ensures
        r == is_host_of(*s, hosts@),
{
    if s.act_type != Some(ActType::Effect) || s.act_effect.len() == 0 {
        return false;
    }
    let first = &s.act_effect[0];
    if first.effect_type != Some(FIGHT_STEP_EFFECT) {
        return false;
    }
    match &first.fight_step {
        Some(h) => if h.act_type == Some(ActType::Effect) {
            match h.act_id {
                Some(a) => contains_i32(hosts, a),
                None => false,
            }
        } else {
            false
        },
        None => false,
    }
}

fn find_host(steps: &Vec<Step>, hosts: &Vec<i32>) -> (r: Option<usize>)
    ensures
        match r {
            Some(i) => host_index(steps@, hosts@) == Some(i as int),
            None => host_index(steps@, hosts@) == None::<int>,
        },
{
    let ghost p = |st: Step| is_host_of(st, hosts@);
    let mut i: usize = 0;
    while i < steps.len()
        invariant
            i <= steps@.len(),
            p == (|st: Step| is_host_of(st, hosts@)),
            forall|k: int| 0 <= k < i ==> !p(#[trigger] steps@[k]),
        decreases steps@.len() - i,
    {
        if host_check(&steps[i], hosts) {
            proof { lemma_first_index_is(steps@, p, i as int); }
            return Some(i);
        }
        i += 1;
    }
    proof { lemma_first_index_none(steps@, p); }
    None
}

/// The orig indices `orig` are the unclaimed ones among the first `n`.
pub open spec fn tracks(orig: Seq<usize>, u: Seq<int>) -> bool {
    orig.len() == u.len() && forall|k: int| 0 <= k < orig.len() ==> orig[k] as int == #[trigger] u[k]
}

/// Folds every step that a bundle claims into the host wrapper of the
/// bundle ranking it lowest (the first such bundle on ties), wrapped as an
/// effect and appended in step order; hosts themselves are never folded.
/// `specs[s]` are the host act ids of bundle `s` and `ranks[i][s]` the
/// rank bundle `s` claims step `i` with (`None`: no claim).
pub fn fold(steps: &mut Vec<Step>, specs: &Vec<Vec<i32>>, ranks: &Vec<Vec<Option<u16>>>)
    requires
        ranks@.len() == old(steps)@.len(),
        forall|i: int| 0 <= i < ranks@.len() ==> (#[trigger] ranks@[i])@.len() == specs@.len(),
    ensures
        ({
            let f = Fold { steps: old(steps)@, specs: rows(specs@), ranks: rows(ranks@) };
            let u = unclaimed(f, f.steps.len() as int);
            &&& final(steps)@.len() == u.len()
            &&& forall|k: int|
                0 <= k < u.len() ==> extended(
                    #[trigger] final(steps)@[k],
                    f.steps[u[k]],
                    host_extra(f, u[k], f.specs.len() as int),
                )
        }),
{
    let ghost f = Fold { steps: steps@, specs: rows(specs@), ranks: rows(ranks@) };
    let ns = specs.len();
    // where each bundle's host is
    let mut host_idx: Vec<Option<usize>> = Vec::new();
    let mut s: usize = 0;
    while s < ns
        invariant
            ns == specs@.len(),
            f.specs == rows(specs@),
            f.steps == steps@,
            s <= ns,
            host_idx@.len() == s,
            forall|t: int| 0 <= t < s ==> match #[trigger] host_idx@[t] {
                Some(h) => host_index(f.steps, f.specs[t]) == Some(h as int),
                None => host_index(f.steps, f.specs[t]) == None::<int>,
            },
        decreases ns - s,
    {
        proof {
            assert(f.specs[s as int] == specs@[s as int]@);
        }
        let h = find_host(steps, &specs[s]);
        host_idx.push(h);
        s += 1;
    }
    // which bundle claims each step
    let n = steps.len();
    let mut claims: Vec<Option<usize>> = Vec::new();
    let mut i: usize = 0;
    while i < n
        invariant
            n == steps@.len(),
            ns == specs@.len(),
            f == (Fold { steps: steps@, specs: rows(specs@), ranks: rows(ranks@) }),
            ranks@.len() == n,
            forall|i2: int| 0 <= i2 < ranks@.len() ==> (#[trigger] ranks@[i2])@.len() == specs@.len(),
            host_idx@.len() == ns,
            forall|t: int| 0 <= t < ns ==> match #[trigger] host_idx@[t] {
                Some(h) => host_index(f.steps, f.specs[t]) == Some(h as int),
                None => host_index(f.steps, f.specs[t]) == None::<int>,
            },
            i <= n,
            claims@.len() == i,
            forall|i2: int| 0 <= i2 < i ==> match #[trigger] claims@[i2] {
                Some(c) => claim(f, i2) == Some(c as int),
                None => claim(f, i2) == None::<int>,
            },
        decreases n - i,
    {
        let mut host = false;
        let mut t: usize = 0;
        while t < ns
            invariant
                ns == specs@.len(),
                f.specs.len() == ns,
                host_idx@.len() == ns,
                forall|t2: int| 0 <= t2 < ns ==> match #[trigger] host_idx@[t2] {
                    Some(h) => host_index(f.steps, f.specs[t2]) == Some(h as int),
                    None => host_index(f.steps, f.specs[t2]) == None::<int>,
                },
                t <= ns,
                host == exists|t2: int| 0 <= t2 < t && #[trigger] host_index(f.steps, f.specs[t2]) == Some(i as int),
            decreases ns - t,
        {
            match host_idx[t] {
                Some(h) => {
                    if h == i {
                        host = true;
                    }
                },
                None => {},
            }
            proof {
                if host_index(f.steps, f.specs[t as int]) == Some(i as int) {
                    assert(host_idx@[t as int] == Some(i));
                }
            }
            t += 1;
        }
        let mut best: Option<usize> = None;
        let mut best_rank: u16 = 0;
        let mut t: usize = 0;
        proof {
            assert(f.ranks[i as int] == ranks@[i as int]@);
        }
        while t < ns
            invariant
                ns == specs@.len(),
                f.specs.len() == ns,
                i < n,
                n == f.steps.len(),
                ranks@.len() == n,
                f.ranks[i as int] == ranks@[i as int]@,
                ranks@[i as int]@.len() == ns,
                host_idx@.len() == ns,
                forall|t2: int| 0 <= t2 < ns ==> match #[trigger] host_idx@[t2] {
                    Some(h) => host_index(f.steps, f.specs[t2]) == Some(h as int),
                    None => host_index(f.steps, f.specs[t2]) == None::<int>,
                },
                t <= ns,
                match best {
                    Some(b) => best_upto(f, i as int, t as int) == Some(b as int) && b < t && f.ranks[i as int][b as int]
                        == Some(best_rank),
                    None => best_upto(f, i as int, t as int) == None::<int>,
                },
            decreases ns - t,
        {
            match ranks[i][t] {
                Some(r) => {
                    if host_idx[t].is_some() {
                        match best {
                            None => {
                                best = Some(t);
                                best_rank = r;
                            },
                            Some(_) => {
                                if r < best_rank {
                                    best = Some(t);
                                    best_rank = r;
                                }
                            },
                        }
                    }
                },
                None => {},
            }
            t += 1;
        }
        let c = if host { None } else { best };
        claims.push(c);
        i += 1;
    }
    // take the steps apart
    let mut rest: Vec<Step> = Vec::new();
    std::mem::swap(steps, &mut rest);
    let mut embeds_v: Vec<Vec<Effect>> = Vec::new();
    let mut s: usize = 0;
    while s < ns
        invariant
            s <= ns,
            embeds_v@.len() == s,
            forall|t: int| 0 <= t < s ==> (#[trigger] embeds_v@[t])@ == Seq::<Effect>::empty(),
        decreases ns - s,
    {
        embeds_v.push(Vec::new());
        s += 1;
    }
    proof {
        assert(rest@ =~= f.steps.skip(0));
        assert forall|t: int| 0 <= t < ns implies (#[trigger] embeds_v@[t])@ == embeds(f, t, 0) by {}
    }
    let mut out: Vec<Step> = Vec::new();
    let mut orig: Vec<usize> = Vec::new();
    let mut i: usize = 0;
    while rest.len() > 0
        invariant
            n == f.steps.len(),
            n <= usize::MAX,
            ns == f.specs.len(),
            i <= n,
            rest@ == f.steps.skip(i as int),
            claims@.len() == n,
            forall|i2: int| 0 <= i2 < n ==> match #[trigger] claims@[i2] {
                Some(c) => claim(f, i2) == Some(c as int),
                None => claim(f, i2) == None::<int>,
            },
            embeds_v@.len() == ns,
            forall|t: int| 0 <= t < ns ==> (#[trigger] embeds_v@[t])@ == embeds(f, t, i as int),
            out@.len() == orig@.len(),
            tracks(orig@, unclaimed(f, i as int)),
            forall|k: int| 0 <= k < out@.len() ==> #[trigger] out@[k] == f.steps[orig@[k] as int],
        decreases rest@.len(),
    {
        let st = rest.remove(0);
        proof {
            assert(st == f.steps[i as int]);
            assert(rest@ =~= f.steps.skip(i + 1));
        }
        match claims[i] {
            Some(c) => {
                proof {
                    if c >= ns {
                        // a claim names a bundle
                        lemma_best_in_range(f, i as int, ns as int);
                    }
                }
                let ghost st_g = st;
                let w = Effect {
                    effect_type: Some(FIGHT_STEP_EFFECT),
                    target_id: None,
                    effect_num: None,
                    effect_num1: None,
                    reserve_id: None,
                    buff: None,
                    fight_step: Some(Box::new(st)),
                };
                let ghost before = embeds_v@;
                let mut e = embeds_v.remove(c);
                e.push(w);
                embeds_v.insert(c, e);
                proof {
                    assert forall|t: int| 0 <= t < ns implies (#[trigger] embeds_v@[t])@ == embeds(f, t, i + 1) by {
                        if t != c {
                            assert(embeds_v@[t] == before[t]);
                        }
                    }
                    assert(unclaimed(f, i + 1) == unclaimed(f, i as int));
                }
            },
            None => {
                let ghost o = out@;
                let ghost oo = orig@;
                out.push(st);
                orig.push(i);
                proof {
                    assert(unclaimed(f, i + 1) == unclaimed(f, i as int).push(i as int));
                    assert forall|t: int| 0 <= t < ns implies (#[trigger] embeds_v@[t])@ == embeds(f, t, i + 1) by {}
                    assert forall|k: int| 0 <= k < out@.len() implies #[trigger] out@[k] == f.steps[orig@[k] as int] by {
                        if k < o.len() {
                            assert(out@[k] == o[k]);
                            assert(orig@[k] == oo[k]);
                        }
                    }
                }
            },
        }
        i += 1;
    }
    // hand each bundle its embeds
    let ghost u = unclaimed(f, n as int);
    proof {
        assert forall|k: int| 0 <= k < out@.len() implies extended(
            #[trigger] out@[k],
            f.steps[u[k]],
            host_extra(f, u[k], 0),
        ) by {
            assert(out@[k].act_effect@ + Seq::<Effect>::empty() =~= out@[k].act_effect@);
        }
    }
    let mut s: usize = 0;
    while s < ns
        invariant
            n == f.steps.len(),
            ns == f.specs.len(),
            s <= ns,
            u == unclaimed(f, n as int),
            host_idx@.len() == ns,
            forall|t2: int| 0 <= t2 < ns ==> match #[trigger] host_idx@[t2] {
                Some(h) => host_index(f.steps, f.specs[t2]) == Some(h as int),
                None => host_index(f.steps, f.specs[t2]) == None::<int>,
            },
            embeds_v@.len() == ns - s,
            forall|t: int| 0 <= t < ns - s ==> (#[trigger] embeds_v@[t])@ == embeds(f, s + t, n as int),
            out@.len() == orig@.len(),
            tracks(orig@, u),
            forall|k: int| 0 <= k < out@.len() ==> extended(
                #[trigger] out@[k],
                f.steps[u[k]],
                host_extra(f, u[k], s as int),
            ),
        decreases ns - s,
    {
        let ghost before_e = embeds_v@;
        let mut e = embeds_v.remove(0);
        proof {
            assert(e@ == embeds(f, s as int, n as int));
            assert forall|t: int| 0 <= t < ns - (s + 1) implies (#[trigger] embeds_v@[t])@ == embeds(f, (s + 1) + t, n as int) by {
                assert(embeds_v@[t] == before_e[t + 1]);
            }
        }
        match host_idx[s] {
            Some(h) => {
                let pos = find_pos(&orig, h, Ghost(f), Ghost(u));
                let ghost o = out@;
                let ghost eg = e@;
                let mut st = out.remove(pos);
                st.act_effect.append(&mut e);
                out.insert(pos, st);
                proof {
                    assert forall|k: int| 0 <= k < out@.len() implies extended(
                        #[trigger] out@[k],
                        f.steps[u[k]],
                        host_extra(f, u[k], s + 1),
                    ) by {
                        if k == pos {
                            assert(u[k] == h as int);
                            assert(o[k].act_effect@ + eg == f.steps[u[k]].act_effect@ + host_extra(f, u[k], s as int) + eg);
                            assert(f.steps[u[k]].act_effect@ + host_extra(f, u[k], s as int) + eg =~= f.steps[u[k]].act_effect@
                                + (host_extra(f, u[k], s as int) + eg));
                        } else {
                            assert(out@[k] == o[k]);
                            assert(u[k] != h as int) by {
                                lemma_unclaimed_sorted(f, n as int);
                                lemma_tracks_distinct(orig@, u, k, pos as int);
                            }
                        }
                    }
                }
            },
            None => {
                proof {
                    assert forall|k: int| 0 <= k < out@.len() implies extended(
                        #[trigger] out@[k],
                        f.steps[u[k]],
                        host_extra(f, u[k], s + 1),
                    ) by {}
                }
            },
        }
        s += 1;
    }
    *steps = out;
}

proof fn lemma_best_in_range(f: Fold, i: int, n: int)
    ensures
        match best_upto(f, i, n) {
            Some(b) => 0 <= b < n,
            None => true,
        },
    decreases n,
{
    if n > 0 {
        lemma_best_in_range(f, i, n - 1);
    }
}

proof fn lemma_unclaimed_sorted(f: Fold, n: int)
    ensures
        forall|a: int, b: int|
            0 <= a < b < unclaimed(f, n).len() ==> #[trigger] unclaimed(f, n)[a] < #[trigger] unclaimed(f, n)[b],
        forall|a: int| 0 <= a < unclaimed(f, n).len() ==> 0 <= #[trigger] unclaimed(f, n)[a] < n,
    decreases n,
{
    if n > 0 {
        lemma_unclaimed_sorted(f, n - 1);
        let p = unclaimed(f, n - 1);
        let q = unclaimed(f, n);
        if claim(f, n - 1) is None {
            assert(q == p.push(n - 1));
            assert forall|a: int| 0 <= a < q.len() implies 0 <= #[trigger] q[a] < n by {
                if a < p.len() {
                    assert(q[a] == p[a]);
                }
            }
            assert forall|a: int, b: int| 0 <= a < b < q.len() implies #[trigger] q[a] < #[trigger] q[b] by {
                assert(q[a] == p[a]);
                if b < p.len() {
                    assert(q[b] == p[b]);
                    assert(p[a] < p[b]);
                } else {
                    assert(p[a] < n - 1);
                }
            }
        } else {
            assert(q == p);
            assert forall|a: int| 0 <= a < q.len() implies 0 <= #[trigger] q[a] < n by {
                assert(p[a] < n - 1);
            }
        }
    }
}

proof fn lemma_tracks_distinct(orig: Seq<usize>, u: Seq<int>, a: int, b: int)
    requires
        tracks(orig, u),
        forall|x: int, y: int| 0 <= x < y < u.len() ==> #[trigger] u[x] < #[trigger] u[y],
        0 <= a < u.len(),
        0 <= b < u.len(),
        a != b,
    ensures
        u[a] != u[b],
{
    if a < b {
        assert(u[a] < u[b]);
    } else {
        assert(u[b] < u[a]);
    }
}

/// The position of `h` in `orig`, which holds the unclaimed steps and so
/// every host.
fn find_pos(orig: &Vec<usize>, h: usize, Ghost(f): Ghost<Fold>, Ghost(u): Ghost<Seq<int>>) -> (pos: usize)
    requires
        tracks(orig@, u),
        u == unclaimed(f, f.steps.len() as int),
        exists|s: int| 0 <= s < f.specs.len() && #[trigger] host_index(f.steps, f.specs[s]) == Some(h as int),
    ensures
        pos < orig@.len(),
        orig@[pos as int] == h,
{
    let mut k: usize = 0;
    while k < orig.len()
        invariant
            tracks(orig@, u),
            k <= orig@.len(),
            forall|j: int| 0 <= j < k ==> orig@[j] != h,
        decreases orig@.len() - k,
    {
        if orig[k] == h {
            return k;
        }
        k += 1;
    }
    proof {
        let s = choose|s: int| 0 <= s < f.specs.len() && #[trigger] host_index(f.steps, f.specs[s]) == Some(h as int);
        crate::table::lemma_first_index(f.steps, |st: Step| is_host_of(st, f.specs[s]));
        lemma_host_unclaimed(f, h as int, f.steps.len() as int);
        let j = choose|j: int| 0 <= j < u.len() && #[trigger] u[j] == h as int;
        assert(orig@[j] as int == u[j]);
    }
    k
}

proof fn lemma_host_unclaimed(f: Fold, h: int, n: int)
    requires
        is_host(f, h),
        0 <= h < n <= f.steps.len(),
    ensures
        exists|j: int| 0 <= j < unclaimed(f, n).len() && #[trigger] unclaimed(f, n)[j] == h,
    decreases n,
{
    if n - 1 == h {
        assert(claim(f, h) is None);
        assert(unclaimed(f, n)[unclaimed(f, n - 1).len() as int] == h);
    } else {
        lemma_host_unclaimed(f, h, n - 1);
        let j = choose|j: int| 0 <= j < unclaimed(f, n - 1).len() && #[trigger] unclaimed(f, n - 1)[j] == h;
        assert(unclaimed(f, n)[j] == h);
    }
}

} // verus!
