//! Small helpers over the integer-keyed tables the managers keep.
use std::collections::HashMap;
use vstd::prelude::*;

verus! {

/// The value stored under `k`, or `d` when `k` is absent.
pub open spec fn get_or(m: Map<i64, i32>, k: i64, d: i32) -> i32 {
    if m.contains_key(k) { m[k] } else { d }
}

/// The value stored under `k`, or `d` when `k` is absent (i32 keys).
pub open spec fn get_or_i32(m: Map<i32, i32>, k: i32, d: i32) -> i32 {
    if m.contains_key(k) { m[k] } else { d }
}

/// The larger of two integers.
pub open spec fn max_i32(a: i32, b: i32) -> i32 {
    if a < b { b } else { a }
}

/// The smaller of two integers.
pub open spec fn min_i32(a: i32, b: i32) -> i32 {
    if b < a { b } else { a }
}

/// Reads the value under `k`, `0` when absent.
pub fn read_or_zero(m: &HashMap<i64, i32>, k: i64) -> (r: i32)
    ensures
        r == get_or(m@, k, 0),
{
    match m.get(&k) {
        Some(v) => *v,
        None => 0,
    }
}

/// Reads the value under `k`, `d` when absent (i32 keys).
pub fn read_or_i32(m: &HashMap<i32, i32>, k: i32, d: i32) -> (r: i32)
    ensures
        r == get_or_i32(m@, k, d),
{
    match m.get(&k) {
        Some(v) => *v,
        None => d,
    }
}

/// `max(a, b)` computed without calling into `Ord`.
pub fn max_of(a: i32, b: i32) -> (r: i32)
    ensures
        r == max_i32(a, b),
{
    if a < b { b } else { a }
}

/// `min(a, b)` computed without calling into `Ord`.
pub fn min_of(a: i32, b: i32) -> (r: i32)
    ensures
        r == min_i32(a, b),
{
    if b < a { b } else { a }
}

} // verus!

verus! {

/// Index of the first element satisfying `p`.
pub open spec fn first_index<T>(s: Seq<T>, p: spec_fn(T) -> bool) -> Option<int>
    decreases s.len(),
{
    if s.len() == 0 {
        None
    } else if p(s[0]) {
        Some(0)
    } else {
        match first_index(s.skip(1), p) {
            Some(i) => Some(i + 1),
            None => None,
        }
    }
}

/// What `first_index` gives, characterised without recursion.
pub proof fn lemma_first_index<T>(s: Seq<T>, p: spec_fn(T) -> bool)
    ensures
        match first_index(s, p) {
            Some(i) => 0 <= i < s.len() && p(s[i]) && forall|j: int| 0 <= j < i ==> !p(#[trigger] s[j]),
            None => forall|j: int| 0 <= j < s.len() ==> !p(#[trigger] s[j]),
        },
    decreases s.len(),
{
    if s.len() > 0 && !p(s[0]) {
        lemma_first_index(s.skip(1), p);
        assert forall|j: int| 1 <= j < s.len() implies s[j] == s.skip(1)[j - 1] by {}
        match first_index(s.skip(1), p) {
            Some(i) => {
                assert forall|j: int| 0 <= j < i + 1 implies !p(#[trigger] s[j]) by {
                    if j > 0 {
                        assert(s[j] == s.skip(1)[j - 1]);
                    }
                }
            },
            None => {
                assert forall|j: int| 0 <= j < s.len() implies !p(#[trigger] s[j]) by {
                    if j > 0 {
                        assert(s[j] == s.skip(1)[j - 1]);
                    }
                }
            },
        }
    }
}

/// An index whose element is the first to satisfy `p` is `first_index`.
pub proof fn lemma_first_index_is<T>(s: Seq<T>, p: spec_fn(T) -> bool, i: int)
    requires
        0 <= i < s.len(),
        p(s[i]),
        forall|j: int| 0 <= j < i ==> !p(#[trigger] s[j]),
    ensures
        first_index(s, p) == Some(i),
{
    lemma_first_index(s, p);
    match first_index(s, p) {
        Some(k) => {
            if k < i {
                assert(!p(s[k]));
            } else if k > i {
                assert(!p(s[i]));
            }
        },
        None => {
            assert(!p(s[i]));
        },
    }
}

/// When nothing satisfies `p`, `first_index` is `None`.
pub proof fn lemma_first_index_none<T>(s: Seq<T>, p: spec_fn(T) -> bool)
    requires
        forall|j: int| 0 <= j < s.len() ==> !p(#[trigger] s[j]),
    ensures
        first_index(s, p) == None::<int>,
{
    lemma_first_index(s, p);
    if let Some(k) = first_index(s, p) {
        assert(p(s[k]));
    }
}

} // verus!

verus! {

/// Integer division truncating toward zero (as Rust's `/`), for a
/// positive divisor.
pub open spec fn tdiv(a: int, d: int) -> int {
    if a >= 0 { a / d } else { -((-a) / d) }
}

} // verus!

verus! {

/// Integer division truncating toward zero, for any nonzero divisor.
pub open spec fn tdiv_any(a: int, d: int) -> int {
    if d > 0 { tdiv(a, d) } else { -tdiv(a, -d) }
}

/// Multiplying a truncated quotient back by a positive divisor stays on
/// the dividend's side of zero without passing it, and dividing again
/// gives the quotient back.
pub proof fn lemma_tdiv_mul_back(x: int, b: int)
    requires
        b > 0,
    ensures
        x >= 0 ==> 0 <= tdiv(x, b) * b <= x,
        x < 0 ==> x <= tdiv(x, b) * b <= 0,
        tdiv(tdiv(x, b) * b, b) == tdiv(x, b),
        -x <= tdiv(x, b) <= x || x <= tdiv(x, b) <= -x,
{
    if x >= 0 {
        let k = x / b;
        assert(0 <= k <= x) by (nonlinear_arith) requires x >= 0, b > 0, k == x / b;
        assert(0 <= k * b <= x) by (nonlinear_arith) requires x >= 0, b > 0, k == x / b;
        assert((k * b) / b == k) by (nonlinear_arith) requires b > 0;
    } else {
        let k = (-x) / b;
        let y = -x;
        assert(0 <= k <= y) by (nonlinear_arith) requires y > 0, b > 0, k == y / b;
        assert(0 <= k * b <= y) by (nonlinear_arith) requires y > 0, b > 0, k == y / b;
        assert((k * b) / b == k) by (nonlinear_arith) requires b > 0;
        assert((-k) * b == -(k * b)) by (nonlinear_arith);
        if k * b == 0 {
            assert(k == 0) by (nonlinear_arith) requires k * b == 0, b > 0;
        }
    }
}

/// `a / d` as Rust computes it, truncating toward zero.
pub fn div_trunc(a: i32, d: i32) -> (r: i32)
    requires
        d != 0,
        !(a == i32::MIN && d == -1),
    ensures
        r == tdiv_any(a as int, d as int),
{
    if d > 0 {
        a / d
    } else if d == i32::MIN {
        if a == i32::MIN { 1 } else { 0 }
    } else {
        proof { lemma_tdiv_mul_back(a as int, -d as int); }
        let q = a / (-d);
        -q
    }
}

} // verus!

verus! {

/// Truncating division by a positive divisor moves toward zero without
/// crossing it.
pub proof fn lemma_tdiv_range(x: int, d: int)
    requires
        d > 0,
    ensures
        x >= 0 ==> 0 <= tdiv(x, d) <= x,
        x < 0 ==> x <= tdiv(x, d) <= 0,
{
    if x >= 0 {
        assert(0 <= x / d <= x) by (nonlinear_arith) requires x >= 0, d > 0;
    } else {
        let y = -x;
        assert(0 <= y / d <= y) by (nonlinear_arith) requires y > 0, d > 0;
    }
}

/// `a * b` saturated to the range of `i32`.
pub open spec fn sat_mul(a: i32, b: i32) -> i32 {
    if a * b > i32::MAX {
        i32::MAX
    } else if a * b < i32::MIN {
        i32::MIN
    } else {
        (a * b) as i32
    }
}

/// `a * b` saturated to the range of `i32`, as `i32::saturating_mul`.
pub fn saturating_mul_i32(a: i32, b: i32) -> (r: i32)
    ensures
        r == sat_mul(a, b),
{
    let x = a as i64;
    let y = b as i64;
    assert(-0x4000_0000_0000_0000 <= x * y <= 0x4000_0000_0000_0000) by (nonlinear_arith)
        requires
            -0x8000_0000 <= x <= 0x7fff_ffff,
            -0x8000_0000 <= y <= 0x7fff_ffff,
    ;
    let p = x * y;
    if p > i32::MAX as i64 {
        i32::MAX
    } else if p < i32::MIN as i64 {
        i32::MIN
    } else {
        p as i32
    }
}

} // verus!

verus! {

/// Every value of the table is at least zero.
pub open spec fn all_nonneg(m: Map<i64, i32>) -> bool {
    forall|k: i64| #[trigger] m.contains_key(k) ==> m[k] >= 0
}

} // verus!
