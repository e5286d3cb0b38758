//! The small text grammar of the data tables: fields separated by a
//! single byte (`#`, `|`, `,`), whitespace trimmed as `str::trim` does,
//! and decimal integers as `i32::from_str` reads them. Text is held as its
//! UTF-8 bytes.
use vstd::prelude::*;

verus! {

/// ASCII whitespace as `char::is_whitespace` sees it in the ASCII range.
pub open spec fn is_ws(b: u8) -> bool {
    b == 32 || (9 <= b && b <= 13)
}

/// `c` is the UTF-8 encoding of a whitespace character as
/// `char::is_whitespace` sees it: the ASCII ones, U+0085, U+00A0, U+1680,
/// U+2000 to U+200A, U+2028, U+2029, U+202F, U+205F and U+3000.
pub open spec fn is_ws_char(c: Seq<u8>) -> bool {
    ||| c.len() == 1 && is_ws(c[0])
    ||| c.len() == 2 && c[0] == 0xC2u8 && (c[1] == 0x85u8 || c[1] == 0xA0u8)
    ||| c.len() == 3 && c[0] == 0xE1u8 && c[1] == 0x9Au8 && c[2] == 0x80u8
    ||| c.len() == 3 && c[0] == 0xE2u8 && c[1] == 0x80u8 && ((0x80u8 <= c[2] && c[2] <= 0x8Au8) || c[2]
        == 0xA8u8 || c[2] == 0xA9u8 || c[2] == 0xAFu8)
    ||| c.len() == 3 && c[0] == 0xE2u8 && c[1] == 0x81u8 && c[2] == 0x9Fu8
    ||| c.len() == 3 && c[0] == 0xE3u8 && c[1] == 0x80u8 && c[2] == 0x80u8
}

/// The length of the whitespace character `s` starts with, `0` when it
/// starts with none.
pub open spec fn ws_lead(s: Seq<u8>) -> int {
    if s.len() >= 1 && is_ws_char(s.take(1)) {
        1
    } else if s.len() >= 2 && is_ws_char(s.take(2)) {
        2
    } else if s.len() >= 3 && is_ws_char(s.take(3)) {
        3
    } else {
        0
    }
}

/// The length of the whitespace character `s` ends with, `0` when it
/// ends with none.
pub open spec fn ws_tail(s: Seq<u8>) -> int {
    if s.len() >= 1 && is_ws_char(s.skip(s.len() - 1)) {
        1
    } else if s.len() >= 2 && is_ws_char(s.skip(s.len() - 2)) {
        2
    } else if s.len() >= 3 && is_ws_char(s.skip(s.len() - 3)) {
        3
    } else {
        0
    }
}

/// An ASCII decimal digit.
pub open spec fn is_digit(b: u8) -> bool {
    48 <= b && b <= 57
}

/// `s` without leading whitespace.
pub open spec fn trim_start(s: Seq<u8>) -> Seq<u8>
    decreases s.len(),
{
    if ws_lead(s) > 0 { trim_start(s.skip(ws_lead(s))) } else { s }
}

/// `s` without trailing whitespace.
pub open spec fn trim_end(s: Seq<u8>) -> Seq<u8>
    decreases s.len(),
{
    if ws_tail(s) > 0 { trim_end(s.take(s.len() - ws_tail(s))) } else { s }
}

/// `s` without leading or trailing whitespace.
pub open spec fn trim(s: Seq<u8>) -> Seq<u8> {
    trim_end(trim_start(s))
}

/// Index of the last `sep` in `s`.
pub open spec fn last_sep(s: Seq<u8>, sep: u8) -> Option<int>
    decreases s.len(),
{
    if s.len() == 0 {
        None
    } else if s.last() == sep {
        Some(s.len() - 1)
    } else {
        last_sep(s.drop_last(), sep)
    }
}

/// The fields of `s` between occurrences of `sep`, as `str::split` gives
/// them (always at least one field).
pub open spec fn split(s: Seq<u8>, sep: u8) -> Seq<Seq<u8>>
    decreases s.len(),
{
    match last_sep(s, sep) {
        None => seq![s],
        Some(p) => if 0 <= p < s.len() { split(s.take(p), sep).push(s.skip(p + 1)) } else { seq![s] },
    }
}

/// The value of a sequence of decimal digits.
pub open spec fn digits_value(s: Seq<u8>) -> int
    decreases s.len(),
{
    if s.len() == 0 { 0 } else { digits_value(s.drop_last()) * 10 + (s.last() - 48) }
}

/// Every byte is a decimal digit.
pub open spec fn all_digits(s: Seq<u8>) -> bool {
    forall|i: int| 0 <= i < s.len() ==> is_digit(#[trigger] s[i])
}

/// The integer `s` denotes as `i32::from_str` reads it: an optional sign,
/// then at least one digit, within the range of `i32`.
pub open spec fn parse_i32(s: Seq<u8>) -> Option<i32> {
    if s.len() == 0 {
        None
    } else if s[0] == 45u8 || s[0] == 43u8 {
        let d = s.skip(1);
        let v = if s[0] == 45u8 { -digits_value(d) } else { digits_value(d) };
        if d.len() > 0 && all_digits(d) && i32::MIN <= v <= i32::MAX { Some(v as i32) } else { None }
    } else {
        if all_digits(s) && digits_value(s) <= i32::MAX { Some(digits_value(s) as i32) } else { None }
    }
}

/// The integer a trimmed field denotes.
pub open spec fn parse_field(s: Seq<u8>) -> Option<i32> {
    parse_i32(trim(s))
}

/// The length of the whitespace character `s[a..end]` starts with.
fn ws_lead_at(s: &[u8], a: usize, end: usize) -> (n: usize)
    requires
        a <= end <= s@.len(),
    ensures
        n == ws_lead(s@.subrange(a as int, end as int)),
        n <= end - a,
{
    let ghost w = s@.subrange(a as int, end as int);
    let len = end - a;
    if len >= 1 {
        let b0 = s[a];
        proof {
            assert(w.take(1) =~= seq![b0]);
        }
        if b0 == 32 || (9 <= b0 && b0 <= 13) {
            return 1;
        }
        if len >= 2 {
            let b1 = s[a + 1];
            proof {
                assert(w.take(2) =~= seq![b0, b1]);
            }
            if b0 == 0xC2 && (b1 == 0x85 || b1 == 0xA0) {
                return 2;
            }
            if len >= 3 {
                let b2 = s[a + 2];
                proof {
                    assert(w.take(3) =~= seq![b0, b1, b2]);
                }
                if (b0 == 0xE1 && b1 == 0x9A && b2 == 0x80) || (b0 == 0xE2 && b1 == 0x80 && ((0x80 <= b2
                    && b2 <= 0x8A) || b2 == 0xA8 || b2 == 0xA9 || b2 == 0xAF)) || (b0 == 0xE2 && b1 == 0x81
                    && b2 == 0x9F) || (b0 == 0xE3 && b1 == 0x80 && b2 == 0x80) {
                    return 3;
                }
            }
        }
    }
    0
}

/// The length of the whitespace character `s[a..e]` ends with.
fn ws_tail_at(s: &[u8], a: usize, e: usize) -> (n: usize)
    requires
        a <= e <= s@.len(),
    ensures
        n == ws_tail(s@.subrange(a as int, e as int)),
        n <= e - a,
{
    let ghost w = s@.subrange(a as int, e as int);
    let len = e - a;
    if len >= 1 {
        let c0 = s[e - 1];
        proof {
            assert(w.skip(w.len() - 1) =~= seq![c0]);
        }
        if c0 == 32 || (9 <= c0 && c0 <= 13) {
            return 1;
        }
        if len >= 2 {
            let c1 = s[e - 2];
            proof {
                assert(w.skip(w.len() - 2) =~= seq![c1, c0]);
            }
            if c1 == 0xC2 && (c0 == 0x85 || c0 == 0xA0) {
                return 2;
            }
            if len >= 3 {
                let c2 = s[e - 3];
                proof {
                    assert(w.skip(w.len() - 3) =~= seq![c2, c1, c0]);
                }
                if (c2 == 0xE1 && c1 == 0x9A && c0 == 0x80) || (c2 == 0xE2 && c1 == 0x80 && ((0x80 <= c0
                    && c0 <= 0x8A) || c0 == 0xA8 || c0 == 0xA9 || c0 == 0xAF)) || (c2 == 0xE2 && c1 == 0x81
                    && c0 == 0x9F) || (c2 == 0xE3 && c1 == 0x80 && c0 == 0x80) {
                    return 3;
                }
            }
        }
    }
    0
}

/// Bounds of `s[start..end]` with surrounding whitespace removed.
pub fn trim_range(s: &[u8], start: usize, end: usize) -> (r: (usize, usize))
    requires
        start <= end <= s@.len(),
    ensures
        start <= r.0 <= r.1 <= end,
        s@.subrange(r.0 as int, r.1 as int) == trim(s@.subrange(start as int, end as int)),
{
    let ghost w = s@.subrange(start as int, end as int);
    let mut a = start;
    let mut n = ws_lead_at(s, a, end);
    while n > 0
        invariant
            start <= a <= end <= s@.len(),
            w == s@.subrange(start as int, end as int),
            trim_start(w) == trim_start(s@.subrange(a as int, end as int)),
            n == ws_lead(s@.subrange(a as int, end as int)),
            n <= end - a,
        decreases end - a,
    {
        proof {
            assert(s@.subrange(a as int, end as int).skip(n as int) =~= s@.subrange(a + n, end as int));
        }
        a += n;
        n = ws_lead_at(s, a, end);
    }
    let mut e = end;
    let mut m = ws_tail_at(s, a, e);
    while m > 0
        invariant
            start <= a <= e <= end <= s@.len(),
            trim_end(s@.subrange(a as int, end as int)) == trim_end(s@.subrange(a as int, e as int)),
            m == ws_tail(s@.subrange(a as int, e as int)),
            m <= e - a,
        decreases e - a,
    {
        proof {
            assert(s@.subrange(a as int, e as int).take(e - a - m) =~= s@.subrange(a as int, e - m));
        }
        e -= m;
        m = ws_tail_at(s, a, e);
    }
    (a, e)
}

proof fn lemma_digits_value_prefix_le(s: Seq<u8>, k: int)
    requires
        0 <= k <= s.len(),
        all_digits(s),
    ensures
        digits_value(s.take(k)) <= digits_value(s),
        digits_value(s.take(k)) >= 0,
    decreases s.len() - k,
{
    if k < s.len() {
        lemma_digits_value_prefix_le(s, k + 1);
        assert(s.take(k + 1).drop_last() =~= s.take(k));
        assert(s.take(k + 1).last() == s[k]);
        lemma_digits_value_nonneg(s.take(k));
    } else {
        assert(s.take(k) =~= s);
        lemma_digits_value_nonneg(s);
    }
}

proof fn lemma_digits_value_nonneg(s: Seq<u8>)
    requires
        all_digits(s),
    ensures
        digits_value(s) >= 0,
    decreases s.len(),
{
    if s.len() > 0 {
        assert(all_digits(s.drop_last()));
        lemma_digits_value_nonneg(s.drop_last());
        assert(is_digit(s[s.len() - 1]));
    }
}

/// Reads the digits of `s[start..end]` (which must all be digits and at
/// least one) as long as the value stays at most `bound`.
fn read_digits(s: &[u8], start: usize, end: usize, bound: i64) -> (r: Option<i64>)
    requires
        start <= end <= s@.len(),
        0 <= bound <= 0x1_0000_0000,
    ensures
        match r {
            Some(v) => all_digits(s@.subrange(start as int, end as int)) && v == digits_value(
                s@.subrange(start as int, end as int),
            ) && 0 <= v <= bound,
            None => !all_digits(s@.subrange(start as int, end as int)) || digits_value(
                s@.subrange(start as int, end as int),
            ) > bound,
        },
{
    let ghost d = s@.subrange(start as int, end as int);
    let mut acc: i64 = 0;
    let mut i = start;
    while i < end
        invariant
            start <= i <= end <= s@.len(),
            d == s@.subrange(start as int, end as int),
            0 <= bound <= 0x1_0000_0000,
            all_digits(d.take(i - start)),
            acc == digits_value(d.take(i - start)),
            0 <= acc <= bound,
        decreases end - i,
    {
        let b = s[i];
        proof {
            assert(d.take(i - start + 1).drop_last() =~= d.take(i - start));
            assert(d.take(i - start + 1).last() == b);
        }
        if b < 48 || b > 57 {
            proof {
                assert(d[i - start] == b);
            }
            return None;
        }
        let next = acc * 10 + (b - 48) as i64;
        proof {
            assert forall|k: int| 0 <= k < i - start + 1 implies is_digit(#[trigger] d.take(i - start + 1)[k]) by {
                if k < i - start {
                    assert(d.take(i - start + 1)[k] == d.take(i - start)[k]);
                }
            }
        }
        if next > bound {
            proof {
                if all_digits(d) {
                    lemma_digits_value_prefix_le(d, i - start + 1);
                }
            }
            return None;
        }
        acc = next;
        i += 1;
    }
    proof {
        assert(d.take(end - start) =~= d);
    }
    Some(acc)
}

/// Parses `s[start..end]` as `i32::from_str` does.
pub fn parse_i32_range(s: &[u8], start: usize, end: usize) -> (r: Option<i32>)
    requires
        start <= end <= s@.len(),
    ensures
        r == parse_i32(s@.subrange(start as int, end as int)),
{
    let ghost t = s@.subrange(start as int, end as int);
    if start == end {
        return None;
    }
    let first = s[start];
    if first == 45 || first == 43 {
        proof {
            assert(t[0] == first);
            assert(t.skip(1) =~= s@.subrange(start + 1, end as int));
        }
        if start + 1 == end {
            return None;
        }
        if first == 45 {
            match read_digits(s, start + 1, end, 0x8000_0000) {
                Some(v) => Some((-v) as i32),
                None => None,
            }
        } else {
            match read_digits(s, start + 1, end, 0x7fff_ffff) {
                Some(v) => Some(v as i32),
                None => None,
            }
        }
    } else {
        proof {
            assert(t[0] == first);
        }
        match read_digits(s, start, end, 0x7fff_ffff) {
            Some(v) => Some(v as i32),
            None => None,
        }
    }
}

/// Parses the trimmed field `s[start..end]` as `i32::from_str` does.
pub fn parse_field_range(s: &[u8], start: usize, end: usize) -> (r: Option<i32>)
    requires
        start <= end <= s@.len(),
    ensures
        r == parse_field(s@.subrange(start as int, end as int)),
{
    let (a, e) = trim_range(s, start, end);
    parse_i32_range(s, a, e)
}

proof fn lemma_last_sep(w: Seq<u8>, sep: u8, p: int)
    requires
        -1 <= p < w.len(),
        p >= 0 ==> w[p] == sep,
        forall|k: int| p < k < w.len() ==> w[k] != sep,
    ensures
        last_sep(w, sep) == (if p >= 0 { Some(p) } else { None::<int> }),
    decreases w.len(),
{
    if w.len() > 0 && w.last() != sep {
        assert forall|k: int| p < k < w.len() - 1 implies w.drop_last()[k] != sep by {
            assert(w.drop_last()[k] == w[k]);
        }
        if p >= 0 {
            assert(w.drop_last()[p] == w[p]);
        }
        lemma_last_sep(w.drop_last(), sep, p);
    }
}

/// `split` yields at least one field.
pub proof fn lemma_split_nonempty(s: Seq<u8>, sep: u8)
    ensures
        split(s, sep).len() > 0,
    decreases s.len(),
{
    match last_sep(s, sep) {
        None => {},
        Some(p) => {
            if 0 <= p < s.len() {
                lemma_split_nonempty(s.take(p), sep);
            }
        },
    }
}

/// Bounds of the fields of `s[start..end]` separated by `sep`.
pub fn split_range(s: &[u8], start: usize, end: usize, sep: u8) -> (r: Vec<(usize, usize)>)
    requires
        start <= end <= s@.len(),
    ensures
        r@.len() == split(s@.subrange(start as int, end as int), sep).len(),
        r@.len() > 0,
        forall|i: int| 0 <= i < r@.len() ==> start <= #[trigger] r@[i].0 <= r@[i].1 <= end,
        forall|i: int| 0 <= i < r@.len() ==> s@.subrange(#[trigger] r@[i].0 as int, r@[i].1 as int)
            == split(s@.subrange(start as int, end as int), sep)[i],
{
    let ghost w = s@.subrange(start as int, end as int);
    let mut out: Vec<(usize, usize)> = Vec::new();
    let mut field_start = start;
    let mut i = start;
    while i < end
        invariant
            start <= field_start <= i <= end <= s@.len(),
            w == s@.subrange(start as int, end as int),
            forall|k: int| field_start <= k < i ==> s@[k] != sep,
            field_start == start ==> out@.len() == 0,
            field_start > start ==> s@[field_start - 1] == sep,
            field_start > start ==> out@.len() == split(w.take(field_start - 1 - start), sep).len(),
            field_start > start ==> forall|j: int| 0 <= j < out@.len() ==> start <= #[trigger] out@[j].0 <= out@[j].1 <= end,
            field_start > start ==> forall|j: int| 0 <= j < out@.len() ==> s@.subrange(#[trigger] out@[j].0 as int, out@[j].1 as int)
                == split(w.take(field_start - 1 - start), sep)[j],
        decreases end - i,
    {
        if s[i] == sep {
            proof {
                let t = w.take(i - start);
                let p = field_start - 1 - start;
                assert forall|k: int| p < k < t.len() implies t[k] != sep by {
                    assert(t[k] == s@[start + k]);
                }
                if field_start > start {
                    assert(t[p] == s@[field_start - 1]);
                }
                lemma_last_sep(t, sep, p);
                if field_start > start {
                    assert(t.take(p) =~= w.take(p));
                    assert(t.skip(p + 1) =~= s@.subrange(field_start as int, i as int));
                } else {
                    assert(t =~= s@.subrange(field_start as int, i as int));
                }
            }
            out.push((field_start, i));
            field_start = i + 1;
        }
        i += 1;
    }
    proof {
        let p = field_start - 1 - start;
        assert forall|k: int| p < k < w.len() implies w[k] != sep by {
            assert(w[k] == s@[start + k]);
        }
        if field_start > start {
            assert(w[p] == s@[field_start - 1]);
        }
        lemma_last_sep(w, sep, p);
        if field_start > start {
            assert(w.skip(p + 1) =~= s@.subrange(field_start as int, end as int));
        } else {
            assert(w =~= s@.subrange(field_start as int, end as int));
        }
    }
    out.push((field_start, end));
    proof { lemma_split_nonempty(w, sep); }
    out
}

/// The decimal digits of `n`, most significant first.
pub open spec fn render_nat(n: nat) -> Seq<u8>
    decreases n,
{
    if n < 10 {
        seq![(48 + n) as u8]
    } else {
        render_nat(n / 10).push((48 + n % 10) as u8)
    }
}

/// `v` in decimal as `Display` writes it: a `-` before negative values.
pub open spec fn render_int(v: int) -> Seq<u8> {
    if v < 0 { seq![45u8] + render_nat((-v) as nat) } else { render_nat(v as nat) }
}

fn push_nat(out: &mut Vec<u8>, n: u64)
    ensures
        final(out)@ == old(out)@ + render_nat(n as nat),
    decreases n,
{
    if n >= 10 {
        push_nat(out, n / 10);
    }
    out.push((48 + n % 10) as u8);
    proof {
        if n >= 10 {
            assert(old(out)@ + render_nat(n as nat) =~= old(out)@ + render_nat((n / 10) as nat) + seq![(48 + n % 10) as u8]);
        } else {
            assert(old(out)@ + render_nat(n as nat) =~= old(out)@ + seq![(48 + n % 10) as u8]);
        }
    }
}

/// Appends `v` in decimal.
pub fn push_i32(out: &mut Vec<u8>, v: i32)
    ensures
        final(out)@ == old(out)@ + render_int(v as int),
{
    if v < 0 {
        out.push(45u8);
        let m: i64 = -(v as i64);
        push_nat(out, m as u64);
        proof {
            assert(old(out)@ + render_int(v as int) =~= old(out)@.push(45u8) + render_nat((-v) as nat));
        }
    } else {
        push_nat(out, v as u64);
    }
}

proof fn lemma_render_nat(n: nat)
    ensures
        render_nat(n).len() > 0,
        all_digits(render_nat(n)),
        digits_value(render_nat(n)) == n,
    decreases n,
{
    if n >= 10 {
        lemma_render_nat(n / 10);
        let r = render_nat(n);
        assert(r.drop_last() =~= render_nat(n / 10));
        assert(r.last() == (48 + n % 10) as u8);
        assert((n / 10) * 10 + n % 10 == n) by (nonlinear_arith);
        assert(n % 10 < 10);
        assert(r.last() - 48 == n % 10);
        assert(digits_value(r) == digits_value(r.drop_last()) * 10 + (r.last() - 48));
        assert forall|i: int| 0 <= i < r.len() implies is_digit(#[trigger] r[i]) by {
            if i < r.len() - 1 {
                assert(r[i] == render_nat(n / 10)[i]);
            }
        }
    } else {
        assert(render_nat(n).drop_last() =~= Seq::<u8>::empty());
        assert(render_nat(n).last() == (48 + n) as u8);
        assert(digits_value(render_nat(n)) == digits_value(render_nat(n).drop_last()) * 10 + (render_nat(n).last() - 48));
    }
}

/// Decimal text contains no whitespace and no separator other than digits
/// and a leading `-`.
pub open spec fn is_number_byte(b: u8) -> bool {
    is_digit(b) || b == 45u8
}

proof fn lemma_render_int(v: int)
    requires
        i32::MIN <= v <= i32::MAX,
    ensures
        parse_i32(render_int(v)) == Some(v as i32),
        render_int(v).len() > 0,
        forall|i: int| 0 <= i < render_int(v).len() ==> is_number_byte(#[trigger] render_int(v)[i]),
        is_digit(render_int(v).last()),
        is_digit(render_int(v)[0]) || render_int(v)[0] == 45u8,
{
    if v < 0 {
        lemma_render_nat((-v) as nat);
        let r = render_int(v);
        assert(r.skip(1) =~= render_nat((-v) as nat));
        assert(r[0] == 45u8);
        assert forall|i: int| 0 <= i < r.len() implies is_number_byte(#[trigger] r[i]) by {
            if i > 0 {
                assert(r[i] == render_nat((-v) as nat)[i - 1]);
            }
        }
        assert(r.last() == render_nat((-v) as nat).last());
    } else {
        lemma_render_nat(v as nat);
        let r = render_int(v);
        assert(is_digit(r[0]));
    }
}

proof fn lemma_trim_number(s: Seq<u8>)
    requires
        s.len() > 0,
        s[0] < 0x80u8 && !is_ws(s[0]),
        s.last() < 0x80u8 && !is_ws(s.last()),
    ensures
        trim(s) == s,
{
    assert(s.take(1)[0] == s[0]);
    if s.len() >= 2 {
        assert(s.take(2)[0] == s[0]);
        assert(s.skip(s.len() - 2)[1] == s.last());
    }
    if s.len() >= 3 {
        assert(s.take(3)[0] == s[0]);
        assert(s.skip(s.len() - 3)[2] == s.last());
    }
    assert(s.skip(s.len() - 1)[0] == s.last());
    assert(ws_lead(s) == 0);
    assert(ws_tail(s) == 0);
}

/// Reading back a number written by `push_i32` gives the number.
pub proof fn lemma_parse_field_render(v: i32)
    ensures
        parse_field(render_int(v as int)) == Some(v),
{
    lemma_render_int(v as int);
    let r = render_int(v as int);
    assert(is_number_byte(r[0]));
    assert(is_number_byte(r[r.len() - 1]));
    lemma_trim_number(r);
}

/// Splitting `x` followed by `sep` and a field without `sep` gives the
/// fields of `x` and then that field.
pub proof fn lemma_split_append(x: Seq<u8>, sep: u8, y: Seq<u8>)
    requires
        forall|i: int| 0 <= i < y.len() ==> y[i] != sep,
    ensures
        split(x + seq![sep] + y, sep) == split(x, sep).push(y),
{
    let w = x + seq![sep] + y;
    let p = x.len() as int;
    assert(w[p] == sep);
    assert forall|k: int| p < k < w.len() implies w[k] != sep by {
        assert(w[k] == y[k - p - 1]);
    }
    lemma_last_sep(w, sep, p);
    assert(w.take(p) =~= x);
    assert(w.skip(p + 1) =~= y);
}

/// A field without `sep` splits into itself.
pub proof fn lemma_split_single(y: Seq<u8>, sep: u8)
    requires
        forall|i: int| 0 <= i < y.len() ==> y[i] != sep,
    ensures
        split(y, sep) == seq![y],
{
    lemma_last_sep(y, sep, -1);
}

/// Rendered numbers never contain the byte `sep` when `sep` is neither a
/// digit nor `-`.
pub proof fn lemma_render_avoids(v: i32, sep: u8)
    requires
        !is_number_byte(sep),
    ensures
        forall|i: int| 0 <= i < render_int(v as int).len() ==> render_int(v as int)[i] != sep,
{
    lemma_render_int(v as int);
}

} // verus!
