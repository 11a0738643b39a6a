use vstd::prelude::*;

verus! {

/// The pieces of `s` between occurrences of `sep`; always at least one piece.
pub open spec fn split(s: Seq<u8>, sep: u8) -> Seq<Seq<u8>>
    decreases s.len(),
{
    if s.len() == 0 {
        seq![Seq::<u8>::empty()]
    } else {
        let prev = split(s.drop_last(), sep);
        if s.last() == sep {
            prev.push(Seq::<u8>::empty())
        } else {
            prev.update(prev.len() - 1, prev.last().push(s.last()))
        }
    }
}

/// Splitting yields at least one piece.
pub proof fn lemma_split_nonempty(s: Seq<u8>, sep: u8)
    ensures
        split(s, sep).len() >= 1,
    decreases s.len(),
{
    if s.len() > 0 {
        lemma_split_nonempty(s.drop_last(), sep);
    }
}

/// The contents of each vector.
pub open spec fn views(v: Seq<Vec<u8>>) -> Seq<Seq<u8>> {
    Seq::new(v.len(), |i: int| v[i]@)
}

/// Splits `s` at every `sep`.
pub fn split_bytes(s: &[u8], sep: u8) -> (r: Vec<Vec<u8>>)
    ensures
        views(r@) == split(s@, sep),
{
    let mut pieces: Vec<Vec<u8>> = Vec::new();
    let mut cur: Vec<u8> = Vec::new();
    let mut i: usize = 0;
    proof {
        assert(s@.take(0) =~= Seq::<u8>::empty());
        assert(views(pieces@).push(cur@) =~= split(s@.take(0), sep));
    }
    while i < s.len()
        invariant
            i <= s@.len(),
            views(pieces@).push(cur@) =~= split(s@.take(i as int), sep),
        decreases s@.len() - i,
    {
        let b = s[i];
        proof {
            assert(s@.take(i as int + 1).drop_last() =~= s@.take(i as int));
        }
        let ghost before = views(pieces@).push(cur@);
        if b == sep {
            let done = cur;
            pieces.push(done);
            cur = Vec::new();
            proof {
                assert(views(pieces@).push(cur@) =~= before.push(Seq::<u8>::empty()));
            }
        } else {
            cur.push(b);
            proof {
                assert(views(pieces@).push(cur@) =~= before.update(before.len() - 1, before.last().push(b)));
            }
        }
        i = i + 1;
    }
    proof {
        assert(s@.take(s@.len() as int) =~= s@);
    }
    pieces.push(cur);
    proof {
        assert(views(pieces@) =~= split(s@, sep));
    }
    pieces
}

/// A space, tab, carriage return or line feed.
pub open spec fn is_space(b: u8) -> bool {
    b == 32 || b == 9 || b == 13 || b == 10
}

/// `s` without its leading white space.
pub open spec fn trim_start(s: Seq<u8>) -> Seq<u8>
    decreases s.len(),
{
    if s.len() > 0 && is_space(s[0]) {
        trim_start(s.skip(1))
    } else {
        s
    }
}

/// `s` without its trailing white space.
pub open spec fn trim_end(s: Seq<u8>) -> Seq<u8>
    decreases s.len(),
{
    if s.len() > 0 && is_space(s.last()) {
        trim_end(s.drop_last())
    } else {
        s
    }
}

/// `s` without white space at either end.
pub open spec fn trim(s: Seq<u8>) -> Seq<u8> {
    trim_end(trim_start(s))
}

/// The bytes of `s` without white space at either end.
pub fn trim_bytes(s: &Vec<u8>) -> (r: Vec<u8>)
    ensures
        r@ == trim(s@),
{
    let n = s.len();
    let mut a: usize = 0;
    proof {
        assert(s@.subrange(0, n as int) =~= s@);
    }
    while a < n && (s[a] == 32 || s[a] == 9 || s[a] == 13 || s[a] == 10)
        invariant
            n == s@.len(),
            a <= n,
            trim_start(s@) == trim_start(s@.subrange(a as int, n as int)),
        decreases n - a,
    {
        proof {
            assert(s@.subrange(a as int, n as int).skip(1) =~= s@.subrange(a as int + 1, n as int));
        }
        a = a + 1;
    }
    proof {
        assert(trim_start(s@) == s@.subrange(a as int, n as int));
    }
    let mut b: usize = n;
    while b > a && (s[b - 1] == 32 || s[b - 1] == 9 || s[b - 1] == 13 || s[b - 1] == 10)
        invariant
            n == s@.len(),
            a <= b <= n,
            trim(s@) == trim_end(s@.subrange(a as int, b as int)),
        decreases b - a,
    {
        proof {
            assert(s@.subrange(a as int, b as int).drop_last() =~= s@.subrange(a as int, b as int - 1));
        }
        b = b - 1;
    }
    let mut out: Vec<u8> = Vec::new();
    let mut k: usize = a;
    while k < b
        invariant
            a <= k <= b <= n,
            n == s@.len(),
            out@ =~= s@.subrange(a as int, k as int),
        decreases b - k,
    {
        out.push(s[k]);
        k = k + 1;
    }
    proof {
        assert(trim(s@) == s@.subrange(a as int, b as int));
    }
    out
}

/// An ASCII decimal digit.
pub open spec fn is_digit(b: u8) -> bool {
    48 <= b <= 57
}

/// Every byte of `s` is a decimal digit.
pub open spec fn all_digits(s: Seq<u8>) -> bool {
    forall|i: int| 0 <= i < s.len() ==> is_digit(#[trigger] s[i])
}

/// The value of a string of decimal digits.
pub open spec fn digits_value(s: Seq<u8>) -> int
    decreases s.len(),
{
    if s.len() == 0 {
        0
    } else {
        digits_value(s.drop_last()) * 10 + (s.last() - 48)
    }
}

/// The value of a decimal numeral of up to 18 digits is below 10^18.
proof fn lemma_digits_bound(s: Seq<u8>)
    requires
        all_digits(s),
    ensures
        0 <= digits_value(s) < pow10(s.len()),
    decreases s.len(),
{
    if s.len() > 0 {
        lemma_digits_bound(s.drop_last());
    }
}

/// A prefix of a numeral is worth no more than the numeral.
proof fn lemma_digits_prefix(s: Seq<u8>, k: int)
    requires
        all_digits(s),
        0 <= k <= s.len(),
    ensures
        digits_value(s.take(k)) <= digits_value(s),
    decreases s.len(),
{
    if k < s.len() {
        assert(s.drop_last().take(k) =~= s.take(k));
        lemma_digits_prefix(s.drop_last(), k);
        lemma_digits_bound(s.drop_last());
    } else {
        assert(s.take(k) =~= s);
    }
}

/// Ten to the power `n`.
pub open spec fn pow10(n: nat) -> int
    decreases n,
{
    if n == 0 {
        1
    } else {
        10 * pow10((n - 1) as nat)
    }
}

/// The position of the first byte of `s` that `mark` accepts, or the length when there is none.
pub open spec fn first_pos(s: Seq<u8>, mark: spec_fn(u8) -> bool) -> int
    decreases s.len(),
{
    if s.len() == 0 {
        0
    } else if mark(s[0]) {
        0
    } else {
        1 + first_pos(s.skip(1), mark)
    }
}

/// A decimal point.
pub open spec fn is_dot(b: u8) -> bool {
    b == 46
}

/// The letter `e` or `E`, which starts an exponent.
pub open spec fn is_exp_mark(b: u8) -> bool {
    b == 101 || b == 69
}

/// A `+` or `-` sign.
pub open spec fn is_sign(b: u8) -> bool {
    b == 43 || b == 45
}

/// `s` without its leading sign, if it has one.
pub open spec fn unsigned_part(s: Seq<u8>) -> Seq<u8> {
    if s.len() > 0 && is_sign(s[0]) {
        s.skip(1)
    } else {
        s
    }
}

/// `s` starts with a minus sign.
pub open spec fn negative(s: Seq<u8>) -> bool {
    s.len() > 0 && s[0] == 45
}

/// The integer digits and the fraction digits of a mantissa, split at its first `.`.
pub open spec fn decimal_parts(m: Seq<u8>) -> (Seq<u8>, Seq<u8>) {
    let p = first_pos(m, |b: u8| is_dot(b));
    (m.take(p), if p < m.len() { m.skip(p + 1) } else { Seq::<u8>::empty() })
}

/// The value of an exponent `[sign]digits`, or none when it is not one.
pub open spec fn exponent_value(e: Seq<u8>) -> Option<int> {
    let digits = unsigned_part(e);
    if digits.len() > 0 && all_digits(digits) {
        Some(if negative(e) { -digits_value(digits) } else { digits_value(digits) })
    } else {
        None
    }
}

/// The digits of `ip` then `fp`, cut or padded with zeros to `k` of them: the integer number
/// of units once the decimal point is moved to after the `k`-th digit.
pub open spec fn shifted_digits(ip: Seq<u8>, fp: Seq<u8>, k: int) -> Seq<u8> {
    Seq::new(
        if k > 0 { k as nat } else { 0 },
        |i: int|
            if i < ip.len() {
                ip[i]
            } else if i - ip.len() < fp.len() {
                fp[i - ip.len()]
            } else {
                48u8
            },
    )
}

/// The value, in units of `10^-d`, of a decimal `[sign][digits][.digits][(e|E)[sign]digits]`
/// with at least one mantissa digit; digits past the last kept unit are dropped (toward zero).
/// None when the text is not such a decimal or its magnitude exceeds `i64::MAX` units.
#[verifier::opaque]
pub open spec fn fixed_value(s: Seq<u8>, d: nat) -> Option<int> {
    let body = unsigned_part(s);
    let q = first_pos(body, |b: u8| is_exp_mark(b));
    let (ip, fp) = decimal_parts(body.take(q));
    let e = if q < body.len() { exponent_value(body.skip(q + 1)) } else { Some(0int) };
    fixed_from_parts(negative(s), ip, fp, e, d)
}

/// The fixed-point value of a decimal given by its sign, its integer and fraction digits and its
/// exponent (none when the exponent is malformed).
pub open spec fn fixed_from_parts(neg: bool, ip: Seq<u8>, fp: Seq<u8>, e: Option<int>, d: nat) -> Option<int> {
    if e is Some && all_digits(ip) && all_digits(fp) && ip.len() + fp.len() > 0 {
        let v = digits_value(shifted_digits(ip, fp, ip.len() + d + e->0));
        if v <= i64::MAX {
            Some(if neg { -v } else { v })
        } else {
            None
        }
    } else {
        None
    }
}

/// How `fixed_value` reads `s` once the sign, the exponent mark and the decimal point are found.
proof fn lemma_fixed_value_parts(s: Seq<u8>, d: nat, start: int, p: int, f: int, q: int)
    requires
        start == if s.len() > 0 && is_sign(s[0]) { 1int } else { 0int },
        start <= p <= q <= s.len(),
        q - start == first_pos(s.subrange(start, s.len() as int), |b: u8| is_exp_mark(b)),
        p - start == first_pos(s.subrange(start, q), |b: u8| is_dot(b)),
        f == if p < q { p + 1 } else { q },
    ensures
        fixed_value(s, d) == fixed_from_parts(
            negative(s),
            s.subrange(start, p),
            s.subrange(f, q),
            if q < s.len() { exponent_value(s.subrange(q + 1, s.len() as int)) } else { Some(0int) },
            d,
        ),
{
    reveal(fixed_value);
    let body = unsigned_part(s);
    assert(body =~= s.subrange(start, s.len() as int));
    let m = body.take(q - start);
    assert(m =~= s.subrange(start, q));
    let parts = decimal_parts(m);
    assert(parts.0 =~= s.subrange(start, p));
    assert(parts.1 =~= s.subrange(f, q));
    if q < s.len() {
        assert(body.skip(q - start + 1) =~= s.subrange(q + 1, s.len() as int));
    }
}

proof fn lemma_first_pos(s: Seq<u8>, mark: spec_fn(u8) -> bool)
    ensures
        0 <= first_pos(s, mark) <= s.len(),
        forall|i: int| 0 <= i < first_pos(s, mark) ==> !mark(s[i]),
        first_pos(s, mark) < s.len() ==> mark(s[first_pos(s, mark)]),
    decreases s.len(),
{
    if s.len() > 0 && !mark(s[0]) {
        lemma_first_pos(s.skip(1), mark);
        assert forall|i: int| 0 <= i < first_pos(s, mark) implies !mark(s[i]) by {
            if i > 0 {
                assert(s[i] == s.skip(1)[i - 1]);
            }
        }
    }
}

/// Whether `b` is a decimal point (when `dot`) or an exponent mark.
fn is_mark(b: u8, dot: bool) -> (r: bool)
    ensures
        r == if dot { is_dot(b) } else { is_exp_mark(b) },
{
    if dot {
        b == 46
    } else {
        b == 101 || b == 69
    }
}

/// The position of the first mark (a `.` when `dot`, else `e` or `E`) in `s[start..end]`, or
/// `end`.
fn find_mark(s: &[u8], start: usize, end: usize, dot: bool) -> (p: usize)
    requires
        start <= end <= s@.len(),
    ensures
        start <= p <= end,
        p - start == first_pos(
            s@.subrange(start as int, end as int),
            if dot { |b: u8| is_dot(b) } else { |b: u8| is_exp_mark(b) },
        ),
{
    let ghost mark: spec_fn(u8) -> bool = if dot { |b: u8| is_dot(b) } else { |b: u8| is_exp_mark(b) };
    let mut p: usize = start;
    while p < end && !is_mark(s[p], dot)
        invariant
            start <= p <= end <= s@.len(),
            mark == if dot { |b: u8| is_dot(b) } else { |b: u8| is_exp_mark(b) },
            forall|i: int| start <= i < p ==> !mark(s@[i]),
        decreases end - p,
    {
        p = p + 1;
    }
    proof {
        let body = s@.subrange(start as int, end as int);
        lemma_first_pos(body, mark);
        assert forall|i: int| 0 <= i < p - start implies !mark(body[i]) by {
            assert(body[i] == s@[i + start]);
        }
        if p < end {
            assert(body[p - start] == s@[p as int]);
        }
        if first_pos(body, mark) < p - start {
            assert(body[first_pos(body, mark)] == s@[first_pos(body, mark) + start]);
        }
    }
    p
}

/// Whether every byte of `s[a..b]` is a decimal digit.
fn digits_between(s: &[u8], a: usize, b: usize) -> (r: bool)
    requires
        a <= b <= s@.len(),
    ensures
        r == all_digits(s@.subrange(a as int, b as int)),
{
    let mut k: usize = a;
    while k < b
        invariant
            a <= k <= b <= s@.len(),
            forall|i: int| a <= i < k ==> is_digit(s@[i]),
        decreases b - k,
    {
        if !(48 <= s[k] && s[k] <= 57) {
            proof {
                assert(s@.subrange(a as int, b as int)[k - a] == s@[k as int]);
            }
            return false;
        }
        k = k + 1;
    }
    proof {
        assert forall|i: int| 0 <= i < b - a implies is_digit(#[trigger] s@.subrange(a as int, b as int)[i]) by {
            assert(s@.subrange(a as int, b as int)[i] == s@[i + a]);
        }
    }
    true
}

/// Exponents beyond this size decide the value alone: past it, every digit string is either
/// zero or too large, or shifted out entirely.
const EXP_CAP: u128 = 0x4_0000_0000_0000_0000;

/// Reads the exponent `s[a..]`, with magnitudes above `EXP_CAP` cut to it.
fn parse_exponent(s: &[u8], a: usize) -> (r: Option<i128>)
    requires
        a <= s@.len(),
    ensures
        match exponent_value(s@.subrange(a as int, s@.len() as int)) {
            None => r is None,
            Some(e) => r is Some && {
                let x = r->0 as int;
                &&& -EXP_CAP <= e <= EXP_CAP ==> x == e
                &&& e > EXP_CAP ==> x == EXP_CAP
                &&& e < -EXP_CAP ==> x == -EXP_CAP
            },
        },
{
    let n = s.len();
    let ghost e = s@.subrange(a as int, n as int);
    let signed: bool = a < n && (s[a] == 43 || s[a] == 45);
    let neg: bool = a < n && s[a] == 45;
    let start: usize = if signed { a + 1 } else { a };
    let ghost digits = s@.subrange(start as int, n as int);
    proof {
        assert(unsigned_part(e) =~= digits);
        assert(negative(e) == neg);
    }
    if start == n || !digits_between(s, start, n) {
        return None;
    }
    let mut acc: u128 = 0;
    let mut j: usize = start;
    while j < n
        invariant
            start <= j <= n,
            n == s@.len(),
            digits == s@.subrange(start as int, n as int),
            all_digits(digits),
            digits_value(digits.take(j - start)) <= EXP_CAP ==> acc == digits_value(digits.take(j - start)),
            digits_value(digits.take(j - start)) > EXP_CAP ==> acc == EXP_CAP + 1,
        decreases n - j,
    {
        proof {
            assert(digits.take(j - start + 1).drop_last() =~= digits.take(j - start));
            assert(digits[j - start] == s@[j as int]);
        }
        if acc <= EXP_CAP {
            acc = acc * 10 + (s[j] - 48) as u128;
            if acc > EXP_CAP {
                acc = EXP_CAP + 1;
            }
        }
        j = j + 1;
    }
    proof {
        assert(digits.take(n - start) =~= digits);
    }
    let mag: i128 = if acc > EXP_CAP { EXP_CAP as i128 } else { acc as i128 };
    if neg {
        Some(-mag)
    } else {
        Some(mag)
    }
}

/// The value of a digit string is its head's value shifted past its tail, plus the tail's.
proof fn lemma_digits_concat(a: Seq<u8>, b: Seq<u8>)
    ensures
        digits_value(a + b) == digits_value(a) * pow10(b.len()) + digits_value(b),
    decreases b.len(),
{
    if b.len() == 0 {
        assert(a + b =~= a);
    } else {
        assert((a + b).drop_last() =~= a + b.drop_last());
        lemma_digits_concat(a, b.drop_last());
        let x = digits_value(a);
        let p = pow10((b.len() - 1) as nat);
        assert((x * p + digits_value(b.drop_last())) * 10 + (b.last() - 48) == x * (10 * p) + (digits_value(
            b.drop_last(),
        ) * 10 + (b.last() - 48))) by (nonlinear_arith);
    }
}

/// A string of zeros is worth zero.
proof fn lemma_digits_zeros(s: Seq<u8>)
    requires
        forall|i: int| 0 <= i < s.len() ==> s[i] == 48,
    ensures
        digits_value(s) == 0,
    decreases s.len(),
{
    if s.len() > 0 {
        lemma_digits_zeros(s.drop_last());
    }
}

/// The value of `shifted_digits(ip, fp, k)` when it fits in `i64`. `k_sat` is `k` itself, or,
/// when an exponent was cut to `EXP_CAP`, a bound on the same side that decides the same result.
fn shifted_value(s: &[u8], a: usize, p: usize, f: usize, q: usize, k_sat: i128, Ghost(k): Ghost<int>) -> (r: Option<u64>)
    requires
        a <= p <= f <= q <= s@.len(),
        all_digits(s@.subrange(a as int, p as int)),
        all_digits(s@.subrange(f as int, q as int)),
        k_sat == k || (k > k_sat && k_sat >= (p - a) + (q - f) + 20) || (k < k_sat && k_sat <= 0),
    ensures
        ({
            let v = digits_value(shifted_digits(s@.subrange(a as int, p as int), s@.subrange(f as int, q as int), k));
            &&& 0 <= v
            &&& if v <= i64::MAX {
                r == Some(v as u64)
            } else {
                r is None
            }
        }),
{
    let ghost ip = s@.subrange(a as int, p as int);
    let ghost fp = s@.subrange(f as int, q as int);
    let ghost w = shifted_digits(ip, fp, k);
    let il: usize = p - a;
    let fl: usize = q - f;
    let total: u128 = il as u128 + fl as u128;
    proof {
        assert(all_digits(w)) by {
            assert forall|i: int| 0 <= i < w.len() implies is_digit(#[trigger] w[i]) by {
                if i < ip.len() {
                    assert(is_digit(ip[i]));
                } else if i - ip.len() < fp.len() {
                    assert(is_digit(fp[i - ip.len()]));
                }
            }
        }
        reveal_with_fuel(pow10, 20);
        lemma_digits_bound(w);
    }
    if k_sat <= 0 {
        proof {
            assert(w.len() == 0);
            assert(w =~= Seq::<u8>::empty());
        }
        return Some(0);
    }
    let mut acc: u128 = 0;
    let mut i: u128 = 0;
    while (i as i128) < k_sat
        invariant
            0 < k_sat,
            0 <= i <= k_sat,
            i as int <= k,
            k_sat == k || (k > k_sat && k_sat >= (p - a) + (q - f) + 20),
            a <= p <= f <= q <= s@.len(),
            il == p - a,
            fl == q - f,
            total == il + fl,
            ip == s@.subrange(a as int, p as int),
            fp == s@.subrange(f as int, q as int),
            w == shifted_digits(ip, fp, k),
            all_digits(w),
            acc as int == digits_value(w.take(i as int)),
            acc <= i64::MAX,
            i > total ==> acc >= pow10((i - total - 1) as nat),
            pow10(19) == 10_000_000_000_000_000_000,
        decreases k_sat - i,
    {
        if i >= total && acc == 0 {
            proof {
                assert(w =~= w.take(i as int) + w.skip(i as int));
                lemma_digits_concat(w.take(i as int), w.skip(i as int));
                lemma_digits_zeros(w.skip(i as int));
            }
            return Some(0);
        }
        let b: u8 = if i < il as u128 {
            s[a + i as usize]
        } else if i < total {
            s[f + (i as usize - il)]
        } else {
            48
        };
        proof {
            assert(b == w[i as int]);
            assert(w.take(i as int + 1).drop_last() =~= w.take(i as int));
        }
        let next: u128 = acc * 10 + (b - 48) as u128;
        if next > 0x7fff_ffff_ffff_ffff {
            proof {
                lemma_digits_prefix(w, i as int + 1);
            }
            return None;
        }
        proof {
            if i > total {
                assert(pow10((i + 1 - total - 1) as nat) == 10 * pow10((i - total - 1) as nat));
            }
            if i >= total + 20 {
                lemma_pow10_mono(19, (i - total - 1) as nat);
            }
        }
        acc = next;
        i = i + 1;
    }
    proof {
        if k_sat != k {
            lemma_pow10_mono(19, (i - total - 1) as nat);
        }
        assert(w.take(i as int) =~= w);
    }
    Some(acc as u64)
}

/// Reads a decimal in fixed point: the number of `10^-decimals` units that `s` spells.
pub fn parse_fixed(s: &[u8], decimals: u32) -> (r: Option<i64>)
    ensures
        match fixed_value(s@, decimals as nat) {
            Some(v) => r == Some(v as i64) && i64::MIN <= v <= i64::MAX,
            None => r is None,
        },
{
    let n = s.len();
    let neg: bool = n > 0 && s[0] == 45;
    let start: usize = if n > 0 && (s[0] == 43 || s[0] == 45) { 1 } else { 0 };
    let q = find_mark(s, start, n, false);
    let p = find_mark(s, start, q, true);
    let f: usize = if p < q { p + 1 } else { q };
    let ghost eo: Option<int> = if q < n { exponent_value(s@.subrange(q + 1, n as int)) } else { Some(0int) };
    proof {
        lemma_fixed_value_parts(s@, decimals as nat, start as int, p as int, f as int, q as int);
        assert(negative(s@) == neg);
    }
    if p - start == 0 && q - f == 0 {
        return None;
    }
    if !digits_between(s, start, p) || !digits_between(s, f, q) {
        return None;
    }
    let e: i128 = if q < n {
        match parse_exponent(s, q + 1) {
            Some(x) => x,
            None => {
                return None;
            },
        }
    } else {
        0
    };
    let ghost k: int = (p - start) + decimals + eo->0;
    let k_sat: i128 = (p - start) as i128 + decimals as i128 + e;
    proof {
        let e_true = eo->0;
        if -EXP_CAP <= e_true <= EXP_CAP {
            assert(k_sat == k);
        } else if e_true > EXP_CAP {
            assert(k > k_sat && k_sat >= (p - start) + (q - f) + 20);
        } else {
            assert(k < k_sat && k_sat <= 0);
        }
    }
    let ghost ip = s@.subrange(start as int, p as int);
    let ghost fp = s@.subrange(f as int, q as int);
    proof {
        assert(eo is Some);
        assert(ip.len() + decimals + eo->0 == k);
        assert(all_digits(ip) && all_digits(fp) && ip.len() + fp.len() > 0);
    }
    let v = match shifted_value(s, start, p, f, q, k_sat, Ghost(k)) {
        Some(v) => v,
        None => {
            proof {
                assert(digits_value(shifted_digits(ip, fp, k)) > i64::MAX);
            }
            return None;
        },
    };
    proof {
        assert(v as int == digits_value(shifted_digits(ip, fp, k)));
        assert(v <= i64::MAX);
    }
    if neg {
        Some(-(v as i64))
    } else {
        Some(v as i64)
    }
}

proof fn lemma_pow10_mono(a: nat, b: nat)
    requires
        a <= b,
    ensures
        pow10(a) <= pow10(b),
    decreases b,
{
    if a < b {
        lemma_pow10_mono(a, (b - 1) as nat);
    }
    if b > 0 {
        lemma_pow10_pos((b - 1) as nat);
    }
}

proof fn lemma_pow10_pos(a: nat)
    ensures
        pow10(a) >= 1,
    decreases a,
{
    if a > 0 {
        lemma_pow10_pos((a - 1) as nat);
    }
}

/// The value of a non-empty string of decimal digits that fits in `u32`.
pub open spec fn u32_value(s: Seq<u8>) -> Option<int> {
    if s.len() > 0 && all_digits(s) && digits_value(s) <= u32::MAX {
        Some(digits_value(s))
    } else {
        None
    }
}

/// Reads an unsigned 32-bit integer written in decimal digits.
pub fn parse_u32(s: &[u8]) -> (r: Option<u32>)
    ensures
        match u32_value(s@) {
            Some(v) => r == Some(v as u32),
            None => r is None,
        },
{
    let n = s.len();
    if n == 0 {
        return None;
    }
    let mut k: usize = 0;
    while k < n
        invariant
            k <= n,
            n == s@.len(),
            forall|i: int| 0 <= i < k ==> is_digit(s@[i]),
        decreases n - k,
    {
        if !(48 <= s[k] && s[k] <= 57) {
            return None;
        }
        k = k + 1;
    }
    assert(all_digits(s@));
    let mut acc: u64 = 0;
    let mut j: usize = 0;
    while j < n
        invariant
            j <= n,
            n == s@.len(),
            all_digits(s@),
            acc as int == digits_value(s@.take(j as int)),
            acc <= u32::MAX,
        decreases n - j,
    {
        proof {
            assert(s@.take(j as int + 1).drop_last() =~= s@.take(j as int));
        }
        let next: u64 = acc * 10 + (s[j] - 48) as u64;
        if next > 0xffff_ffff {
            proof {
                lemma_digits_prefix(s@, j as int + 1);
            }
            return None;
        }
        acc = next;
        j = j + 1;
    }
    proof {
        assert(s@.take(n as int) =~= s@);
    }
    Some(acc as u32)
}

} // verus!
