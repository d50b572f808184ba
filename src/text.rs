use vstd::prelude::*;

verus! {

/// Token separator of every line.
pub const SPACE: u8 = 0x20;

/// Separator inside data-center ids.
pub const DASH: u8 = 0x2d;

/// The pieces of `s` between occurrences of `sep`, as `str::split` gives
/// them: there is always one more piece than separators.
pub open spec fn pieces(s: Seq<u8>, sep: u8) -> Seq<Seq<u8>>
    decreases s.len(),
{
    if s.len() == 0 {
        seq![Seq::<u8>::empty()]
    } else {
        let f = pieces(s.drop_last(), sep);
        if s.last() == sep {
            f.push(Seq::<u8>::empty())
        } else {
            f.update(f.len() - 1, f.last().push(s.last()))
        }
    }
}

proof fn lemma_pieces_nonempty(s: Seq<u8>, sep: u8)
    ensures
        pieces(s, sep).len() >= 1,
    decreases s.len(),
{
    if s.len() > 0 {
        lemma_pieces_nonempty(s.drop_last(), sep);
    }
}

/// Splits `s` at every `sep`.
pub fn split_on(s: &Vec<u8>, sep: u8) -> (r: Vec<Vec<u8>>)
    ensures
        r@.len() == pieces(s@, sep).len(),
        forall|k: int| 0 <= k < r@.len() ==> #[trigger] r@[k]@ == pieces(s@, sep)[k],
{
    let mut done: Vec<Vec<u8>> = Vec::new();
    let mut cur: Vec<u8> = Vec::new();
    let mut i: usize = 0;
    while i < s.len()
        invariant
            0 <= i <= s@.len(),
            pieces(s@.take(i as int), sep).len() == done@.len() + 1,
            forall|k: int| 0 <= k < done@.len() ==> #[trigger] done@[k]@ == pieces(s@.take(i as int), sep)[k],
            cur@ == pieces(s@.take(i as int), sep).last(),
        decreases s@.len() - i,
    {
        proof {
            assert(s@.take(i + 1).drop_last() =~= s@.take(i as int));
            lemma_pieces_nonempty(s@.take(i as int), sep);
        }
        let c = s[i];
        if c == sep {
            let ghost before = done@;
            done.push(cur);
            cur = Vec::new();
            proof {
                assert forall|k: int| 0 <= k < done@.len() implies #[trigger] done@[k]@ == pieces(
                    s@.take(i + 1),
                    sep,
                )[k] by {
                    if k < before.len() {
                        assert(done@[k] == before[k]);
                    }
                }
                assert(cur@ =~= Seq::<u8>::empty());
            }
        } else {
            cur.push(c);
        }
        i = i + 1;
    }
    proof {
        assert(s@.take(s@.len() as int) =~= s@);
    }
    let ghost before = done@;
    done.push(cur);
    proof {
        assert forall|k: int| 0 <= k < done@.len() implies #[trigger] done@[k]@ == pieces(s@, sep)[k] by {
            if k < before.len() {
                assert(done@[k] == before[k]);
            }
        }
    }
    done
}

/// The parts joined with `sep` between each two.
pub open spec fn joined(parts: Seq<Seq<u8>>, sep: u8) -> Seq<u8>
    decreases parts.len(),
{
    if parts.len() == 0 {
        Seq::<u8>::empty()
    } else if parts.len() == 1 {
        parts[0]
    } else {
        joined(parts.drop_last(), sep).push(sep) + parts.last()
    }
}

/// A data-center id `ASN-COUNTRY-CITY[-more...]` shown as
/// `COUNTRY-CITY-ASN[-more...]`, so that ids sort by place; other ids are
/// kept as they are.
pub open spec fn place_first(s: Seq<u8>) -> Seq<u8> {
    let p = pieces(s, DASH);
    if p.len() > 2 {
        joined(seq![p[1], p[2], p[0]] + p.subrange(3, p.len() as int), DASH)
    } else {
        s
    }
}

/// Byte strings compared for equality.
pub fn bytes_equal(a: &Vec<u8>, b: &Vec<u8>) -> (r: bool)
    ensures
        r == (a@ == b@),
{
    if a.len() != b.len() {
        return false;
    }
    let mut i: usize = 0;
    while i < a.len()
        invariant
            a@.len() == b@.len(),
            0 <= i <= a@.len(),
            forall|k: int| 0 <= k < i ==> a@[k] == b@[k],
        decreases a@.len() - i,
    {
        if a[i] != b[i] {
            return false;
        }
        i = i + 1;
    }
    assert(a@ =~= b@);
    true
}

/// A copy of `s`.
pub fn copy_bytes(s: &Vec<u8>) -> (r: Vec<u8>)
    ensures
        r@ == s@,
{
    let mut out: Vec<u8> = Vec::new();
    append(&mut out, s);
    assert(out@ =~= s@);
    out
}

fn append(out: &mut Vec<u8>, part: &Vec<u8>)
    ensures
        final(out)@ == old(out)@ + part@,
{
    let mut i: usize = 0;
    let ghost start = out@;
    while i < part.len()
        invariant
            0 <= i <= part@.len(),
            out@ == start + part@.take(i as int),
        decreases part@.len() - i,
    {
        out.push(part[i]);
        i = i + 1;
        assert(out@ =~= start + part@.take(i as int));
    }
    assert(part@.take(part@.len() as int) =~= part@);
}

/// Rewrites a data-center id so that its place comes first.
pub fn place_first_name(name: &Vec<u8>) -> (r: Vec<u8>)
    ensures
        r@ == place_first(name@),
{
    let p = split_on(name, DASH);
    if p.len() <= 2 {
        let mut same: Vec<u8> = Vec::new();
        append(&mut same, name);
        assert(same@ =~= name@);
        return same;
    }
    let ghost ps = pieces(name@, DASH);
    let ghost order = seq![ps[1], ps[2], ps[0]] + ps.subrange(3, ps.len() as int);
    let mut out: Vec<u8> = Vec::new();
    append(&mut out, &p[1]);
    assert(order.take(1) =~= seq![ps[1]]);
    assert(out@ == joined(order.take(1), DASH));
    let mut k: usize = 1;
    while k < p.len()
        invariant
            p@.len() == ps.len(),
            ps.len() > 2,
            forall|j: int| 0 <= j < p@.len() ==> #[trigger] p@[j]@ == ps[j],
            order == seq![ps[1], ps[2], ps[0]] + ps.subrange(3, ps.len() as int),
            1 <= k <= p@.len(),
            out@ == joined(order.take(k as int), DASH),
        decreases p@.len() - k,
    {
        let src: usize = if k == 1 {
            2
        } else if k == 2 {
            0
        } else {
            k
        };
        assert(order[k as int] == ps[src as int]);
        out.push(DASH);
        append(&mut out, &p[src]);
        assert(order.take(k + 1).drop_last() =~= order.take(k as int));
        k = k + 1;
    }
    assert(order.take(order.len() as int) =~= order);
    out
}

/// The value of a string of decimal digits.
pub open spec fn digits_value(s: Seq<u8>) -> int
    decreases s.len(),
{
    if s.len() == 0 {
        0
    } else {
        digits_value(s.drop_last()) * 10 + (s.last() - 0x30)
    }
}

/// An ASCII decimal digit.
pub open spec fn is_digit(c: u8) -> bool {
    0x30 <= c <= 0x39
}

/// Every byte is a decimal digit.
pub open spec fn all_digits(s: Seq<u8>) -> bool {
    forall|i: int| 0 <= i < s.len() ==> is_digit(#[trigger] s[i])
}

proof fn lemma_digits_monotone(s: Seq<u8>, a: int, b: int)
    requires
        all_digits(s),
        0 <= a <= b <= s.len(),
    ensures
        0 <= digits_value(s.take(a)) <= digits_value(s.take(b)),
    decreases b - a,
{
    if a < b {
        lemma_digits_monotone(s, a, b - 1);
        assert(s.take(b).drop_last() =~= s.take(b - 1));
        assert(is_digit(s[b - 1]));
    } else {
        lemma_digits_nonneg(s.take(a));
    }
}

proof fn lemma_digits_nonneg(s: Seq<u8>)
    requires
        all_digits(s),
    ensures
        digits_value(s) >= 0,
    decreases s.len(),
{
    if s.len() > 0 {
        lemma_digits_nonneg(s.drop_last());
        assert(is_digit(s[s.len() - 1]));
    }
}

/// Reads a non-empty string of decimal digits that fits in 64 bits.
pub fn parse_u64(s: &Vec<u8>) -> (r: Option<u64>)
    ensures
        r.is_some() <==> (s@.len() > 0 && all_digits(s@) && digits_value(s@) <= u64::MAX),
        r matches Some(v) ==> v == digits_value(s@),
{
    if s.len() == 0 {
        return None;
    }
    let mut v: u64 = 0;
    let mut i: usize = 0;
    while i < s.len()
        invariant
            0 <= i <= s@.len(),
            forall|k: int| 0 <= k < i ==> is_digit(#[trigger] s@[k]),
            v == digits_value(s@.take(i as int)),
        decreases s@.len() - i,
    {
        let c = s[i];
        assert(s@.take(i + 1).drop_last() =~= s@.take(i as int));
        if c < 0x30 || c > 0x39 {
            return None;
        }
        let d = (c - 0x30) as u64;
        if v > (u64::MAX - d) / 10 {
            proof {
                assert(forall|k: int| 0 <= k < i + 1 ==> is_digit(#[trigger] s@[k]));
                if all_digits(s@) {
                    lemma_digits_monotone(s@, i + 1, s@.len() as int);
                    assert(s@.take(s@.len() as int) =~= s@);
                }
            }
            return None;
        }
        v = v * 10 + d;
        i = i + 1;
    }
    assert(s@.take(s@.len() as int) =~= s@);
    Some(v)
}

/// Decimal point.
pub const DOT: u8 = 0x2e;

/// Digits kept after the decimal point.
pub const FIXED_DIGITS: usize = 12;

/// Ten to the power `k`.
pub open spec fn pow10(k: nat) -> int
    decreases k,
{
    if k == 0 {
        1
    } else {
        10 * pow10((k - 1) as nat)
    }
}

/// A token read as a 64-bit count.
pub open spec fn u64_token(t: Seq<u8>) -> Option<int> {
    if t.len() > 0 && all_digits(t) && digits_value(t) <= u64::MAX {
        Some(digits_value(t))
    } else {
        None
    }
}

/// The fraction digits `f` in fixed point: the first twelve, padded with
/// zeros; later digits are dropped.
pub open spec fn fraction_value(f: Seq<u8>) -> int {
    let k = if f.len() < FIXED_DIGITS { f.len() as int } else { FIXED_DIGITS as int };
    digits_value(f.take(k)) * pow10((FIXED_DIGITS - k) as nat)
}

/// A token `I` or `I.F` read in fixed point with twelve fraction digits,
/// where the value fits in 64 bits.
pub open spec fn fixed_token(t: Seq<u8>) -> Option<int> {
    let p = pieces(t, DOT);
    if p.len() == 1 && p[0].len() > 0 && all_digits(p[0]) && digits_value(p[0]) * 1_000_000_000_000
        <= u64::MAX {
        Some(digits_value(p[0]) * 1_000_000_000_000)
    } else if p.len() == 2 && p[0].len() > 0 && all_digits(p[0]) && all_digits(p[1]) && digits_value(p[0])
        * 1_000_000_000_000 + fraction_value(p[1]) <= u64::MAX {
        Some(digits_value(p[0]) * 1_000_000_000_000 + fraction_value(p[1]))
    } else {
        None
    }
}

fn pow10_exec(k: usize) -> (r: u64)
    requires
        k <= FIXED_DIGITS,
    ensures
        r == pow10(k as nat),
        1 <= r <= 1_000_000_000_000,
{
    let mut r: u64 = 1;
    let mut i: usize = 0;
    while i < k
        invariant
            0 <= i <= k <= FIXED_DIGITS,
            r == pow10(i as nat),
            1 <= r <= 1_000_000_000_000,
        decreases k - i,
    {
        proof {
            lemma_pow10_split(i as nat, (FIXED_DIGITS - i) as nat);
            lemma_pow10_split((i + 1) as nat, (FIXED_DIGITS - i - 1) as nat);
        }
        r = r * 10;
        i = i + 1;
    }
    proof {
        lemma_pow10_split(k as nat, (FIXED_DIGITS - k) as nat);
        lemma_pow10_split(FIXED_DIGITS as nat, 0);
    }
    r
}

proof fn lemma_pow10_split(a: nat, b: nat)
    ensures
        pow10(a) * pow10(b) == pow10(a + b),
        pow10(a) >= 1,
        pow10(b) >= 1,
        pow10(12) == 1_000_000_000_000,
        pow10(a) <= pow10(a + b),
    decreases a,
{
    reveal_with_fuel(pow10, 13);
    if a > 0 {
        lemma_pow10_split((a - 1) as nat, b);
        assert(pow10(a) * pow10(b) == 10 * (pow10((a - 1) as nat) * pow10(b))) by (nonlinear_arith)
            requires
                pow10(a) == 10 * pow10((a - 1) as nat),
        ;
    } else {
        lemma_pow10_pos(b);
    }
    lemma_pow10_pos(a);
    lemma_pow10_pos(b);
    assert(pow10(a) <= pow10(a) * pow10(b)) by (nonlinear_arith)
        requires
            pow10(a) >= 1,
            pow10(b) >= 1,
    ;
}

proof fn lemma_pow10_pos(a: nat)
    ensures
        pow10(a) >= 1,
    decreases a,
{
    if a > 0 {
        lemma_pow10_pos((a - 1) as nat);
    }
}

fn digits_only(f: &Vec<u8>) -> (r: bool)
    ensures
        r == all_digits(f@),
{
    let mut i: usize = 0;
    while i < f.len()
        invariant
            0 <= i <= f@.len(),
            forall|k: int| 0 <= k < i ==> is_digit(#[trigger] f@[k]),
        decreases f@.len() - i,
    {
        if f[i] < 0x30 || f[i] > 0x39 {
            return false;
        }
        i = i + 1;
    }
    true
}

/// Reads a decimal token in fixed point with twelve fraction digits.
pub fn parse_fixed(t: &Vec<u8>) -> (r: Option<u64>)
    ensures
        match r {
            Some(v) => fixed_token(t@) == Some(v as int),
            None => fixed_token(t@) is None,
        },
{
    let p = split_on(t, DOT);
    if p.len() != 1 && p.len() != 2 {
        return None;
    }
    let whole = match parse_u64(&p[0]) {
        Some(w) => w,
        None => {
            proof {
                if p@[0]@.len() > 0 && all_digits(p@[0]@) {
                    assert(digits_value(p@[0]@) > u64::MAX);
                    assert(digits_value(p@[0]@) * 1_000_000_000_000 > u64::MAX);
                    if p@.len() == 2 {
                        lemma_fraction_nonneg(p@[1]@);
                    }
                }
            }
            return None;
        },
    };
    if whole > u64::MAX / 1_000_000_000_000 {
        proof {
            assert(whole >= 18446745);
            assert(digits_value(p@[0]@) == whole);
            assert(digits_value(p@[0]@) * 1_000_000_000_000 > u64::MAX);
            let ps = pieces(t@, DOT);
            assert(ps[0] == p@[0]@);
            if p@.len() == 2 {
                assert(ps[1] == p@[1]@);
                lemma_fraction_nonneg(ps[1]);
                if all_digits(ps[1]) {
                    assert(digits_value(ps[0]) * 1_000_000_000_000 + fraction_value(ps[1]) > u64::MAX);
                }
            }
            assert(!(ps.len() == 1 && ps[0].len() > 0 && all_digits(ps[0]) && digits_value(ps[0]) * 1_000_000_000_000
                <= u64::MAX));
            assert(fixed_token(t@) is None);
        }
        return None;
    }
    let base: u64 = whole * 1_000_000_000_000;
    if p.len() == 1 {
        return Some(base);
    }
    let f = &p[1];
    if !digits_only(f) {
        return None;
    }
    let k: usize = if f.len() < FIXED_DIGITS { f.len() } else { FIXED_DIGITS };
    let mut head: Vec<u8> = Vec::new();
    let mut j: usize = 0;
    while j < k
        invariant
            0 <= j <= k <= f@.len(),
            head@ == f@.take(j as int),
        decreases k - j,
    {
        head.push(f[j]);
        j = j + 1;
        assert(head@ =~= f@.take(j as int));
    }
    proof {
        assert(all_digits(head@));
        lemma_digits_below_pow10(head@);
        lemma_pow10_split(k as nat, (FIXED_DIGITS - k) as nat);
    }
    let digits: u64 = if head.len() == 0 {
        0
    } else {
        match parse_u64(&head) {
            Some(d) => d,
            None => return None,
        }
    };
    proof {
        if head@.len() == 0 {
            assert(head@ =~= Seq::<u8>::empty());
        }
        assert(digits < pow10(k as nat));
    }
    let scale = pow10_exec(FIXED_DIGITS - k);
    proof {
        assert(digits * scale < pow10(k as nat) * pow10((FIXED_DIGITS - k) as nat)) by (nonlinear_arith)
            requires
                digits < pow10(k as nat),
                scale == pow10((FIXED_DIGITS - k) as nat),
                scale >= 1,
        ;
    }
    let frac: u64 = digits * scale;
    if base > u64::MAX - frac {
        return None;
    }
    Some(base + frac)
}

proof fn lemma_fraction_nonneg(f: Seq<u8>)
    ensures
        all_digits(f) ==> fraction_value(f) >= 0,
{
    if all_digits(f) {
        let k = if f.len() < FIXED_DIGITS { f.len() as int } else { FIXED_DIGITS as int };
        assert(all_digits(f.take(k)));
        lemma_digits_nonneg(f.take(k));
        lemma_pow10_pos((FIXED_DIGITS - k) as nat);
        assert(digits_value(f.take(k)) * pow10((FIXED_DIGITS - k) as nat) >= 0) by (nonlinear_arith)
            requires
                digits_value(f.take(k)) >= 0,
                pow10((FIXED_DIGITS - k) as nat) >= 1,
        ;
    }
}

proof fn lemma_digits_below_pow10(s: Seq<u8>)
    requires
        all_digits(s),
    ensures
        0 <= digits_value(s) < pow10(s.len()),
    decreases s.len(),
{
    if s.len() > 0 {
        let t = s.drop_last();
        assert(all_digits(t));
        lemma_digits_below_pow10(t);
        assert(is_digit(s[s.len() - 1]));
        assert(digits_value(s) == digits_value(t) * 10 + (s.last() - 0x30));
        assert(pow10(s.len()) == 10 * pow10(t.len()));
        assert(digits_value(t) * 10 + (s.last() - 0x30) < 10 * pow10(t.len())) by (nonlinear_arith)
            requires
                digits_value(t) < pow10(t.len()),
                0 <= s.last() - 0x30 <= 9,
        ;
    }
}

proof fn lemma_digits_prepend(d: u8, s: Seq<u8>)
    ensures
        digits_value(seq![d] + s) == (d - 0x30) * pow10(s.len()) + digits_value(s),
    decreases s.len(),
{
    if s.len() == 0 {
        assert(seq![d] + s =~= seq![d]);
        assert(seq![d].drop_last() =~= Seq::<u8>::empty());
        assert(digits_value(Seq::<u8>::empty()) == 0);
        assert(pow10(0) == 1);
    } else {
        lemma_digits_prepend(d, s.drop_last());
        assert((seq![d] + s).drop_last() =~= seq![d] + s.drop_last());
        assert((seq![d] + s).last() == s.last());
        let p = pow10(s.drop_last().len());
        assert(pow10(s.len()) == 10 * p);
        let x = d - 0x30;
        let y = digits_value(s.drop_last());
        let z = s.last() - 0x30;
        assert((x * p + y) * 10 + z == x * (10 * p) + (y * 10 + z)) by (nonlinear_arith);
    }
}

proof fn lemma_no_sep_single(s: Seq<u8>, sep: u8)
    requires
        forall|i: int| 0 <= i < s.len() ==> #[trigger] s[i] != sep,
    ensures
        pieces(s, sep) == seq![s],
    decreases s.len(),
{
    if s.len() > 0 {
        lemma_no_sep_single(s.drop_last(), sep);
        assert(s.drop_last().push(s.last()) =~= s);
        assert(s.last() != sep);
        assert(seq![s.drop_last()].update(0, s.drop_last().push(s.last())) =~= seq![s]);
    } else {
        assert(s =~= Seq::<u8>::empty());
    }
}

proof fn lemma_pieces_two(a: Seq<u8>, b: Seq<u8>, sep: u8)
    requires
        forall|i: int| 0 <= i < a.len() ==> #[trigger] a[i] != sep,
        forall|i: int| 0 <= i < b.len() ==> #[trigger] b[i] != sep,
    ensures
        pieces(a.push(sep) + b, sep) == seq![a, b],
    decreases b.len(),
{
    if b.len() == 0 {
        lemma_no_sep_single(a, sep);
        assert(a.push(sep) + b =~= a.push(sep));
        assert(a.push(sep).drop_last() =~= a);
        assert(b =~= Seq::<u8>::empty());
        assert(seq![a].push(Seq::<u8>::empty()) =~= seq![a, b]);
    } else {
        lemma_pieces_two(a, b.drop_last(), sep);
        assert((a.push(sep) + b).drop_last() =~= a.push(sep) + b.drop_last());
        assert((a.push(sep) + b).last() == b.last());
        assert(b.drop_last().push(b.last()) =~= b);
        assert(b.last() != sep);
        assert(seq![a, b.drop_last()].update(1, b.drop_last().push(b.last())) =~= seq![a, b]);
    }
}

/// Decimal digits of `v`, at least `width` of them, zero-padded in front.
fn decimal_digits(v: u128, width: usize) -> (r: Vec<u8>)
    requires
        1 <= width <= FIXED_DIGITS,
    ensures
        all_digits(r@),
        digits_value(r@) == v,
        r@.len() >= 1,
        r@.len() >= width,
        v < pow10(width as nat) ==> r@.len() == width,
        forall|i: int| 0 <= i < r@.len() ==> #[trigger] r@[i] != DOT,
{
    let mut out: Vec<u8> = Vec::new();
    let mut rem: u128 = v;
    proof {
        reveal_with_fuel(pow10, 2);
        assert(out@ =~= Seq::<u8>::empty());
    }
    while rem > 0 || out.len() < width || out.len() == 0
        invariant
            all_digits(out@),
            forall|i: int| 0 <= i < out@.len() ==> #[trigger] out@[i] != DOT,
            v == rem * pow10(out@.len()) + digits_value(out@),
            0 <= digits_value(out@) < pow10(out@.len()),
            out@.len() <= 40,
            v < pow10(width as nat) && out@.len() <= width ==> rem < pow10((width - out@.len()) as nat),
            v < pow10(width as nat) ==> out@.len() <= width,
            1 <= width <= FIXED_DIGITS,
            rem <= v,
        decreases rem, width + 1 - out@.len(),
    {
        let d: u8 = (rem % 10) as u8;
        let q = rem / 10;
        let c: u8 = 0x30 + d;
        let ghost before = out@;
        out.insert(0, c);
        proof {
            assert(out@ =~= seq![c] + before);
            lemma_digits_prepend(c, before);
            lemma_pow10_split(1, before.len());
            reveal_with_fuel(pow10, 2);
            assert(pow10(out@.len()) == 10 * pow10(before.len()));
            assert(rem == q * 10 + d);
            assert(v == q * pow10(out@.len()) + digits_value(out@)) by (nonlinear_arith)
                requires
                    v == rem * pow10(before.len()) + digits_value(before),
                    rem == q * 10 + d,
                    pow10(out@.len()) == 10 * pow10(before.len()),
                    digits_value(out@) == d * pow10(before.len()) + digits_value(before),
            ;
            assert(d * pow10(before.len()) <= 9 * pow10(before.len())) by (nonlinear_arith)
                requires
                    d <= 9,
                    pow10(before.len()) >= 1,
            ;
            assert(digits_value(out@) < pow10(out@.len())) by (nonlinear_arith)
                requires
                    d * pow10(before.len()) <= 9 * pow10(before.len()),
                    digits_value(out@) == d * pow10(before.len()) + digits_value(before),
                    digits_value(before) < pow10(before.len()),
                    d <= 9,
                    pow10(out@.len()) == 10 * pow10(before.len()),
            ;
            assert forall|i: int| 0 <= i < out@.len() implies is_digit(#[trigger] out@[i]) && out@[i] != DOT by {
                if i > 0 {
                    assert(out@[i] == before[i - 1]);
                }
            }
            if v < pow10(width as nat) {
                if before.len() == width {
                    assert(rem < 1);
                    assert(before.len() == 0);
                    assert(false);
                }
                let k = (width - before.len()) as nat;
                assert(pow10(k) == 10 * pow10((k - 1) as nat));
                assert(q < pow10((k - 1) as nat)) by (nonlinear_arith)
                    requires
                        rem < pow10(k),
                        pow10(k) == 10 * pow10((k - 1) as nat),
                        rem == q * 10 + d,
                        d >= 0,
                ;
            }
            if before.len() >= 40 {
                lemma_pow10_big(before.len());
                assert(rem >= 1);
                assert(rem * pow10(before.len()) >= pow10(before.len())) by (nonlinear_arith)
                    requires
                        rem >= 1,
                        pow10(before.len()) >= 0,
                ;
                lemma_digits_nonneg(before);
                assert(false);
            }
        }
        rem = q;
    }
    proof {
        assert(digits_value(out@) == v);
    }
    out
}

proof fn lemma_pow10_big(n: nat)
    requires
        n >= 40,
    ensures
        pow10(n) > u128::MAX,
    decreases n,
{
    if n == 40 {
        reveal_with_fuel(pow10, 41);
        assert(pow10(40) == 10000000000000000000000000000000000000000);
    } else {
        lemma_pow10_big((n - 1) as nat);
    }
}

/// A fixed-point value written as `I.FFFFFFFFFFFF`.
pub fn render_fixed(v: u128) -> (r: Vec<u8>)
    ensures
        pieces(r@, DOT).len() == 2,
        pieces(r@, DOT)[0].len() >= 1,
        all_digits(pieces(r@, DOT)[0]),
        digits_value(pieces(r@, DOT)[0]) == v / 1_000_000_000_000,
        pieces(r@, DOT)[1].len() == FIXED_DIGITS,
        all_digits(pieces(r@, DOT)[1]),
        digits_value(pieces(r@, DOT)[1]) == v % 1_000_000_000_000,
        v <= u64::MAX ==> fixed_token(r@) == Some(v as int),
{
    let whole = decimal_digits(v / 1_000_000_000_000, 1);
    proof {
        lemma_pow10_split(12, 0);
    }
    let frac = decimal_digits(v % 1_000_000_000_000, FIXED_DIGITS);
    let mut out: Vec<u8> = Vec::new();
    append(&mut out, &whole);
    out.push(DOT);
    append(&mut out, &frac);
    proof {
        assert(out@ =~= whole@.push(DOT) + frac@);
        lemma_pieces_two(whole@, frac@, DOT);
        let p = pieces(out@, DOT);
        assert(p[0] == whole@);
        assert(p[1] == frac@);
        assert(v % 1_000_000_000_000 < pow10(12));
        assert(frac@.len() == 12);
        assert(frac@.take(12) =~= frac@);
        assert(pow10(0) == 1);
        assert(FIXED_DIGITS == 12);
        assert(pow10((FIXED_DIGITS - 12int) as nat) == 1);
        assert(digits_value(frac@.take(12)) == digits_value(frac@));
        assert(fraction_value(frac@) == digits_value(frac@.take(12)) * pow10((FIXED_DIGITS - 12int) as nat));
        assert(fraction_value(frac@) == digits_value(frac@));
    }
    out
}

} // verus!
