//! Exact decimal energy quantities.
//!
//! The provider writes kilowatt-hour values as decimal strings with `,` as
//! the fractional separator (for example `0,774`). A value is kept exactly as
//! an unsigned mantissa and a scale: the quantity is `mantissa / 10^scale`.

use vstd::prelude::*;

verus! {

/// `10^n`.
pub open spec fn pow10(n: nat) -> nat
    decreases n,
{
    if n == 0 {
        1
    } else {
        10 * pow10((n - 1) as nat)
    }
}

/// Greatest number of decimal digits a parsed value may have: every such
/// mantissa fits a `u64`.
pub const MAX_DIGITS: usize = 18;

/// A non-negative decimal number `mantissa / 10^scale`, kept exactly.
#[derive(Clone, Copy, PartialEq, Eq, Structural, Debug)]
pub struct Decimal {
    pub mantissa: u64,
    pub scale: u32,
}

impl Decimal {
    pub open spec fn valid(self) -> bool {
        &&& self.scale <= MAX_DIGITS
        &&& self.mantissa < pow10(MAX_DIGITS as nat)
    }
}

/// Whether every byte of `s` is an ASCII digit.
pub open spec fn all_digits(s: Seq<u8>) -> bool {
    forall|i: int| 0 <= i < s.len() ==> 48 <= #[trigger] s[i] <= 57
}

/// The number a sequence of ASCII digits denotes.
pub open spec fn digits_to_nat(s: Seq<u8>) -> nat
    decreases s.len(),
{
    if s.len() == 0 {
        0
    } else {
        digits_to_nat(s.drop_last()) * 10 + (s.last() - 48) as nat
    }
}

pub proof fn lemma_pow10_monotonic(a: nat, b: nat)
    requires
        a <= b,
    ensures
        pow10(a) <= pow10(b),
    decreases b,
{
    if a < b {
        lemma_pow10_monotonic(a, (b - 1) as nat);
    }
}

pub proof fn lemma_pow10_add(a: nat, b: nat)
    ensures
        pow10(a + b) == pow10(a) * pow10(b),
    decreases a,
{
    if a == 0 {
        assert(pow10(a) == 1);
        assert(a + b == b);
        assert(pow10(a) * pow10(b) == pow10(b)) by (nonlinear_arith)
            requires
                pow10(a) == 1,
        ;
    } else {
        lemma_pow10_add((a - 1) as nat, b);
        assert(pow10(a + b) == 10 * pow10((a + b - 1) as nat));
        assert((a + b - 1) as nat == (a - 1) as nat + b);
        assert(pow10(a) == 10 * pow10((a - 1) as nat));
        assert(pow10(a + b) == 10 * (pow10((a - 1) as nat) * pow10(b)));
        assert(10 * (pow10((a - 1) as nat) * pow10(b)) == (10 * pow10((a - 1) as nat)) * pow10(b))
            by (nonlinear_arith);
        assert(pow10(a + b) == pow10(a) * pow10(b));
    }
}

/// A digit string of length `n` denotes a number below `10^n`.
pub proof fn lemma_digits_bound(s: Seq<u8>)
    requires
        all_digits(s),
    ensures
        digits_to_nat(s) < pow10(s.len()),
    decreases s.len(),
{
    if s.len() > 0 {
        lemma_digits_bound(s.drop_last());
    }
}

/// Appending a digit multiplies the denoted value by ten and adds the digit.
pub proof fn lemma_digits_push(s: Seq<u8>, d: u8)
    requires
        48 <= d,
    ensures
        digits_to_nat(s.push(d)) == digits_to_nat(s) * 10 + (d - 48),
{
    assert(s.push(d).drop_last() =~= s);
}

/// The decimal digits of `n`, most significant first, without leading zeros.
pub fn u64_to_digits(n: u64) -> (r: Vec<u8>)
    ensures
        all_digits(r@),
        digits_to_nat(r@) == n,
        1 <= r@.len() <= 20,
        r@[0] == 48 ==> r@.len() == 1,
        n < pow10(r@.len()),
        r@.len() > 1 ==> pow10((r@.len() - 1) as nat) <= n,
    decreases n,
{
    if n < 10 {
        let mut v: Vec<u8> = Vec::new();
        let d = (n as u8) + 48;
        v.push(d);
        proof {
            assert(v@ =~= Seq::<u8>::empty().push(d));
            lemma_digits_push(Seq::<u8>::empty(), d);
            assert(digits_to_nat(Seq::<u8>::empty()) == 0);
            assert(pow10(1nat) == 10) by {
                reveal_with_fuel(pow10, 2);
            }
        }
        v
    } else {
        let q = n / 10;
        let r = n % 10;
        let mut v = u64_to_digits(q);
        let ghost prefix = v@;
        let d = (r as u8) + 48;
        v.push(d);
        proof {
            lemma_digits_push(prefix, d);
            assert(digits_to_nat(v@) == q * 10 + r);
            assert(q * 10 + r == n) by (nonlinear_arith)
                requires
                    q == n / 10,
                    r == n % 10,
            ;
            assert(v@.len() == prefix.len() + 1);
            assert(pow10(v@.len()) == 10 * pow10(prefix.len()));
            assert(n < 10 * pow10(prefix.len())) by (nonlinear_arith)
                requires
                    q < pow10(prefix.len()),
                    n == q * 10 + r,
                    r < 10,
            ;
            assert(v@[0] == prefix[0]);
            assert(v@.len() <= 20) by {
                if prefix.len() >= 20 {
                    lemma_pow10_monotonic(19nat, (prefix.len() - 1) as nat);
                    assert(pow10(19nat) == 10000000000000000000) by {
                        reveal_with_fuel(pow10, 20);
                    }
                    assert(pow10((prefix.len() - 1) as nat) <= q);
                    assert(q <= 1844674407370955161);
                }
            }
            assert(pow10((v@.len() - 1) as nat) <= n) by {
                if prefix.len() > 1 {
                    assert(pow10((prefix.len() - 1) as nat) <= q);
                    assert(pow10(prefix.len()) == 10 * pow10((prefix.len() - 1) as nat));
                    assert(10 * pow10((prefix.len() - 1) as nat) <= 10 * q) by (nonlinear_arith)
                        requires
                            pow10((prefix.len() - 1) as nat) <= q,
                    ;
                    assert(10 * q <= n) by (nonlinear_arith)
                        requires
                            n == q * 10 + r,
                            r >= 0,
                    ;
                } else {
                    assert(pow10(1nat) == 10) by {
                        reveal_with_fuel(pow10, 2);
                    }
                    assert(10 <= n);
                }
            }
        }
        v
    }
}

/// The number denoted by the digit bytes `s[from..to]`, read left to right.
pub fn digits_value(s: &Vec<u8>, from: usize, to: usize) -> (r: u64)
    requires
        from <= to <= s@.len(),
        all_digits(s@.subrange(from as int, to as int)),
        to - from <= 19,
    ensures
        r == digits_to_nat(s@.subrange(from as int, to as int)),
        r < pow10((to - from) as nat),
{
    let mut acc: u64 = 0;
    let mut i = from;
    proof {
        assert(s@.subrange(from as int, from as int) =~= Seq::<u8>::empty());
        lemma_pow10_monotonic((to - from) as nat, 19nat);
        assert(pow10(19nat) == 10000000000000000000) by {
            reveal_with_fuel(pow10, 20);
        }
    }
    while i < to
        invariant
            from <= i <= to <= s@.len(),
            all_digits(s@.subrange(from as int, to as int)),
            to - from <= 19,
            acc == digits_to_nat(s@.subrange(from as int, i as int)),
            acc < pow10((i - from) as nat),
            pow10(19nat) == 10000000000000000000,
        decreases to - i,
    {
        proof {
            lemma_pow10_monotonic((i - from) as nat, 18nat);
            assert(pow10(18nat) == 1000000000000000000) by {
                reveal_with_fuel(pow10, 19);
            }
            assert(s@.subrange(from as int, to as int)[i - from] == s@[i as int]);
            lemma_digits_push(s@.subrange(from as int, i as int), s@[i as int]);
            assert(s@.subrange(from as int, i as int).push(s@[i as int]) =~= s@.subrange(
                from as int,
                i as int + 1,
            ));
        }
        let d = s[i];
        acc = acc * 10 + ((d - 48) as u64);
        i = i + 1;
        proof {
            lemma_digits_bound(s@.subrange(from as int, i as int));
        }
    }
    proof {
        lemma_digits_bound(s@.subrange(from as int, to as int));
    }
    acc
}

/// Whether the bytes `s[from..to]` are all ASCII digits.
pub fn check_digits(s: &Vec<u8>, from: usize, to: usize) -> (r: bool)
    requires
        from <= to <= s@.len(),
    ensures
        r == all_digits(s@.subrange(from as int, to as int)),
{
    let mut i = from;
    while i < to
        invariant
            from <= i <= to <= s@.len(),
            forall|j: int| from <= j < i ==> 48 <= #[trigger] s@[j] <= 57,
        decreases to - i,
    {
        let d = s[i];
        if d < 48 || d > 57 {
            proof {
                assert(s@.subrange(from as int, to as int)[i - from] == s@[i as int]);
            }
            return false;
        }
        i = i + 1;
    }
    proof {
        assert forall|j: int| 0 <= j < to - from implies 48 <= #[trigger] s@.subrange(
            from as int,
            to as int,
        )[j] <= 57 by {
            assert(s@.subrange(from as int, to as int)[j] == s@[from + j]);
        }
    }
    true
}

/// What a single digit run denotes: a whole number below `10^18`.
pub open spec fn spec_whole_value(whole: Seq<u8>) -> Option<Decimal> {
    if whole.len() >= 1 && whole.len() <= 19 && all_digits(whole) && digits_to_nat(whole) < pow10(
        MAX_DIGITS as nat,
    ) {
        Some(Decimal { mantissa: digits_to_nat(whole) as u64, scale: 0 })
    } else {
        None
    }
}

/// What a digit run pair around one `,` denotes: a fraction below `10^18`
/// whose scale is the number of fractional digits.
pub open spec fn spec_fraction_value(whole: Seq<u8>, frac: Seq<u8>) -> Option<Decimal> {
    let v = digits_to_nat(whole) * pow10(frac.len()) + digits_to_nat(frac);
    if whole.len() >= 1 && frac.len() >= 1 && whole.len() + frac.len() <= 19 && all_digits(whole)
        && all_digits(frac) && v < pow10(MAX_DIGITS as nat) {
        Some(Decimal { mantissa: v as u64, scale: frac.len() as u32 })
    } else {
        None
    }
}

/// What a raw value field denotes: digit runs around at most one `,`
/// separator, at most 19 digits in all, and a value below `10^18`.
pub open spec fn spec_parse_decimal(s: Seq<u8>) -> Option<Decimal> {
    let pieces = crate::bytes::spec_split(s, 44);
    if pieces.len() == 1 {
        spec_whole_value(pieces[0])
    } else if pieces.len() == 2 {
        spec_fraction_value(pieces[0], pieces[1])
    } else {
        None
    }
}

/// A parsed decimal is always well formed.
pub proof fn lemma_parse_decimal_valid(s: Seq<u8>)
    ensures
        spec_parse_decimal(s) matches Some(d) ==> d.valid(),
{
    if spec_parse_decimal(s) is Some {
        let pieces = crate::bytes::spec_split(s, 44);
        if pieces.len() == 2 {
            assert(pieces[1].len() <= 18);
        }
    }
}

/// Digit strings contain no byte outside the digit range.
pub proof fn lemma_digits_no_sep(s: Seq<u8>, sep: u8)
    requires
        all_digits(s),
        sep < 48 || 57 < sep,
    ensures
        !s.contains(sep),
{
}

/// A run of zero digits denotes zero.
pub proof fn lemma_digits_zeros(z: Seq<u8>)
    requires
        forall|i: int| 0 <= i < z.len() ==> #[trigger] z[i] == 48,
    ensures
        digits_to_nat(z) == 0,
    decreases z.len(),
{
    if z.len() > 0 {
        assert(forall|i: int| 0 <= i < z.drop_last().len() ==> #[trigger] z.drop_last()[i] == 48);
        lemma_digits_zeros(z.drop_last());
    }
}

/// Leading zero digits do not change the denoted value.
pub proof fn lemma_digits_zero_prefix(z: Seq<u8>, s: Seq<u8>)
    requires
        forall|i: int| 0 <= i < z.len() ==> #[trigger] z[i] == 48,
    ensures
        digits_to_nat(z + s) == digits_to_nat(s),
    decreases s.len(),
{
    if s.len() == 0 {
        assert(z + s =~= z);
        lemma_digits_zeros(z);
    } else {
        assert((z + s).drop_last() =~= z + s.drop_last());
        assert((z + s).last() == s.last());
        lemma_digits_zero_prefix(z, s.drop_last());
    }
}

/// A digit string that denotes a number below `10^cap`, written without
/// leading zeros, has at most `cap` digits.
pub proof fn lemma_len_from_bound(len: nat, n: nat, cap: nat)
    requires
        len >= 1,
        len > 1 ==> pow10((len - 1) as nat) <= n,
        n < pow10(cap),
        cap >= 1,
    ensures
        len <= cap,
{
    if len > cap {
        lemma_pow10_monotonic(cap, (len - 1) as nat);
    }
}

/// `10^e`, computed.
pub fn pow10_u64(e: u32) -> (r: u64)
    requires
        e <= 19,
    ensures
        r == pow10(e as nat),
        r >= 1,
{
    let mut r: u64 = 1;
    let mut i: u32 = 0;
    while i < e
        invariant
            i <= e <= 19,
            r == pow10(i as nat),
            r >= 1,
        decreases e - i,
    {
        proof {
            lemma_pow10_monotonic(i as nat + 1, 19nat);
            assert(pow10(19nat) == 10000000000000000000) by {
                reveal_with_fuel(pow10, 20);
            }
            assert(pow10(i as nat + 1) == 10 * pow10(i as nat));
        }
        r = r * 10;
        i = i + 1;
    }
    r
}

/// Decode a value field without a separator.
fn decode_whole(w: &Vec<u8>) -> (r: Option<Decimal>)
    ensures
        r == spec_whole_value(w@),
{
    if !(w.len() >= 1 && w.len() <= 19) {
        return None;
    }
    if !check_digits(w, 0, w.len()) {
        return None;
    }
    proof {
        assert(w@.subrange(0, w@.len() as int) =~= w@);
    }
    let m = digits_value(w, 0, w.len());
    let limit = pow10_u64(MAX_DIGITS as u32);
    if m < limit {
        Some(Decimal { mantissa: m, scale: 0 })
    } else {
        None
    }
}

/// Decode a value field with one separator.
#[verifier::rlimit(100)]
fn decode_fraction(w: &Vec<u8>, f: &Vec<u8>) -> (r: Option<Decimal>)
    ensures
        r == spec_fraction_value(w@, f@),
{
    if !(w.len() >= 1 && f.len() >= 1 && w.len() <= 19 && f.len() <= 19 && w.len() + f.len()
        <= 19) {
        return None;
    }
    if !(check_digits(w, 0, w.len()) && check_digits(f, 0, f.len())) {
        return None;
    }
    proof {
        assert(w@.subrange(0, w@.len() as int) =~= w@);
        assert(f@.subrange(0, f@.len() as int) =~= f@);
    }
    let wv = digits_value(w, 0, w.len());
    let fv = digits_value(f, 0, f.len());
    let p = pow10_u64(f.len() as u32);
    proof {
        lemma_pow10_add(w@.len(), f@.len());
        lemma_pow10_monotonic(w@.len() + f@.len(), 19nat);
        assert(pow10(19nat) == 10000000000000000000) by {
            reveal_with_fuel(pow10, 20);
        }
        assert(wv * p + fv < pow10(w@.len()) * pow10(f@.len())) by (nonlinear_arith)
            requires
                wv < pow10(w@.len()),
                fv < pow10(f@.len()),
                p == pow10(f@.len()),
        ;
    }
    let m = wv * p + fv;
    let limit = pow10_u64(MAX_DIGITS as u32);
    if m < limit {
        Some(Decimal { mantissa: m, scale: f.len() as u32 })
    } else {
        None
    }
}

/// Decode a raw value field: digits with at most one `,` separator.
pub fn parse_decimal(s: &Vec<u8>) -> (r: Option<Decimal>)
    ensures
        r == spec_parse_decimal(s@),
        r matches Some(d) ==> d.valid(),
{
    proof {
        lemma_parse_decimal_valid(s@);
    }
    let pieces = crate::bytes::split_bytes(s, 44);
    let ghost spec_pieces = crate::bytes::spec_split(s@, 44);
    proof {
        assert(forall|i: int|
            0 <= i < pieces@.len() ==> #[trigger] spec_pieces[i] == pieces@.map_values(
                |p: Vec<u8>| p@,
            )[i]);
    }
    if pieces.len() == 1 {
        decode_whole(&pieces[0])
    } else if pieces.len() == 2 {
        decode_fraction(&pieces[0], &pieces[1])
    } else {
        None
    }
}

/// Render a value the way the provider writes it; parsing the rendering gives
/// the value back.
pub fn encode_decimal(d: &Decimal) -> (r: Vec<u8>)
    requires
        d.valid(),
    ensures
        spec_parse_decimal(r@) == Some(*d),
        !r@.contains(34),
        r@.len() >= 1,
{
    proof {
        assert(pow10(MAX_DIGITS as nat) == 1000000000000000000) by {
            reveal_with_fuel(pow10, 19);
        }
    }
    if d.scale == 0 {
        let v = u64_to_digits(d.mantissa);
        proof {
            lemma_digits_no_sep(v@, 44);
            lemma_digits_no_sep(v@, 34);
            crate::bytes::lemma_split_single(v@, 44);
            lemma_len_from_bound(v@.len(), d.mantissa as nat, MAX_DIGITS as nat);
        }
        v
    } else {
        let p = pow10_u64(d.scale);
        let q = d.mantissa / p;
        let f = d.mantissa % p;
        proof {
            vstd::arithmetic::div_mod::lemma_fundamental_div_mod(d.mantissa as int, p as int);
            lemma_pow10_add((MAX_DIGITS - d.scale) as nat, d.scale as nat);
            assert(q < pow10((MAX_DIGITS - d.scale) as nat)) by (nonlinear_arith)
                requires
                    d.mantissa == p * q + f,
                    f >= 0,
                    (d.mantissa as nat) < pow10((MAX_DIGITS - d.scale) as nat) * pow10(
                        d.scale as nat,
                    ),
                    p == pow10(d.scale as nat),
                    p > 0,
            ;
        }
        let qd = u64_to_digits(q);
        let fd = u64_to_digits(f);
        proof {
            lemma_len_from_bound(fd@.len(), f as nat, d.scale as nat);
            if qd@.len() > 1 {
                assert(pow10((qd@.len() - 1) as nat) >= pow10(1nat)) by {
                    lemma_pow10_monotonic(1nat, (qd@.len() - 1) as nat);
                    assert(pow10(1nat) == 10) by {
                        reveal_with_fuel(pow10, 2);
                    }
                }
                assert(q >= 1);
                assert((MAX_DIGITS - d.scale) as nat >= 1) by {
                    if (MAX_DIGITS - d.scale) as nat == 0 {
                        assert(pow10(0nat) == 1);
                    }
                }
                lemma_len_from_bound(qd@.len(), q as nat, (MAX_DIGITS - d.scale) as nat);
            }
        }
        let mut fp: Vec<u8> = Vec::new();
        let pad = (d.scale as usize) - fd.len();
        let mut j: usize = 0;
        while j < pad
            invariant
                j <= pad,
                fp@.len() == j,
                forall|i: int| 0 <= i < fp@.len() ==> #[trigger] fp@[i] == 48,
            decreases pad - j,
        {
            fp.push(48);
            j = j + 1;
        }
        let ghost zeros = fp@;
        crate::bytes::extend_bytes(&mut fp, &fd);
        proof {
            lemma_digits_zero_prefix(zeros, fd@);
            assert(fp@.len() == d.scale);
            assert(all_digits(fp@)) by {
                assert(forall|i: int|
                    0 <= i < fp@.len() ==> fp@[i] == (zeros + fd@)[i] && 48 <= #[trigger] (zeros
                        + fd@)[i] <= 57);
            }
        }
        let mut out = qd;
        let ghost whole = out@;
        out.push(44);
        crate::bytes::extend_bytes(&mut out, &fp);
        proof {
            let model = seq![whole, fp@];
            assert(out@ =~= whole + seq![44u8] + fp@);
            assert(crate::bytes::seq_join(model, 44) == model[0] + seq![44u8]
                + crate::bytes::seq_join(model.drop_first(), 44));
            assert(model.drop_first() =~= seq![fp@]);
            assert(crate::bytes::seq_join(seq![fp@], 44) == fp@);
            assert(out@ == crate::bytes::seq_join(model, 44));
            lemma_digits_no_sep(whole, 44);
            lemma_digits_no_sep(fp@, 44);
            assert(forall|i: int| 0 <= i < model.len() ==> !(#[trigger] model[i]).contains(44));
            crate::bytes::lemma_split_of_join(model, 44);
            let pieces = crate::bytes::spec_split(out@, 44);
            assert(pieces.len() == 2);
            assert(pieces[0] == whole);
            assert(pieces[1] == fp@);
            assert(digits_to_nat(whole) * pow10(fp@.len()) + digits_to_nat(fp@) == q * p + f)
                by (nonlinear_arith)
                requires
                    digits_to_nat(whole) == q,
                    digits_to_nat(fp@) == f,
                    pow10(fp@.len()) == p,
            ;
            assert(q * p + f == d.mantissa) by (nonlinear_arith)
                requires
                    d.mantissa == p * q + f,
            ;
            assert(whole.len() + fp@.len() <= 19);
            assert(spec_parse_decimal(out@) == Some(*d));
            assert(!out@.contains(34)) by {
                assert(forall|i: int| 0 <= i < out@.len() ==> out@[i] == (whole + seq![44u8]
                    + fp@)[i]);
                lemma_digits_no_sep(whole, 34);
                lemma_digits_no_sep(fp@, 34);
                if out@.contains(34) {
                    let i = choose|i: int| 0 <= i < out@.len() && out@[i] == 34;
                    if i < whole.len() {
                        assert(whole[i] == 34);
                        assert(whole.contains(34));
                    } else if i == whole.len() {
                    } else {
                        assert(fp@[i - whole.len() - 1] == 34);
                        assert(fp@.contains(34));
                    }
                }
            }
        }
        out
    }
}

} // verus!
