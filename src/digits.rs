use vstd::arithmetic::div_mod::{
    lemma_fundamental_div_mod_converse_div, lemma_fundamental_div_mod_converse_mod,
};
use vstd::prelude::*;

verus! {

/// Ten to the power `k`.
pub open spec fn pow10(k: nat) -> nat
    decreases k,
{
    if k == 0 {
        1
    } else {
        10 * pow10((k - 1) as nat)
    }
}

/// Every element is a decimal digit.
pub open spec fn digits_ok(s: Seq<u8>) -> bool {
    forall|i: int| 0 <= i < s.len() ==> s[i] <= 9
}

/// The natural number written by `s`, most significant digit first.
pub open spec fn val(s: Seq<u8>) -> nat
    decreases s.len(),
{
    if s.len() == 0 {
        0
    } else {
        val(s.drop_last()) * 10 + s.last() as nat
    }
}

/// `n` zero digits.
pub open spec fn zeros(n: nat) -> Seq<u8> {
    Seq::new(n, |i: int| 0u8)
}

/// `s` without its leading zeros, keeping at least one digit.
pub open spec fn strip_leading(s: Seq<u8>) -> Seq<u8>
    decreases s.len(),
{
    if s.len() > 1 && s[0] == 0 {
        strip_leading(s.drop_first())
    } else {
        s
    }
}

/// `s` without its trailing zeros.
pub open spec fn strip_trailing(s: Seq<u8>) -> Seq<u8>
    decreases s.len(),
{
    if s.len() > 0 && s.last() == 0 {
        strip_trailing(s.drop_last())
    } else {
        s
    }
}

/// The shortest digit sequence that writes `q` (a single `0` for zero).
pub open spec fn nat_digits(q: nat) -> Seq<u8>
    decreases q,
{
    if q < 10 {
        seq![q as u8]
    } else {
        nat_digits(q / 10).push((q % 10) as u8)
    }
}

/// The last `n` digits of `m`, zero padded.
pub open spec fn to_digits(m: nat, n: nat) -> Seq<u8>
    decreases n,
{
    if n == 0 {
        Seq::empty()
    } else {
        to_digits(m / 10, (n - 1) as nat).push((m % 10) as u8)
    }
}

/// An integer part in canonical form: not empty, no leading zero but a lone `0`.
pub open spec fn canonical_int(s: Seq<u8>) -> bool {
    &&& digits_ok(s)
    &&& s.len() >= 1
    &&& (s.len() == 1 || s[0] != 0)
}

/// A fractional part in canonical form: no trailing zero.
pub open spec fn canonical_frac(s: Seq<u8>) -> bool {
    &&& digits_ok(s)
    &&& (s.len() == 0 || s.last() != 0)
}

pub proof fn lemma_pow10_pos(k: nat)
    ensures
        pow10(k) >= 1,
    decreases k,
{
    if k > 0 {
        lemma_pow10_pos((k - 1) as nat);
    }
}

pub proof fn lemma_val_append(x: Seq<u8>, y: Seq<u8>)
    ensures
        val(x + y) == val(x) * pow10(y.len()) + val(y),
    decreases y.len(),
{
    if y.len() == 0 {
        assert(x + y =~= x);
        assert(val(y) == 0);
        assert(pow10(0) == 1);
    } else {
        let y0 = y.drop_last();
        assert((x + y).drop_last() =~= x + y0);
        lemma_val_append(x, y0);
        let a = val(x);
        let p = pow10(y0.len());
        let b = val(y0);
        let c = y.last() as nat;
        assert(pow10(y.len()) == 10 * p);
        assert((a * p + b) * 10 + c == a * (10 * p) + (b * 10 + c)) by (nonlinear_arith);
    }
}

pub proof fn lemma_val_single(d: u8)
    ensures
        val(seq![d]) == d as nat,
{
    assert(seq![d].drop_last() =~= Seq::<u8>::empty());
    assert(val(Seq::<u8>::empty()) == 0);
    assert(seq![d].last() == d);
}

pub proof fn lemma_val_prepend(d: u8, s: Seq<u8>)
    ensures
        val(seq![d] + s) == d as nat * pow10(s.len()) + val(s),
{
    lemma_val_append(seq![d], s);
    lemma_val_single(d);
}

pub proof fn lemma_val_zeros(n: nat)
    ensures
        val(zeros(n)) == 0,
    decreases n,
{
    if n > 0 {
        assert(zeros(n).drop_last() =~= zeros((n - 1) as nat));
        lemma_val_zeros((n - 1) as nat);
    }
}

/// Zeros in front do not change the value; zeros behind scale it.
pub proof fn lemma_val_pad(s: Seq<u8>, lead: nat, trail: nat)
    ensures
        val(zeros(lead) + s + zeros(trail)) == val(s) * pow10(trail),
{
    lemma_val_zeros(lead);
    lemma_val_zeros(trail);
    lemma_val_append(zeros(lead), s);
    lemma_val_append(zeros(lead) + s, zeros(trail));
}

pub proof fn lemma_val_bound(s: Seq<u8>)
    requires
        digits_ok(s),
    ensures
        val(s) < pow10(s.len()),
    decreases s.len(),
{
    if s.len() > 0 {
        let s0 = s.drop_last();
        lemma_val_bound(s0);
        let v = val(s0);
        let p = pow10(s0.len());
        let d = s.last() as nat;
        assert(d <= 9);
        assert(v * 10 + d < 10 * p) by (nonlinear_arith)
            requires
                v < p,
                d <= 9,
        ;
    }
}

pub proof fn lemma_val_lower(s: Seq<u8>)
    requires
        s.len() >= 1,
        s[0] >= 1,
    ensures
        val(s) >= pow10((s.len() - 1) as nat),
{
    let rest = s.drop_first();
    assert(s =~= seq![s[0]] + rest);
    lemma_val_prepend(s[0], rest);
    let p = pow10(rest.len());
    assert(s[0] as nat * p >= p) by (nonlinear_arith)
        requires
            s[0] >= 1,
    ;
}

/// A sequence whose value is below `10^(len-1)` starts with a zero.
pub proof fn lemma_leading_zero(s: Seq<u8>)
    requires
        s.len() >= 1,
        val(s) < pow10((s.len() - 1) as nat),
    ensures
        s[0] == 0,
{
    if s[0] >= 1 {
        lemma_val_lower(s);
    }
}

pub proof fn lemma_nat_digits_of(s: Seq<u8>)
    requires
        canonical_int(s),
    ensures
        nat_digits(val(s)) == s,
    decreases s.len(),
{
    if s.len() == 1 {
        assert(s =~= seq![s[0]]);
        lemma_val_single(s[0]);
    } else {
        let p = s.drop_last();
        assert(p[0] == s[0]);
        lemma_val_lower(p);
        lemma_pow10_pos((p.len() - 1) as nat);
        lemma_nat_digits_of(p);
        let v = val(s) as int;
        lemma_fundamental_div_mod_converse_div(v, 10, val(p) as int, s.last() as int);
        lemma_fundamental_div_mod_converse_mod(v, 10, val(p) as int, s.last() as int);
        assert(nat_digits(val(s)) =~= s);
    }
}

pub proof fn lemma_to_digits_of(s: Seq<u8>)
    requires
        digits_ok(s),
    ensures
        to_digits(val(s), s.len()) == s,
    decreases s.len(),
{
    if s.len() > 0 {
        let p = s.drop_last();
        lemma_to_digits_of(p);
        let v = val(s) as int;
        lemma_fundamental_div_mod_converse_div(v, 10, val(p) as int, s.last() as int);
        lemma_fundamental_div_mod_converse_mod(v, 10, val(p) as int, s.last() as int);
        assert(to_digits(val(s), s.len()) =~= s);
    } else {
        assert(to_digits(val(s), s.len()) =~= s);
    }
}

pub proof fn lemma_strip_leading(s: Seq<u8>)
    requires
        digits_ok(s),
        s.len() >= 1,
    ensures
        canonical_int(strip_leading(s)),
        val(strip_leading(s)) == val(s),
        nat_digits(val(s)) == strip_leading(s),
        val(s) == 0 <==> strip_leading(s) == seq![0u8],
    decreases s.len(),
{
    if s.len() > 1 && s[0] == 0 {
        let r = s.drop_first();
        assert(s =~= seq![0u8] + r);
        lemma_val_prepend(0, r);
        lemma_strip_leading(r);
    } else {
        lemma_nat_digits_of(s);
        if s == seq![0u8] {
            lemma_val_single(0);
        }
        if val(s) == 0 {
            assert(nat_digits(0) == seq![0u8]);
        }
    }
}

pub proof fn lemma_strip_trailing(s: Seq<u8>)
    requires
        digits_ok(s),
    ensures
        canonical_frac(strip_trailing(s)),
        val(s) == 0 <==> strip_trailing(s).len() == 0,
    decreases s.len(),
{
    if s.len() > 0 {
        let p = s.drop_last();
        lemma_strip_trailing(p);
        if s.last() == 0 {
            assert(val(s) == val(p) * 10);
        }
    }
}

/// The canonical digits of a value `v / 10^k`: integer part, fractional part
/// and sign (zero is non-negative).
pub open spec fn canon(v: int, k: nat) -> (Seq<u8>, Seq<u8>, bool) {
    let m = (if v >= 0 { v } else { -v }) as nat;
    (nat_digits(m / pow10(k)), strip_trailing(to_digits(m % pow10(k), k)), v >= 0)
}

/// The value written by the raw digits `i.f`, with sign `s`, scaled by `10^|f|`.
pub open spec fn signed_val(i: Seq<u8>, f: Seq<u8>, s: bool) -> int {
    if s {
        val(i + f) as int
    } else {
        -(val(i + f) as int)
    }
}

/// Canonicalising raw digits is stripping redundant zeros and clearing the
/// sign of zero.
pub proof fn lemma_canon_of_raw(i: Seq<u8>, f: Seq<u8>, s: bool)
    requires
        digits_ok(i),
        digits_ok(f),
        i.len() >= 1,
    ensures
        canon(signed_val(i, f, s), f.len()) == (
            strip_leading(i),
            strip_trailing(f),
            s || (strip_leading(i) == seq![0u8] && strip_trailing(f).len() == 0),
        ),
        canonical_int(strip_leading(i)),
        canonical_frac(strip_trailing(f)),
        val(i + f) == 0 <==> (strip_leading(i) == seq![0u8] && strip_trailing(f).len() == 0),
{
    let p = pow10(f.len());
    lemma_pow10_pos(f.len());
    lemma_val_append(i, f);
    lemma_val_bound(f);
    let m = val(i + f) as int;
    lemma_fundamental_div_mod_converse_div(m, p as int, val(i) as int, val(f) as int);
    lemma_fundamental_div_mod_converse_mod(m, p as int, val(i) as int, val(f) as int);
    lemma_strip_leading(i);
    lemma_strip_trailing(f);
    lemma_to_digits_of(f);
    assert(m == 0 <==> (val(i) == 0 && val(f) == 0)) by (nonlinear_arith)
        requires
            m == val(i) * p + val(f),
            p >= 1,
    ;
}

} // verus!
