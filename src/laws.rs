use crate::arith::{difference_parts, frac_width, order_of, product_parts, sign_of, sum_parts};
use crate::digits::{
    canon, digits_ok, lemma_canon_of_raw, lemma_pow10_pos, lemma_strip_trailing, lemma_val_single,
    nat_digits, pow10, signed_val, strip_leading, strip_trailing, to_digits, val,
};
use crate::number::{canonical, lemma_canon_of_canonical, value_at, zero_parts, Parts};
use crate::text::{
    accepted, all_digit_bytes, body, digit_chars, digit_values, dot_at, frac_text, int_text,
    is_digit_byte, negative_text, parsed_parts, render,
};
use vstd::arithmetic::div_mod::lemma_fundamental_div_mod;
use vstd::prelude::*;

verus! {

proof fn lemma_to_digits_val(r: nat, k: nat)
    requires
        r < pow10(k),
    ensures
        val(to_digits(r, k)) == r,
        digits_ok(to_digits(r, k)),
    decreases k,
{
    if k == 0 {
    } else {
        let p = pow10((k - 1) as nat);
        assert(r / 10 < p) by (nonlinear_arith)
            requires
                r < 10 * p,
        ;
        lemma_to_digits_val(r / 10, (k - 1) as nat);
        let t = to_digits(r, k);
        assert(t.drop_last() == to_digits(r / 10, (k - 1) as nat));
    }
}

proof fn lemma_nat_digits_zero(q: nat)
    ensures
        nat_digits(q) == seq![0u8] <==> q == 0,
    decreases q,
{
    if q >= 10 {
        lemma_nat_digits_zero(q / 10);
        let d = nat_digits(q / 10);
        if d.len() == 0 {
            assert(q / 10 >= 10);
        }
        assert(nat_digits(q).len() == d.len() + 1);
        if q / 10 < 10 {
            assert(d.len() == 1);
        } else {
            assert(d == nat_digits(q / 10 / 10).push((q / 10 % 10) as u8));
        }
    } else if nat_digits(q) == seq![0u8] {
        assert(nat_digits(q)[0] == q as u8);
    }
}

/// The canonical form of a value is the canonical zero exactly when the
/// value is zero, and is non-negative exactly when the value is.
pub proof fn lemma_canon_sign(v: int, k: nat)
    ensures
        canon(v, k) == zero_parts() <==> v == 0,
        canon(v, k).2 <==> v >= 0,
{
    let m = (if v >= 0 {
        v
    } else {
        -v
    }) as nat;
    let p = pow10(k);
    lemma_pow10_pos(k);
    lemma_fundamental_div_mod(m as int, p as int);
    lemma_nat_digits_zero(m / p);
    lemma_to_digits_val(m % p, k);
    lemma_strip_trailing(to_digits(m % p, k));
    if v == 0 {
        assert(strip_trailing(to_digits(m % p, k)) =~= Seq::<u8>::empty());
    }
    if m / p == 0 && m % p == 0 {
        assert(m == 0) by (nonlinear_arith)
            requires
                m == p * (m / p) + m % p,
                m / p == 0,
                m % p == 0,
        ;
    }
}

proof fn lemma_zero_value(k: nat)
    ensures
        value_at(zero_parts(), k) == 0,
{
    let z = zero_parts();
    assert(z.0 + z.1 =~= seq![0u8]);
    lemma_val_single(0);
    assert(signed_val(z.0, z.1, z.2) == 0);
}

/// Addition is commutative.
pub proof fn lemma_add_commutes(a: Parts, b: Parts)
    ensures
        sum_parts(a, b) == sum_parts(b, a),
{
    assert(frac_width(a, b) == frac_width(b, a));
}

/// Multiplication is commutative.
pub proof fn lemma_multiply_commutes(a: Parts, b: Parts)
    ensures
        product_parts(a, b) == product_parts(b, a),
{
    let x = value_at(a, a.1.len());
    let y = value_at(b, b.1.len());
    assert(x * y == y * x) by (nonlinear_arith);
    assert(a.1.len() + b.1.len() == b.1.len() + a.1.len());
}

/// Zero is the identity of addition.
pub proof fn lemma_add_zero(a: Parts)
    requires
        canonical(a),
    ensures
        sum_parts(a, zero_parts()) == a,
{
    lemma_zero_value(a.1.len());
    assert(frac_width(a, zero_parts()) == a.1.len());
    lemma_canon_of_canonical(a);
}

/// A number minus itself is the canonical zero.
pub proof fn lemma_subtract_self(a: Parts)
    ensures
        difference_parts(a, a) == zero_parts(),
{
    lemma_canon_sign(0, frac_width(a, a));
}

/// Any number times zero is the canonical zero.
pub proof fn lemma_multiply_zero(a: Parts)
    ensures
        product_parts(a, zero_parts()) == zero_parts(),
{
    lemma_zero_value(0);
    let x = value_at(a, a.1.len());
    assert(x * 0 == 0);
    lemma_canon_sign(0, a.1.len());
}

/// Comparing two numbers gives the sign of their difference.
pub proof fn lemma_compare_is_sign_of_difference(a: Parts, b: Parts)
    ensures
        order_of(a, b) == sign_of(difference_parts(a, b)),
{
    let k = frac_width(a, b);
    lemma_canon_sign(value_at(a, k) - value_at(b, k), k);
}

/// ASCII digits with leading `0`s removed, keeping at least one.
pub open spec fn trim_leading_text(t: Seq<u8>) -> Seq<u8>
    decreases t.len(),
{
    if t.len() > 1 && t[0] == 48 {
        trim_leading_text(t.drop_first())
    } else {
        t
    }
}

/// ASCII digits with trailing `0`s removed.
pub open spec fn trim_trailing_text(t: Seq<u8>) -> Seq<u8>
    decreases t.len(),
{
    if t.len() > 0 && t.last() == 48 {
        trim_trailing_text(t.drop_last())
    } else {
        t
    }
}

pub open spec fn ascii_chars(t: Seq<u8>) -> Seq<char> {
    t.map_values(|c: u8| c as char)
}

/// The canonical rendering of accepted text, read off the text itself:
/// redundant zeros dropped, the point dropped with an empty fraction, and an
/// explicit sign that is `+` for zero.
pub open spec fn canonical_text(b: Seq<u8>) -> Seq<char> {
    let i = trim_leading_text(int_text(b));
    let f = trim_trailing_text(frac_text(b));
    let nonneg = !negative_text(b) || (i == seq![48u8] && f.len() == 0);
    seq![
        if nonneg {
            '+'
        } else {
            '-'
        },
    ] + ascii_chars(i) + if f.len() == 0 {
        Seq::empty()
    } else {
        seq!['.'] + ascii_chars(f)
    }
}

proof fn lemma_trim_leading(t: Seq<u8>)
    requires
        all_digit_bytes(t),
        t.len() >= 1,
    ensures
        strip_leading(digit_values(t)) == digit_values(trim_leading_text(t)),
        all_digit_bytes(trim_leading_text(t)),
        trim_leading_text(t).len() >= 1,
    decreases t.len(),
{
    if t.len() > 1 && t[0] == 48 {
        assert(digit_values(t).drop_first() =~= digit_values(t.drop_first()));
        assert(is_digit_byte(t.drop_first()[0]));
        lemma_trim_leading(t.drop_first());
    } else if t.len() > 1 {
        assert(is_digit_byte(t[0]));
    }
}

proof fn lemma_trim_trailing(t: Seq<u8>)
    requires
        all_digit_bytes(t),
    ensures
        strip_trailing(digit_values(t)) == digit_values(trim_trailing_text(t)),
        all_digit_bytes(trim_trailing_text(t)),
    decreases t.len(),
{
    if t.len() > 0 && t.last() == 48 {
        assert(digit_values(t).drop_last() =~= digit_values(t.drop_last()));
        lemma_trim_trailing(t.drop_last());
    } else if t.len() > 0 {
        assert(is_digit_byte(t[t.len() - 1]));
    }
}

proof fn lemma_digit_chars(t: Seq<u8>)
    requires
        all_digit_bytes(t),
    ensures
        digit_chars(digit_values(t)) == ascii_chars(t),
        digits_ok(digit_values(t)),
        digit_values(t) == seq![0u8] <==> t == seq![48u8],
{
    assert forall|i: int| 0 <= i < t.len() implies digit_chars(digit_values(t))[i] == ascii_chars(
        t,
    )[i] && digit_values(t)[i] <= 9 by {
        assert(is_digit_byte(t[i]));
    }
    assert(digit_chars(digit_values(t)) =~= ascii_chars(t));
    if digit_values(t) == seq![0u8] {
        assert(digit_values(t).len() == t.len());
        assert(is_digit_byte(t[0]));
        assert(digit_values(t)[0] == (t[0] - 48) as u8);
        assert(t[0] == 48);
        assert(t =~= seq![48u8]);
    }
    if t == seq![48u8] {
        assert(digit_values(t) =~= seq![0u8]);
    }
}

/// Formatting parsed text gives the canonical rendering of that text.
pub proof fn lemma_format_parse(b: Seq<u8>)
    requires
        accepted(b),
    ensures
        render(parsed_parts(b)) == canonical_text(b),
{
    let t = body(b);
    if !(t.len() >= 1 && all_digit_bytes(t)) {
        let p = choose|p: int| dot_at(t, p);
        assert(dot_at(t, p));
        if all_digit_bytes(t) {
            assert(is_digit_byte(t[p]));
        }
    }
    let it = int_text(b);
    let ft = frac_text(b);
    assert(all_digit_bytes(it) && it.len() >= 1);
    assert(all_digit_bytes(ft));
    lemma_trim_leading(it);
    lemma_trim_trailing(ft);
    lemma_digit_chars(it);
    lemma_digit_chars(ft);
    lemma_digit_chars(trim_leading_text(it));
    lemma_digit_chars(trim_trailing_text(ft));
    lemma_canon_of_raw(digit_values(it), digit_values(ft), !negative_text(b));
    assert(digit_values(ft).len() == ft.len());
    assert(render(parsed_parts(b)) =~= canonical_text(b));
}

} // verus!
