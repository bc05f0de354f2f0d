use crate::digits::{
    canon, digits_ok, lemma_pow10_pos, lemma_val_append, lemma_val_bound, pow10, val,
};
use crate::magnitude::{add_digits, div_digits, mul_digits, sub_digits};
use crate::number::{
    canonical, lemma_canon_of_canonical, magnitude, normalize_scaled, raw_ok, value_at, zero_parts,
    BigNumber, NumberError, Parts,
};
use std::cmp::Ordering;
use vstd::prelude::*;

verus! {

/// How many fractional digits a quotient keeps: division truncates toward
/// zero after this many places.
pub const DIVISION_DIGITS: usize = 20;

/// Operands small enough that every intermediate digit count fits in `usize`.
pub open spec fn sizes_ok(a: Parts, b: Parts) -> bool {
    a.0.len() + a.1.len() + b.0.len() + b.1.len() <= usize::MAX / 4
}

/// The longer of the two fractional parts: the scale at which both operands
/// of an addition are aligned.
pub open spec fn frac_width(a: Parts, b: Parts) -> nat {
    if a.1.len() >= b.1.len() {
        a.1.len()
    } else {
        b.1.len()
    }
}

/// The canonical sum `a + b`.
pub open spec fn sum_parts(a: Parts, b: Parts) -> Parts {
    let k = frac_width(a, b);
    canon(value_at(a, k) + value_at(b, k), k)
}

/// The canonical difference `a - b`.
pub open spec fn difference_parts(a: Parts, b: Parts) -> Parts {
    let k = frac_width(a, b);
    canon(value_at(a, k) - value_at(b, k), k)
}

/// The canonical product `a * b`.
pub open spec fn product_parts(a: Parts, b: Parts) -> Parts {
    canon(value_at(a, a.1.len()) * value_at(b, b.1.len()), a.1.len() + b.1.len())
}

/// The canonical quotient `a / b`, truncated toward zero after
/// `DIVISION_DIGITS` fractional digits.
pub open spec fn quotient_parts(a: Parts, b: Parts) -> Parts {
    let q = (magnitude(a) * pow10(b.1.len() + DIVISION_DIGITS as nat)) / (magnitude(b) * pow10(
        a.1.len(),
    ));
    canon(
        if a.2 == b.2 {
            q as int
        } else {
            -(q as int)
        },
        DIVISION_DIGITS as nat,
    )
}

/// How `a` compares with `b` by value.
pub open spec fn order_of(a: Parts, b: Parts) -> Ordering {
    let k = frac_width(a, b);
    if value_at(a, k) < value_at(b, k) {
        Ordering::Less
    } else if value_at(a, k) == value_at(b, k) {
        Ordering::Equal
    } else {
        Ordering::Greater
    }
}

/// The sign of a canonical number as an ordering against zero.
pub open spec fn sign_of(p: Parts) -> Ordering {
    if p == zero_parts() {
        Ordering::Equal
    } else if p.2 {
        Ordering::Greater
    } else {
        Ordering::Less
    }
}

proof fn lemma_value_at_is(p: Parts, k: nat, v: nat)
    requires
        k >= p.1.len(),
        v == magnitude(p) * pow10((k - p.1.len()) as nat),
    ensures
        value_at(p, k) == if p.2 {
            v as int
        } else {
            -(v as int)
        },
{
    let m = magnitude(p) as int;
    let q = pow10((k - p.1.len()) as nat) as int;
    assert((-m) * q == -(m * q)) by (nonlinear_arith);
}

proof fn lemma_lex_less(x: Seq<u8>, y: Seq<u8>, i: int)
    requires
        x.len() == y.len(),
        digits_ok(x),
        digits_ok(y),
        0 <= i < x.len(),
        x.take(i) == y.take(i),
        x[i] < y[i],
    ensures
        val(x) < val(y),
{
    let r = (x.len() - i - 1) as nat;
    let xh = x.take(i + 1);
    let yh = y.take(i + 1);
    let xt = x.skip(i + 1);
    let yt = y.skip(i + 1);
    assert(x =~= xh + xt);
    assert(y =~= yh + yt);
    lemma_val_append(xh, xt);
    lemma_val_append(yh, yt);
    assert(xh.drop_last() =~= x.take(i));
    assert(yh.drop_last() =~= y.take(i));
    assert(digits_ok(xt));
    lemma_val_bound(xt);
    let p = pow10(r);
    let a = val(xh) as int;
    let c = val(yh) as int;
    assert(a + 1 <= c);
    assert(a * p + val(xt) < c * p + val(yt)) by (nonlinear_arith)
        requires
            a + 1 <= c,
            val(xt) < p,
            val(yt) >= 0,
    ;
}

/// Orders two magnitudes aligned on the decimal point: digit by digit from
/// the most significant end, the first difference deciding.
fn compare_digits(x: &Vec<u8>, y: &Vec<u8>) -> (r: Ordering)
    requires
        x.len() == y.len(),
        digits_ok(x@),
        digits_ok(y@),
    ensures
        r == (if val(x@) < val(y@) {
            Ordering::Less
        } else if val(x@) == val(y@) {
            Ordering::Equal
        } else {
            Ordering::Greater
        }),
{
    let n = x.len();
    let mut i: usize = 0;
    while i < n && x[i] == y[i]
        invariant
            n == x.len(),
            n == y.len(),
            i <= n,
            x@.take(i as int) == y@.take(i as int),
        decreases n - i,
    {
        assert(x@.take(i + 1) =~= x@.take(i as int).push(x@[i as int]));
        assert(y@.take(i + 1) =~= y@.take(i as int).push(y@[i as int]));
        i += 1;
    }
    if i == n {
        assert(x@ =~= x@.take(n as int));
        assert(y@ =~= y@.take(n as int));
        Ordering::Equal
    } else if x[i] < y[i] {
        proof {
            lemma_lex_less(x@, y@, i as int);
        }
        Ordering::Less
    } else {
        proof {
            lemma_lex_less(y@, x@, i as int);
        }
        Ordering::Greater
    }
}

/// Canonical form of `a + b` or `a - b` (as `negate` says) for raw operands.
/// Operands are aligned on the decimal point; equal signs add the digits,
/// unequal signs subtract the smaller magnitude from the larger.
fn signed_sum(a: &BigNumber, b: &BigNumber, negate: bool) -> (r: BigNumber)
    requires
        raw_ok(a@),
        raw_ok(b@),
        sizes_ok(a@, b@),
    ensures
        r@ == canon(
            value_at(a@, frac_width(a@, b@)) + (if negate {
                -value_at(b@, frac_width(a@, b@))
            } else {
                value_at(b@, frac_width(a@, b@))
            }),
            frac_width(a@, b@),
        ),
        canonical(r@),
{
    let il = if a.int.len() >= b.int.len() {
        a.int.len()
    } else {
        b.int.len()
    };
    let fl = if a.frac.len() >= b.frac.len() {
        a.frac.len()
    } else {
        b.frac.len()
    };
    let x = a.aligned_digits(il - a.int.len(), fl - a.frac.len());
    let y = b.aligned_digits(il - b.int.len(), fl - b.frac.len());
    let bs = if negate {
        !b.sign
    } else {
        b.sign
    };
    proof {
        let k = frac_width(a@, b@);
        assert(k == fl);
        lemma_value_at_is(a@, k, val(x@));
        lemma_value_at_is(b@, k, val(y@));
    }
    if a.sign == bs {
        let s = add_digits(&x, &y);
        normalize_scaled(&s, fl, a.sign)
    } else {
        match compare_digits(&x, &y) {
            Ordering::Less => {
                let (d, _) = sub_digits(&y, &x);
                normalize_scaled(&d, fl, bs)
            },
            _ => {
                let (d, _) = sub_digits(&x, &y);
                normalize_scaled(&d, fl, a.sign)
            },
        }
    }
}

impl BigNumber {
    /// `self + other`.
    pub fn add(&self, other: &BigNumber) -> (r: BigNumber)
        requires
            self.wf(),
            other.wf(),
            sizes_ok(self@, other@),
        ensures
            r@ == sum_parts(self@, other@),
            r.wf(),
    {
        signed_sum(self, other, false)
    }

    /// `self - other`.
    pub fn subtract(&self, other: &BigNumber) -> (r: BigNumber)
        requires
            self.wf(),
            other.wf(),
            sizes_ok(self@, other@),
        ensures
            r@ == difference_parts(self@, other@),
            r.wf(),
    {
        signed_sum(self, other, true)
    }

    /// `self * other`, by long multiplication.
    pub fn multiply(&self, other: &BigNumber) -> (r: BigNumber)
        requires
            self.wf(),
            other.wf(),
            sizes_ok(self@, other@),
        ensures
            r@ == product_parts(self@, other@),
            r.wf(),
    {
        let x = self.aligned_digits(0, 0);
        let y = other.aligned_digits(0, 0);
        let p = mul_digits(&x, &y);
        let same = self.sign == other.sign;
        proof {
            assert(pow10(0) == 1);
            lemma_value_at_is(self@, self.frac.len() as nat, val(x@));
            lemma_value_at_is(other@, other.frac.len() as nat, val(y@));
            let vx = val(x@) as int;
            let vy = val(y@) as int;
            assert((-vx) * (-vy) == vx * vy) by (nonlinear_arith);
            assert((-vx) * vy == -(vx * vy)) by (nonlinear_arith);
            assert(vx * (-vy) == -(vx * vy)) by (nonlinear_arith);
        }
        normalize_scaled(&p, self.frac.len() + other.frac.len(), same)
    }

    /// Orders two numbers by value: by sign first, then by magnitude.
    pub fn compare(&self, other: &BigNumber) -> (r: Ordering)
        requires
            self.wf(),
            other.wf(),
            sizes_ok(self@, other@),
        ensures
            r == order_of(self@, other@),
    {
        let il = if self.int.len() >= other.int.len() {
            self.int.len()
        } else {
            other.int.len()
        };
        let fl = if self.frac.len() >= other.frac.len() {
            self.frac.len()
        } else {
            other.frac.len()
        };
        let x = self.aligned_digits(il - self.int.len(), fl - self.frac.len());
        let y = other.aligned_digits(il - other.int.len(), fl - other.frac.len());
        proof {
            let k = frac_width(self@, other@);
            lemma_value_at_is(self@, k, val(x@));
            lemma_value_at_is(other@, k, val(y@));
            lemma_canon_of_canonical(self@);
            lemma_canon_of_canonical(other@);
            lemma_pow10_pos((k - self.frac.len()) as nat);
            lemma_pow10_pos((k - other.frac.len()) as nat);
            let px = pow10((k - self.frac.len()) as nat);
            let py = pow10((k - other.frac.len()) as nat);
            assert(magnitude(self@) != 0 ==> magnitude(self@) * px > 0) by (nonlinear_arith)
                requires
                    px >= 1,
            ;
            assert(magnitude(other@) != 0 ==> magnitude(other@) * py > 0) by (nonlinear_arith)
                requires
                    py >= 1,
            ;
        }
        if self.sign && other.sign {
            compare_digits(&x, &y)
        } else if !self.sign && !other.sign {
            compare_digits(&y, &x)
        } else if self.sign {
            Ordering::Greater
        } else {
            Ordering::Less
        }
    }

    /// `self / other` by long division, truncated toward zero after
    /// `DIVISION_DIGITS` fractional digits. Fails when `other` is zero.
    pub fn divide(&self, other: &BigNumber) -> (r: Result<BigNumber, NumberError>)
        requires
            self.wf(),
            other.wf(),
            sizes_ok(self@, other@),
        ensures
            r is Err <==> other@ == zero_parts(),
            r matches Err(e) ==> e == NumberError::DivisionByZero,
            r matches Ok(n) ==> n@ == quotient_parts(self@, other@) && n.wf(),
    {
        proof {
            lemma_canon_of_canonical(other@);
        }
        if other.int.len() == 1 && other.int[0] == 0 && other.frac.len() == 0 {
            assert(other@ == zero_parts()) by {
                assert(other.int@ =~= seq![0u8]);
                assert(other.frac@ =~= Seq::<u8>::empty());
            }
            return Err(NumberError::DivisionByZero);
        }
        let num = self.aligned_digits(0, other.frac.len() + DIVISION_DIGITS);
        let den = other.aligned_digits(0, self.frac.len());
        proof {
            lemma_pow10_pos(self.frac.len() as nat);
            assert(magnitude(other@) * pow10(self.frac.len() as nat) > 0) by (nonlinear_arith)
                requires
                    magnitude(other@) > 0,
                    pow10(self.frac.len() as nat) >= 1,
            ;
        }
        let q = div_digits(&num, &den);
        Ok(normalize_scaled(&q, DIVISION_DIGITS, self.sign == other.sign))
    }
}

} // verus!
