use crate::digits::{
    digits_ok, lemma_leading_zero, lemma_val_bound, lemma_val_pad, lemma_val_prepend, pow10, val,
    zeros,
};
use vstd::arithmetic::div_mod::lemma_fundamental_div_mod_converse_div;
use vstd::prelude::*;

verus! {

/// `n` zero digits.
pub fn zero_vec(n: usize) -> (r: Vec<u8>)
    ensures
        r@ == zeros(n as nat),
{
    let mut r: Vec<u8> = Vec::new();
    let mut i: usize = 0;
    while i < n
        invariant
            i <= n,
            r@ == zeros(i as nat),
        decreases n - i,
    {
        r.push(0);
        i += 1;
        assert(r@ =~= zeros(i as nat));
    }
    r
}

/// The digits of `v` from `lo` up to `hi`.
pub fn copy_range(v: &Vec<u8>, lo: usize, hi: usize) -> (r: Vec<u8>)
    requires
        lo <= hi <= v.len(),
    ensures
        r@ == v@.subrange(lo as int, hi as int),
{
    let mut r: Vec<u8> = Vec::new();
    let mut i: usize = lo;
    while i < hi
        invariant
            lo <= i <= hi <= v.len(),
            r@ == v@.subrange(lo as int, i as int),
        decreases hi - i,
    {
        r.push(v[i]);
        i += 1;
        assert(r@ =~= v@.subrange(lo as int, i as int));
    }
    r
}

/// Appends the digits of `v` to `r`.
pub fn append_digits(r: &mut Vec<u8>, v: &Vec<u8>)
    requires
        old(r).len() + v.len() <= usize::MAX,
    ensures
        final(r)@ == old(r)@ + v@,
{
    let ghost start = r@;
    let mut i: usize = 0;
    while i < v.len()
        invariant
            i <= v.len(),
            r@ == start + v@.subrange(0, i as int),
            start.len() + v.len() <= usize::MAX,
        decreases v.len() - i,
    {
        r.push(v[i]);
        i += 1;
        assert(r@ =~= start + v@.subrange(0, i as int));
    }
    assert(v@.subrange(0, v.len() as int) =~= v@);
}

/// `s` with `lead` zeros in front and `trail` zeros behind.
pub fn padded(s: &Vec<u8>, lead: usize, trail: usize) -> (r: Vec<u8>)
    requires
        lead + s.len() + trail <= usize::MAX,
    ensures
        r@ == zeros(lead as nat) + s@ + zeros(trail as nat),
{
    let mut r = zero_vec(lead);
    append_digits(&mut r, s);
    let z = zero_vec(trail);
    append_digits(&mut r, &z);
    r
}

proof fn lemma_carry_step(xd: int, yd: int, c: int, d: int, p: int, xs: int, ys: int, rs: int)
    requires
        d == xd + yd + c,
        xs + ys == c * p + rs,
    ensures
        (xd * p + xs) + (yd * p + ys) == (d / 10) * (10 * p) + ((d % 10) * p + rs),
{
    assert(d == (d / 10) * 10 + d % 10);
    assert((xd * p + xs) + (yd * p + ys) == (xd + yd + c) * p + rs) by (nonlinear_arith)
        requires
            xs + ys == c * p + rs,
    ;
    assert(((d / 10) * 10 + d % 10) * p == (d / 10) * (10 * p) + (d % 10) * p)
        by (nonlinear_arith);
}

/// Digit-wise sum of two aligned digit sequences, carry propagated from the
/// least significant end.
pub fn add_digits(x: &Vec<u8>, y: &Vec<u8>) -> (r: Vec<u8>)
    requires
        x.len() == y.len(),
        x.len() < usize::MAX,
        digits_ok(x@),
        digits_ok(y@),
    ensures
        r.len() == x.len() + 1,
        digits_ok(r@),
        val(r@) == val(x@) + val(y@),
{
    let n = x.len();
    let mut r = zero_vec(n + 1);
    let mut carry: u8 = 0;
    let mut i: usize = n;
    assert(val(x@.subrange(n as int, n as int)) == 0);
    assert(val(y@.subrange(n as int, n as int)) == 0);
    assert(val(r@.subrange(n + 1, n + 1)) == 0);
    assert(pow10(0) == 1);
    while i > 0
        invariant
            i <= n,
            n == x.len(),
            n == y.len(),
            r.len() == n + 1,
            carry <= 1,
            digits_ok(r@),
            digits_ok(x@),
            digits_ok(y@),
            val(x@.subrange(i as int, n as int)) + val(y@.subrange(i as int, n as int)) == carry
                * pow10((n - i) as nat) + val(r@.subrange(i + 1, n + 1)),
        decreases i,
    {
        let ghost old_r = r@;
        let ghost c = carry;
        let j = i - 1;
        let d: u8 = x[j] + y[j] + carry;
        r.set(i, d % 10);
        carry = d / 10;
        proof {
            let p = pow10((n - i) as nat);
            assert(pow10((n - j) as nat) == 10 * p);
            assert(x@.subrange(j as int, n as int) =~= seq![x@[j as int]] + x@.subrange(
                i as int,
                n as int,
            ));
            assert(y@.subrange(j as int, n as int) =~= seq![y@[j as int]] + y@.subrange(
                i as int,
                n as int,
            ));
            assert(r@.subrange(j + 1, n + 1) =~= seq![d % 10] + old_r.subrange(i + 1, n + 1));
            lemma_val_prepend(x@[j as int], x@.subrange(i as int, n as int));
            lemma_val_prepend(y@[j as int], y@.subrange(i as int, n as int));
            lemma_val_prepend(d % 10, old_r.subrange(i + 1, n + 1));
            lemma_carry_step(
                x@[j as int] as int,
                y@[j as int] as int,
                c as int,
                d as int,
                p as int,
                val(x@.subrange(i as int, n as int)) as int,
                val(y@.subrange(i as int, n as int)) as int,
                val(old_r.subrange(i + 1, n + 1)) as int,
            );
        }
        i = j;
    }
    let ghost old_r = r@;
    r.set(0, carry);
    proof {
        assert(x@.subrange(0, n as int) =~= x@);
        assert(y@.subrange(0, n as int) =~= y@);
        assert(r@ =~= seq![carry] + old_r.subrange(1, n + 1));
        lemma_val_prepend(carry, old_r.subrange(1, n + 1));
    }
    r
}

proof fn lemma_borrow_step(
    xd: int,
    yd: int,
    b: int,
    nb: int,
    rd: int,
    p: int,
    xs: int,
    ys: int,
    rs: int,
)
    requires
        xd + 10 * nb == yd + b + rd,
        xs + b * p == ys + rs,
    ensures
        (xd * p + xs) + nb * (10 * p) == (yd * p + ys) + (rd * p + rs),
{
    assert((xd + 10 * nb) * p == (yd + b + rd) * p);
    assert((xd + 10 * nb) * p == xd * p + nb * (10 * p)) by (nonlinear_arith);
    assert((yd + b + rd) * p == yd * p + b * p + rd * p) by (nonlinear_arith);
}

/// Digit-wise difference `x - y` of two aligned digit sequences, borrow
/// propagated from the least significant end. The flag tells whether a borrow
/// was left over, that is whether `x < y`.
pub fn sub_digits(x: &Vec<u8>, y: &Vec<u8>) -> (r: (Vec<u8>, bool))
    requires
        x.len() == y.len(),
        digits_ok(x@),
        digits_ok(y@),
    ensures
        r.0.len() == x.len(),
        digits_ok(r.0@),
        r.1 <==> val(x@) < val(y@),
        !r.1 ==> val(r.0@) == val(x@) - val(y@),
{
    let n = x.len();
    let mut r = zero_vec(n);
    let mut borrow: u8 = 0;
    let mut i: usize = n;
    assert(val(x@.subrange(n as int, n as int)) == 0);
    assert(val(y@.subrange(n as int, n as int)) == 0);
    assert(val(r@.subrange(n as int, n as int)) == 0);
    while i > 0
        invariant
            i <= n,
            n == x.len(),
            n == y.len(),
            r.len() == n,
            borrow <= 1,
            digits_ok(r@),
            digits_ok(x@),
            digits_ok(y@),
            val(x@.subrange(i as int, n as int)) + borrow * pow10((n - i) as nat) == val(
                y@.subrange(i as int, n as int),
            ) + val(r@.subrange(i as int, n as int)),
        decreases i,
    {
        let ghost old_r = r@;
        let ghost b = borrow;
        let j = i - 1;
        let xd = x[j];
        let yd = y[j];
        let rd: u8;
        if xd >= yd + borrow {
            rd = xd - yd - borrow;
            borrow = 0;
        } else {
            rd = xd + 10 - yd - borrow;
            borrow = 1;
        }
        r.set(j, rd);
        proof {
            let p = pow10((n - i) as nat);
            assert(pow10((n - j) as nat) == 10 * p);
            assert(x@.subrange(j as int, n as int) =~= seq![xd] + x@.subrange(i as int, n as int));
            assert(y@.subrange(j as int, n as int) =~= seq![yd] + y@.subrange(i as int, n as int));
            assert(r@.subrange(j as int, n as int) =~= seq![rd] + old_r.subrange(i as int, n as int));
            lemma_val_prepend(xd, x@.subrange(i as int, n as int));
            lemma_val_prepend(yd, y@.subrange(i as int, n as int));
            lemma_val_prepend(rd, old_r.subrange(i as int, n as int));
            lemma_borrow_step(
                xd as int,
                yd as int,
                b as int,
                borrow as int,
                rd as int,
                p as int,
                val(x@.subrange(i as int, n as int)) as int,
                val(y@.subrange(i as int, n as int)) as int,
                val(old_r.subrange(i as int, n as int)) as int,
            );
        }
        i = j;
    }
    proof {
        assert(x@.subrange(0, n as int) =~= x@);
        assert(y@.subrange(0, n as int) =~= y@);
        assert(r@.subrange(0, n as int) =~= r@);
        lemma_val_bound(r@);
        lemma_val_bound(x@);
    }
    (r, borrow == 1)
}

proof fn lemma_scale_step(xd: int, m: int, c: int, t: int, p: int, xs: int, rs: int)
    requires
        t == xd * m + c,
        xs * m == c * p + rs,
    ensures
        (xd * p + xs) * m == (t / 10) * (10 * p) + ((t % 10) * p + rs),
{
    assert(t == (t / 10) * 10 + t % 10);
    assert((xd * p + xs) * m == (xd * m) * p + xs * m) by (nonlinear_arith);
    assert((xd * m + c) * p == (xd * m) * p + c * p) by (nonlinear_arith);
    assert(((t / 10) * 10 + t % 10) * p == (t / 10) * (10 * p) + (t % 10) * p)
        by (nonlinear_arith);
}

/// The product of a digit sequence and a single digit.
pub fn mul_digit(x: &Vec<u8>, m: u8) -> (r: Vec<u8>)
    requires
        x.len() < usize::MAX,
        digits_ok(x@),
        m <= 9,
    ensures
        r.len() == x.len() + 1,
        digits_ok(r@),
        val(r@) == val(x@) * m,
{
    let n = x.len();
    let mut r = zero_vec(n + 1);
    let mut carry: u8 = 0;
    let mut i: usize = n;
    assert(val(x@.subrange(n as int, n as int)) == 0);
    assert(val(r@.subrange(n + 1, n + 1)) == 0);
    assert(pow10(0) == 1);
    while i > 0
        invariant
            i <= n,
            n == x.len(),
            r.len() == n + 1,
            carry <= 8,
            m <= 9,
            digits_ok(r@),
            digits_ok(x@),
            val(x@.subrange(i as int, n as int)) * m == carry * pow10((n - i) as nat) + val(
                r@.subrange(i + 1, n + 1),
            ),
        decreases i,
    {
        let ghost old_r = r@;
        let ghost c = carry;
        let j = i - 1;
        let xd = x[j];
        assert(xd * m <= 81) by (nonlinear_arith)
            requires
                xd <= 9,
                m <= 9,
        ;
        let t: u8 = xd * m + carry;
        r.set(i, t % 10);
        carry = t / 10;
        proof {
            let p = pow10((n - i) as nat);
            assert(pow10((n - j) as nat) == 10 * p);
            assert(x@.subrange(j as int, n as int) =~= seq![xd] + x@.subrange(i as int, n as int));
            assert(r@.subrange(j + 1, n + 1) =~= seq![t % 10] + old_r.subrange(i + 1, n + 1));
            lemma_val_prepend(xd, x@.subrange(i as int, n as int));
            lemma_val_prepend(t % 10, old_r.subrange(i + 1, n + 1));
            lemma_scale_step(
                xd as int,
                m as int,
                c as int,
                t as int,
                p as int,
                val(x@.subrange(i as int, n as int)) as int,
                val(old_r.subrange(i + 1, n + 1)) as int,
            );
        }
        i = j;
    }
    let ghost old_r = r@;
    r.set(0, carry);
    proof {
        assert(x@.subrange(0, n as int) =~= x@);
        assert(r@ =~= seq![carry] + old_r.subrange(1, n + 1));
        lemma_val_prepend(carry, old_r.subrange(1, n + 1));
    }
    r
}

/// Sum of two digit sequences of any lengths.
pub fn add_unaligned(u: &Vec<u8>, v: &Vec<u8>) -> (r: Vec<u8>)
    requires
        u.len() < usize::MAX,
        v.len() < usize::MAX,
        digits_ok(u@),
        digits_ok(v@),
    ensures
        r.len() == (if u.len() >= v.len() { u.len() } else { v.len() }) + 1,
        digits_ok(r@),
        val(r@) == val(u@) + val(v@),
{
    let n = if u.len() >= v.len() {
        u.len()
    } else {
        v.len()
    };
    let pu = padded(u, n - u.len(), 0);
    let pv = padded(v, n - v.len(), 0);
    proof {
        lemma_val_pad(u@, (n - u.len()) as nat, 0);
        lemma_val_pad(v@, (n - v.len()) as nat, 0);
        assert(pow10(0) == 1);
        assert(digits_ok(pu@)) by {
            assert forall|j: int| 0 <= j < pu@.len() implies pu@[j] <= 9 by {
                if j >= n - u.len() {
                    assert(pu@[j] == u@[j - (n - u.len())]);
                }
            }
        }
        assert(digits_ok(pv@)) by {
            assert forall|j: int| 0 <= j < pv@.len() implies pv@[j] <= 9 by {
                if j >= n - v.len() {
                    assert(pv@[j] == v@[j - (n - v.len())]);
                }
            }
        }
    }
    add_digits(&pu, &pv)
}

proof fn lemma_horner_step(a: int, b: int, d: int, acc: int, part: int)
    requires
        acc == a * b,
        part == a * d,
    ensures
        acc * 10 + part == a * (b * 10 + d),
{
    assert(a * (b * 10 + d) == a * b * 10 + a * d) by (nonlinear_arith);
}

/// Long multiplication: each digit of `y`, most significant first, scales `x`
/// and is added to the running product shifted one place.
pub fn mul_digits(x: &Vec<u8>, y: &Vec<u8>) -> (r: Vec<u8>)
    requires
        digits_ok(x@),
        digits_ok(y@),
        x.len() + 2 * y.len() + 2 < usize::MAX,
    ensures
        r.len() <= x.len() + 2 * y.len() + 1,
        digits_ok(r@),
        val(r@) == val(x@) * val(y@),
{
    let mut acc: Vec<u8> = Vec::new();
    let mut j: usize = 0;
    assert(val(y@.take(0)) == 0);
    while j < y.len()
        invariant
            j <= y.len(),
            digits_ok(x@),
            digits_ok(y@),
            x.len() + 2 * y.len() + 2 < usize::MAX,
            digits_ok(acc@),
            acc.len() <= x.len() + 2 * j + 1,
            val(acc@) == val(x@) * val(y@.take(j as int)),
        decreases y.len() - j,
    {
        let ghost before = acc@;
        acc.push(0);
        assert(acc@.drop_last() =~= before);
        let part = mul_digit(x, y[j]);
        acc = add_unaligned(&acc, &part);
        proof {
            assert(y@.take(j + 1).drop_last() =~= y@.take(j as int));
            lemma_horner_step(
                val(x@) as int,
                val(y@.take(j as int)) as int,
                y@[j as int] as int,
                val(before) as int,
                val(part@) as int,
            );
        }
        j += 1;
    }
    assert(y@.take(y.len() as int) =~= y@);
    acc
}

proof fn lemma_quotient_digit_bound(digit: int, vd: int, target: int)
    requires
        (digit + 1) * vd <= target,
        target < 10 * vd,
        vd > 0,
        digit >= 0,
    ensures
        digit + 1 < 10,
{
    if digit + 1 >= 10 {
        assert((digit + 1) * vd >= 10 * vd) by (nonlinear_arith)
            requires
                digit + 1 >= 10,
                vd > 0,
        ;
    }
}

proof fn lemma_long_division_step(vq: int, vd: int, vr: int, nd: int, digit: int, vc: int)
    ensures
        (vq * vd + vr) * 10 + nd - (vr * 10 + nd) + digit * vd + vc == (vq * 10 + digit) * vd
            + vc,
{
    assert((vq * vd + vr) * 10 == vq * 10 * vd + vr * 10) by (nonlinear_arith);
    assert((vq * 10 + digit) * vd == vq * 10 * vd + digit * vd) by (nonlinear_arith);
}

/// Long division: the quotient `n / d`, one quotient digit for each digit of
/// `n`, each found by how many times `d` fits into the running remainder.
pub fn div_digits(n: &Vec<u8>, d: &Vec<u8>) -> (q: Vec<u8>)
    requires
        digits_ok(n@),
        digits_ok(d@),
        val(d@) > 0,
        d.len() + 1 < usize::MAX,
    ensures
        q.len() == n.len(),
        digits_ok(q@),
        val(q@) == val(n@) / val(d@),
{
    let m = d.len();
    let dp = padded(d, 1, 0);
    let mut rem = zero_vec(m + 1);
    let mut q: Vec<u8> = Vec::new();
    let mut i: usize = 0;
    proof {
        lemma_val_pad(d@, 1, 0);
        assert(pow10(0) == 1);
        assert(val(dp@) == val(d@) * pow10(0));
        assert(val(d@) * 1 == val(d@));
        lemma_val_bound(d@);
        lemma_val_pad(Seq::<u8>::empty(), (m + 1) as nat, 0);
        assert(zeros((m + 1) as nat) + Seq::<u8>::empty() + zeros(0) =~= rem@);
        assert(digits_ok(dp@)) by {
            assert forall|j: int| 0 <= j < dp@.len() implies dp@[j] <= 9 by {
                if j >= 1 {
                    assert(dp@[j] == d@[j - 1]);
                }
            }
        }
        assert(n@.take(0) =~= Seq::<u8>::empty());
    }
    while i < n.len()
        invariant
            m == d.len(),
            rem.len() == m + 1,
            dp.len() == m + 1,
            val(dp@) == val(d@),
            val(d@) < pow10(m as nat),
            val(d@) > 0,
            digits_ok(rem@),
            digits_ok(dp@),
            digits_ok(n@),
            digits_ok(q@),
            q.len() == i,
            i <= n.len(),
            val(rem@) < val(d@),
            val(n@.take(i as int)) == val(q@) * val(d@) + val(rem@),
        decreases n.len() - i,
    {
        let ghost vr = val(rem@) as int;
        let ghost vd = val(d@) as int;
        proof {
            lemma_leading_zero(rem@);
            assert(rem@ =~= seq![0u8] + rem@.subrange(1, m + 1));
            lemma_val_prepend(0, rem@.subrange(1, m + 1));
        }
        let mut cur = copy_range(&rem, 1, m + 1);
        let nd = n[i];
        cur.push(nd);
        let ghost target = val(cur@) as int;
        proof {
            assert(cur@.drop_last() =~= rem@.subrange(1, m + 1));
            assert(target == vr * 10 + nd);
            assert(target < 10 * vd);
        }
        let mut digit: u8 = 0;
        let mut going = true;
        while going
            invariant
                cur.len() == m + 1,
                dp.len() == m + 1,
                digits_ok(cur@),
                digits_ok(dp@),
                val(dp@) == vd,
                vd > 0,
                digit <= 9,
                val(cur@) + digit * vd == target,
                target < 10 * vd,
                !going ==> val(cur@) < vd,
            decreases val(cur@) + (if going {
                1int
            } else {
                0int
            }),
        {
            let (s, borrow) = sub_digits(&cur, &dp);
            if borrow {
                going = false;
            } else {
                proof {
                    assert((digit as int + 1) * vd == digit as int * vd + vd) by (nonlinear_arith);
                    lemma_quotient_digit_bound(digit as int, vd, target);
                }
                cur = s;
                digit += 1;
            }
        }
        let ghost vq = val(q@) as int;
        let ghost old_q = q@;
        q.push(digit);
        rem = cur;
        proof {
            assert(q@.drop_last() =~= old_q);
            assert(n@.take(i + 1).drop_last() =~= n@.take(i as int));
            lemma_long_division_step(vq, vd, vr, nd as int, digit as int, val(rem@) as int);
        }
        i += 1;
    }
    proof {
        assert(n@.take(n.len() as int) =~= n@);
        lemma_fundamental_div_mod_converse_div(
            val(n@) as int,
            val(d@) as int,
            val(q@) as int,
            val(rem@) as int,
        );
    }
    q
}

} // verus!
