use crate::digits::{
    canon, canonical_frac, canonical_int, digits_ok, lemma_canon_of_raw,
    lemma_val_pad, lemma_val_prepend, pow10, signed_val, strip_leading, strip_trailing, val,
};
use crate::magnitude::{append_digits, copy_range, padded};
use vstd::prelude::*;

verus! {

/// The three parts of a decimal number: integer digits, fractional digits
/// (both most significant first) and sign (`true` for non-negative).
pub type Parts = (Seq<u8>, Seq<u8>, bool);

/// An arbitrary-precision decimal number.
#[derive(Debug, Clone, PartialEq, Eq)]
pub struct BigNumber {
    pub int: Vec<u8>,
    pub frac: Vec<u8>,
    pub sign: bool,
}

/// Why an operation on decimal numbers failed.
#[derive(Debug, Clone, Copy, PartialEq, Eq, Structural)]
pub enum NumberError {
    /// A digit outside `0..=9`.
    InvalidDigit,
    /// Text that is not `sign? digit+ ('.' digit+)?`.
    MalformedNumber,
    /// A division whose divisor is zero.
    DivisionByZero,
}

impl View for BigNumber {
    type V = Parts;

    open spec fn view(&self) -> Parts {
        (self.int@, self.frac@, self.sign)
    }
}

/// The canonical zero.
pub open spec fn zero_parts() -> Parts {
    (seq![0u8], Seq::empty(), true)
}

/// Canonical form: valid digits, no redundant zero, zero is non-negative.
pub open spec fn canonical(p: Parts) -> bool {
    &&& canonical_int(p.0)
    &&& canonical_frac(p.1)
    &&& (p.2 || !(p.0 == seq![0u8] && p.1.len() == 0))
}

/// Digits valid and an integer part present; redundant zeros allowed.
pub open spec fn raw_ok(p: Parts) -> bool {
    &&& digits_ok(p.0)
    &&& digits_ok(p.1)
    &&& p.0.len() >= 1
}

/// The magnitude scaled by `10^|frac|`: the natural number written by all digits.
pub open spec fn magnitude(p: Parts) -> nat {
    val(p.0 + p.1)
}

/// The value scaled by `10^k` (for `k` at least the number of fractional digits).
pub open spec fn value_at(p: Parts, k: nat) -> int {
    signed_val(p.0, p.1, p.2) * pow10((k - p.1.len()) as nat)
}

/// Canonical numbers are determined by their value.
pub proof fn lemma_canon_of_canonical(p: Parts)
    requires
        canonical(p),
    ensures
        canon(value_at(p, p.1.len()), p.1.len()) == p,
        p.2 || magnitude(p) != 0,
        magnitude(p) == 0 <==> p == zero_parts(),
{
    lemma_canon_of_raw(p.0, p.1, p.2);
    assert(pow10(0) == 1);
    assert((p.1.len() - p.1.len()) as nat == 0);
    assert(value_at(p, p.1.len()) == signed_val(p.0, p.1, p.2));
    assert(strip_leading(p.0) == p.0);
    assert(strip_trailing(p.1) == p.1);
    if p.0 == seq![0u8] && p.1.len() == 0 {
        assert(p.1 =~= Seq::<u8>::empty());
    }
}

/// `s` without its leading zeros, keeping at least one digit.
fn strip_leading_exec(s: &Vec<u8>) -> (r: Vec<u8>)
    requires
        s.len() >= 1,
    ensures
        r@ == strip_leading(s@),
{
    let n = s.len();
    let mut i: usize = 0;
    assert(s@.subrange(0, n as int) =~= s@);
    while i + 1 < n && s[i] == 0
        invariant
            n == s.len(),
            i < n,
            strip_leading(s@.subrange(i as int, n as int)) == strip_leading(s@),
        decreases n - i,
    {
        assert(s@.subrange(i as int, n as int).drop_first() =~= s@.subrange(i + 1, n as int));
        i += 1;
    }
    copy_range(s, i, n)
}

/// `s` without its trailing zeros.
fn strip_trailing_exec(s: &Vec<u8>) -> (r: Vec<u8>)
    ensures
        r@ == strip_trailing(s@),
{
    let mut j: usize = s.len();
    assert(s@.subrange(0, j as int) =~= s@);
    while j > 0 && s[j - 1] == 0
        invariant
            j <= s.len(),
            strip_trailing(s@.subrange(0, j as int)) == strip_trailing(s@),
        decreases j,
    {
        assert(s@.subrange(0, j as int).drop_last() =~= s@.subrange(0, j - 1));
        j -= 1;
    }
    copy_range(s, 0, j)
}

/// Canonical form of raw digits `i.f` with sign `s`.
pub(crate) fn normalize_parts(i: &Vec<u8>, f: &Vec<u8>, s: bool) -> (r: BigNumber)
    requires
        digits_ok(i@),
        digits_ok(f@),
        i.len() >= 1,
    ensures
        r@ == canon(signed_val(i@, f@, s), f.len() as nat),
        canonical(r@),
{
    proof {
        lemma_canon_of_raw(i@, f@, s);
    }
    let ip = strip_leading_exec(i);
    let fp = strip_trailing_exec(f);
    let zero = ip.len() == 1 && ip[0] == 0 && fp.len() == 0;
    assert(zero <==> (ip@ == seq![0u8] && fp@.len() == 0)) by {
        if ip.len() == 1 && ip[0] == 0 {
            assert(ip@ =~= seq![0u8]);
        }
    }
    BigNumber { int: ip, frac: fp, sign: s || zero }
}

/// Canonical form of the value `±val(d) / 10^k`.
pub(crate) fn normalize_scaled(d: &Vec<u8>, k: usize, s: bool) -> (r: BigNumber)
    requires
        digits_ok(d@),
        d.len() + k + 1 <= usize::MAX,
    ensures
        r@ == canon(if s { val(d@) as int } else { -(val(d@) as int) }, k as nat),
        canonical(r@),
{
    let lead: usize = if d.len() < k + 1 {
        k + 1 - d.len()
    } else {
        0
    };
    let p = padded(d, lead, 0);
    let n = p.len();
    let i = copy_range(&p, 0, n - k);
    let f = copy_range(&p, n - k, n);
    proof {
        lemma_val_pad(d@, lead as nat, 0);
        assert(pow10(0) == 1);
        assert(i@ + f@ =~= p@);
        assert(digits_ok(p@)) by {
            assert forall|j: int| 0 <= j < p@.len() implies p@[j] <= 9 by {
                if j >= lead && j < lead + d.len() {
                    assert(p@[j] == d@[j - lead]);
                }
            }
        }
    }
    normalize_parts(&i, &f, s)
}

impl BigNumber {
    /// Canonical form.
    pub open spec fn wf(&self) -> bool {
        canonical(self@)
    }

    /// Builds a number from parts that are already canonical.
    pub fn from_raw(int_part: Vec<u8>, frac_part: Vec<u8>, sign: bool) -> (r: Self)
        requires
            canonical((int_part@, frac_part@, sign)),
        ensures
            r@ == (int_part@, frac_part@, sign),
            r.wf(),
    {
        BigNumber { int: int_part, frac: frac_part, sign }
    }

    /// Canonicalises raw parts: strips leading zeros of the integer part
    /// (an empty one reads as `0`) and trailing zeros of the fractional part,
    /// and makes zero non-negative. Fails on a digit above 9.
    pub fn normalize(int_part: Vec<u8>, frac_part: Vec<u8>, sign: bool) -> (r: Result<Self, NumberError>)
        ensures
            r is Ok <==> digits_ok(int_part@) && digits_ok(frac_part@),
            r matches Ok(n) ==> n@ == canon(signed_val(int_part@, frac_part@, sign), frac_part.len() as nat)
                && n.wf(),
            r matches Err(e) ==> e == NumberError::InvalidDigit,
    {
        let mut k: usize = 0;
        while k < int_part.len()
            invariant
                k <= int_part.len(),
                forall|j: int| 0 <= j < k ==> int_part@[j] <= 9,
            decreases int_part.len() - k,
        {
            if int_part[k] > 9 {
                return Err(NumberError::InvalidDigit);
            }
            k += 1;
        }
        k = 0;
        while k < frac_part.len()
            invariant
                k <= frac_part.len(),
                digits_ok(int_part@),
                forall|j: int| 0 <= j < k ==> frac_part@[j] <= 9,
            decreases frac_part.len() - k,
        {
            if frac_part[k] > 9 {
                return Err(NumberError::InvalidDigit);
            }
            k += 1;
        }
        if int_part.len() == 0 {
            let z: Vec<u8> = vec![0u8];
            proof {
                assert(z@ =~= seq![0u8]);
                assert(int_part@ + frac_part@ =~= frac_part@);
                lemma_val_prepend(0, frac_part@);
                assert(z@ + frac_part@ =~= seq![0u8] + frac_part@);
            }
            Ok(normalize_parts(&z, &frac_part, sign))
        } else {
            Ok(normalize_parts(&int_part, &frac_part, sign))
        }
    }

    /// The canonical zero.
    pub fn zero() -> (r: Self)
        ensures
            r@ == zero_parts(),
            r.wf(),
    {
        let r = BigNumber { int: vec![0u8], frac: Vec::new(), sign: true };
        assert(r@ =~= zero_parts());
        r
    }

    /// All digits, integer part then fractional part, with `lead` zeros in
    /// front and `trail` zeros behind.
    pub(crate) fn aligned_digits(&self, lead: usize, trail: usize) -> (r: Vec<u8>)
        requires
            digits_ok(self.int@),
            digits_ok(self.frac@),
            lead + self.int.len() + self.frac.len() + trail <= usize::MAX,
        ensures
            r.len() == lead + self.int.len() + self.frac.len() + trail,
            digits_ok(r@),
            val(r@) == magnitude(self@) * pow10(trail as nat),
    {
        let mut all = copy_range(&self.int, 0, self.int.len());
        append_digits(&mut all, &self.frac);
        assert(self.int@.subrange(0, self.int.len() as int) =~= self.int@);
        let r = padded(&all, lead, trail);
        proof {
            lemma_val_pad(all@, lead as nat, trail as nat);
            assert(digits_ok(r@)) by {
                assert forall|j: int| 0 <= j < r@.len() implies r@[j] <= 9 by {
                    if j >= lead && j < lead + self.int.len() {
                        assert(r@[j] == self.int@[j - lead]);
                    } else if j >= lead + self.int.len() && j < lead + self.int.len()
                        + self.frac.len() {
                        assert(r@[j] == self.frac@[j - lead - self.int.len()]);
                    }
                }
            }
        }
        r
    }
}

} // verus!
