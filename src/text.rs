use crate::digits::{canon, digits_ok, signed_val};
use crate::number::{normalize_parts, BigNumber, NumberError, Parts};
use vstd::prelude::*;
use vstd::string::{StringExecFns, StringSliceAdditionalSpecFns};

verus! {

/// An ASCII decimal digit.
pub open spec fn is_digit_byte(c: u8) -> bool {
    48 <= c <= 57
}

pub open spec fn all_digit_bytes(t: Seq<u8>) -> bool {
    forall|i: int| 0 <= i < t.len() ==> is_digit_byte(#[trigger] t[i])
}

/// The text starts with `-`.
pub open spec fn negative_text(b: Seq<u8>) -> bool {
    b.len() > 0 && b[0] == 45
}

/// How many bytes the optional sign takes.
pub open spec fn sign_len(b: Seq<u8>) -> int {
    if b.len() > 0 && (b[0] == 43 || b[0] == 45) {
        1
    } else {
        0
    }
}

/// The text after the optional sign.
pub open spec fn body(b: Seq<u8>) -> Seq<u8> {
    b.subrange(sign_len(b), b.len() as int)
}

/// `t` is `digit+ '.' digit+` with the point at `p`.
pub open spec fn dot_at(t: Seq<u8>, p: int) -> bool {
    &&& 1 <= p
    &&& p + 1 < t.len()
    &&& t[p] == 46
    &&& all_digit_bytes(t.take(p))
    &&& all_digit_bytes(t.skip(p + 1))
}

/// `b` matches `sign? digit+ ('.' digit+)?`.
pub open spec fn accepted(b: Seq<u8>) -> bool {
    let t = body(b);
    (t.len() >= 1 && all_digit_bytes(t)) || exists|p: int| dot_at(t, p)
}

/// The integer digits of accepted text.
pub open spec fn int_text(b: Seq<u8>) -> Seq<u8> {
    let t = body(b);
    if all_digit_bytes(t) {
        t
    } else {
        t.take(choose|p: int| dot_at(t, p))
    }
}

/// The fractional digits of accepted text.
pub open spec fn frac_text(b: Seq<u8>) -> Seq<u8> {
    let t = body(b);
    if all_digit_bytes(t) {
        Seq::empty()
    } else {
        t.skip((choose|p: int| dot_at(t, p)) + 1)
    }
}

/// The digit values of ASCII digits.
pub open spec fn digit_values(t: Seq<u8>) -> Seq<u8> {
    t.map_values(|c: u8| (c - 48) as u8)
}

/// The number that accepted text denotes, in canonical form.
pub open spec fn parsed_parts(b: Seq<u8>) -> Parts {
    canon(
        signed_val(digit_values(int_text(b)), digit_values(frac_text(b)), !negative_text(b)),
        frac_text(b).len(),
    )
}

/// The character of a digit value.
pub open spec fn digit_char(d: u8) -> char {
    ((d + 48) as u8) as char
}

pub open spec fn digit_chars(s: Seq<u8>) -> Seq<char> {
    s.map_values(|d: u8| digit_char(d))
}

/// The text of a number: explicit sign, integer digits, and a point with the
/// fractional digits only when there are any.
pub open spec fn render(p: Parts) -> Seq<char> {
    seq![
        if p.2 {
            '+'
        } else {
            '-'
        },
    ] + digit_chars(p.0) + if p.1.len() == 0 {
        Seq::empty()
    } else {
        seq!['.'] + digit_chars(p.1)
    }
}

/// Where the leading digits of `t` end at a byte that is not a digit, the
/// only possible point is there, and `t` is not all digits.
proof fn lemma_dot_position(t: Seq<u8>, k: int)
    requires
        0 <= k < t.len(),
        all_digit_bytes(t.take(k)),
        !is_digit_byte(t[k]),
    ensures
        forall|p: int| dot_at(t, p) ==> p == k,
        !all_digit_bytes(t),
{
    assert forall|p: int| dot_at(t, p) implies p == k by {
        if p < k {
            assert(t.take(k)[p] == t[p]);
        } else if p > k {
            assert(t.take(p)[k] == t[k]);
        }
    }
    assert(!is_digit_byte(t[k]));
}

/// Reads `sign? digit+ ('.' digit+)?` from bytes, in canonical form.
pub fn parse_bytes(b: &[u8]) -> (r: Result<BigNumber, NumberError>)
    ensures
        r is Ok <==> accepted(b@),
        r matches Ok(n) ==> n@ == parsed_parts(b@) && n.wf(),
        r matches Err(e) ==> e == NumberError::MalformedNumber,
{
    let n = b.len();
    let mut start: usize = 0;
    let mut sign = true;
    if n > 0 && (b[0] == 43 || b[0] == 45) {
        start = 1;
        sign = b[0] != 45;
    }
    let ghost t = body(b@);
    assert(sign_len(b@) == start);
    let mut i: usize = start;
    let mut int_digits: Vec<u8> = Vec::new();
    while i < n && 48 <= b[i] && b[i] <= 57
        invariant
            n == b.len(),
            start <= i <= n,
            t == b@.subrange(start as int, n as int),
            all_digit_bytes(t.take(i - start)),
            int_digits@ == digit_values(t.take(i - start)),
        decreases n - i,
    {
        int_digits.push(b[i] - 48);
        i += 1;
        assert(t.take(i - start) =~= t.take(i - start - 1).push(b@[i - 1]));
        assert(int_digits@ =~= digit_values(t.take(i - start)));
    }
    let k = i - start;
    if k == 0 {
        proof {
            if t.len() > 0 {
                lemma_dot_position(t, 0);
            }
        }
        return Err(NumberError::MalformedNumber);
    }
    assert(digits_ok(int_digits@));
    let mut frac_digits: Vec<u8> = Vec::new();
    if i < n {
        proof {
            lemma_dot_position(t, k as int);
        }
        if b[i] != 46 || i + 1 == n {
            return Err(NumberError::MalformedNumber);
        }
        let first = i + 1;
        i = first;
        let ghost f = t.skip(k + 1);
        while i < n && 48 <= b[i] && b[i] <= 57
            invariant
                n == b.len(),
                first <= i <= n,
                first == start + k + 1,
                t == b@.subrange(start as int, n as int),
                f == t.skip(k + 1),
                all_digit_bytes(f.take(i - first)),
                frac_digits@ == digit_values(f.take(i - first)),
            decreases n - i,
        {
            frac_digits.push(b[i] - 48);
            i += 1;
            assert(f.take(i - first) =~= f.take(i - first - 1).push(b@[i - 1]));
            assert(frac_digits@ =~= digit_values(f.take(i - first)));
        }
        if i < n {
            assert(!all_digit_bytes(f)) by {
                assert(f[i - first] == b@[i as int]);
            }
            return Err(NumberError::MalformedNumber);
        }
        proof {
            assert(f.take(i - first) =~= f);
            assert(dot_at(t, k as int));
            let p = choose|p: int| dot_at(t, p);
            assert(p == k);
        }
    } else {
        assert(t.take(k as int) =~= t);
    }
    assert(digits_ok(frac_digits@));
    Ok(normalize_parts(&int_digits, &frac_digits, sign))
}

/// Reads `sign? digit+ ('.' digit+)?` from text, in canonical form.
pub fn parse(s: &str) -> (r: Result<BigNumber, NumberError>)
    ensures
        r is Ok <==> accepted(s.spec_bytes()),
        r matches Ok(n) ==> n@ == parsed_parts(s.spec_bytes()) && n.wf(),
        r matches Err(e) ==> e == NumberError::MalformedNumber,
{
    parse_bytes(s.as_bytes())
}

fn digit_str(d: u8) -> (r: &'static str)
    requires
        d <= 9,
    ensures
        r@ == seq![digit_char(d)],
{
    proof {
        reveal_strlit("0");
        reveal_strlit("1");
        reveal_strlit("2");
        reveal_strlit("3");
        reveal_strlit("4");
        reveal_strlit("5");
        reveal_strlit("6");
        reveal_strlit("7");
        reveal_strlit("8");
        reveal_strlit("9");
    }
    match d {
        0 => "0",
        1 => "1",
        2 => "2",
        3 => "3",
        4 => "4",
        5 => "5",
        6 => "6",
        7 => "7",
        8 => "8",
        _ => "9",
    }
}

fn push_digits(out: &mut String, s: &Vec<u8>)
    requires
        digits_ok(s@),
    ensures
        final(out)@ == old(out)@ + digit_chars(s@),
{
    let ghost start = out@;
    let mut i: usize = 0;
    while i < s.len()
        invariant
            i <= s.len(),
            digits_ok(s@),
            out@ == start + digit_chars(s@.take(i as int)),
        decreases s.len() - i,
    {
        out.append(digit_str(s[i]));
        i += 1;
        assert(digit_chars(s@.take(i as int)) =~= digit_chars(s@.take(i - 1)).push(
            digit_char(s@[i - 1]),
        ));
    }
    assert(s@.take(s.len() as int) =~= s@);
}

impl BigNumber {
    /// The text of the number: `+` or `-`, the integer digits, then `.` and
    /// the fractional digits when there are any.
    pub fn to_text(&self) -> (r: String)
        requires
            digits_ok(self.int@),
            digits_ok(self.frac@),
        ensures
            r@ == render(self@),
    {
        let mut out = String::new();
        proof {
            reveal_strlit("+");
            reveal_strlit("-");
            reveal_strlit(".");
        }
        if self.sign {
            out.append("+");
        } else {
            out.append("-");
        }
        push_digits(&mut out, &self.int);
        if self.frac.len() > 0 {
            out.append(".");
            push_digits(&mut out, &self.frac);
        }
        assert(out@ =~= render(self@));
        out
    }
}

} // verus!
