use vstd::prelude::*;

use crate::error::{Error, ErrorKind, Result};
use crate::text::chars_of;

verus! {

/// The compatibility version of the HLS protocol (RFC 8216, section 7).
#[derive(Debug, Clone, Copy, PartialEq, Eq, Hash, Structural)]
pub enum ProtocolVersion {
    V1,
    V2,
    V3,
    V4,
    V5,
    V6,
    V7,
}

} // verus!

verus! {

pub open spec fn is_digit(c: char) -> bool {
    '0' <= c && c <= '9'
}

pub open spec fn all_digits(s: Seq<char>) -> bool {
    forall|i: int| 0 <= i < s.len() ==> is_digit(#[trigger] s[i])
}

/// The number of decimal digits at the start of `s`.
pub open spec fn digit_run(s: Seq<char>) -> nat
    decreases s.len(),
{
    if s.len() > 0 && is_digit(s[0]) {
        1 + digit_run(s.drop_first())
    } else {
        0
    }
}

/// `s` without its leading zeros, but for the last digit.
pub open spec fn strip_leading_zeros(s: Seq<char>) -> Seq<char>
    decreases s.len(),
{
    if s.len() > 1 && s[0] == '0' {
        strip_leading_zeros(s.drop_first())
    } else {
        s
    }
}

/// `s` without its trailing zeros.
pub open spec fn strip_trailing_zeros(s: Seq<char>) -> Seq<char>
    decreases s.len(),
{
    if s.len() > 0 && s.last() == '0' {
        strip_trailing_zeros(s.drop_last())
    } else {
        s
    }
}

/// A signed decimal number: a sign, the digits before the point and those after it.
pub ghost struct Decimal {
    pub negative: bool,
    pub integer: Seq<char>,
    pub fraction: Seq<char>,
}

pub open spec fn is_zero(d: Decimal) -> bool {
    d.integer == seq!['0'] && d.fraction.len() == 0
}

/// Each number has one canonical form: no leading zero before the point (but for
/// a lone `0`), no trailing zero after it, and no sign on zero.
pub open spec fn is_canonical(d: Decimal) -> bool {
    &&& d.integer.len() > 0
    &&& all_digits(d.integer)
    &&& (d.integer.len() == 1 || d.integer[0] != '0')
    &&& all_digits(d.fraction)
    &&& (d.fraction.len() == 0 || d.fraction.last() != '0')
    &&& !(d.negative && is_zero(d))
}

/// The text of a number: `-` if negative, the integer digits, then `.` and the
/// fraction digits if there are any.
pub open spec fn decimal_text(d: Decimal) -> Seq<char> {
    (if d.negative { seq!['-'] } else { Seq::empty() }) + d.integer + (if d.fraction.len() > 0 {
        seq!['.'] + d.fraction
    } else {
        Seq::empty()
    })
}

/// The canonical number with the given sign and digits.
pub open spec fn normalize(negative: bool, integer: Seq<char>, fraction: Seq<char>) -> Decimal {
    let i = strip_leading_zeros(integer);
    let f = strip_trailing_zeros(fraction);
    Decimal { negative: negative && !(i == seq!['0'] && f.len() == 0), integer: i, fraction: f }
}

/// The length of the sign at the start of `t` (0 or 1).
pub open spec fn sign_len(t: Seq<char>) -> int {
    if t.len() > 0 && (t[0] == '-' || t[0] == '+') {
        1
    } else {
        0
    }
}

/// The number that `t` writes as a signed-decimal-floating-point (RFC 8216,
/// section 4.2): an optional `+` or `-`, one or more digits, and optionally `.`
/// followed by one or more digits. `None` where `t` does not follow that syntax.
pub open spec fn parse_decimal(t: Seq<char>) -> Option<Decimal> {
    let b = t.skip(sign_len(t));
    let k = digit_run(b) as int;
    if k > 0 && (k == b.len() || (b[k] == '.' && b.len() > k + 1 && all_digits(b.skip(k + 1)))) {
        Some(
            normalize(
                t.len() > 0 && t[0] == '-',
                b.take(k),
                if k < b.len() {
                    b.skip(k + 1)
                } else {
                    Seq::empty()
                },
            ),
        )
    } else {
        None
    }
}

proof fn lemma_digit_run(s: Seq<char>, k: int)
    requires
        0 <= k <= s.len(),
        all_digits(s.take(k)),
        k == s.len() || !is_digit(s[k]),
    ensures
        digit_run(s) == k,
    decreases k,
{
    if k > 0 {
        assert(is_digit(s.take(k)[0]));
        let t = s.drop_first();
        assert forall|i: int| 0 <= i < k - 1 implies is_digit(#[trigger] t.take(k - 1)[i]) by {
            assert(is_digit(s.take(k)[i + 1]));
        }
        lemma_digit_run(t, k - 1);
    }
}

/// A canonical number reads back from its text as itself.
pub proof fn lemma_decimal_text_parses(d: Decimal)
    requires
        is_canonical(d),
    ensures
        parse_decimal(decimal_text(d)) == Some(d),
{
    let t = decimal_text(d);
    let sign: Seq<char> = if d.negative { seq!['-'] } else { Seq::empty() };
    let tail: Seq<char> = if d.fraction.len() > 0 { seq!['.'] + d.fraction } else { Seq::empty() };
    assert(t =~= sign + d.integer + tail);
    assert(is_digit(d.integer[0]));
    assert(sign_len(t) == sign.len());
    let b = t.skip(sign_len(t));
    assert(b =~= d.integer + tail);
    let k = d.integer.len() as int;
    assert(b.take(k) =~= d.integer);
    lemma_digit_run(b, k);
    if k < b.len() {
        assert(b.skip(k + 1) =~= d.fraction);
    }
    assert(strip_leading_zeros(d.integer) == d.integer);
    assert(strip_trailing_zeros(d.fraction) == d.fraction);
    assert((t.len() > 0 && t[0] == '-') == d.negative) by {
        if !d.negative {
            assert(t[0] == d.integer[0]);
        }
    }
    let f: Seq<char> = if k < b.len() { b.skip(k + 1) } else { Seq::empty() };
    assert(f =~= d.fraction);
    assert(k > 0 && (k == b.len() || (b[k] == '.' && b.len() > k + 1 && all_digits(b.skip(k + 1)))));
    assert(normalize(d.negative, b.take(k), f) == d);
}

/// The text of a canonical number holds only digits, `-` and `.`.
pub proof fn lemma_decimal_text_chars(d: Decimal)
    requires
        is_canonical(d),
    ensures
        forall|i: int|
            0 <= i < decimal_text(d).len() ==> {
                let c = #[trigger] decimal_text(d)[i];
                is_digit(c) || c == '-' || c == '.'
            },
{
    let sign: Seq<char> = if d.negative { seq!['-'] } else { Seq::empty() };
    let tail: Seq<char> = if d.fraction.len() > 0 { seq!['.'] + d.fraction } else { Seq::empty() };
    assert(decimal_text(d) =~= sign + d.integer + tail);
    assert forall|i: int| 0 <= i < decimal_text(d).len() implies {
        let c = #[trigger] decimal_text(d)[i];
        is_digit(c) || c == '-' || c == '.'
    } by {
        if i >= sign.len() + d.integer.len() + 1 {
            assert(decimal_text(d)[i] == d.fraction[i - sign.len() - d.integer.len() - 1]);
        } else if i >= sign.len() && i < sign.len() + d.integer.len() {
            assert(decimal_text(d)[i] == d.integer[i - sign.len()]);
        }
    }
}

proof fn lemma_digit_run_digits(s: Seq<char>)
    ensures
        digit_run(s) <= s.len(),
        forall|i: int| 0 <= i < digit_run(s) ==> is_digit(#[trigger] s[i]),
    decreases s.len(),
{
    if s.len() > 0 && is_digit(s[0]) {
        lemma_digit_run_digits(s.drop_first());
        assert forall|i: int| 0 <= i < digit_run(s) implies is_digit(#[trigger] s[i]) by {
            if i > 0 {
                assert(s[i] == s.drop_first()[i - 1]);
            }
        }
    }
}

proof fn lemma_strip_leading_zeros(s: Seq<char>)
    requires
        s.len() > 0,
        all_digits(s),
    ensures
        strip_leading_zeros(s).len() > 0,
        all_digits(strip_leading_zeros(s)),
        strip_leading_zeros(s).len() == 1 || strip_leading_zeros(s)[0] != '0',
    decreases s.len(),
{
    if s.len() > 1 && s[0] == '0' {
        assert forall|i: int| 0 <= i < s.drop_first().len() implies is_digit(
            #[trigger] s.drop_first()[i],
        ) by {
            assert(s.drop_first()[i] == s[i + 1]);
        }
        lemma_strip_leading_zeros(s.drop_first());
    }
}

proof fn lemma_strip_trailing_zeros(s: Seq<char>)
    requires
        all_digits(s),
    ensures
        all_digits(strip_trailing_zeros(s)),
        strip_trailing_zeros(s).len() == 0 || strip_trailing_zeros(s).last() != '0',
    decreases s.len(),
{
    if s.len() > 0 && s.last() == '0' {
        assert forall|i: int| 0 <= i < s.drop_last().len() implies is_digit(
            #[trigger] s.drop_last()[i],
        ) by {
            assert(s.drop_last()[i] == s[i]);
        }
        lemma_strip_trailing_zeros(s.drop_last());
    }
}

/// What a text reads as is always in canonical form.
pub proof fn lemma_parse_decimal_canonical(t: Seq<char>)
    requires
        parse_decimal(t) is Some,
    ensures
        is_canonical(parse_decimal(t)->Some_0),
{
    let b = t.skip(sign_len(t));
    let k = digit_run(b) as int;
    lemma_digit_run_digits(b);
    assert forall|i: int| 0 <= i < b.take(k).len() implies is_digit(#[trigger] b.take(k)[i]) by {
        assert(b.take(k)[i] == b[i]);
    }
    lemma_strip_leading_zeros(b.take(k));
    if k < b.len() {
        lemma_strip_trailing_zeros(b.skip(k + 1));
    } else {
        lemma_strip_trailing_zeros(Seq::empty());
    }
}

fn is_digit_char(c: char) -> (r: bool)
    ensures
        r == is_digit(c),
{
    '0' <= c && c <= '9'
}

/// A signed decimal floating-point number (RFC 8216, section 4.2), kept as its
/// canonical digits, so that it is always finite and formats back without loss.
#[derive(Debug)]
pub struct SignedDecimalFloatingPoint {
    negative: bool,
    integer: String,
    fraction: String,
}

impl View for SignedDecimalFloatingPoint {
    type V = Decimal;

    closed spec fn view(&self) -> Decimal {
        Decimal { negative: self.negative, integer: self.integer@, fraction: self.fraction@ }
    }
}

impl SignedDecimalFloatingPoint {
    /// Every value is held in canonical form.
    #[verifier::type_invariant]
    pub open spec fn is_well_formed(self) -> bool {
        is_canonical(self@)
    }

    /// Parses a signed-decimal-floating-point; fails with `InvalidInput` where `s`
    /// does not follow its syntax (no exponent, no `inf` or `NaN`, no blanks).
    pub fn parse(s: &str) -> (r: Result<SignedDecimalFloatingPoint>)
        ensures
            match r {
                Ok(d) => parse_decimal(s@) == Some(d@) && is_canonical(d@),
                Err(e) => parse_decimal(s@) is None && e.spec_kind() == ErrorKind::InvalidInput,
            },
    {
        let cs = chars_of(s);
        let n = cs.len();
        let negative = n > 0 && cs[0] == '-';
        let start: usize = if n > 0 && (cs[0] == '-' || cs[0] == '+') {
            1
        } else {
            0
        };
        let ghost b = s@.skip(start as int);
        assert(b =~= cs@.subrange(start as int, n as int));
        let mut k = start;
        while k < n && is_digit_char(cs[k])
            invariant
                start <= k <= n,
                n == cs@.len(),
                all_digits(cs@.subrange(start as int, k as int)),
            decreases n - k,
        {
            assert(cs@.subrange(start as int, k + 1) =~= cs@.subrange(start as int, k as int).push(cs@[k as int]));
            k = k + 1;
        }
        proof {
            assert(b.take(k - start) =~= cs@.subrange(start as int, k as int));
            lemma_digit_run(b, k - start);
        }
        if k == start {
            return Err(Error::invalid_input("signed-decimal-floating-point: expected digits after the optional sign"));
        }
        let mut frac_start = n;
        if k < n {
            if cs[k] != '.' || k + 1 == n {
                return Err(Error::invalid_input("signed-decimal-floating-point: expected a point followed by digits"));
            }
            let mut j = k + 1;
            while j < n && is_digit_char(cs[j])
                invariant
                    k + 1 <= j <= n,
                    n == cs@.len(),
                    all_digits(cs@.subrange(k + 1, j as int)),
                decreases n - j,
            {
                assert(cs@.subrange(k + 1, j + 1) =~= cs@.subrange(k + 1, j as int).push(cs@[j as int]));
                j = j + 1;
            }
            assert(b.skip(k - start + 1) =~= cs@.subrange(k + 1, n as int));
            if j < n {
                assert(!is_digit(b.skip(k - start + 1)[j - k - 1]));
                return Err(Error::invalid_input("signed-decimal-floating-point: expected only digits after the point"));
            }
            frac_start = k + 1;
        }
        let ghost int_digits = cs@.subrange(start as int, k as int);
        let ghost frac_digits = cs@.subrange(frac_start as int, n as int);
        assert(int_digits =~= b.take(k - start));
        assert(frac_digits =~= if k - start < b.len() {
            b.skip(k - start + 1)
        } else {
            Seq::<char>::empty()
        });
        let mut a = start;
        while a + 1 < k && cs[a] == '0'
            invariant
                start <= a < k <= n,
                n == cs@.len(),
                strip_leading_zeros(cs@.subrange(a as int, k as int)) == strip_leading_zeros(
                    int_digits,
                ),
            decreases k - a,
        {
            assert(cs@.subrange(a as int, k as int).drop_first() =~= cs@.subrange(a + 1, k as int));
            a = a + 1;
        }
        let mut e = n;
        while e > frac_start && cs[e - 1] == '0'
            invariant
                frac_start <= e <= n,
                n == cs@.len(),
                strip_trailing_zeros(cs@.subrange(frac_start as int, e as int))
                    == strip_trailing_zeros(frac_digits),
            decreases e,
        {
            assert(cs@.subrange(frac_start as int, e as int).drop_last() =~= cs@.subrange(
                frac_start as int,
                e - 1,
            ));
            e = e - 1;
        }
        let zero = a + 1 == k && cs[a] == '0' && e == frac_start;
        let integer = String::from_str(s.substring_char(a, k));
        let fraction = String::from_str(s.substring_char(frac_start, e));
        proof {
            assert(integer@ =~= cs@.subrange(a as int, k as int));
            assert(fraction@ =~= cs@.subrange(frac_start as int, e as int));
            assert(strip_leading_zeros(integer@) == integer@);
            assert(strip_trailing_zeros(fraction@) == fraction@);
            assert(all_digits(integer@)) by {
                assert forall|i: int| 0 <= i < integer@.len() implies is_digit(
                    #[trigger] integer@[i],
                ) by {
                    assert(integer@[i] == cs@.subrange(start as int, k as int)[a - start + i]);
                }
            }
            assert(all_digits(fraction@)) by {
                assert forall|i: int| 0 <= i < fraction@.len() implies is_digit(
                    #[trigger] fraction@[i],
                ) by {
                    assert(fraction@[i] == b.skip(k - start + 1)[i]);
                }
            }
            if integer@ =~= seq!['0'] && fraction@.len() == 0 {
                assert(integer@[0] == cs@[a as int]);
            }
        }
        Ok(SignedDecimalFloatingPoint { negative: negative && !zero, integer, fraction })
    }
}


impl SignedDecimalFloatingPoint {
    /// The canonical text of this number.
    pub fn to_string(&self) -> (r: String)
        ensures
            r@ == decimal_text(self@),
            parse_decimal(r@) == Some(self@),
    {
        proof {
            use_type_invariant(self);
            lemma_decimal_text_parses(self@);
        }
        let mut r = String::new();
        if self.negative {
            r.append("-");
        }
        r.append(self.integer.as_str());
        if !self.fraction.as_str().is_empty() {
            r.append(".");
            r.append(self.fraction.as_str());
        }
        proof {
            reveal_strlit("-");
            reveal_strlit(".");
            assert(r@ =~= decimal_text(self@));
        }
        r
    }

    /// A copy of this number.
    pub fn duplicate(&self) -> (r: SignedDecimalFloatingPoint)
        ensures
            r@ == self@,
    {
        proof {
            use_type_invariant(self);
        }
        SignedDecimalFloatingPoint {
            negative: self.negative,
            integer: self.integer.clone(),
            fraction: self.fraction.clone(),
        }
    }
}

impl Clone for SignedDecimalFloatingPoint {
    fn clone(&self) -> SignedDecimalFloatingPoint {
        self.duplicate()
    }
}

impl PartialEq for SignedDecimalFloatingPoint {
    fn eq(&self, o: &SignedDecimalFloatingPoint) -> (r: bool) {
        self.negative == o.negative && self.integer == o.integer && self.fraction == o.fraction
    }
}

impl vstd::std_specs::cmp::PartialEqSpecImpl for SignedDecimalFloatingPoint {
    open spec fn obeys_eq_spec() -> bool {
        true
    }

    open spec fn eq_spec(&self, o: &SignedDecimalFloatingPoint) -> bool {
        self@ == o@
    }
}

impl core::str::FromStr for SignedDecimalFloatingPoint {
    type Err = Error;

    /// Parses a signed-decimal-floating-point, as `SignedDecimalFloatingPoint::parse`
    /// does.
    fn from_str(s: &str) -> (r: Result<SignedDecimalFloatingPoint>)
        ensures
            match r {
                Ok(d) => parse_decimal(s@) == Some(d@) && is_canonical(d@),
                Err(e) => parse_decimal(s@) is None && e.spec_kind() == ErrorKind::InvalidInput,
            },
    {
        SignedDecimalFloatingPoint::parse(s)
    }
}

} // verus!
