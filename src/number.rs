//! Reading integers and decimal numbers from text, and the decimal number type.
use vstd::prelude::*;

use crate::grammar::{all_digits, is_digit};
use crate::lexer::slice_chars;
use crate::text::{chars_of, string_of};

verus! {

/// The value of a run of decimal digits.
pub open spec fn digits_value(s: Seq<char>) -> nat
    decreases s.len(),
{
    if s.len() == 0 {
        0
    } else {
        10 * digits_value(s.drop_last()) + ((s.last() as u32) - 48) as nat
    }
}

/// Whether every character of `s` is `0`.
pub open spec fn all_zero(s: Seq<char>) -> bool {
    forall|j: int| 0 <= j < s.len() ==> #[trigger] s[j] == '0'
}

/// Text without a leading `+`.
pub open spec fn unsigned_body(s: Seq<char>) -> Seq<char> {
    if s.len() > 0 && s[0] == '+' {
        s.drop_first()
    } else {
        s
    }
}

/// Text read as an unsigned 64-bit integer: an optional `+`, then one or more digits whose
/// value fits.
pub open spec fn unsigned_of(s: Seq<char>) -> Option<u64> {
    let body = unsigned_body(s);
    if body.len() > 0 && all_digits(body) && digits_value(body) <= u64::MAX {
        Some(digits_value(body) as u64)
    } else {
        None
    }
}

/// Text read as a signed 64-bit integer: an optional `+` or `-`, then one or more digits whose
/// signed value fits.
pub open spec fn signed_of(s: Seq<char>) -> Option<i64> {
    if s.len() > 0 && s[0] == '-' {
        let body = s.drop_first();
        if body.len() > 0 && all_digits(body) && digits_value(body) <= 0x8000_0000_0000_0000 {
            Some((0 - digits_value(body)) as i64)
        } else {
            None
        }
    } else {
        let body = unsigned_body(s);
        if body.len() > 0 && all_digits(body) && digits_value(body) <= i64::MAX {
            Some(digits_value(body) as i64)
        } else {
            None
        }
    }
}

/// The position of the first `c` in `s` (its length if there is none).
pub open spec fn index_of(s: Seq<char>, c: char) -> int
    decreases s.len(),
{
    if s.len() == 0 {
        0
    } else if s[0] == c {
        0
    } else {
        1 + index_of(s.drop_first(), c)
    }
}

/// The position of the first `e` or `E` in `s` (its length if there is none).
pub open spec fn index_of_exponent(s: Seq<char>) -> int
    decreases s.len(),
{
    if s.len() == 0 {
        0
    } else if s[0] == 'e' || s[0] == 'E' {
        0
    } else {
        1 + index_of_exponent(s.drop_first())
    }
}

/// Ten to the power `n`.
pub open spec fn pow10(n: nat) -> nat
    decreases n,
{
    if n == 0 {
        1
    } else {
        10 * pow10((n - 1) as nat)
    }
}

/// A decimal number: its sign, the digits before and after the point, and the power of ten
/// that scales it.
pub struct FloatView {
    pub negative: bool,
    pub whole: Seq<char>,
    pub fraction: Seq<char>,
    pub exponent: int,
    /// The exponent's digits as written (empty when there is no exponent).
    pub exp_text: Seq<char>,
}

/// Text read as a decimal number: an optional sign, digits, an optional point and digits, with
/// at least one digit in all, then optionally `e` or `E`, an optional sign and one or more
/// digits.
pub open spec fn float_of(s: Seq<char>) -> Option<FloatView> {
    let negative = s.len() > 0 && s[0] == '-';
    let body = if s.len() > 0 && (s[0] == '-' || s[0] == '+') {
        s.drop_first()
    } else {
        s
    };
    let x = index_of_exponent(body);
    let mantissa = body.take(x);
    let p = index_of(mantissa, '.');
    let whole = mantissa.take(p);
    let fraction = if p < mantissa.len() {
        mantissa.skip(p + 1)
    } else {
        Seq::empty()
    };
    let ex = if x < body.len() {
        body.skip(x + 1)
    } else {
        Seq::empty()
    };
    let exp_negative = ex.len() > 0 && ex[0] == '-';
    let exp_digits = if ex.len() > 0 && (ex[0] == '-' || ex[0] == '+') {
        ex.drop_first()
    } else {
        ex
    };
    if all_digits(whole) && all_digits(fraction) && whole.len() + fraction.len() > 0 && all_digits(
        exp_digits,
    ) && (x < body.len() ==> exp_digits.len() > 0) {
        Some(
            FloatView {
                negative,
                whole,
                fraction,
                exponent: if exp_negative {
                    0 - digits_value(exp_digits)
                } else {
                    digits_value(exp_digits) as int
                },
                exp_text: exp_digits,
            },
        )
    } else {
        None
    }
}

/// All digits of the number, before and after the point.
pub open spec fn float_digits(f: FloatView) -> Seq<char> {
    f.whole + f.fraction
}

/// Where the point stands among the digits once the exponent is applied.
pub open spec fn float_point(f: FloatView) -> int {
    f.whole.len() + f.exponent
}

/// The number has no fractional part: every digit after the point is `0`.
pub open spec fn float_is_integral(f: FloatView) -> bool {
    forall|j: int|
        0 <= j < float_digits(f).len() && j >= float_point(f) ==> #[trigger] float_digits(f)[j]
            == '0'
}

/// The number is zero or more.
pub open spec fn float_is_non_negative(f: FloatView) -> bool {
    !f.negative || (all_zero(f.whole) && all_zero(f.fraction))
}

/// The size of the number's integer part.
pub open spec fn float_magnitude(f: FloatView) -> nat {
    let d = float_digits(f);
    let p = float_point(f);
    if p <= 0 {
        0
    } else if p <= d.len() {
        digits_value(d.take(p))
    } else {
        digits_value(d) * pow10((p - d.len()) as nat)
    }
}

/// The number truncated toward zero, saturated to the signed 64-bit range.
pub open spec fn float_to_signed(f: FloatView) -> i64 {
    let w = float_magnitude(f);
    if f.negative {
        if w >= 0x8000_0000_0000_0000 {
            i64::MIN
        } else {
            (0 - w) as i64
        }
    } else if w > i64::MAX {
        i64::MAX
    } else {
        w as i64
    }
}

/// The number truncated toward zero, saturated to the unsigned 64-bit range.
pub open spec fn float_to_unsigned(f: FloatView) -> u64 {
    let w = float_magnitude(f);
    if f.negative {
        0
    } else if w > u64::MAX {
        u64::MAX
    } else {
        w as u64
    }
}

proof fn lemma_pow10_grows(n: nat, m: nat)
    requires
        n <= m,
    ensures
        1 <= pow10(n) <= pow10(m),
    decreases m,
{
    if n < m {
        lemma_pow10_grows(n, (m - 1) as nat);
    } else if n > 0 {
        lemma_pow10_grows((n - 1) as nat, (n - 1) as nat);
    }
}

proof fn lemma_large_scale(v: nat, k: nat)
    requires
        v >= 1,
        k >= 20,
    ensures
        v * pow10(k) > u64::MAX,
{
    reveal_with_fuel(pow10, 21);
    lemma_pow10_grows(20, k);
    assert(pow10(20) == 100_000_000_000_000_000_000nat);
    assert(v * pow10(k) >= pow10(k)) by (nonlinear_arith)
        requires
            v >= 1,
    ;
}

proof fn lemma_zero_digits(s: Seq<char>)
    requires
        all_zero(s),
    ensures
        digits_value(s) == 0,
    decreases s.len(),
{
    if s.len() > 0 {
        lemma_zero_digits(s.drop_last());
    }
}

/// A decimal number, kept as written: sign, digits before the point, digits after it, and the
/// exponent's sign and digits. Every digit is kept: no rounding to 64-bit precision takes place,
/// so, for example, `1.00000000000000000001` has a fractional part here.
#[derive(Debug, PartialEq)]
pub struct Float {
    negative: bool,
    whole: String,
    fraction: String,
    exp_negative: bool,
    exp_digits: String,
}

impl View for Float {
    type V = FloatView;

    closed spec fn view(&self) -> FloatView {
        FloatView {
            negative: self.negative,
            whole: self.whole@,
            fraction: self.fraction@,
            exponent: if self.exp_negative {
                0 - digits_value(self.exp_digits@)
            } else {
                digits_value(self.exp_digits@) as int
            },
            exp_text: self.exp_digits@,
        }
    }
}

impl Float {
    /// Digits only in each part, at least one digit before or after the point.
    #[verifier::type_invariant]
    spec fn wf(&self) -> bool {
        all_digits(self.whole@) && all_digits(self.fraction@) && all_digits(self.exp_digits@)
            && self.whole@.len() + self.fraction@.len() > 0
    }

    /// Reads a decimal number such as `1.5`, `-0.25`, `.42`, `7` or `1.5e3`.
    pub fn parse(text: &str) -> (r: Option<Float>)
        ensures
            match float_of(text@) {
                Some(f) => r matches Some(x) && x@ == f,
                None => r is None,
            },
    {
        let s = chars_of(text);
        let n = s.len();
        let negative = n > 0 && s[0] == '-';
        let start: usize = if n > 0 && (s[0] == '-' || s[0] == '+') {
            1
        } else {
            0
        };
        let body = slice_chars(&s, start, n);
        assert(start == 1 ==> body@ =~= s@.drop_first());
        assert(start == 0 ==> body@ =~= s@);
        let x = find_exponent(&body);
        let mantissa = slice_chars(&body, 0, x);
        assert(mantissa@ =~= body@.take(x as int));
        let p = find_char(&mantissa, '.');
        let whole = slice_chars(&mantissa, 0, p);
        assert(whole@ =~= mantissa@.take(p as int));
        let fraction = if p < mantissa.len() {
            let f = slice_chars(&mantissa, p + 1, mantissa.len());
            assert(f@ =~= mantissa@.skip(p + 1));
            f
        } else {
            Vec::new()
        };
        let ex = if x < body.len() {
            let e = slice_chars(&body, x + 1, body.len());
            assert(e@ =~= body@.skip(x + 1));
            e
        } else {
            Vec::new()
        };
        let exp_negative = ex.len() > 0 && ex[0] == '-';
        let exp_digits = if ex.len() > 0 && (ex[0] == '-' || ex[0] == '+') {
            let d = slice_chars(&ex, 1, ex.len());
            assert(d@ =~= ex@.drop_first());
            d
        } else {
            ex
        };
        if digits_only(&whole) && digits_only(&fraction) && whole.len() + fraction.len() > 0
            && digits_only(&exp_digits) && (x >= body.len() || exp_digits.len() > 0) {
            Some(
                Float {
                    negative,
                    whole: string_of(&whole),
                    fraction: string_of(&fraction),
                    exp_negative,
                    exp_digits: string_of(&exp_digits),
                },
            )
        } else {
            None
        }
    }

    /// Whether the number has no fractional part.
    pub fn is_integral(&self) -> (r: bool)
        ensures
            r == float_is_integral(self@),
    {
        proof {
            use_type_invariant(self);
        }
        let w = chars_of(self.whole.as_str());
        let f = chars_of(self.fraction.as_str());
        let mut d = chars_of(self.whole.as_str());
        crate::analyzer::push_all(&mut d, &f);
        let ghost fv = self@;
        assert(d@ == float_digits(fv));
        let dl = d.len();
        assert(dl == w@.len() + f@.len());
        let start: usize = match digits_number_wide(&chars_of(self.exp_digits.as_str())) {
            None => if self.exp_negative {
                assert(float_point(fv) < 0);
                0
            } else {
                assert(float_point(fv) >= dl);
                return true;
            },
            Some(e) => if self.exp_negative {
                if e >= w.len() as u128 {
                    0
                } else {
                    w.len() - e as usize
                }
            } else if e >= f.len() as u128 {
                assert(float_point(fv) >= dl);
                return true;
            } else {
                w.len() + e as usize
            },
        };
        assert(start as int == if float_point(fv) < 0 {
            0
        } else {
            float_point(fv)
        });
        let mut j: usize = start;
        while j < d.len()
            invariant
                start <= j <= d@.len(),
                d@ == float_digits(fv),
                fv == self@,
                start as int == if float_point(fv) < 0 {
                    0
                } else {
                    float_point(fv)
                },
                forall|m: int| start <= m < j ==> #[trigger] d@[m] == '0',
            decreases d@.len() - j,
        {
            if d[j] != '0' {
                assert(float_digits(fv)[j as int] != '0');
                return false;
            }
            j += 1;
        }
        true
    }

    /// Whether the number is zero or more.
    pub fn is_non_negative(&self) -> (r: bool)
        ensures
            r == float_is_non_negative(self@),
    {
        !self.negative || (zeros_only(&chars_of(self.whole.as_str())) && zeros_only(
            &chars_of(self.fraction.as_str()),
        ))
    }

    /// The number's text: sign, digits, point, digits, and the exponent when there is one.
    pub fn text(&self) -> (r: Vec<char>)
        ensures
            r@ == crate::validation::float_text(self@),
    {
        let mut out: Vec<char> = Vec::new();
        if self.negative {
            out.push('-');
        }
        crate::analyzer::push_all(&mut out, &chars_of(self.whole.as_str()));
        out.push('.');
        crate::analyzer::push_all(&mut out, &chars_of(self.fraction.as_str()));
        let ed = chars_of(self.exp_digits.as_str());
        proof {
            use_type_invariant(self);
        }
        if ed.len() > 0 {
            out.push('e');
            match digits_number_wide(&ed) {
                Some(0) => {},
                _ => if self.exp_negative {
                    out.push('-');
                },
            }
            crate::analyzer::push_all(&mut out, &ed);
        }
        out
    }

    /// Whether the number carries a minus sign.
    pub fn is_negative(&self) -> (r: bool)
        ensures
            r == self@.negative,
    {
        self.negative
    }

    /// The size of the number's integer part, if it fits in 64 bits.
    pub fn magnitude(&self) -> (r: Option<u64>)
        ensures
            match r {
                Some(v) => float_magnitude(self@) == v,
                None => float_magnitude(self@) > u64::MAX,
            },
    {
        proof {
            use_type_invariant(self);
        }
        let w = chars_of(self.whole.as_str());
        let f = chars_of(self.fraction.as_str());
        let mut d = chars_of(self.whole.as_str());
        crate::analyzer::push_all(&mut d, &f);
        let ghost fv = self@;
        assert(d@ == float_digits(fv));
        let dl = d.len();
        assert(dl == w@.len() + f@.len());
        let e = digits_number_wide(&chars_of(self.exp_digits.as_str()));
        if self.exp_negative {
            match e {
                None => {
                    assert(float_point(fv) < 0);
                    return Some(0);
                },
                Some(ev) => if ev >= w.len() as u128 {
                    return Some(0);
                } else {
                    let p = w.len() - ev as usize;
                    let prefix = slice_chars(&d, 0, p);
                    assert(prefix@ =~= d@.take(p as int));
                    return digits_number(&prefix);
                },
            }
        }
        match e {
            Some(ev) => if ev <= f.len() as u128 {
                let p = w.len() + ev as usize;
                let prefix = slice_chars(&d, 0, p);
                assert(prefix@ =~= d@.take(p as int));
                return digits_number(&prefix);
            },
            None => {},
        }
        assert(float_point(fv) > dl);
        let v = match digits_number(&d) {
            None => {
                proof {
                    let k = (float_point(fv) - d@.len()) as nat;
                    lemma_pow10_grows(0, k);
                    assert(digits_value(d@) * pow10(k) >= digits_value(d@)) by (nonlinear_arith)
                        requires
                            pow10(k) >= 1,
                    ;
                }
                return None;
            },
            Some(v) => v,
        };
        if v == 0 {
            proof {
                let k = (float_point(fv) - d@.len()) as nat;
                let z = digits_value(d@);
                assert(z * pow10(k) == 0) by (nonlinear_arith)
                    requires
                        z == 0,
                ;
            }
            return Some(0);
        }
        let k: u128 = match e {
            None => {
                proof {
                    lemma_large_scale(v as nat, (float_point(fv) - d@.len()) as nat);
                }
                return None;
            },
            Some(ev) => ev - f.len() as u128,
        };
        assert(k as int == float_point(fv) - d@.len());
        if k >= 20 {
            proof {
                lemma_large_scale(v as nat, k as nat);
            }
            return None;
        }
        let mut acc: u64 = v;
        let mut j: u128 = 0;
        assert(pow10(0) == 1);
        assert((v as nat) * pow10(0) == v as nat);
        while j < k
            invariant
                j <= k < 20,
                v >= 1,
                acc as nat == (v as nat) * pow10(j as nat),
                k as int == float_point(fv) - d@.len(),
                v as nat == digits_value(d@),
                fv == self@,
                d@ == float_digits(fv),
            decreases k - j,
        {
            let next: u128 = acc as u128 * 10;
            proof {
                assert((v as nat) * pow10((j + 1) as nat) == 10 * ((v as nat) * pow10(j as nat)))
                    by (nonlinear_arith)
                    requires
                        pow10((j + 1) as nat) == 10 * pow10(j as nat),
                ;
            }
            if next > u64::MAX as u128 {
                proof {
                    lemma_pow10_grows((j + 1) as nat, k as nat);
                    let a = pow10((j + 1) as nat);
                    let b = pow10(k as nat);
                    assert((v as nat) * b >= (v as nat) * a) by (nonlinear_arith)
                        requires
                            a <= b,
                    ;
                }
                return None;
            }
            acc = next as u64;
            j += 1;
        }
        Some(acc)
    }

    /// The number truncated toward zero, saturated to the signed 64-bit range.
    pub fn to_signed(&self) -> (r: i64)
        ensures
            r == float_to_signed(self@),
    {
        match self.magnitude() {
            None => if self.negative {
                i64::MIN
            } else {
                i64::MAX
            },
            Some(v) => if self.negative {
                if v >= 0x8000_0000_0000_0000 {
                    i64::MIN
                } else {
                    (0 - (v as i128)) as i64
                }
            } else if v > i64::MAX as u64 {
                i64::MAX
            } else {
                v as i64
            },
        }
    }

    /// The number truncated toward zero, saturated to the unsigned 64-bit range.
    pub fn to_unsigned(&self) -> (r: u64)
        ensures
            r == float_to_unsigned(self@),
    {
        if self.negative {
            return 0;
        }
        match self.magnitude() {
            None => u64::MAX,
            Some(v) => v,
        }
    }

    /// A copy of this number.
    pub fn copy(&self) -> (r: Float)
        ensures
            r@ == self@,
    {
        proof {
            use_type_invariant(self);
        }
        Float {
            negative: self.negative,
            whole: crate::text::copy_string(&self.whole),
            fraction: crate::text::copy_string(&self.fraction),
            exp_negative: self.exp_negative,
            exp_digits: crate::text::copy_string(&self.exp_digits),
        }
    }
}

/// The position of the first `e` or `E` in `s` (its length if there is none).
pub fn find_exponent(s: &Vec<char>) -> (r: usize)
    ensures
        r as int == index_of_exponent(s@),
        r <= s@.len(),
{
    let mut i: usize = 0;
    assert(s@.skip(0) =~= s@);
    while i < s.len()
        invariant
            i <= s@.len(),
            index_of_exponent(s@) == i + index_of_exponent(s@.skip(i as int)),
        decreases s@.len() - i,
    {
        if s[i] == 'e' || s[i] == 'E' {
            return i;
        }
        assert(s@.skip(i as int).drop_first() =~= s@.skip(i + 1));
        i += 1;
    }
    i
}

/// The value of a run of digits, if it fits in 128 bits.
pub fn digits_number_wide(s: &Vec<char>) -> (r: Option<u128>)
    requires
        all_digits(s@),
    ensures
        match r {
            Some(v) => digits_value(s@) == v,
            None => digits_value(s@) > u128::MAX,
        },
{
    let mut acc: u128 = 0;
    let mut over = false;
    let mut i: usize = 0;
    while i < s.len()
        invariant
            i <= s@.len(),
            all_digits(s@),
            !over ==> acc == digits_value(s@.take(i as int)),
            over ==> digits_value(s@.take(i as int)) > u128::MAX,
        decreases s@.len() - i,
    {
        assert(s@.take(i + 1).drop_last() =~= s@.take(i as int));
        assert(is_digit(s@[i as int]));
        let d = (s[i] as u32 - 48) as u128;
        if !over {
            if acc > (u128::MAX - d) / 10 {
                over = true;
            } else {
                acc = acc * 10 + d;
            }
        }
        i += 1;
    }
    assert(s@.take(s@.len() as int) =~= s@);
    if over {
        None
    } else {
        Some(acc)
    }
}

/// The position of the first `c` in `s` (its length if there is none).
pub fn find_char(s: &Vec<char>, c: char) -> (r: usize)
    ensures
        r as int == index_of(s@, c),
        r <= s@.len(),
{
    let mut i: usize = 0;
    assert(s@.skip(0) =~= s@);
    while i < s.len()
        invariant
            i <= s@.len(),
            index_of(s@, c) == i + index_of(s@.skip(i as int), c),
        decreases s@.len() - i,
    {
        if s[i] == c {
            return i;
        }
        assert(s@.skip(i as int).drop_first() =~= s@.skip(i + 1));
        i += 1;
    }
    i
}

/// Whether `s` holds digits only.
pub fn digits_only(s: &Vec<char>) -> (r: bool)
    ensures
        r == all_digits(s@),
{
    let mut i: usize = 0;
    while i < s.len()
        invariant
            i <= s@.len(),
            forall|j: int| 0 <= j < i ==> is_digit(#[trigger] s@[j]),
        decreases s@.len() - i,
    {
        if !('0' <= s[i] && s[i] <= '9') {
            return false;
        }
        i += 1;
    }
    true
}

/// Whether `s` holds `0` characters only.
pub fn zeros_only(s: &Vec<char>) -> (r: bool)
    ensures
        r == all_zero(s@),
{
    let mut i: usize = 0;
    while i < s.len()
        invariant
            i <= s@.len(),
            forall|j: int| 0 <= j < i ==> #[trigger] s@[j] == '0',
        decreases s@.len() - i,
    {
        if s[i] != '0' {
            return false;
        }
        i += 1;
    }
    true
}

/// The value of a run of digits, if it fits in 64 bits.
pub fn digits_number(s: &Vec<char>) -> (r: Option<u64>)
    requires
        all_digits(s@),
    ensures
        match r {
            Some(v) => digits_value(s@) == v,
            None => digits_value(s@) > u64::MAX,
        },
{
    let mut acc: u64 = 0;
    let mut over = false;
    let mut i: usize = 0;
    while i < s.len()
        invariant
            i <= s@.len(),
            all_digits(s@),
            !over ==> acc == digits_value(s@.take(i as int)),
            over ==> digits_value(s@.take(i as int)) > u64::MAX,
        decreases s@.len() - i,
    {
        assert(s@.take(i + 1).drop_last() =~= s@.take(i as int));
        assert(is_digit(s@[i as int]));
        let d = (s[i] as u32 - 48) as u64;
        if !over {
            let next: u128 = acc as u128 * 10 + d as u128;
            if next > u64::MAX as u128 {
                over = true;
            } else {
                acc = next as u64;
            }
        }
        i += 1;
    }
    assert(s@.take(s@.len() as int) =~= s@);
    if over {
        None
    } else {
        Some(acc)
    }
}

/// Reads an unsigned 64-bit integer: an optional `+`, then digits.
pub fn parse_unsigned(s: &Vec<char>) -> (r: Option<u64>)
    ensures
        r == unsigned_of(s@),
{
    let n = s.len();
    let start: usize = if n > 0 && s[0] == '+' {
        1
    } else {
        0
    };
    let body = slice_chars(s, start, n);
    assert(start == 1 ==> body@ =~= s@.drop_first());
    assert(start == 0 ==> body@ =~= s@);
    if body.len() == 0 || !digits_only(&body) {
        return None;
    }
    digits_number(&body)
}

/// Reads a signed 64-bit integer: an optional `+` or `-`, then digits.
pub fn parse_signed(s: &Vec<char>) -> (r: Option<i64>)
    ensures
        r == signed_of(s@),
{
    let n = s.len();
    if n > 0 && s[0] == '-' {
        let body = slice_chars(s, 1, n);
        assert(body@ =~= s@.drop_first());
        if body.len() == 0 || !digits_only(&body) {
            return None;
        }
        match digits_number(&body) {
            None => None,
            Some(v) => if v > 0x8000_0000_0000_0000 {
                None
            } else {
                Some((0 - (v as i128)) as i64)
            },
        }
    } else {
        match parse_unsigned(s) {
            None => None,
            Some(v) => if v > i64::MAX as u64 {
                None
            } else {
                Some(v as i64)
            },
        }
    }
}

} // verus!
