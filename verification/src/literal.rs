//! Decimal literals: the grammar a token must satisfy to be an operand (an
//! optional sign, digits, and at most one decimal point), the parser that
//! turns a literal into a [`Num`], and the formatter that renders a [`Num`]
//! back as a literal.

use vstd::prelude::*;

use crate::num::{lemma_pow10_bound, lemma_pow10_pos, pow10, Num, MAX_MANTISSA, MAX_SCALE};

verus! {

/// Why a token is not a usable decimal literal.
#[derive(Clone, Copy, Debug, PartialEq, Eq, Structural)]
pub enum ParseError {
    /// The token is not of the form: optional sign, digits, at most one
    /// decimal point, at least one digit.
    Invalid,
    /// The literal carries more fractional digits than [`MAX_SCALE`].
    ExceedsPrecision,
    /// The literal's digits name a number whose mantissa would not fit in 96
    /// bits.
    OutOfRange,
}

/// The ten decimal digit characters.
pub open spec fn is_digit(c: char) -> bool {
    c == '0' || c == '1' || c == '2' || c == '3' || c == '4' || c == '5' || c == '6' || c == '7'
        || c == '8' || c == '9'
}

/// The numeric value of a digit character (zero on anything else).
pub open spec fn digit_val(c: char) -> int {
    if c == '1' {
        1
    } else if c == '2' {
        2
    } else if c == '3' {
        3
    } else if c == '4' {
        4
    } else if c == '5' {
        5
    } else if c == '6' {
        6
    } else if c == '7' {
        7
    } else if c == '8' {
        8
    } else if c == '9' {
        9
    } else {
        0
    }
}

/// The digit character for a value from zero to nine (zero's on anything
/// else).
pub open spec fn digit_char(d: int) -> char {
    if d == 1 {
        '1'
    } else if d == 2 {
        '2'
    } else if d == 3 {
        '3'
    } else if d == 4 {
        '4'
    } else if d == 5 {
        '5'
    } else if d == 6 {
        '6'
    } else if d == 7 {
        '7'
    } else if d == 8 {
        '8'
    } else if d == 9 {
        '9'
    } else {
        '0'
    }
}

/// Every character of `s` is a decimal digit.
pub open spec fn all_digits(s: Seq<char>) -> bool {
    forall|i: int| 0 <= i < s.len() ==> is_digit(#[trigger] s[i])
}

/// The number named by a sequence of digit characters, most significant
/// first.  Non-digits count as zero, so the result is never negative.
pub open spec fn digits_to_nat(s: Seq<char>) -> int
    decreases s.len(),
{
    if s.len() == 0 {
        0
    } else {
        10 * digits_to_nat(s.drop_last()) + digit_val(s.last())
    }
}

/// The literal with its sign character, if any, removed.
pub open spec fn unsigned_part(s: Seq<char>) -> Seq<char> {
    if s.len() > 0 && (s[0] == '+' || s[0] == '-') {
        s.drop_first()
    } else {
        s
    }
}

/// The literal names a negative number.
pub open spec fn is_negative_lit(s: Seq<char>) -> bool {
    s.len() > 0 && s[0] == '-'
}

/// The index of the first decimal point of `u`, or `u.len()` if there is
/// none.
pub open spec fn dot_split(u: Seq<char>) -> int
    decreases u.len(),
{
    if u.len() == 0 {
        0
    } else if u[0] == '.' {
        0
    } else {
        1 + dot_split(u.drop_first())
    }
}

/// The digits before the decimal point of an unsigned literal body.
pub open spec fn int_digits(u: Seq<char>) -> Seq<char> {
    u.take(dot_split(u))
}

/// The digits after the decimal point of an unsigned literal body (empty if
/// there is no point).
pub open spec fn frac_digits(u: Seq<char>) -> Seq<char> {
    if dot_split(u) == u.len() {
        Seq::empty()
    } else {
        u.skip(dot_split(u) + 1)
    }
}

/// `s` satisfies the literal grammar: an optional sign, then digits with at
/// most one decimal point among them, and at least one digit.
pub open spec fn is_literal(s: Seq<char>) -> bool {
    let u = unsigned_part(s);
    &&& all_digits(int_digits(u))
    &&& all_digits(frac_digits(u))
    &&& int_digits(u).len() + frac_digits(u).len() >= 1
}

/// The number of fractional digits the literal carries.
pub open spec fn lit_scale(s: Seq<char>) -> int {
    frac_digits(unsigned_part(s)).len() as int
}

/// The magnitude of the number the literal names, in units of ten to the
/// minus `lit_scale(s)`.
pub open spec fn lit_magnitude(s: Seq<char>) -> int {
    digits_to_nat(int_digits(unsigned_part(s)) + frac_digits(unsigned_part(s)))
}

/// What parsing a token as a decimal literal yields: the exact number it
/// names, or the first applicable error — a grammar violation, then excess
/// precision, then a mantissa out of range.
pub open spec fn spec_parse_decimal(s: Seq<char>) -> Result<Num, ParseError> {
    if !is_literal(s) {
        Err(ParseError::Invalid)
    } else if lit_scale(s) > MAX_SCALE {
        Err(ParseError::ExceedsPrecision)
    } else if lit_magnitude(s) > MAX_MANTISSA {
        Err(ParseError::OutOfRange)
    } else {
        Ok(
            Num {
                mantissa: if is_negative_lit(s) {
                    (-lit_magnitude(s)) as i128
                } else {
                    lit_magnitude(s) as i128
                },
                scale: lit_scale(s) as u32,
            },
        )
    }
}

/// `digits_to_nat` is never negative.
pub proof fn lemma_digits_to_nat_nonneg(s: Seq<char>)
    ensures
        digits_to_nat(s) >= 0,
    decreases s.len(),
{
    if s.len() > 0 {
        lemma_digits_to_nat_nonneg(s.drop_last());
    }
}

/// Reading a concatenation of digit sequences: the left part is shifted up by
/// ten to the length of the right part.
pub proof fn lemma_digits_concat(a: Seq<char>, b: Seq<char>)
    ensures
        digits_to_nat(a + b) == digits_to_nat(a) * pow10(b.len()) + digits_to_nat(b),
    decreases b.len(),
{
    if b.len() == 0 {
        assert(a + b =~= a);
    } else {
        lemma_digits_concat(a, b.drop_last());
        assert((a + b).drop_last() =~= a + b.drop_last());
        assert((a + b).last() == b.last());
        let x = digits_to_nat(a);
        let p = pow10((b.len() - 1) as nat);
        assert(pow10(b.len()) == 10 * p);
        assert(10 * (x * p) == x * (10 * p)) by (nonlinear_arith);
    }
}

/// Where `dot_split` points: at the first decimal point, or past the end.
pub proof fn lemma_dot_split(u: Seq<char>)
    ensures
        0 <= dot_split(u) <= u.len(),
        dot_split(u) < u.len() ==> u[dot_split(u)] == '.',
        forall|j: int| 0 <= j < dot_split(u) ==> u[j] != '.',
    decreases u.len(),
{
    if u.len() > 0 && u[0] != '.' {
        lemma_dot_split(u.drop_first());
        assert forall|j: int| 0 <= j < dot_split(u) implies u[j] != '.' by {
            if j > 0 {
                assert(u.drop_first()[j - 1] != '.');
            }
        }
    }
}

/// The numeric value of a digit character, or `None` on any other character.
pub fn digit_value(c: char) -> (r: Option<u32>)
    ensures
        r is Some <==> is_digit(c),
        r is Some ==> r.unwrap() == digit_val(c),
{
    match c {
        '0' => Some(0),
        '1' => Some(1),
        '2' => Some(2),
        '3' => Some(3),
        '4' => Some(4),
        '5' => Some(5),
        '6' => Some(6),
        '7' => Some(7),
        '8' => Some(8),
        '9' => Some(9),
        _ => None,
    }
}

/// The digit characters among the first `k` characters of `u`, skipping the
/// decimal point at position `d` once `k` has passed it.
pub open spec fn processed(u: Seq<char>, k: int, d: int) -> Seq<char> {
    if k <= d {
        u.take(k)
    } else {
        u.take(d) + u.subrange(d + 1, k)
    }
}

/// With no decimal point among the first `k` characters of `u`, `dot_split`
/// points at or past `k`.
pub proof fn lemma_dot_split_lower(u: Seq<char>, k: int)
    requires
        0 <= k <= u.len(),
        forall|j: int| 0 <= j < k ==> u[j] != '.',
    ensures
        dot_split(u) >= k,
{
    lemma_dot_split(u);
    if dot_split(u) < k {
        assert(u[dot_split(u)] == '.');
    }
}

/// A character that is neither a digit nor a decimal point breaks the
/// literal grammar, wherever among the digits it stands.
proof fn lemma_invalid_char(s: Seq<char>, start: int, i: int, dot: int)
    requires
        unsigned_part(s) == s.skip(start),
        0 <= start <= i < s.len(),
        !is_digit(s[i]),
        s[i] != '.',
        dot == s.len() || (start <= dot < i && s[dot] == '.'),
        forall|j: int| start <= j < i && j < dot ==> s[j] != '.',
    ensures
        !is_literal(s),
{
    let u = s.skip(start);
    let p = i - start;
    lemma_dot_split(u);
    if dot < s.len() {
        assert(forall|j: int| 0 <= j < dot - start ==> u[j] != '.');
        lemma_dot_split_at(u, dot - start);
        let d = dot - start;
        let f = frac_digits(u);
        assert(f[p - d - 1] == u[p]);
        assert(!is_digit(f[p - d - 1]));
    } else {
        assert(forall|j: int| 0 <= j <= p ==> u[j] != '.');
        lemma_dot_split_lower(u, p + 1);
        let ints = int_digits(u);
        assert(ints[p] == u[p]);
        assert(!is_digit(ints[p]));
    }
}

/// Reading more digits never makes the number smaller: the value of a
/// processed prefix bounds the value of the whole literal from below.
proof fn lemma_processed_mono(u: Seq<char>, k: int, d: int)
    requires
        0 <= k <= u.len(),
        0 <= d <= u.len(),
    ensures
        digits_to_nat(processed(u, k, d)) <= digits_to_nat(processed(u, u.len() as int, d)),
    decreases u.len() - k,
{
    if k < u.len() {
        lemma_processed_mono(u, k + 1, d);
        let cur = processed(u, k, d);
        lemma_digits_to_nat_nonneg(cur);
        if k == d {
            assert(processed(u, k + 1, d) =~= cur);
        } else {
            assert(processed(u, k + 1, d) =~= cur.push(u[k]));
            assert(cur.push(u[k]).drop_last() =~= cur);
        }
    }
}

/// Parses one token as an exact decimal literal.
///
/// The grammar is an optional sign, digits, and at most one decimal point;
/// the result is the exact number named, and the first applicable error
/// otherwise.
#[verifier::loop_isolation(false)]
#[verifier::rlimit(60)]
pub fn parse_decimal(s: &str) -> (r: Result<Num, ParseError>)
    ensures
        r == spec_parse_decimal(s@),
        r matches Ok(n) ==> n.wf(),
{
    let len = s.unicode_len();
    let ghost sv = s@;
    let mut start: usize = 0;
    let mut negative = false;
    if len > 0 {
        let c0 = s.get_char(0);
        if c0 == '+' {
            start = 1;
        } else if c0 == '-' {
            start = 1;
            negative = true;
        }
    }
    let ghost u = unsigned_part(sv);
    proof {
        assert(u =~= sv.skip(start as int));
        assert(negative == is_negative_lit(sv));
    }
    // First pass: find the decimal point and check every other character is a
    // digit.
    let mut i = start;
    let mut dot: usize = len;
    let mut digits: usize = 0;
    while i < len
        invariant
            start <= i <= len,
            len == sv.len(),
            u == sv.skip(start as int),
            start <= 1,
            dot == len || (start <= dot < i && sv[dot as int] == '.'),
            forall|j: int| start <= j < i && j != dot ==> is_digit(#[trigger] sv[j]),
            forall|j: int| start <= j < i && j < dot ==> sv[j] != '.',
            digits == if dot < i {
                i - start - 1
            } else {
                i - start
            },
        decreases len - i,
    {
        let c = s.get_char(i);
        if c == '.' {
            if dot < len {
                proof {
                    assert(forall|j: int| 0 <= j < dot - start ==> u[j] != '.');
                    lemma_dot_split_at(u, dot as int - start as int);
                    let f = frac_digits(u);
                    assert(f[i - dot - 1] == u[i - start]);
                    assert(!is_digit(f[i - dot - 1]));
                }
                return Err(ParseError::Invalid);
            }
            dot = i;
        } else {
            if digit_value(c).is_none() {
                proof {
                    lemma_invalid_char(sv, start as int, i as int, dot as int);
                }
                return Err(ParseError::Invalid);
            }
            digits = digits + 1;
        }
        i = i + 1;
    }
    let ghost d = if dot < len {
        dot as int - start as int
    } else {
        u.len() as int
    };
    proof {
        assert(forall|j: int| 0 <= j < d ==> u[j] != '.');
        lemma_dot_split_at(u, d);
        assert forall|k: int| 0 <= k < int_digits(u).len() implies is_digit(
            #[trigger] int_digits(u)[k],
        ) by {
            assert(int_digits(u)[k] == sv[k + start]);
        }
        assert forall|k: int| 0 <= k < frac_digits(u).len() implies is_digit(
            #[trigger] frac_digits(u)[k],
        ) by {
            assert(frac_digits(u)[k] == sv[k + d + 1 + start]);
        }
        assert(int_digits(u).len() + frac_digits(u).len() == digits);
    }
    if digits == 0 {
        return Err(ParseError::Invalid);
    }
    let scale: usize = if dot < len {
        len - dot - 1
    } else {
        0
    };
    proof {
        assert(is_literal(sv));
        assert(lit_scale(sv) == scale);
    }
    if scale > 28 {
        return Err(ParseError::ExceedsPrecision);
    }
    // Second pass: accumulate the mantissa, most significant digit first.
    let mut m: i128 = 0;
    let mut j = start;
    while j < len
        invariant
            start <= j <= len,
            len == sv.len(),
            u == sv.skip(start as int),
            start <= 1,
            dot == len || (start <= dot < len && sv[dot as int] == '.'),
            d == if dot < len {
                dot as int - start as int
            } else {
                u.len() as int
            },
            dot_split(u) == d,
            forall|k: int| start <= k < len && k != dot ==> is_digit(#[trigger] sv[k]),
            0 <= m <= MAX_MANTISSA,
            m == digits_to_nat(processed(u, j - start, d)),
        decreases len - j,
    {
        let c = s.get_char(j);
        if c != '.' {
            let dv = match digit_value(c) {
                Some(dv) => dv,
                None => {
                    proof {
                        assert(is_digit(sv[j as int]));
                        assert(false);
                    }
                    return Err(ParseError::Invalid);
                },
            };
            proof {
                let cur = processed(u, j - start, d);
                assert(processed(u, j + 1 - start, d) =~= cur.push(u[j - start]));
                assert(cur.push(u[j - start]).drop_last() =~= cur);
                lemma_digits_to_nat_nonneg(cur);
            }
            m = m * 10 + dv as i128;
            if m > MAX_MANTISSA {
                proof {
                    lemma_dot_split(u);
                    lemma_processed_mono(u, j + 1 - start, d);
                    assert(processed(u, u.len() as int, d) =~= int_digits(u) + frac_digits(u));
                }
                return Err(ParseError::OutOfRange);
            }
        } else {
            proof {
                assert(j as int == dot as int);
                assert(processed(u, j + 1 - start, d) =~= processed(u, j - start, d));
            }
        }
        j = j + 1;
    }
    proof {
        assert(processed(u, u.len() as int, d) =~= int_digits(u) + frac_digits(u));
        assert(lit_magnitude(sv) == m);
    }
    let mantissa: i128 = if negative {
        -m
    } else {
        m
    };
    Ok(Num { mantissa, scale: scale as u32 })
}

/// A position that is a decimal point with none before it is where
/// `dot_split` points; so is the end of a sequence without a point.
pub proof fn lemma_dot_split_at(u: Seq<char>, k: int)
    requires
        0 <= k <= u.len(),
        k < u.len() ==> u[k] == '.',
        forall|j: int| 0 <= j < k ==> u[j] != '.',
    ensures
        dot_split(u) == k,
    decreases u.len(),
{
    if u.len() > 0 && u[0] != '.' {
        lemma_dot_split_at(u.drop_first(), k - 1);
    }
}

/// The digit characters of a non-negative number, most significant first, no
/// leading zeros (a single zero for zero itself).
pub open spec fn nat_to_digits(n: int) -> Seq<char>
    decreases n,
{
    if n <= 9 {
        seq![digit_char(n)]
    } else {
        nat_to_digits(n / 10).push(digit_char(n % 10))
    }
}

/// The digit characters of a non-negative number, zero-padded on the left to
/// exactly `w` digits.
pub open spec fn nat_to_digits_pad(n: int, w: nat) -> Seq<char>
    decreases w,
{
    if w == 0 {
        Seq::empty()
    } else {
        nat_to_digits_pad(n / 10, (w - 1) as nat).push(digit_char(n % 10))
    }
}

/// The canonical literal for a number: an optional minus sign, the integer
/// digits without leading zeros, and — when the scale is positive — a decimal
/// point and exactly `scale` fractional digits.
pub open spec fn spec_literal(n: Num) -> Seq<char> {
    let a = if n.mantissa < 0 {
        -n.mantissa as int
    } else {
        n.mantissa as int
    };
    let sign: Seq<char> = if n.mantissa < 0 {
        seq!['-']
    } else {
        Seq::empty()
    };
    if n.scale == 0 {
        sign + nat_to_digits(a)
    } else {
        sign + nat_to_digits(a / pow10(n.scale as nat)) + seq!['.'] + nat_to_digits_pad(
            a % pow10(n.scale as nat),
            n.scale as nat,
        )
    }
}

/// The one-character string for a digit value.
fn digit_str(d: u32) -> (r: &'static str)
    requires
        d <= 9,
    ensures
        r@ =~= seq![digit_char(d as int)],
{
    proof {
        reveal_strlit("0");
        reveal_strlit("1");
        reveal_strlit("2");
        reveal_strlit("3");
        reveal_strlit("4");
        reveal_strlit("5");
        reveal_strlit("6");
        reveal_strlit("7");
        reveal_strlit("8");
        reveal_strlit("9");
    }
    match d {
        0 => "0",
        1 => "1",
        2 => "2",
        3 => "3",
        4 => "4",
        5 => "5",
        6 => "6",
        7 => "7",
        8 => "8",
        _ => "9",
    }
}

/// Appends the digits of a non-negative number, most significant first.
fn push_digits(out: &mut String, n: i128)
    requires
        n >= 0,
    ensures
        final(out)@ == old(out)@ + nat_to_digits(n as int),
    decreases n,
{
    if n <= 9 {
        out.append(digit_str(n as u32));
    } else {
        push_digits(out, n / 10);
        out.append(digit_str((n % 10) as u32));
    }
}

/// Appends the digits of a non-negative number, zero-padded on the left to
/// exactly `w` digits.
fn push_digits_pad(out: &mut String, n: i128, w: u32)
    requires
        n >= 0,
    ensures
        final(out)@ == old(out)@ + nat_to_digits_pad(n as int, w as nat),
    decreases w,
{
    if w > 0 {
        push_digits_pad(out, n / 10, w - 1);
        out.append(digit_str((n % 10) as u32));
    } else {
        proof {
            assert(old(out)@ + nat_to_digits_pad(n as int, 0) =~= old(out)@);
        }
    }
}

/// Ten to the `k`-th power, as a 128-bit integer.
#[verifier::loop_isolation(false)]
pub fn pow10_i128(k: u32) -> (r: i128)
    requires
        k <= MAX_SCALE,
    ensures
        r == pow10(k as nat),
{
    let mut r: i128 = 1;
    let mut i: u32 = 0;
    while i < k
        invariant
            0 <= i <= k,
            r == pow10(i as nat),
        decreases k - i,
    {
        proof {
            lemma_pow10_bound(i as nat + 1);
            lemma_pow10_pos(i as nat);
            assert(pow10(i as nat + 1) == 10 * pow10(i as nat));
        }
        r = r * 10;
        i = i + 1;
    }
    r
}

impl Num {
    /// Renders the number as a decimal literal: a minus sign if negative, the
    /// integer digits, and — when the scale is positive — a decimal point and
    /// exactly `scale` fractional digits.
    pub fn to_literal(&self) -> (r: String)
        requires
            self.wf(),
        ensures
            r@ == spec_literal(*self),
    {
        let mut out = String::new();
        let a: i128 = if self.mantissa < 0 {
            out.append("-");
            -self.mantissa
        } else {
            self.mantissa
        };
        proof {
            reveal_strlit("-");
            assert(self.mantissa < 0 ==> out@ =~= seq!['-']);
            assert(self.mantissa >= 0 ==> out@ =~= Seq::<char>::empty());
        }
        if self.scale == 0 {
            push_digits(&mut out, a);
        } else {
            let p = pow10_i128(self.scale);
            proof {
                lemma_pow10_pos(self.scale as nat);
            }
            push_digits(&mut out, a / p);
            out.append(".");
            proof {
                reveal_strlit(".");
                assert("."@ =~= seq!['.']);
            }
            push_digits_pad(&mut out, a % p, self.scale);
        }
        out
    }
}

/// Digit characters are digits and are read back as their own value.
proof fn lemma_digit_char_is_digit(d: int)
    requires
        0 <= d <= 9,
    ensures
        is_digit(digit_char(d)),
        digit_val(digit_char(d)) == d,
{
}

/// What the formatter writes for a whole number: digits only, at least one,
/// and reading them back recovers the number.
pub proof fn lemma_nat_to_digits_props(n: int)
    requires
        n >= 0,
    ensures
        all_digits(nat_to_digits(n)),
        nat_to_digits(n).len() >= 1,
        digits_to_nat(nat_to_digits(n)) == n,
    decreases n,
{
    vstd::arithmetic::div_mod::lemma_fundamental_div_mod(n, 10);
    vstd::arithmetic::div_mod::lemma_mod_bound(n, 10);
    if n <= 9 {
        lemma_digit_char_is_digit(n);
        let s = nat_to_digits(n);
        assert(s.drop_last() =~= Seq::empty());
        assert(digits_to_nat(s) == 10 * digits_to_nat(Seq::empty()) + digit_val(s.last()));
    } else {
        vstd::arithmetic::div_mod::lemma_div_pos_is_pos(n, 10);
        lemma_nat_to_digits_props(n / 10);
        lemma_digit_char_is_digit(n % 10);
        let pre = nat_to_digits(n / 10);
        let s = pre.push(digit_char(n % 10));
        assert(s.drop_last() =~= pre);
        assert forall|i: int| 0 <= i < s.len() implies is_digit(#[trigger] s[i]) by {
            if i < pre.len() {
                assert(is_digit(pre[i]));
            }
        }
    }
}

/// What the formatter writes for a fractional part: exactly `w` digits, read
/// back as the same number.
pub proof fn lemma_pad_props(n: int, w: nat)
    requires
        0 <= n < pow10(w),
    ensures
        all_digits(nat_to_digits_pad(n, w)),
        nat_to_digits_pad(n, w).len() == w,
        digits_to_nat(nat_to_digits_pad(n, w)) == n,
    decreases w,
{
    if w == 0 {
    } else {
        vstd::arithmetic::div_mod::lemma_fundamental_div_mod(n, 10);
        vstd::arithmetic::div_mod::lemma_mod_bound(n, 10);
        vstd::arithmetic::div_mod::lemma_div_pos_is_pos(n, 10);
        assert(pow10(w) == 10 * pow10((w - 1) as nat));
        assert(n / 10 < pow10((w - 1) as nat));
        lemma_pad_props(n / 10, (w - 1) as nat);
        lemma_digit_char_is_digit(n % 10);
        let pre = nat_to_digits_pad(n / 10, (w - 1) as nat);
        let s = pre.push(digit_char(n % 10));
        assert(s.drop_last() =~= pre);
        assert forall|i: int| 0 <= i < s.len() implies is_digit(#[trigger] s[i]) by {
            if i < pre.len() {
                assert(is_digit(pre[i]));
            }
        }
    }
}

/// Formatting is lossless: parsing the literal the formatter writes for any
/// well-formed number gives back exactly that number — mantissa, sign and
/// scale.  (Parsing first is not always reproduced by formatting: a literal
/// with a redundant plus sign or leading zero, or with no digit on one side
/// of the point, is not in the formatter's canonical shape.)
pub proof fn lemma_literal_round_trip(n: Num)
    requires
        n.wf(),
    ensures
        spec_parse_decimal(spec_literal(n)) == Ok::<Num, ParseError>(n),
{
    let s = spec_literal(n);
    let a: int = if n.mantissa < 0 {
        -n.mantissa as int
    } else {
        n.mantissa as int
    };
    let p = pow10(n.scale as nat);
    lemma_pow10_pos(n.scale as nat);
    let body: Seq<char> = if n.scale == 0 {
        nat_to_digits(a)
    } else {
        nat_to_digits(a / p) + seq!['.'] + nat_to_digits_pad(a % p, n.scale as nat)
    };
    let ip: int = if n.scale == 0 {
        a
    } else {
        a / p
    };
    let fp: int = if n.scale == 0 {
        0
    } else {
        a % p
    };
    if n.scale > 0 {
        vstd::arithmetic::div_mod::lemma_fundamental_div_mod(a, p);
        vstd::arithmetic::div_mod::lemma_mod_bound(a, p);
        vstd::arithmetic::div_mod::lemma_div_pos_is_pos(a, p);
    }
    lemma_nat_to_digits_props(ip);
    let ints = nat_to_digits(ip);
    let fracs = nat_to_digits_pad(fp, n.scale as nat);
    if n.scale > 0 {
        lemma_pad_props(fp, n.scale as nat);
    }
    // The sign handling: the unsigned body and the sign flag.
    if n.mantissa < 0 {
        assert(s =~= seq!['-'] + body);
        assert(s[0] == '-');
        assert(unsigned_part(s) =~= body);
        assert(is_negative_lit(s));
    } else {
        assert(s =~= body);
        assert(is_digit(s[0]));
        assert(unsigned_part(s) =~= body);
        assert(!is_negative_lit(s));
    }
    let u = unsigned_part(s);
    // Where the decimal point stands.
    if n.scale == 0 {
        assert(forall|j: int| 0 <= j < u.len() ==> u[j] != '.');
        lemma_dot_split_at(u, u.len() as int);
        assert(int_digits(u) =~= ints);
        assert(frac_digits(u) =~= Seq::<char>::empty());
    } else {
        assert(u[ints.len() as int] == '.');
        assert(forall|j: int| 0 <= j < ints.len() ==> u[j] == ints[j]);
        lemma_dot_split_at(u, ints.len() as int);
        assert(int_digits(u) =~= ints);
        assert(frac_digits(u) =~= fracs);
    }
    // The grammar holds, and scale and magnitude are read back exactly.
    assert(is_literal(s));
    assert(lit_scale(s) == n.scale);
    lemma_digits_concat(ints, fracs);
    assert(digits_to_nat(ints) == ip);
    assert(digits_to_nat(fracs) == fp);
    assert(lit_magnitude(s) == ip * pow10(fracs.len()) + fp);
    if n.scale == 0 {
        assert(fracs.len() == 0 && fp == 0);
        assert(lit_magnitude(s) == a);
    } else {
        assert(fracs.len() == n.scale);
        assert(ip * p + fp == a);
        assert(lit_magnitude(s) == a);
    }
    assert(spec_parse_decimal(s) == Ok::<Num, ParseError>(n));
}

/// A digit sequence names a number below ten to its length.
proof fn lemma_digits_upper_bound(s: Seq<char>)
    requires
        all_digits(s),
    ensures
        digits_to_nat(s) < pow10(s.len()),
    decreases s.len(),
{
    if s.len() == 0 {
    } else {
        lemma_digits_upper_bound(s.drop_last());
        assert(is_digit(s.last()));
        assert(digit_val(s.last()) <= 9);
    }
}

/// A digit sequence with a nonzero leading digit names a number of at least
/// ten to its length less one.
proof fn lemma_digits_lower_bound(s: Seq<char>)
    requires
        all_digits(s),
        s.len() >= 1,
        s[0] != '0',
    ensures
        digits_to_nat(s) >= pow10((s.len() - 1) as nat),
    decreases s.len(),
{
    if s.len() == 1 {
        assert(is_digit(s[0]));
        assert(digit_val(s[0]) >= 1);
        assert(s.drop_last() =~= Seq::<char>::empty());
    } else {
        assert(s.drop_last()[0] == s[0]);
        lemma_digits_lower_bound(s.drop_last());
        lemma_digits_to_nat_nonneg(s.drop_last());
        assert(is_digit(s.last()));
        assert(digit_val(s.last()) >= 0);
        assert(digits_to_nat(s) == 10 * digits_to_nat(s.drop_last()) + digit_val(s.last()));
        assert(digits_to_nat(s.drop_last()) >= pow10((s.len() - 2) as nat));
        assert(10 * digits_to_nat(s.drop_last()) >= 10 * pow10((s.len() - 2) as nat));
        assert(pow10((s.len() - 1) as nat) == 10 * pow10((s.len() - 2) as nat));
    }
}

/// Formatting the number a digit sequence names gives back the same digits,
/// as long as they carry no leading zero.
proof fn lemma_digits_canonical(s: Seq<char>)
    requires
        all_digits(s),
        s.len() >= 1,
        s.len() > 1 ==> s[0] != '0',
    ensures
        nat_to_digits(digits_to_nat(s)) == s,
    decreases s.len(),
{
    let n = digits_to_nat(s);
    lemma_digits_to_nat_nonneg(s.drop_last());
    assert(is_digit(s.last()));
    if s.len() == 1 {
        assert(digit_char(digit_val(s[0])) == s[0]);
        assert(s.drop_last() =~= Seq::<char>::empty());
        assert(nat_to_digits(n) =~= s);
    } else {
        assert(s.drop_last()[0] == s[0]);
        lemma_digits_lower_bound(s.drop_last());
        lemma_pow10_pos((s.len() - 2) as nat);
        assert(n >= 10);
        lemma_digits_canonical(s.drop_last());
        vstd::arithmetic::div_mod::lemma_fundamental_div_mod_converse(
            n,
            10,
            digits_to_nat(s.drop_last()),
            digit_val(s.last()),
        );
        assert(digit_char(digit_val(s.last())) == s.last());
        assert(nat_to_digits(n) =~= s);
    }
}

/// Formatting the number a digit sequence names at the sequence's own width
/// gives back the same digits, leading zeros included.
proof fn lemma_pad_canonical(s: Seq<char>)
    requires
        all_digits(s),
    ensures
        nat_to_digits_pad(digits_to_nat(s), s.len()) == s,
    decreases s.len(),
{
    if s.len() == 0 {
        assert(nat_to_digits_pad(0, 0) =~= s);
    } else {
        let n = digits_to_nat(s);
        lemma_digits_to_nat_nonneg(s.drop_last());
        assert(is_digit(s.last()));
        lemma_pad_canonical(s.drop_last());
        vstd::arithmetic::div_mod::lemma_fundamental_div_mod_converse(
            n,
            10,
            digits_to_nat(s.drop_last()),
            digit_val(s.last()),
        );
        assert(digit_char(digit_val(s.last())) == s.last());
        assert(nat_to_digits_pad(n, s.len()) =~= s);
    }
}

/// The literal is exactly in the shape the formatter writes: it parses, it
/// has no redundant plus sign or leading zero and no minus sign on zero,
/// there is a digit before any decimal point, and a point has digits after
/// it.
pub open spec fn canonical_literal(s: Seq<char>) -> bool {
    let u = unsigned_part(s);
    &&& spec_parse_decimal(s) is Ok
    &&& s.len() > 0 && s[0] != '+'
    &&& (lit_magnitude(s) == 0 ==> !is_negative_lit(s))
    &&& int_digits(u).len() >= 1
    &&& (int_digits(u).len() > 1 ==> int_digits(u)[0] != '0')
    &&& (dot_split(u) < u.len() ==> frac_digits(u).len() >= 1)
}

/// Parsing a canonical literal loses nothing: formatting the parsed number
/// reproduces the literal character for character.  (A literal outside the
/// canonical shape — `+1`, `007`, `-0`, `5.` or `.5` — parses fine but
/// formats to its canonical spelling instead.)
pub proof fn lemma_parse_format_round_trip(s: Seq<char>)
    requires
        canonical_literal(s),
    ensures
        spec_parse_decimal(s) matches Ok(n) && spec_literal(n) == s,
{
    let u = unsigned_part(s);
    let ints = int_digits(u);
    let fracs = frac_digits(u);
    let d = dot_split(u);
    let n = match spec_parse_decimal(s) {
        Ok(n) => n,
        Err(_) => Num { mantissa: 0, scale: 0 },
    };
    let mag = lit_magnitude(s);
    let p = pow10(fracs.len());
    lemma_dot_split(u);
    lemma_digits_concat(ints, fracs);
    lemma_digits_to_nat_nonneg(ints);
    lemma_digits_to_nat_nonneg(fracs);
    lemma_digits_upper_bound(fracs);
    vstd::arithmetic::div_mod::lemma_fundamental_div_mod_converse(
        mag,
        p,
        digits_to_nat(ints),
        digits_to_nat(fracs),
    );
    lemma_digits_canonical(ints);
    if fracs.len() > 0 {
        lemma_pad_canonical(fracs);
    }
    // The unsigned body is the integer digits, then the point and the
    // fractional digits if the scale is positive.
    if n.scale == 0 {
        assert(d == u.len());
        assert(u =~= ints);
    } else {
        assert(d < u.len());
        assert(u[d] == '.');
        assert(u =~= ints + seq!['.'] + fracs);
    }
    // The sign character, the magnitude and the scale are all read back
    // exactly, so the formatter writes the same characters again.
    let a: int = if n.mantissa < 0 {
        -n.mantissa as int
    } else {
        n.mantissa as int
    };
    assert(a == mag);
    if is_negative_lit(s) {
        assert(mag > 0);
        assert(n.mantissa < 0);
        assert(s =~= seq!['-'] + u);
        assert(spec_literal(n) =~= s);
    } else {
        assert(s[0] != '-');
        assert(u == s);
        assert(n.mantissa >= 0);
        assert(spec_literal(n) =~= s);
    }
}

} // verus!
