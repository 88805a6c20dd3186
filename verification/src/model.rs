//! The mathematical model of the textual duration encoding.
//!
//! A duration string is zero or more `<number><unit>` segments with no
//! separators, units drawn from `d`, `h`, `m`, `s`, `ms` in strictly
//! decreasing order of magnitude. The model is exact fixed-point arithmetic:
//! a segment `I.F` at a unit of `w` milliseconds contributes
//! `I * w * 1_000_000 + floor(F * w * 1_000_000 / 10^|F|)` nanoseconds, and
//! the accumulated total is floored to whole milliseconds at the end.

use vstd::prelude::*;

verus! {

use crate::interval::DAY_MS;
use crate::interval::HOUR_MS;
use crate::interval::MINUTE_MS;
use crate::interval::NANOS_PER_MS;
use crate::interval::ReadableDuration;
use crate::interval::SECOND_MS;
use crate::interval::of_millis_spec;
use vstd::utf8::is_ascii_chars;

/// Why a duration string was rejected.
#[derive(Clone, Copy, Debug, PartialEq, Eq, Structural)]
pub enum ParseError {
    /// Non-ASCII input, an unparseable or out-of-range numeric segment, or
    /// unconsumed trailing text after the last matched unit.
    InvalidEncoding,
    /// A unit token's magnitude is not strictly smaller than the previously
    /// matched unit's magnitude.
    UnitOrderViolation,
    /// The accumulated total is negative.
    NegativeDuration,
}

/// ASCII whitespace, the characters stripped from the ends of the input and
/// of each numeric literal.
pub open spec fn is_ws(c: char) -> bool {
    c == ' ' || c == '\t' || c == '\n' || c == '\r' || c == '\u{b}' || c == '\u{c}'
}

/// A decimal digit.
pub open spec fn is_digit(c: char) -> bool {
    '0' <= c && c <= '9'
}

/// The numeric value of a decimal digit character.
pub open spec fn digit_val(c: char) -> int {
    c as int - '0' as int
}

/// A character that starts a unit token.
pub open spec fn is_unit_char(c: char) -> bool {
    c == 'd' || c == 'h' || c == 'm' || c == 's'
}

/// Every character of `s` is a decimal digit.
pub open spec fn all_digits(s: Seq<char>) -> bool {
    forall|i: int| 0 <= i < s.len() ==> is_digit(s[i])
}

/// Ten to the `n`th power.
pub open spec fn pow10(n: nat) -> int
    decreases n,
{
    if n == 0 {
        1
    } else {
        10 * pow10((n - 1) as nat)
    }
}

/// The value of a string of decimal digits, most significant first.
pub open spec fn digits_val(s: Seq<char>) -> int
    decreases s.len(),
{
    if s.len() == 0 {
        0
    } else {
        digits_val(s.drop_last()) * 10 + digit_val(s.last())
    }
}

/// `s` without its leading ASCII whitespace.
pub open spec fn trim_front(s: Seq<char>) -> Seq<char>
    decreases s.len(),
{
    if s.len() > 0 && is_ws(s[0]) {
        trim_front(s.drop_first())
    } else {
        s
    }
}

/// `s` without its trailing ASCII whitespace.
pub open spec fn trim_back(s: Seq<char>) -> Seq<char>
    decreases s.len(),
{
    if s.len() > 0 && is_ws(s.last()) {
        trim_back(s.drop_last())
    } else {
        s
    }
}

/// `s` without surrounding ASCII whitespace.
pub open spec fn trim(s: Seq<char>) -> Seq<char> {
    trim_back(trim_front(s))
}

/// The index of the first character of `s` satisfying `p`, if any.
pub open spec fn find_first(s: Seq<char>, p: spec_fn(char) -> bool) -> Option<int>
    decreases s.len(),
{
    if s.len() == 0 {
        None
    } else if p(s[0]) {
        Some(0)
    } else {
        match find_first(s.drop_first(), p) {
            None => None,
            Some(i) => Some(i + 1),
        }
    }
}

/// The unit-character test, as a first-class predicate for searching.
pub open spec fn unit_pred() -> spec_fn(char) -> bool {
    |c: char| is_unit_char(c)
}

/// The decimal-point test, as a first-class predicate for searching.
pub open spec fn dot_pred() -> spec_fn(char) -> bool {
    |c: char| c == '.'
}

/// The unit token found at position `i` of `s`: its weight in milliseconds
/// and its length in characters. The two-character token `ms` takes
/// precedence over the single-character token `m` at the same position.
pub open spec fn unit_at(s: Seq<char>, i: int) -> (int, int) {
    if s[i] == 'm' && i + 1 < s.len() && s[i + 1] == 's' {
        (1int, 2int)
    } else if s[i] == 'd' {
        (DAY_MS as int, 1int)
    } else if s[i] == 'h' {
        (HOUR_MS as int, 1int)
    } else if s[i] == 'm' {
        (MINUTE_MS as int, 1int)
    } else {
        (SECOND_MS as int, 1int)
    }
}

/// A trimmed numeric literal starts with a minus sign.
pub open spec fn lit_is_neg(t: Seq<char>) -> bool {
    t.len() > 0 && t[0] == '-'
}

/// A trimmed numeric literal without its optional leading sign.
pub open spec fn lit_body(t: Seq<char>) -> Seq<char> {
    if t.len() > 0 && (t[0] == '-' || t[0] == '+') {
        t.drop_first()
    } else {
        t
    }
}

/// The exact nanosecond magnitude of an unsigned literal with integer digits
/// `ip` and fraction digits `fp`, at `scale` nanoseconds per unit; the
/// sub-nanosecond remainder of the fraction is floored away.
pub open spec fn segment_ns(ip: Seq<char>, fp: Seq<char>, scale: int) -> int {
    digits_val(ip) * scale + digits_val(fp) * scale / pow10(fp.len())
}

/// The signed nanosecond contribution of the numeric literal `raw` at a unit
/// of `weight_ms` milliseconds, or `None` when the literal is not a decimal
/// number, or its integer part does not stay below `10^19`.
pub open spec fn parse_literal(raw: Seq<char>, weight_ms: int) -> Option<int> {
    let t = trim(raw);
    let neg = lit_is_neg(t);
    let b = lit_body(t);
    let scale = weight_ms * (NANOS_PER_MS as int);
    match find_first(b, dot_pred()) {
        None => if b.len() >= 1 && all_digits(b) && digits_val(b) < pow10(19) {
            if neg {
                Some(-segment_ns(b, Seq::empty(), scale))
            } else {
                Some(segment_ns(b, Seq::empty(), scale))
            }
        } else {
            None
        },
        Some(p) => {
            let ip = b.subrange(0, p);
            let fp = b.subrange(p + 1, b.len() as int);
            if b.len() >= 2 && all_digits(ip) && all_digits(fp) && digits_val(ip) < pow10(19) {
                if neg {
                    Some(-segment_ns(ip, fp, scale))
                } else {
                    Some(segment_ns(ip, fp, scale))
                }
            } else {
                None
            }
        },
    }
}

/// One scanning step per segment: the text before the next unit token is the
/// segment's numeric literal, the unit's weight must strictly decrease, and
/// the segment's nanoseconds are accumulated. Leftover text with no unit
/// token left in it rejects the whole input.
pub open spec fn parse_rec(s: Seq<char>, last_weight: int, acc_ns: int) -> Result<int, ParseError>
    decreases s.len(),
{
    match find_first(s, unit_pred()) {
        None => if s.len() == 0 {
            Ok(acc_ns)
        } else {
            Err(ParseError::InvalidEncoding)
        },
        // a found index always lies in range; the guard keeps the recursion
        // visibly well founded
        Some(i) => if 0 <= i < s.len() {
            let (w, tl) = unit_at(s, i);
            if w >= last_weight {
                Err(ParseError::UnitOrderViolation)
            } else {
                match parse_literal(s.subrange(0, i), w) {
                    None => Err(ParseError::InvalidEncoding),
                    Some(delta) => parse_rec(s.subrange(i + tl, s.len() as int), w, acc_ns + delta),
                }
            }
        } else {
            Err(ParseError::InvalidEncoding)
        },
    }
}

/// The whole-millisecond reading of a duration string: the input is trimmed,
/// must be ASCII, its segments must carry strictly decreasing units, the
/// total must be non-negative, and the floored millisecond total must fit in
/// an unsigned 64-bit count.
pub open spec fn spec_parse_ms(s: Seq<char>) -> Result<int, ParseError> {
    if !is_ascii_chars(s) {
        Err(ParseError::InvalidEncoding)
    } else {
        match parse_rec(trim(s), DAY_MS as int + 1, 0) {
            Err(e) => Err(e),
            Ok(ns) => if ns < 0 {
                Err(ParseError::NegativeDuration)
            } else if ns / (NANOS_PER_MS as int) > u64::MAX {
                Err(ParseError::InvalidEncoding)
            } else {
                Ok(ns / (NANOS_PER_MS as int))
            },
        }
    }
}

/// The interval a duration string parses to: exactly the whole-millisecond
/// total, with zero sub-millisecond remainder.
pub open spec fn spec_parse(s: Seq<char>) -> Result<ReadableDuration, ParseError> {
    match spec_parse_ms(s) {
        Err(e) => Err(e),
        Ok(ms) => Ok(of_millis_spec(ms as u64)),
    }
}

/// The character of a decimal digit value.
pub open spec fn digit_char(d: int) -> char {
    if d == 0 {
        '0'
    } else if d == 1 {
        '1'
    } else if d == 2 {
        '2'
    } else if d == 3 {
        '3'
    } else if d == 4 {
        '4'
    } else if d == 5 {
        '5'
    } else if d == 6 {
        '6'
    } else if d == 7 {
        '7'
    } else if d == 8 {
        '8'
    } else {
        '9'
    }
}

/// The shortest decimal digit string of a non-negative number, most
/// significant digit first.
pub open spec fn dec_str(n: int) -> Seq<char>
    decreases n,
{
    if n <= 9 {
        seq![digit_char(n)]
    } else {
        dec_str(n / 10).push(digit_char(n % 10))
    }
}

/// The token of a unit weight.
pub open spec fn unit_token(w: int) -> Seq<char> {
    if w == DAY_MS as int {
        seq!['d']
    } else if w == HOUR_MS as int {
        seq!['h']
    } else if w == MINUTE_MS as int {
        seq!['m']
    } else if w == SECOND_MS as int {
        seq!['s']
    } else {
        seq!['m', 's']
    }
}

/// The unit weights a formatter walks, largest first, down to a millisecond.
pub open spec fn format_weights() -> Seq<int> {
    seq![DAY_MS as int, HOUR_MS as int, MINUTE_MS as int, SECOND_MS as int, 1int]
}

/// The non-zero `(value, weight)` segments of `ms` milliseconds along the
/// weights `ws`: at each weight the whole quotient of what remains is
/// emitted when non-zero, and the remainder carries on.
pub open spec fn segments_rec(ms: int, ws: Seq<int>) -> Seq<(int, int)>
    decreases ws.len(),
{
    if ws.len() == 0 {
        Seq::empty()
    } else {
        let q = ms / ws[0];
        let r = ms % ws[0];
        (if q > 0 {
            seq![(q, ws[0])]
        } else {
            Seq::empty()
        }) + segments_rec(r, ws.drop_first())
    }
}

/// The canonical segment list of a millisecond total.
pub open spec fn spec_segments(ms: int) -> Seq<(int, int)> {
    segments_rec(ms, format_weights())
}

/// The milliseconds left over after peeling the weights `ws` off `ms`.
pub open spec fn rem_after(ms: int, ws: Seq<int>) -> int
    decreases ws.len(),
{
    if ws.len() == 0 {
        ms
    } else {
        rem_after(ms % ws[0], ws.drop_first())
    }
}

/// The milliseconds a segment list stands for.
pub open spec fn seg_sum(segs: Seq<(int, int)>) -> int
    decreases segs.len(),
{
    if segs.len() == 0 {
        0
    } else {
        segs[0].0 * segs[0].1 + seg_sum(segs.drop_first())
    }
}

/// The text of a segment list: each value's digits followed by its unit
/// token, concatenated with no separators.
pub open spec fn render_segments(segs: Seq<(int, int)>) -> Seq<char>
    decreases segs.len(),
{
    if segs.len() == 0 {
        Seq::empty()
    } else {
        dec_str(segs[0].0) + unit_token(segs[0].1) + render_segments(segs.drop_first())
    }
}

/// The canonical text of a whole-millisecond total: its non-zero segments,
/// largest unit first, or `0s` for a zero-length interval.
pub open spec fn spec_format(ms: int) -> Seq<char> {
    if ms == 0 {
        seq!['0', 's']
    } else {
        render_segments(spec_segments(ms))
    }
}

impl ParseError {
    /// The human-readable message of this rejection.
    pub fn message(&self) -> (r: &'static str)
        ensures
            *self == ParseError::InvalidEncoding ==> r@ == "valid duration, only d, h, m, s, ms are supported"@,
            *self == ParseError::UnitOrderViolation ==> r@ == "d, h, m, s, ms should occur in given order"@,
            *self == ParseError::NegativeDuration ==> r@ == "duration should be positive"@,
    {
        match self {
            ParseError::InvalidEncoding => "valid duration, only d, h, m, s, ms are supported",
            ParseError::UnitOrderViolation => "d, h, m, s, ms should occur in given order",
            ParseError::NegativeDuration => "duration should be positive",
        }
    }
}

} // verus!
