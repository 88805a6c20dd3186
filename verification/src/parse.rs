//! The executable parser of duration strings, verified against the model.

use vstd::prelude::*;

verus! {

use crate::interval::DAY_MS;
use crate::interval::HOUR_MS;
use crate::interval::MINUTE_MS;
use crate::interval::ReadableDuration;
use crate::interval::SECOND_MS;
use crate::lemmas::lemma_digits_val_bounds;
use crate::lemmas::lemma_digits_val_first;
use crate::lemmas::lemma_digits_val_grows;
use crate::lemmas::lemma_find_first_at;
use crate::lemmas::lemma_find_first_none;
use crate::lemmas::lemma_frac_step;
use crate::lemmas::lemma_pow10_19;
use crate::lemmas::lemma_pow10_pos;
use crate::lemmas::lemma_trim_back_is;
use crate::lemmas::lemma_trim_front_is;
use crate::model::ParseError;
use crate::model::all_digits;
use crate::model::digit_val;
use crate::model::digits_val;
use crate::model::dot_pred;
use crate::model::is_digit;
use crate::model::is_unit_char;
use crate::model::is_ws;
use crate::model::lit_body;
use crate::model::lit_is_neg;
use crate::model::parse_literal;
use crate::model::parse_rec;
use crate::model::pow10;
use crate::model::segment_ns;
use crate::model::spec_parse;
use crate::model::trim;
use crate::model::unit_at;
use crate::model::unit_pred;
use vstd::string::StrSliceExecFns;

/// Whether `c` is ASCII whitespace.
fn is_ws_exec(c: char) -> (r: bool)
    ensures
        r == is_ws(c),
{
    c == ' ' || c == '\t' || c == '\n' || c == '\r' || c == '\u{b}' || c == '\u{c}'
}

/// The numeric value of a digit character.
fn char_digit(c: char) -> (r: u64)
    requires
        is_digit(c),
    ensures
        r as int == digit_val(c),
        r <= 9,
{
    (c as u32 - 48) as u64
}

/// The first index in `[from, to)` holding a non-whitespace character.
fn first_non_ws(s: &str, from: usize, to: usize) -> (r: usize)
    requires
        from <= to <= s@.len(),
    ensures
        from <= r <= to,
        forall|k: int| from <= k < r ==> is_ws(#[trigger] s@[k]),
        r < to ==> !is_ws(s@[r as int]),
{
    let mut i: usize = from;
    while i < to
        invariant
            from <= i <= to <= s@.len(),
            forall|k: int| from <= k < i ==> is_ws(#[trigger] s@[k]),
        decreases to - i,
    {
        if !is_ws_exec(s.get_char(i)) {
            return i;
        }
        i += 1;
    }
    i
}

/// The index just past the last non-whitespace character in `[from, to)`.
fn last_non_ws(s: &str, from: usize, to: usize) -> (r: usize)
    requires
        from <= to <= s@.len(),
    ensures
        from <= r <= to,
        forall|k: int| r <= k < to ==> is_ws(#[trigger] s@[k]),
        r > from ==> !is_ws(s@[r - 1]),
{
    let mut i: usize = to;
    while i > from
        invariant
            from <= i <= to <= s@.len(),
            forall|k: int| i <= k < to ==> is_ws(#[trigger] s@[k]),
        decreases i,
    {
        if !is_ws_exec(s.get_char(i - 1)) {
            return i;
        }
        i -= 1;
    }
    i
}

/// The first index in `[from, to)` holding a decimal point, if any.
fn find_dot_in(s: &str, from: usize, to: usize) -> (r: Option<usize>)
    requires
        from <= to <= s@.len(),
    ensures
        r matches Some(j) ==> from <= j < to && s@[j as int] == '.' && forall|k: int|
            from <= k < j ==> #[trigger] s@[k] != '.',
        r is None ==> forall|k: int| from <= k < to ==> #[trigger] s@[k] != '.',
{
    let mut i: usize = from;
    while i < to
        invariant
            from <= i <= to <= s@.len(),
            forall|k: int| from <= k < i ==> #[trigger] s@[k] != '.',
        decreases to - i,
    {
        if s.get_char(i) == '.' {
            return Some(i);
        }
        i += 1;
    }
    None
}

/// The first index in `[from, to)` holding a unit character, if any.
fn find_unit_in(s: &str, from: usize, to: usize) -> (r: Option<usize>)
    requires
        from <= to <= s@.len(),
    ensures
        r matches Some(j) ==> from <= j < to && is_unit_char(s@[j as int]) && forall|k: int|
            from <= k < j ==> !is_unit_char(#[trigger] s@[k]),
        r is None ==> forall|k: int| from <= k < to ==> !is_unit_char(#[trigger] s@[k]),
{
    let mut i = from;
    while i < to
        invariant
            from <= i <= to <= s@.len(),
            forall|k: int| from <= k < i ==> !is_unit_char(#[trigger] s@[k]),
        decreases to - i,
    {
        let c = s.get_char(i);
        if c == 'd' || c == 'h' || c == 'm' || c == 's' {
            return Some(i);
        }
        i += 1;
    }
    None
}

/// Whether every character in `[from, to)` is a decimal digit.
fn check_digits(s: &str, from: usize, to: usize) -> (r: bool)
    requires
        from <= to <= s@.len(),
    ensures
        r == all_digits(s@.subrange(from as int, to as int)),
{
    let ghost sub = s@.subrange(from as int, to as int);
    let mut i: usize = from;
    while i < to
        invariant
            from <= i <= to <= s@.len(),
            sub == s@.subrange(from as int, to as int),
            forall|k: int| from <= k < i ==> is_digit(#[trigger] s@[k]),
        decreases to - i,
    {
        let c = s.get_char(i);
        if !('0' <= c && c <= '9') {
            proof {
                assert(sub[i - from] == s@[i as int]);
                assert(!is_digit(sub[i - from]));
            }
            return false;
        }
        i += 1;
    }
    proof {
        assert(forall|k: int| 0 <= k < sub.len() ==> #[trigger] sub[k] == s@[k + from]);
    }
    true
}

/// The value of the digit run in `[from, to)`, or `None` when it reaches
/// `10^19`, the cap on a numeric literal's integer part.
fn digits_value(s: &str, from: usize, to: usize) -> (r: Option<u64>)
    requires
        from <= to <= s@.len(),
        all_digits(s@.subrange(from as int, to as int)),
    ensures
        r matches Some(v) ==> v as int == digits_val(s@.subrange(from as int, to as int))
            && digits_val(s@.subrange(from as int, to as int)) < pow10(19),
        r is None ==> digits_val(s@.subrange(from as int, to as int)) >= pow10(19),
{
    let ghost sub = s@.subrange(from as int, to as int);
    proof {
        lemma_pow10_19();
    }
    let mut v: u64 = 0;
    let mut i: usize = from;
    while i < to
        invariant
            from <= i <= to <= s@.len(),
            sub == s@.subrange(from as int, to as int),
            all_digits(sub),
            v as int == digits_val(s@.subrange(from as int, i as int)),
            v < 10_000_000_000_000_000_000u64,
            pow10(19) == 10_000_000_000_000_000_000,
        decreases to - i,
    {
        proof {
            assert(sub[i - from] == s@[i as int]);
            assert(is_digit(s@[i as int]));
        }
        let c = s.get_char(i);
        let d = char_digit(c);
        if v >= 1_000_000_000_000_000_000u64 {
            proof {
                assert(s@.subrange(from as int, i as int) =~= sub.subrange(0, i - from));
                lemma_digits_val_grows(sub, i - from);
            }
            return None;
        }
        assert(v * 10 + d < 10_000_000_000_000_000_000u64);
        proof {
            let pk = s@.subrange(from as int, i as int);
            let pk1 = s@.subrange(from as int, i + 1);
            assert(pk1.drop_last() =~= pk);
            assert(pk1.last() == s@[i as int]);
            assert(digits_val(pk1) == digits_val(pk) * 10 + digit_val(s@[i as int]));
        }
        v = v * 10 + d;
        i += 1;
    }
    proof {
        assert(s@.subrange(from as int, to as int) == s@.subrange(from as int, i as int));
    }
    Some(v)
}

/// The floored scaled value of the fraction digits in `[from, to)`:
/// `digits * scale / 10^len`, read from the last digit forward.
fn frac_value(s: &str, from: usize, to: usize, scale: u64) -> (r: u64)
    requires
        from <= to <= s@.len(),
        all_digits(s@.subrange(from as int, to as int)),
        1 <= scale <= 86_400_000_000_000,
    ensures
        r as int == digits_val(s@.subrange(from as int, to as int)) * scale / pow10(
            (to - from) as nat,
        ),
        r < scale,
{
    let ghost sub = s@.subrange(from as int, to as int);
    let mut t: u64 = 0;
    let mut i: usize = to;
    while i > from
        invariant
            from <= i <= to <= s@.len(),
            sub == s@.subrange(from as int, to as int),
            all_digits(sub),
            1 <= scale <= 86_400_000_000_000,
            t as int == digits_val(s@.subrange(i as int, to as int)) * scale / pow10(
                (to - i) as nat,
            ),
            t < scale,
        decreases i,
    {
        i -= 1;
        proof {
            assert(sub[i - from] == s@[i as int]);
            assert(is_digit(s@[i as int]));
        }
        let c = s.get_char(i);
        let d = char_digit(c);
        let ghost oldsuf: Seq<char> = s@.subrange(i + 1, to as int);
        let ghost newsuf: Seq<char> = s@.subrange(i as int, to as int);
        let ghost n: nat = (to - i - 1) as nat;
        proof {
            assert(all_digits(oldsuf)) by {
                assert(forall|k: int| 0 <= k < oldsuf.len() ==> #[trigger] oldsuf[k] == sub[k + (i
                    + 1 - from)]);
            }
            lemma_digits_val_bounds(oldsuf);
            lemma_digits_val_first(newsuf);
            assert(newsuf.drop_first() =~= oldsuf);
            assert(newsuf[0] == s@[i as int]);
            assert(digits_val(newsuf) == digit_val(s@[i as int]) * pow10(n) + digits_val(oldsuf));
            lemma_frac_step(digit_val(s@[i as int]), digits_val(oldsuf), n, scale as int);
            lemma_pow10_pos(n);
        }
        assert(d * scale <= 9 * 86_400_000_000_000) by (nonlinear_arith)
            requires
                d <= 9,
                scale <= 86_400_000_000_000,
        ;
        assert(d * scale + t < 10 * scale) by (nonlinear_arith)
            requires
                d <= 9,
                t < scale,
                scale >= 1,
        ;
        let num: u64 = d * scale + t;
        proof {
            assert(num / 10 < scale) by {
                assert(10 * scale - 1 == 10 * (scale - 1) + 9);
                vstd::arithmetic::div_mod::lemma_div_is_ordered(
                    num as int,
                    10 * scale - 1,
                    10,
                );
                vstd::arithmetic::div_mod::lemma_fundamental_div_mod_converse_div(
                    10 * (scale as int) - 1,
                    10,
                    scale as int - 1,
                    9,
                );
            }
            assert((digit_val(s@[i as int]) * pow10(n) + digits_val(oldsuf)) * scale / pow10(n + 1)
                == (digit_val(s@[i as int]) * scale + digits_val(oldsuf) * scale / pow10(n)) / 10);
            assert((to - i) as nat == n + 1);
        }
        t = num / 10;
    }
    proof {
        assert(s@.subrange(from as int, to as int) == s@.subrange(i as int, to as int));
    }
    t
}

/// The signed nanosecond contribution of the numeric literal in `[from, to)`
/// at a unit of `weight` milliseconds, or `None` when the model rejects it.
#[verifier::rlimit(100)]
fn parse_literal_in(s: &str, from: usize, to: usize, weight: u64) -> (r: Option<i128>)
    requires
        from <= to <= s@.len(),
        1 <= weight <= 86_400_000,
    ensures
        r matches Some(v) ==> parse_literal(s@.subrange(from as int, to as int), weight as int)
            == Some(v as int),
        r matches Some(v) ==> -(pow10(25) * weight) < v as int && (v as int) < pow10(25) * weight,
        r is None ==> parse_literal(s@.subrange(from as int, to as int), weight as int) is None,
{
    let ghost raw: Seq<char> = s@.subrange(from as int, to as int);
    let lo = first_non_ws(s, from, to);
    let hi = last_non_ws(s, lo, to);
    let ghost t: Seq<char> = s@.subrange(lo as int, hi as int);
    proof {
        assert(forall|k: int| 0 <= k < raw.len() ==> #[trigger] raw[k] == s@[k + from]);
        lemma_trim_front_is(raw, lo - from);
        let tf = raw.subrange(lo - from, raw.len() as int);
        assert(forall|k: int| 0 <= k < tf.len() ==> #[trigger] tf[k] == s@[k + lo]);
        lemma_trim_back_is(tf, hi - lo);
        assert(tf.subrange(0, hi - lo) =~= t);
        assert(trim(raw) == t);
    }
    let scale: u64 = weight * 1_000_000;
    let ghost scalei: int = (weight * 1_000_000) as int;
    if lo == hi {
        proof {
            assert(lit_body(t).len() == 0);
            assert(parse_literal(raw, weight as int) is None);
        }
        return None;
    }
    let c0 = s.get_char(lo);
    let neg = c0 == '-';
    let bs = if c0 == '-' || c0 == '+' {
        lo + 1
    } else {
        lo
    };
    let ghost b: Seq<char> = s@.subrange(bs as int, hi as int);
    proof {
        assert(t[0] == s@[lo as int]);
        assert(neg == lit_is_neg(t));
        assert(lit_body(t) =~= b) by {
            if t[0] == '-' || t[0] == '+' {
                assert(t.drop_first() =~= b);
            } else {
                assert(t =~= b);
            }
        }
        assert(forall|k: int| 0 <= k < b.len() ==> #[trigger] b[k] == s@[k + bs]);
    }
    match find_dot_in(s, bs, hi) {
        None => {
            proof {
                assert forall|k: int| 0 <= k < b.len() implies !(dot_pred()(#[trigger] b[k])) by {
                    assert(b[k] == s@[k + bs]);
                    assert(s@[k + bs] != '.');
                }
                lemma_find_first_none(b, dot_pred());
            }
            if bs == hi {
                proof {
                    assert(parse_literal(raw, weight as int) is None);
                }
                return None;
            }
            if !check_digits(s, bs, hi) {
                proof {
                    assert(s@.subrange(bs as int, hi as int) == b);
                    assert(parse_literal(raw, weight as int) is None);
                }
                return None;
            }
            match digits_value(s, bs, hi) {
                None => {
                    proof {
                        assert(parse_literal(raw, weight as int) is None);
                    }
                    return None;
                },
                Some(v) => {
                    proof {
                        lemma_pow10_19();
                        lemma_pow10_25();
                        assert(v as int * scalei < pow10(19) * scalei) by (nonlinear_arith)
                            requires
                                (v as int) < pow10(19),
                                scalei >= 1,
                        ;
                        assert(pow10(19) * scalei == pow10(25) * weight) by (nonlinear_arith)
                            requires
                                pow10(19) == 10_000_000_000_000_000_000,
                                pow10(25) == 10_000_000_000_000_000_000_000_000,
                                scalei == weight * 1_000_000,
                        ;
                        assert(pow10(25) * weight <= pow10(25) * 86_400_000) by (nonlinear_arith)
                            requires
                                pow10(25) == 10_000_000_000_000_000_000_000_000,
                                weight <= 86_400_000,
                        ;
                    }
                    let mag = (v as u128) * (scale as u128);
                    proof {
                        assert(segment_ns(b, Seq::<char>::empty(), scalei) == v as int * scalei);
                        assert(mag as int == v as int * scalei);
                        assert(parse_literal(raw, weight as int) == Some(
                            if neg {
                                -segment_ns(b, Seq::<char>::empty(), scalei)
                            } else {
                                segment_ns(b, Seq::<char>::empty(), scalei)
                            },
                        ));
                    }
                    if neg {
                        return Some(-(mag as i128));
                    } else {
                        return Some(mag as i128);
                    }
                },
            }
        },
        Some(dp) => {
            proof {
                assert(dot_pred()(b[dp - bs]));
                assert forall|k: int| 0 <= k < dp - bs implies !(dot_pred()(#[trigger] b[k])) by {
                    assert(b[k] == s@[k + bs]);
                    assert(s@[k + bs] != '.');
                }
                lemma_find_first_at(b, dot_pred(), dp - bs);
            }
            if hi - bs < 2 {
                proof {
                    assert(parse_literal(raw, weight as int) is None);
                }
                return None;
            }
            let ghost ip: Seq<char> = b.subrange(0, dp - bs);
            let ghost fp: Seq<char> = b.subrange(dp - bs + 1, b.len() as int);
            proof {
                assert(ip =~= s@.subrange(bs as int, dp as int));
                assert(fp =~= s@.subrange(dp + 1, hi as int));
            }
            if !check_digits(s, bs, dp) || !check_digits(s, dp + 1, hi) {
                proof {
                    assert(parse_literal(raw, weight as int) is None);
                }
                return None;
            }
            match digits_value(s, bs, dp) {
                None => {
                    proof {
                        assert(parse_literal(raw, weight as int) is None);
                    }
                    return None;
                },
                Some(v) => {
                    let fv = frac_value(s, dp + 1, hi, scale);
                    proof {
                        lemma_pow10_19();
                        lemma_pow10_25();
                        assert(v as int * scalei <= (pow10(19) - 1) * scalei) by (nonlinear_arith)
                            requires
                                (v as int) < pow10(19),
                                scalei >= 1,
                        ;
                        assert((pow10(19) - 1) * scalei + scalei == pow10(19) * scalei)
                            by (nonlinear_arith);
                        assert(pow10(19) * scalei == pow10(25) * weight) by (nonlinear_arith)
                            requires
                                pow10(19) == 10_000_000_000_000_000_000,
                                pow10(25) == 10_000_000_000_000_000_000_000_000,
                                scalei == weight * 1_000_000,
                        ;
                        assert(pow10(25) * weight <= pow10(25) * 86_400_000) by (nonlinear_arith)
                            requires
                                pow10(25) == 10_000_000_000_000_000_000_000_000,
                                weight <= 86_400_000,
                        ;
                    }
                    let mag = (v as u128) * (scale as u128) + (fv as u128);
                    proof {
                        assert(segment_ns(ip, fp, scalei) == v as int * scalei + fv as int);
                        assert(mag as int == v as int * scalei + fv as int);
                        assert(parse_literal(raw, weight as int) == Some(
                            if neg {
                                -segment_ns(ip, fp, scalei)
                            } else {
                                segment_ns(ip, fp, scalei)
                            },
                        ));
                    }
                    if neg {
                        return Some(-(mag as i128));
                    } else {
                        return Some(mag as i128);
                    }
                },
            }
        },
    }
}

/// The value of `10^25`, the nanosecond bound of a segment at a weight of
/// one millisecond.
proof fn lemma_pow10_25()
    ensures
        pow10(25) == 10_000_000_000_000_000_000_000_000,
{
    reveal_with_fuel(pow10, 26);
}

/// The sum of the unit weights not below `last`, the most milliseconds a
/// strictly descending tail of segments can draw on per `10^25` of value.
spec fn weights_ge(last: int) -> int {
    (if last <= 86_400_000 {
        86_400_000int
    } else {
        0int
    }) + (if last <= 3_600_000 {
        3_600_000int
    } else {
        0int
    }) + (if last <= 60_000 {
        60_000int
    } else {
        0int
    }) + (if last <= 1000 {
        1000int
    } else {
        0int
    }) + (if last <= 1 {
        1int
    } else {
        0int
    })
}

impl ReadableDuration {
    /// Parses a duration string: `<number><unit>` segments with units among
    /// `d`, `h`, `m`, `s`, `ms` in strictly decreasing order, surrounding
    /// whitespace ignored, ASCII only, the whole input consumed; the total,
    /// floored to whole milliseconds, must be non-negative and fit an
    /// unsigned 64-bit count.
    pub fn from_str(s: &str) -> (r: Result<ReadableDuration, ParseError>)
        ensures
            r == spec_parse(s@),
            r matches Ok(d) ==> d.wf() && d.is_whole_ms() && d.spec_ms() <= u64::MAX,
    {
        if !s.is_ascii() {
            return Err(ParseError::InvalidEncoding);
        }
        let n = s.unicode_len();
        let lo0 = first_non_ws(s, 0, n);
        let hi0 = last_non_ws(s, lo0, n);
        let ghost t: Seq<char> = s@.subrange(lo0 as int, hi0 as int);
        proof {
            lemma_trim_front_is(s@, lo0 as int);
            let tf = s@.subrange(lo0 as int, n as int);
            assert(forall|k: int| 0 <= k < tf.len() ==> #[trigger] tf[k] == s@[k + lo0]);
            lemma_trim_back_is(tf, hi0 - lo0);
            assert(tf.subrange(0, hi0 - lo0) =~= t);
            assert(trim(s@) == t);
            lemma_pow10_25();
        }
        let mut pos = lo0;
        let mut last_w: u64 = DAY_MS + 1;
        let mut acc: i128 = 0;
        loop
            invariant
                vstd::string::is_ascii(s),
                lo0 <= pos <= hi0 <= n == s@.len(),
                t == trim(s@),
                t == s@.subrange(lo0 as int, hi0 as int),
                parse_rec(t, DAY_MS as int + 1, 0) == parse_rec(
                    s@.subrange(pos as int, hi0 as int),
                    last_w as int,
                    acc as int,
                ),
                last_w == 1 || last_w == SECOND_MS || last_w == MINUTE_MS || last_w == HOUR_MS
                    || last_w == DAY_MS || last_w == DAY_MS + 1,
                -(pow10(25) * weights_ge(last_w as int)) <= acc as int <= pow10(25) * weights_ge(
                    last_w as int,
                ),
                pow10(25) == 10_000_000_000_000_000_000_000_000,
            decreases hi0 - pos,
        {
            let ghost rem: Seq<char> = s@.subrange(pos as int, hi0 as int);
            proof {
                assert(forall|k: int| 0 <= k < rem.len() ==> #[trigger] rem[k] == s@[k + pos]);
            }
            match find_unit_in(s, pos, hi0) {
                None => {
                    proof {
                        assert forall|k: int| 0 <= k < rem.len() implies !(unit_pred()(
                            #[trigger] rem[k],
                        )) by {
                            assert(rem[k] == s@[k + pos]);
                            assert(!is_unit_char(s@[k + pos]));
                        }
                        lemma_find_first_none(rem, unit_pred());
                    }
                    if pos < hi0 {
                        return Err(ParseError::InvalidEncoding);
                    }
                    if acc < 0 {
                        return Err(ParseError::NegativeDuration);
                    }
                    let accu = acc as u128;
                    let msq = accu / 1_000_000u128;
                    if msq > u64::MAX as u128 {
                        return Err(ParseError::InvalidEncoding);
                    }
                    let d = ReadableDuration::millis(msq as u64);
                    return Ok(d);
                },
                Some(j) => {
                    let ghost i: int = j - pos;
                    proof {
                        assert(rem[i] == s@[j as int]);
                        assert(unit_pred()(rem[i]));
                        assert forall|k: int| 0 <= k < i implies !(unit_pred()(
                            #[trigger] rem[k],
                        )) by {
                            assert(rem[k] == s@[k + pos]);
                            assert(!is_unit_char(s@[k + pos]));
                        }
                        lemma_find_first_at(rem, unit_pred(), i);
                    }
                    let c = s.get_char(j);
                    let w: u64;
                    let tl: usize;
                    if c == 'm' && j + 1 < hi0 && s.get_char(j + 1) == 's' {
                        w = 1;
                        tl = 2;
                    } else if c == 'd' {
                        w = DAY_MS;
                        tl = 1;
                    } else if c == 'h' {
                        w = HOUR_MS;
                        tl = 1;
                    } else if c == 'm' {
                        w = MINUTE_MS;
                        tl = 1;
                    } else {
                        w = SECOND_MS;
                        tl = 1;
                    }
                    proof {
                        assert(rem[i] == s@[j as int]);
                        assert(i + 1 < rem.len() <==> j + 1 < hi0);
                        assert(i + 1 < rem.len() ==> rem[i + 1] == s@[j + 1]);
                        assert(unit_at(rem, i) == (w as int, tl as int));
                    }
                    if w >= last_w {
                        return Err(ParseError::UnitOrderViolation);
                    }
                    proof {
                        assert(s@.subrange(pos as int, j as int) =~= rem.subrange(0, i));
                    }
                    match parse_literal_in(s, pos, j, w) {
                        None => {
                            return Err(ParseError::InvalidEncoding);
                        },
                        Some(v) => {
                            proof {
                                assert(parse_rec(rem, last_w as int, acc as int) == parse_rec(
                                    rem.subrange(i + tl, rem.len() as int),
                                    w as int,
                                    acc as int + v as int,
                                ));
                                assert(rem.subrange(i + tl, rem.len() as int) =~= s@.subrange(
                                    j + tl,
                                    hi0 as int,
                                ));
                                assert(weights_ge(w as int) >= weights_ge(last_w as int) + w);
                                assert(pow10(25) * weights_ge(w as int) >= pow10(25) * weights_ge(
                                    last_w as int,
                                ) + pow10(25) * w) by (nonlinear_arith)
                                    requires
                                        weights_ge(w as int) >= weights_ge(last_w as int) + w,
                                        pow10(25) >= 0,
                                ;
                            }
                            acc = acc + v;
                            pos = j + tl;
                            last_w = w;
                        },
                    }
                },
            }
        }
    }
}

} // verus!
