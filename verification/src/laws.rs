//! The library's laws: the canonical shape of formatted output, the exact
//! round trip from formatting back through parsing, and the truncation
//! behaviour of the millisecond interchange form.

use vstd::prelude::*;

verus! {

use crate::interval::DAY_MS;
use crate::interval::HOUR_MS;
use crate::interval::MINUTE_MS;
use crate::interval::NANOS_PER_MS;
use crate::interval::ReadableDuration;
use crate::interval::SECOND_MS;
use crate::interval::lemma_ms_breakdown;
use crate::interval::lemma_of_millis;
use crate::interval::of_millis_spec;
use crate::lemmas::lemma_dec_str_digits;
use crate::lemmas::lemma_find_first_at;
use crate::lemmas::lemma_find_first_none;
use crate::lemmas::lemma_pow10_19;
use crate::lemmas::lemma_trim_clean;
use crate::model::ParseError;
use crate::model::all_digits;
use crate::model::dec_str;
use crate::model::digits_val;
use crate::model::dot_pred;
use crate::model::format_weights;
use crate::model::is_digit;
use crate::model::is_unit_char;
use crate::model::is_ws;
use crate::model::parse_literal;
use crate::model::parse_rec;
use crate::model::pow10;
use crate::model::render_segments;
use crate::model::rem_after;
use crate::model::seg_sum;
use crate::model::segment_ns;
use crate::model::segments_rec;
use crate::model::spec_format;
use crate::model::spec_parse;
use crate::model::spec_parse_ms;
use crate::model::spec_segments;
use crate::model::unit_at;
use crate::model::unit_pred;
use crate::model::unit_token;
use vstd::arithmetic::div_mod::lemma_fundamental_div_mod;
use vstd::arithmetic::div_mod::lemma_fundamental_div_mod_converse;
use vstd::arithmetic::div_mod::lemma_div_multiples_vanish;
use vstd::arithmetic::div_mod::lemma_mod_division_less_than_divisor;
use vstd::arithmetic::div_mod::lemma_div_pos_is_pos;

/// A weight list fit for formatting: positive and strictly decreasing.
spec fn desc_positive(ws: Seq<int>) -> bool {
    (forall|i: int| 0 <= i < ws.len() ==> #[trigger] ws[i] >= 1) && (forall|i: int, j: int|
        0 <= i < j < ws.len() ==> #[trigger] ws[i] > #[trigger] ws[j])
}

/// What the segment list of `ms` along a positive, strictly decreasing
/// weight list looks like: every value is at least one, each value times its
/// weight stays within `ms` and below any larger listed weight, the weights
/// come from the list in strictly decreasing order, and the values sum back
/// to `ms` up to the final remainder.
proof fn lemma_segments_rec_props(ms: int, ws: Seq<int>)
    requires
        0 <= ms,
        desc_positive(ws),
    ensures
        forall|k: int| 0 <= k < segments_rec(ms, ws).len() ==> (#[trigger] segments_rec(ms, ws)[k]).0
            >= 1,
        forall|k: int| 0 <= k < segments_rec(ms, ws).len() ==> (#[trigger] segments_rec(ms, ws)[k]).0
            * segments_rec(ms, ws)[k].1 <= ms,
        forall|k: int| 0 <= k < segments_rec(ms, ws).len() ==> ws.contains(
            (#[trigger] segments_rec(ms, ws)[k]).1,
        ),
        forall|k1: int, k2: int| 0 <= k1 < k2 < segments_rec(ms, ws).len() ==> (
        #[trigger] segments_rec(ms, ws)[k1]).1 > (#[trigger] segments_rec(ms, ws)[k2]).1,
        forall|k: int, j: int|
            0 <= k < segments_rec(ms, ws).len() && 0 <= j < ws.len() && ws[j] > (
            #[trigger] segments_rec(ms, ws)[k]).1 ==> segments_rec(ms, ws)[k].0 * segments_rec(
                ms,
                ws,
            )[k].1 < #[trigger] ws[j],
        seg_sum(segments_rec(ms, ws)) == ms - rem_after(ms, ws),
        0 <= rem_after(ms, ws) <= ms,
        ws.len() > 0 ==> rem_after(ms, ws) < ws[ws.len() - 1],
    decreases ws.len(),
{
    if ws.len() == 0 {
    } else {
        let w0 = ws[0];
        let q = ms / w0;
        let r = ms % w0;
        let ws1 = ws.drop_first();
        let head = (if q > 0 {
            seq![(q, w0)]
        } else {
            Seq::<(int, int)>::empty()
        });
        let rest = segments_rec(r, ws1);
        let segs = segments_rec(ms, ws);
        lemma_fundamental_div_mod(ms, w0);
        lemma_mod_division_less_than_divisor(ms, w0);
        lemma_div_pos_is_pos(ms, w0);
        assert(q * w0 <= ms);
        assert(desc_positive(ws1)) by {
            assert(forall|i: int| 0 <= i < ws1.len() ==> #[trigger] ws1[i] == ws[i + 1]);
        }
        lemma_segments_rec_props(r, ws1);
        assert(segs == head + rest);
        let h = head.len();
        assert(forall|k: int| 0 <= k < rest.len() ==> #[trigger] segs[k + h] == rest[k]);
        assert(q > 0 ==> segs[0] == (q, w0));
        // weights of the tail are listed after the head's weight
        assert forall|k: int| 0 <= k < rest.len() implies (#[trigger] rest[k]).1 < w0 && ws.contains(
            rest[k].1,
        ) by {
            assert(ws1.contains(rest[k].1));
            let j = choose|j: int| 0 <= j < ws1.len() && ws1[j] == rest[k].1;
            assert(ws[j + 1] == ws1[j]);
            assert(ws[0] > ws[j + 1]);
        }
        assert forall|k: int, j: int|
            0 <= k < segs.len() && 0 <= j < ws.len() && ws[j] > (#[trigger] segs[k]).1 implies segs[k].0
            * segs[k].1 < #[trigger] ws[j] by {
            if k < h {
                assert(segs[k] == (q, w0));
                assert(ws[j] > w0 ==> false);
            } else {
                assert(segs[k] == rest[k - h]);
                if j == 0 {
                    assert(rest[k - h].0 * rest[k - h].1 <= r);
                } else {
                    assert(ws1[j - 1] == ws[j]);
                }
            }
        }
        assert(seg_sum(segs) == ms - rem_after(ms, ws)) by {
            if q > 0 {
                assert(segs.drop_first() =~= rest);
                assert(segs[0] == (q, w0));
                assert(seg_sum(segs) == q * w0 + seg_sum(rest));
            } else {
                assert(segs =~= rest);
                assert(q == 0);
                assert(q * w0 == 0) by (nonlinear_arith)
                    requires
                        q == 0,
                ;
            }
            assert(rem_after(ms, ws) == rem_after(r, ws1));
        }
        assert(ws.len() > 0 ==> rem_after(ms, ws) < ws[ws.len() - 1]) by {
            if ws1.len() == 0 {
                assert(rem_after(ms, ws) == r);
                assert(ws[ws.len() - 1] == w0);
            } else {
                assert(ws1[ws1.len() - 1] == ws[ws.len() - 1]);
            }
        }
    }
}

/// Canonical minimality of formatting: the segment list of a millisecond
/// total never holds a zero-valued segment, its unit weights strictly
/// decrease, each weight is a unit weight, and the segments sum back to the
/// whole total.
pub proof fn lemma_format_canonical(ms: int)
    requires
        0 <= ms,
    ensures
        forall|k: int| 0 <= k < spec_segments(ms).len() ==> (#[trigger] spec_segments(ms)[k]).0
            >= 1,
        forall|k1: int, k2: int| 0 <= k1 < k2 < spec_segments(ms).len() ==> (
        #[trigger] spec_segments(ms)[k1]).1 > (#[trigger] spec_segments(ms)[k2]).1,
        forall|k: int| 0 <= k < spec_segments(ms).len() ==> is_unit_weight(
            (#[trigger] spec_segments(ms)[k]).1,
        ),
        seg_sum(spec_segments(ms)) == ms,
        ms <= u64::MAX ==> forall|k: int| 0 <= k < spec_segments(ms).len() ==> (
        #[trigger] spec_segments(ms)[k]).0 < pow10(19),
        ms > 0 <==> spec_segments(ms).len() > 0,
{
    let ws = format_weights();
    assert(ws[0] == DAY_MS as int);
    assert(ws[1] == HOUR_MS as int);
    assert(ws[2] == MINUTE_MS as int);
    assert(ws[3] == SECOND_MS as int);
    assert(ws[4] == 1int);
    assert(desc_positive(ws));
    lemma_segments_rec_props(ms, ws);
    lemma_pow10_19();
    let segs = spec_segments(ms);
    assert forall|k: int| 0 <= k < segs.len() implies is_unit_weight((#[trigger] segs[k]).1) by {
        assert(ws.contains(segs[k].1));
        let j = choose|j: int| 0 <= j < ws.len() && ws[j] == segs[k].1;
    }
    if ms <= u64::MAX {
        assert forall|k: int| 0 <= k < segs.len() implies (#[trigger] segs[k]).0 < pow10(19) by {
            let v = segs[k].0;
            let w = segs[k].1;
            assert(is_unit_weight(w));
            assert(v <= v * w) by (nonlinear_arith)
                requires
                    v >= 1,
                    w >= 1,
            ;
            if w == DAY_MS as int {
                assert(v * w <= ms);
                assert(v * 86_400_000 <= ms ==> v < pow10(19)) by (nonlinear_arith)
                    requires
                        pow10(19) == 10_000_000_000_000_000_000,
                        ms <= 0xffff_ffff_ffff_ffff,
                        v >= 1,
                        w == 86_400_000,
                ;
            } else {
                assert(ws[0] > w);
                assert(v * w < DAY_MS as int);
            }
        }
    }
    assert(rem_after(ms, ws) < 1);
    assert(seg_sum(segs) == ms);
    if ms > 0 && segs.len() == 0 {
        assert(seg_sum(segs) == 0);
    }
    if segs.len() > 0 {
        assert(segs[0].0 >= 1 && segs[0].1 >= 1);
        assert(seg_sum(segs) >= segs[0].0 * segs[0].1) by {
            assert(forall|k: int| 0 <= k < segs.drop_first().len() ==> #[trigger] segs.drop_first()[k]
                == segs[k + 1]);
            lemma_seg_sum_nonneg(segs.drop_first());
            assert(seg_sum(segs) == segs[0].0 * segs[0].1 + seg_sum(segs.drop_first()));
        }
        assert(segs[0].0 * segs[0].1 >= 1) by (nonlinear_arith)
            requires
                segs[0].0 >= 1,
                segs[0].1 >= 1,
        ;
    }
}

/// One of the five unit weights.
pub open spec fn is_unit_weight(w: int) -> bool {
    w == 1 || w == SECOND_MS as int || w == MINUTE_MS as int || w == HOUR_MS as int || w
        == DAY_MS as int
}

/// A segment list of positive values and weights sums to a non-negative
/// total.
proof fn lemma_seg_sum_nonneg(segs: Seq<(int, int)>)
    requires
        forall|k: int| 0 <= k < segs.len() ==> (#[trigger] segs[k]).0 >= 1 && segs[k].1 >= 1,
    ensures
        seg_sum(segs) >= 0,
    decreases segs.len(),
{
    if segs.len() > 0 {
        assert(forall|k: int| 0 <= k < segs.len() - 1 ==> #[trigger] segs.drop_first()[k]
            == segs[k + 1]);
        lemma_seg_sum_nonneg(segs.drop_first());
        assert(segs[0].0 * segs[0].1 >= 0) by (nonlinear_arith)
            requires
                segs[0].0 >= 1,
                segs[0].1 >= 1,
        ;
    }
}

/// The digits of a number parse as a plain unsigned literal: no sign, no
/// decimal point, value scaled exactly by the unit's nanoseconds.
proof fn lemma_parse_digits_literal(ds: Seq<char>, w: int)
    requires
        ds.len() >= 1,
        all_digits(ds),
        digits_val(ds) < pow10(19),
    ensures
        parse_literal(ds, w) == Some(digits_val(ds) * (w * (NANOS_PER_MS as int))),
{
    assert(!is_ws(ds[0]) && !is_ws(ds.last()));
    lemma_trim_clean(ds);
    assert(ds[0] != '-' && ds[0] != '+');
    assert forall|k: int| 0 <= k < ds.len() implies !(dot_pred()(#[trigger] ds[k])) by {
        assert(is_digit(ds[k]));
    }
    lemma_find_first_none(ds, dot_pred());
    let scale = w * (NANOS_PER_MS as int);
    assert(segment_ns(ds, Seq::<char>::empty(), scale) == digits_val(ds) * scale) by {
        assert(digits_val(Seq::<char>::empty()) == 0);
        assert(0 * scale == 0);
        assert(pow10(0) == 1);
    }
}

/// Parsing steps over one rendered segment: the digits become the literal,
/// the unit token resolves to its weight, and scanning resumes right after.
proof fn lemma_parse_seg_step(v: int, w: int, rest: Seq<char>, last: int, acc: int)
    requires
        1 <= v < pow10(19),
        is_unit_weight(w),
        w < last,
        rest.len() > 0 ==> is_digit(rest[0]),
    ensures
        parse_rec(dec_str(v) + unit_token(w) + rest, last, acc) == parse_rec(
            rest,
            w,
            acc + v * (w * (NANOS_PER_MS as int)),
        ),
{
    lemma_dec_str_digits(v);
    let d = dec_str(v);
    let u = unit_token(w);
    let t = d + u + rest;
    let i = d.len() as int;
    assert(t.len() == d.len() + u.len() + rest.len());
    assert(forall|k: int| 0 <= k < d.len() ==> #[trigger] t[k] == d[k]);
    assert(forall|k: int| 0 <= k < u.len() ==> #[trigger] t[k + d.len()] == u[k]);
    assert(forall|k: int| 0 <= k < rest.len() ==> #[trigger] t[k + d.len() + u.len()] == rest[k]);
    assert(is_unit_char(t[i]));
    assert forall|k: int| 0 <= k < i implies !(unit_pred()(#[trigger] t[k])) by {
        assert(is_digit(d[k]));
    }
    assert(unit_pred()(t[i]));
    lemma_find_first_at(t, unit_pred(), i);
    let tl = (if w == 1 {
        2int
    } else {
        1int
    });
    assert(unit_at(t, i) == (w, tl)) by {
        if w == 1 {
            assert(t[i] == 'm' && t[i + 1] == 's');
        } else if w == MINUTE_MS as int {
            assert(t[i] == 'm');
            if i + 1 < t.len() {
                assert(t[i + 1] == rest[0]);
                assert(is_digit(rest[0]));
                assert(t[i + 1] != 's');
            }
        }
    }
    assert(t.subrange(0, i) =~= d);
    lemma_parse_digits_literal(d, w);
    assert(t.subrange(i + tl, t.len() as int) =~= rest);
    assert(parse_rec(t, last, acc) == parse_rec(rest, w, acc + v * (w * (NANOS_PER_MS as int))));
}

/// The characters of a rendered segment list: decimal digits and unit
/// letters only, starting with a digit.
proof fn lemma_render_chars(segs: Seq<(int, int)>)
    requires
        forall|k: int| 0 <= k < segs.len() ==> (#[trigger] segs[k]).0 >= 0,
    ensures
        forall|i: int| 0 <= i < render_segments(segs).len() ==> is_digit(
            #[trigger] render_segments(segs)[i],
        ) || is_unit_char(render_segments(segs)[i]),
        segs.len() > 0 ==> render_segments(segs).len() > 0 && is_digit(render_segments(segs)[0]),
    decreases segs.len(),
{
    if segs.len() > 0 {
        assert(forall|k: int| 0 <= k < segs.len() - 1 ==> #[trigger] segs.drop_first()[k] == segs[k
            + 1]);
        lemma_render_chars(segs.drop_first());
        lemma_dec_str_digits(segs[0].0);
        let d = dec_str(segs[0].0);
        let u = unit_token(segs[0].1);
        let rest = render_segments(segs.drop_first());
        let r = render_segments(segs);
        assert(r == d + u + rest);
        assert(forall|k: int| 0 <= k < u.len() ==> is_unit_char(#[trigger] u[k]));
        assert forall|i: int| 0 <= i < r.len() implies is_digit(#[trigger] r[i]) || is_unit_char(
            r[i],
        ) by {
            if i < d.len() {
                assert(r[i] == d[i]);
            } else if i < d.len() + u.len() {
                assert(r[i] == u[i - d.len()]);
            } else {
                assert(r[i] == rest[i - d.len() - u.len()]);
            }
        }
        assert(r[0] == d[0]);
    }
}

/// Parsing the rendering of a well-shaped segment list succeeds and adds
/// exactly the segments' nanoseconds.
proof fn lemma_parse_render(segs: Seq<(int, int)>, last: int, acc: int)
    requires
        forall|k: int| 0 <= k < segs.len() ==> 1 <= (#[trigger] segs[k]).0 < pow10(19),
        forall|k: int| 0 <= k < segs.len() ==> is_unit_weight((#[trigger] segs[k]).1),
        forall|k1: int, k2: int| 0 <= k1 < k2 < segs.len() ==> (#[trigger] segs[k1]).1 > (
        #[trigger] segs[k2]).1,
        segs.len() > 0 ==> segs[0].1 < last,
    ensures
        parse_rec(render_segments(segs), last, acc) == Ok::<int, ParseError>(
            acc + (NANOS_PER_MS as int) * seg_sum(segs),
        ),
    decreases segs.len(),
{
    if segs.len() == 0 {
        let e = Seq::<char>::empty();
        lemma_find_first_none(e, unit_pred());
        assert(render_segments(segs) == e);
        assert(parse_rec(e, last, acc) == Ok::<int, ParseError>(acc));
    } else {
        let v = segs[0].0;
        let w = segs[0].1;
        let rest = segs.drop_first();
        assert(forall|k: int| 0 <= k < rest.len() ==> #[trigger] rest[k] == segs[k + 1]);
        let rrest = render_segments(rest);
        if rest.len() > 0 {
            lemma_render_chars(rest);
        }
        lemma_parse_seg_step(v, w, rrest, last, acc);
        lemma_parse_render(rest, w, acc + v * (w * (NANOS_PER_MS as int)));
        assert(seg_sum(segs) == v * w + seg_sum(rest));
        assert(acc + v * (w * (NANOS_PER_MS as int)) + (NANOS_PER_MS as int) * seg_sum(rest) == acc
            + (NANOS_PER_MS as int) * seg_sum(segs)) by (nonlinear_arith)
            requires
                seg_sum(segs) == v * w + seg_sum(rest),
        ;
    }
}

/// A well-formed interval of whole milliseconds is determined by its
/// millisecond count.
proof fn lemma_whole_ms_fields(d: ReadableDuration)
    requires
        d.wf(),
        d.is_whole_ms(),
        d.spec_ms() <= u64::MAX,
    ensures
        0 <= d.spec_ms(),
        d == of_millis_spec(d.spec_ms() as u64),
{
    let nm = NANOS_PER_MS as int;
    lemma_ms_breakdown(d);
    let ms = d.spec_ms();
    lemma_div_pos_is_pos(d.spec_nanos(), nm);
    let k = d.nanos as int / nm;
    assert(d.nanos as int % nm == 0) by {
        lemma_fundamental_div_mod(d.spec_nanos(), nm);
        assert(d.spec_nanos() == nm * (d.spec_nanos() / nm));
        assert(d.nanos as int == d.spec_nanos() - d.secs * 1_000_000_000);
        assert(d.secs * 1_000_000_000 == (d.secs * 1000) * nm) by (nonlinear_arith)
            requires
                nm == 1_000_000,
        ;
        assert(d.nanos as int == (d.spec_nanos() / nm - d.secs * 1000) * nm) by (nonlinear_arith)
            requires
                d.spec_nanos() == nm * (d.spec_nanos() / nm),
                d.nanos as int == d.spec_nanos() - (d.secs * 1000) * nm,
        ;
        vstd::arithmetic::div_mod::lemma_mod_multiples_basic(
            d.spec_nanos() / nm - d.secs * 1000,
            nm,
        );
    }
    assert(d.nanos as int == k * nm) by {
        lemma_fundamental_div_mod(d.nanos as int, nm);
    }
    assert(0 <= k < 1000);
    assert(ms == d.secs * 1000 + k);
    lemma_fundamental_div_mod_converse(ms, 1000, d.secs as int, k);
    assert(ms / 1000 == d.secs as int);
    assert(ms % 1000 == k);
    assert(of_millis_spec(ms as u64) == d);
}

/// Round trip: every interval expressible as whole milliseconds parses back
/// exactly from its canonical text.
pub proof fn lemma_round_trip(d: ReadableDuration)
    requires
        d.wf(),
        d.is_whole_ms(),
        d.spec_ms() <= u64::MAX,
    ensures
        spec_parse(spec_format(d.spec_ms())) == Ok::<ReadableDuration, ParseError>(d),
{
    let nm = NANOS_PER_MS as int;
    lemma_whole_ms_fields(d);
    let ms = d.spec_ms();
    let f = spec_format(ms);
    lemma_pow10_19();
    if ms == 0 {
        assert(f == seq!['0', 's']);
        assert(!is_ws(f[0]) && !is_ws(f.last()));
        lemma_trim_clean(f);
        assert(vstd::utf8::is_ascii_chars(f));
        assert(unit_pred()(f[1]));
        assert(!(unit_pred()(f[0])));
        lemma_find_first_at(f, unit_pred(), 1);
        assert(unit_at(f, 1) == (SECOND_MS as int, 1int));
        let ds = f.subrange(0, 1);
        assert(ds =~= seq!['0']);
        assert(all_digits(ds));
        assert(digits_val(ds) == 0) by {
            assert(ds.drop_last() =~= Seq::<char>::empty());
            assert(digits_val(Seq::<char>::empty()) == 0);
            assert(ds.last() == '0');
        }
        lemma_parse_digits_literal(ds, SECOND_MS as int);
        assert(digits_val(ds) * (SECOND_MS as int * nm) == 0) by (nonlinear_arith)
            requires
                digits_val(ds) == 0,
        ;
        assert(parse_literal(f.subrange(0, 1), SECOND_MS as int) == Some(0int));
        let e = f.subrange(2, 2);
        assert(e =~= Seq::<char>::empty());
        lemma_find_first_none(e, unit_pred());
        assert(e.len() == 0);
        assert(parse_rec(e, SECOND_MS as int, 0) == Ok::<int, ParseError>(0));
        assert(parse_rec(f, DAY_MS as int + 1, 0) == Ok::<int, ParseError>(0));
        assert(spec_parse_ms(f) == Ok::<int, ParseError>(0)) by {
            assert(0int / nm == 0);
        }
        assert(spec_parse(f) == Ok::<ReadableDuration, ParseError>(of_millis_spec(0)));
    } else {
        lemma_format_canonical(ms);
        let segs = spec_segments(ms);
        assert(segs.len() > 0);
        assert(f == render_segments(segs));
        lemma_render_chars(segs);
        assert(vstd::utf8::is_ascii_chars(f)) by {
            assert forall|i: int| 0 <= i < f.len() implies '\0' <= #[trigger] f[i] <= '\u{7f}' by {
                assert(is_digit(f[i]) || is_unit_char(f[i]));
            }
        }
        assert(f.len() > 0);
        assert(!is_ws(f[0])) by {
            assert(is_digit(f[0]));
        }
        assert(!is_ws(f.last())) by {
            assert(is_digit(f.last()) || is_unit_char(f.last()));
        }
        lemma_trim_clean(f);
        assert(segs[0].1 <= DAY_MS as int);
        lemma_parse_render(segs, DAY_MS as int + 1, 0);
        assert(parse_rec(f, DAY_MS as int + 1, 0) == Ok::<int, ParseError>(nm * ms));
        assert(nm * ms >= 0);
        assert((nm * ms) / nm == ms) by {
            assert(nm * ms == ms * nm);
            lemma_div_multiples_vanish(ms, nm);
        }
        assert(spec_parse_ms(f) == Ok::<int, ParseError>(ms));
        assert(spec_parse(f) == Ok::<ReadableDuration, ParseError>(of_millis_spec(ms as u64)));
    }
}

/// Interchange truncation: flooring an interval to its whole milliseconds
/// and rebuilding from that count (the composition of the conversion to
/// `ConfigValue` with the conversion back) leaves no sub-millisecond
/// remainder, keeps the millisecond count, and drops exactly the remainder
/// below one millisecond.
pub proof fn lemma_interchange_truncates(d: ReadableDuration)
    requires
        d.wf(),
        d.spec_ms() <= u64::MAX,
    ensures
        of_millis_spec(d.spec_ms() as u64).is_whole_ms(),
        of_millis_spec(d.spec_ms() as u64).spec_ms() == d.spec_ms(),
        of_millis_spec(d.spec_ms() as u64).spec_nanos() == d.spec_nanos() - d.spec_nanos() % (
        NANOS_PER_MS as int),
{
    let nm = NANOS_PER_MS as int;
    lemma_div_pos_is_pos(d.spec_nanos(), nm);
    lemma_of_millis(d.spec_ms() as u64);
    lemma_fundamental_div_mod(d.spec_nanos(), nm);
    assert(d.spec_ms() * nm == d.spec_nanos() - d.spec_nanos() % nm);
}

} // verus!
