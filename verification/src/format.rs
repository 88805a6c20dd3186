//! The executable formatter of canonical duration strings, verified against
//! the model.

use vstd::prelude::*;

verus! {

use crate::interval::ConfigValue;
use crate::interval::DAY_MS;
use crate::interval::HOUR_MS;
use crate::interval::MINUTE_MS;
use crate::interval::ReadableDuration;
use crate::interval::SECOND_MS;
use crate::model::dec_str;
use crate::model::digit_char;
use crate::model::format_weights;
use crate::model::render_segments;
use crate::model::segments_rec;
use crate::model::spec_format;
use crate::model::spec_segments;
use crate::model::unit_token;
use vstd::string::StringExecFns;

/// The one-character string of a decimal digit value.
fn digit_str(d: u64) -> (r: &'static str)
    requires
        d <= 9,
    ensures
        r@ == seq![digit_char(d as int)],
{
    let r: &'static str = if d == 0 {
        "0"
    } else if d == 1 {
        "1"
    } else if d == 2 {
        "2"
    } else if d == 3 {
        "3"
    } else if d == 4 {
        "4"
    } else if d == 5 {
        "5"
    } else if d == 6 {
        "6"
    } else if d == 7 {
        "7"
    } else if d == 8 {
        "8"
    } else {
        "9"
    };
    proof {
        reveal_strlit("0");
        reveal_strlit("1");
        reveal_strlit("2");
        reveal_strlit("3");
        reveal_strlit("4");
        reveal_strlit("5");
        reveal_strlit("6");
        reveal_strlit("7");
        reveal_strlit("8");
        reveal_strlit("9");
        assert(r@ =~= seq![digit_char(d as int)]);
    }
    r
}

/// Appends the shortest decimal digits of `n`, most significant first.
fn push_digits(out: &mut String, n: u64)
    ensures
        final(out)@ == old(out)@ + dec_str(n as int),
    decreases n,
{
    if n >= 10 {
        push_digits(out, n / 10);
        out.append(digit_str(n % 10));
        proof {
            assert(out@ =~= old(out)@ + dec_str(n as int)) by {
                assert(dec_str(n as int) == dec_str(n as int / 10).push(
                    digit_char(n as int % 10),
                ));
                assert(out@ =~= old(out)@ + dec_str(n as int / 10) + seq![
                    digit_char(n as int % 10),
                ]);
            }
        }
    } else {
        out.append(digit_str(n));
        proof {
            assert(out@ =~= old(out)@ + dec_str(n as int));
        }
    }
}

/// Appends one formatting step: when what remains holds at least one whole
/// `weight`, the quotient's digits and the unit's token are appended, and
/// the remainder carries on.
fn emit_step(out: &mut String, dur: u64, weight: u64, tok: &str) -> (r: u64)
    requires
        1 <= weight,
        tok@ == unit_token(weight as int),
    ensures
        r as int == dur as int % (weight as int),
        final(out)@ == old(out)@ + (if dur as int / (weight as int) > 0 {
            dec_str(dur as int / (weight as int)) + unit_token(weight as int)
        } else {
            Seq::<char>::empty()
        }),
{
    if dur >= weight {
        push_digits(out, dur / weight);
        out.append(tok);
        proof {
            vstd::arithmetic::div_mod::lemma_div_non_zero(dur as int, weight as int);
            assert(out@ =~= old(out)@ + (dec_str(dur as int / (weight as int)) + unit_token(
                weight as int,
            )));
        }
        dur % weight
    } else {
        proof {
            vstd::arithmetic::div_mod::lemma_basic_div(dur as int, weight as int);
            vstd::arithmetic::div_mod::lemma_small_mod(dur as nat, weight as nat);
            assert(out@ =~= old(out)@ + Seq::<char>::empty());
        }
        dur
    }
}

/// Rendering distributes over concatenation of segment lists.
proof fn lemma_render_concat(a: Seq<(int, int)>, b: Seq<(int, int)>)
    ensures
        render_segments(a + b) == render_segments(a) + render_segments(b),
    decreases a.len(),
{
    if a.len() == 0 {
        assert(a + b =~= b);
        assert(render_segments(a) + render_segments(b) =~= render_segments(b));
    } else {
        lemma_render_concat(a.drop_first(), b);
        assert((a + b).drop_first() =~= a.drop_first() + b);
        assert((a + b)[0] == a[0]);
        assert(render_segments(a + b) =~= render_segments(a) + render_segments(b));
    }
}

/// A single segment renders to its digits followed by its unit token.
proof fn lemma_render_one(v: int, w: int)
    ensures
        render_segments(seq![(v, w)]) == dec_str(v) + unit_token(w),
{
    let segs = seq![(v, w)];
    assert(segs.drop_first() =~= Seq::<(int, int)>::empty());
    assert(render_segments(segs.drop_first()) =~= Seq::<char>::empty());
    assert(render_segments(segs) =~= dec_str(v) + unit_token(w));
}

impl ReadableDuration {
    /// The canonical text of the interval: its whole milliseconds split into
    /// days, hours, minutes, seconds and milliseconds, largest unit first,
    /// zero-valued units omitted, and `0s` for a zero-length interval.
    #[verifier::rlimit(100)]
    pub fn format_str(&self) -> (r: String)
        requires
            self.wf(),
            self.spec_ms() <= u64::MAX,
        ensures
            r@ == spec_format(self.spec_ms()),
    {
        let dur0 = self.as_millis();
        let mut out = String::new();
        if dur0 == 0 {
            out.append("0s");
            proof {
                reveal_strlit("0s");
                assert(out@ =~= spec_format(0));
            }
            return out;
        }
        let ghost ms: int = dur0 as int;
        proof {
            reveal_strlit("d");
            reveal_strlit("h");
            reveal_strlit("m");
            reveal_strlit("s");
            reveal_strlit("ms");
            assert("d"@ =~= unit_token(DAY_MS as int));
            assert("h"@ =~= unit_token(HOUR_MS as int));
            assert("m"@ =~= unit_token(MINUTE_MS as int));
            assert("s"@ =~= unit_token(SECOND_MS as int));
            assert("ms"@ =~= unit_token(1));
        }
        let d1 = emit_step(&mut out, dur0, DAY_MS, "d");
        let d2 = emit_step(&mut out, d1, HOUR_MS, "h");
        let d3 = emit_step(&mut out, d2, MINUTE_MS, "m");
        let d4 = emit_step(&mut out, d3, SECOND_MS, "s");
        let _ = emit_step(&mut out, d4, 1, "ms");
        proof {
            lemma_format_stitch(ms);
            assert(out@ =~= spec_format(ms));
        }
        out
    }
}

/// The canonical text of a positive millisecond total, step by step: the
/// rendered segment list equals the five optional pieces of the formatting
/// walk, concatenated in order.
#[verifier::rlimit(100)]
proof fn lemma_format_stitch(ms: int)
    requires
        ms > 0,
    ensures
        ({
            let r1 = ms % (DAY_MS as int);
            let r2 = r1 % (HOUR_MS as int);
            let r3 = r2 % (MINUTE_MS as int);
            let r4 = r3 % (SECOND_MS as int);
            spec_format(ms) == piece(ms, DAY_MS as int) + piece(r1, HOUR_MS as int) + piece(
                r2,
                MINUTE_MS as int,
            ) + piece(r3, SECOND_MS as int) + piece(r4, 1)
        }),
{
    let ws0 = format_weights();
    let ws1 = seq![HOUR_MS as int, MINUTE_MS as int, SECOND_MS as int, 1int];
    let ws2 = seq![MINUTE_MS as int, SECOND_MS as int, 1int];
    let ws3 = seq![SECOND_MS as int, 1int];
    let ws4 = seq![1int];
    assert(ws0.drop_first() =~= ws1);
    assert(ws1.drop_first() =~= ws2);
    assert(ws2.drop_first() =~= ws3);
    assert(ws3.drop_first() =~= ws4);
    assert(ws4.drop_first() =~= Seq::<int>::empty());
    let r1 = ms % (DAY_MS as int);
    let r2 = r1 % (HOUR_MS as int);
    let r3 = r2 % (MINUTE_MS as int);
    let r4 = r3 % (SECOND_MS as int);
    assert(segments_rec(r4 % 1, Seq::<int>::empty()) == Seq::<(int, int)>::empty());
    assert(segments_rec(r4, ws4) == head_seg(r4, 1) + Seq::<(int, int)>::empty());
    assert(segments_rec(r3, ws3) == head_seg(r3, SECOND_MS as int) + segments_rec(r4, ws4));
    assert(segments_rec(r2, ws2) == head_seg(r2, MINUTE_MS as int) + segments_rec(r3, ws3));
    assert(segments_rec(r1, ws1) == head_seg(r1, HOUR_MS as int) + segments_rec(r2, ws2));
    assert(segments_rec(ms, ws0) == head_seg(ms, DAY_MS as int) + segments_rec(r1, ws1));
    assert(spec_segments(ms) == head_seg(ms, DAY_MS as int) + (head_seg(r1, HOUR_MS as int) + (
    head_seg(r2, MINUTE_MS as int) + (head_seg(r3, SECOND_MS as int) + (head_seg(r4, 1)
        + Seq::<(int, int)>::empty())))));
    lemma_render_piece(ms, DAY_MS as int);
    lemma_render_piece(r1, HOUR_MS as int);
    lemma_render_piece(r2, MINUTE_MS as int);
    lemma_render_piece(r3, SECOND_MS as int);
    lemma_render_piece(r4, 1);
    lemma_render_concat(head_seg(r4, 1), Seq::<(int, int)>::empty());
    lemma_render_concat(head_seg(r3, SECOND_MS as int), head_seg(r4, 1) + Seq::<(int, int)>::empty());
    lemma_render_concat(
        head_seg(r2, MINUTE_MS as int),
        head_seg(r3, SECOND_MS as int) + (head_seg(r4, 1) + Seq::<(int, int)>::empty()),
    );
    lemma_render_concat(
        head_seg(r1, HOUR_MS as int),
        head_seg(r2, MINUTE_MS as int) + (head_seg(r3, SECOND_MS as int) + (head_seg(r4, 1) + Seq::<
            (int, int),
        >::empty())),
    );
    lemma_render_concat(
        head_seg(ms, DAY_MS as int),
        head_seg(r1, HOUR_MS as int) + (head_seg(r2, MINUTE_MS as int) + (head_seg(
            r3,
            SECOND_MS as int,
        ) + (head_seg(r4, 1) + Seq::<(int, int)>::empty()))),
    );
    assert(render_segments(Seq::<(int, int)>::empty()) == Seq::<char>::empty());
    assert(spec_format(ms) =~= piece(ms, DAY_MS as int) + piece(r1, HOUR_MS as int) + piece(
        r2,
        MINUTE_MS as int,
    ) + piece(r3, SECOND_MS as int) + piece(r4, 1));
}

/// The head segment a formatting step emits: the whole quotient at this
/// weight when it is non-zero, else nothing.
spec fn head_seg(ms: int, w: int) -> Seq<(int, int)> {
    if ms / w > 0 {
        seq![(ms / w, w)]
    } else {
        Seq::empty()
    }
}

/// The text a formatting step appends.
spec fn piece(ms: int, w: int) -> Seq<char> {
    if ms / w > 0 {
        dec_str(ms / w) + unit_token(w)
    } else {
        Seq::empty()
    }
}

/// The head segment renders to the piece's text.
proof fn lemma_render_piece(ms: int, w: int)
    ensures
        render_segments(head_seg(ms, w)) == piece(ms, w),
{
    if ms / w > 0 {
        lemma_render_one(ms / w, w);
    }
}

impl ConfigValue {
    /// The human-readable text of the value: its millisecond count followed
    /// by `ms`.
    pub fn text(&self) -> (r: String)
        ensures
            (match *self {
                ConfigValue::Duration(v) => r@ == dec_str(v as int) + unit_token(1),
            }),
    {
        match self {
            ConfigValue::Duration(v) => {
                let mut out = String::new();
                push_digits(&mut out, *v);
                out.append("ms");
                proof {
                    reveal_strlit("ms");
                    assert("ms"@ =~= unit_token(1));
                    assert(out@ =~= dec_str(*v as int) + unit_token(1));
                }
                out
            },
        }
    }
}

} // verus!
