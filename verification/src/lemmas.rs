//! Facts about the model's spec functions: digit strings and their values,
//! first-occurrence search, whitespace trimming, and the fixed-point
//! fraction arithmetic of a segment.

use vstd::prelude::*;

verus! {

use crate::model::all_digits;
use crate::model::dec_str;
use crate::model::digit_char;
use crate::model::digit_val;
use crate::model::digits_val;
use crate::model::find_first;
use crate::model::is_digit;
use crate::model::is_ws;
use crate::model::pow10;
use crate::model::trim;
use crate::model::trim_back;
use crate::model::trim_front;
use vstd::arithmetic::div_mod::lemma_div_denominator;
use vstd::arithmetic::div_mod::lemma_div_multiples_vanish_fancy;
use vstd::arithmetic::div_mod::lemma_div_pos_is_pos;
use vstd::arithmetic::div_mod::lemma_fundamental_div_mod;
use vstd::arithmetic::div_mod::lemma_mod_division_less_than_divisor;
use vstd::arithmetic::mul::lemma_mul_nonnegative;

/// Ten to any power is positive.
pub proof fn lemma_pow10_pos(n: nat)
    ensures
        pow10(n) >= 1,
    decreases n,
{
    if n > 0 {
        lemma_pow10_pos((n - 1) as nat);
    }
}

/// The value of the integer-part cap `10^19`.
pub proof fn lemma_pow10_19()
    ensures
        pow10(19) == 10_000_000_000_000_000_000,
{
    reveal_with_fuel(pow10, 20);
}

/// Where `find_first` points: at a character satisfying `p`, with none
/// before it; `None` means no character satisfies `p`.
pub proof fn lemma_find_first_char(s: Seq<char>, p: spec_fn(char) -> bool)
    ensures
        find_first(s, p) is None ==> forall|k: int| 0 <= k < s.len() ==> !p(#[trigger] s[k]),
        find_first(s, p) matches Some(i) ==> 0 <= i < s.len() && p(s[i]) && forall|k: int|
            0 <= k < i ==> !p(#[trigger] s[k]),
    decreases s.len(),
{
    if s.len() > 0 && !p(s[0]) {
        let t = s.drop_first();
        lemma_find_first_char(t, p);
        assert(forall|k: int| 0 <= k < t.len() ==> #[trigger] t[k] == s[k + 1]);
        match find_first(t, p) {
            None => {
                assert(find_first(s, p) is None);
                assert forall|k: int| 0 <= k < s.len() implies !p(#[trigger] s[k]) by {
                    if k > 0 {
                        assert(t[k - 1] == s[k]);
                        assert(!p(t[k - 1]));
                    }
                }
            },
            Some(i) => {
                assert(find_first(s, p) == Some(i + 1));
                assert(p(t[i]));
                assert(p(s[i + 1]));
                assert forall|k: int| 0 <= k < i + 1 implies !p(#[trigger] s[k]) by {
                    if k > 0 {
                        assert(t[k - 1] == s[k]);
                        assert(!p(t[k - 1]));
                    }
                }
            },
        }
    }
}

/// `find_first` finds exactly the first character satisfying `p`.
pub proof fn lemma_find_first_at(s: Seq<char>, p: spec_fn(char) -> bool, j: int)
    requires
        0 <= j < s.len(),
        p(s[j]),
        forall|k: int| 0 <= k < j ==> !p(#[trigger] s[k]),
    ensures
        find_first(s, p) == Some(j),
{
    lemma_find_first_char(s, p);
    if let Some(i) = find_first(s, p) {
        if i < j {
            assert(!p(s[i]));
        }
        if i > j {
            assert(!p(s[j]));
        }
    }
}

/// When no character satisfies `p`, `find_first` reports so.
pub proof fn lemma_find_first_none(s: Seq<char>, p: spec_fn(char) -> bool)
    requires
        forall|k: int| 0 <= k < s.len() ==> !p(#[trigger] s[k]),
    ensures
        find_first(s, p) is None,
{
    lemma_find_first_char(s, p);
    if let Some(i) = find_first(s, p) {
        assert(!p(s[i]));
    }
}

/// A digit string's value is non-negative and below ten to its length.
pub proof fn lemma_digits_val_bounds(s: Seq<char>)
    requires
        all_digits(s),
    ensures
        0 <= digits_val(s) < pow10(s.len()),
    decreases s.len(),
{
    if s.len() == 0 {
    } else {
        let b = s.drop_last();
        assert(all_digits(b)) by {
            assert(forall|k: int| 0 <= k < b.len() ==> #[trigger] b[k] == s[k]);
        }
        lemma_digits_val_bounds(b);
        assert(is_digit(s.last()));
        assert(0 <= digit_val(s.last()) <= 9);
        assert(pow10(s.len()) == 10 * pow10(b.len()));
    }
}

/// Peeling the most significant digit off a digit string's value.
pub proof fn lemma_digits_val_first(s: Seq<char>)
    requires
        s.len() > 0,
    ensures
        digits_val(s) == digit_val(s[0]) * pow10((s.len() - 1) as nat) + digits_val(s.drop_first()),
    decreases s.len(),
{
    if s.len() == 1 {
        assert(s.drop_last() =~= Seq::<char>::empty());
        assert(s.drop_first() =~= Seq::<char>::empty());
        assert(digits_val(Seq::<char>::empty()) == 0);
        assert(s.last() == s[0]);
        assert(digits_val(s) == digit_val(s[0]));
        assert(digit_val(s[0]) * pow10(0) == digit_val(s[0])) by (nonlinear_arith);
    } else {
        let b = s.drop_last();
        lemma_digits_val_first(b);
        let n1 = (s.len() - 1) as nat;
        let n2 = (s.len() - 2) as nat;
        assert(s.drop_first().drop_last() =~= b.drop_first());
        assert(s.drop_first().last() == s.last());
        assert(digits_val(s.drop_first()) == digits_val(b.drop_first()) * 10 + digit_val(s.last()));
        assert(digits_val(s) == digits_val(b) * 10 + digit_val(s.last()));
        assert(digits_val(b) == digit_val(s[0]) * pow10(n2) + digits_val(b.drop_first()));
        assert((digit_val(s[0]) * pow10(n2) + digits_val(b.drop_first())) * 10 == digit_val(s[0])
            * (10 * pow10(n2)) + digits_val(b.drop_first()) * 10) by (nonlinear_arith);
        assert(pow10(n1) == 10 * pow10(n2));
    }
}

/// Extending a digit prefix by one character multiplies its value by ten and
/// adds the new digit.
pub proof fn lemma_digits_val_prefix(s: Seq<char>, k: int)
    requires
        0 <= k < s.len(),
    ensures
        digits_val(s.subrange(0, k + 1)) == digits_val(s.subrange(0, k)) * 10 + digit_val(s[k]),
{
    let t = s.subrange(0, k + 1);
    assert(t.drop_last() =~= s.subrange(0, k));
    assert(t.last() == s[k]);
}

/// A digit string's value is at least ten times the value of any proper
/// prefix.
pub proof fn lemma_digits_val_grows(s: Seq<char>, k: int)
    requires
        all_digits(s),
        0 <= k < s.len(),
    ensures
        digits_val(s) >= 10 * digits_val(s.subrange(0, k)),
    decreases s.len() - k,
{
    let pk = s.subrange(0, k);
    let pk1 = s.subrange(0, k + 1);
    assert(all_digits(pk)) by {
        assert(forall|j: int| 0 <= j < pk.len() ==> #[trigger] pk[j] == s[j]);
    }
    lemma_digits_val_bounds(pk);
    lemma_digits_val_prefix(s, k);
    assert(is_digit(s[k]));
    if k + 1 == s.len() {
        assert(pk1 =~= s);
    } else {
        lemma_digits_val_grows(s, k + 1);
        assert(all_digits(pk1)) by {
            assert(forall|j: int| 0 <= j < pk1.len() ==> #[trigger] pk1[j] == s[j]);
        }
        lemma_digits_val_bounds(pk1);
    }
}

/// One step of reading a decimal fraction from its last digit forward: a
/// floored scaling of `d` followed by the digits `rest` (of numeric value
/// `rest_val`, `n` digits long) is the floored scaling of `rest` alone,
/// plus `d * scale`, divided by ten.
pub proof fn lemma_frac_step(d: int, rest_val: int, n: nat, scale: int)
    requires
        0 <= d <= 9,
        0 <= rest_val,
        0 <= scale,
    ensures
        (d * pow10(n) + rest_val) * scale / pow10(n + 1) == (d * scale + rest_val * scale / pow10(
            n,
        )) / 10,
{
    let p = pow10(n);
    lemma_pow10_pos(n);
    let u = rest_val * scale;
    lemma_mul_nonnegative(rest_val, scale);
    lemma_fundamental_div_mod(u, p);
    lemma_mod_division_less_than_divisor(u, p);
    lemma_div_pos_is_pos(u, p);
    let q = u / p;
    let r = u % p;
    let big = (d * p + rest_val) * scale;
    assert(big == p * (d * scale + q) + r) by (nonlinear_arith)
        requires
            u == rest_val * scale,
            u == p * q + r,
            big == (d * p + rest_val) * scale,
    ;
    assert(big >= 0) by (nonlinear_arith)
        requires
            d >= 0,
            p >= 1,
            rest_val >= 0,
            scale >= 0,
            big == (d * p + rest_val) * scale,
    ;
    assert(pow10(n + 1) == 10 * p);
    lemma_div_denominator(big, p, 10);
    lemma_div_multiples_vanish_fancy(d * scale + q, r, p);
    assert((p * (d * scale + q) + r) / p == d * scale + q);
    assert(big / (p * 10) == (big / p) / 10);
    assert(p * 10 == pow10(n + 1));
}

/// Where the leading whitespace of `s` ends, `trim_front` cuts.
pub proof fn lemma_trim_front_is(s: Seq<char>, lo: int)
    requires
        0 <= lo <= s.len(),
        forall|k: int| 0 <= k < lo ==> is_ws(#[trigger] s[k]),
        lo < s.len() ==> !is_ws(s[lo]),
    ensures
        trim_front(s) == s.subrange(lo, s.len() as int),
    decreases lo,
{
    if lo == 0 {
        assert(trim_front(s) =~= s.subrange(0, s.len() as int));
    } else {
        let t = s.drop_first();
        assert(forall|k: int| 0 <= k < t.len() ==> #[trigger] t[k] == s[k + 1]);
        lemma_trim_front_is(t, lo - 1);
        assert(t.subrange(lo - 1, t.len() as int) =~= s.subrange(lo, s.len() as int));
    }
}

/// Where the trailing whitespace of `s` begins, `trim_back` cuts.
pub proof fn lemma_trim_back_is(s: Seq<char>, hi: int)
    requires
        0 <= hi <= s.len(),
        forall|k: int| hi <= k < s.len() ==> is_ws(#[trigger] s[k]),
        hi > 0 ==> !is_ws(s[hi - 1]),
    ensures
        trim_back(s) == s.subrange(0, hi),
    decreases s.len() - hi,
{
    if hi == s.len() {
        assert(trim_back(s) =~= s.subrange(0, hi));
    } else {
        let t = s.drop_last();
        assert(is_ws(s.last()));
        lemma_trim_back_is(t, hi);
        assert(t.subrange(0, hi) =~= s.subrange(0, hi));
    }
}

/// A string with no whitespace at either end trims to itself.
pub proof fn lemma_trim_clean(s: Seq<char>)
    requires
        s.len() > 0 ==> !is_ws(s[0]) && !is_ws(s.last()),
    ensures
        trim(s) == s,
{
    assert(trim_front(s) == s);
    assert(trim_back(s) == s);
}

/// The digit string of a non-negative number is non-empty, all digits, and
/// reads back to the same value.
pub proof fn lemma_dec_str_digits(n: int)
    requires
        n >= 0,
    ensures
        dec_str(n).len() >= 1,
        all_digits(dec_str(n)),
        digits_val(dec_str(n)) == n,
    decreases n,
{
    if n <= 9 {
        let t = dec_str(n);
        assert(t.len() == 1);
        assert(t.drop_last() =~= Seq::<char>::empty());
        assert(digits_val(Seq::<char>::empty()) == 0);
        assert(t.last() == digit_char(n));
        assert(is_digit(digit_char(n)));
        assert(digit_val(digit_char(n)) == n);
    } else {
        lemma_dec_str_digits(n / 10);
        let b = dec_str(n / 10);
        let t = dec_str(n);
        assert(t == b.push(digit_char(n % 10)));
        assert(t.drop_last() =~= b);
        assert(t.last() == digit_char(n % 10));
        lemma_fundamental_div_mod(n, 10);
        assert(is_digit(digit_char(n % 10)));
        assert(digit_val(digit_char(n % 10)) == n % 10);
        assert(all_digits(t)) by {
            assert(forall|k: int| 0 <= k < b.len() ==> #[trigger] t[k] == b[k]);
        }
    }
}

} // verus!
