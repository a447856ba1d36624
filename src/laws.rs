//! Properties that relate conversions to each other.
use crate::binary::{
    digits_value, lemma_regroup_digits, lemma_regroup_round_trip, lemma_regroup_same,
    lemma_regroup_value, lemma_regroup_zero, lemma_strip_zeros, lemma_two_pow_mono,
    lemma_value_unique, lemma_value_zeros_prefix, strip_zeros, two_pow, zero_digits,
};
use crate::convert::{
    all_have_symbols, base_width, conversion, convert_digits_spec, decimal_digits,
    is_supported_base, lemma_base_width_pow, lemma_decimal_digits, lemma_decimal_value, magnitude,
    permitted, render,
};
use crate::symbols::{is_symbol, symbol};
use vstd::prelude::*;

verus! {

proof fn lemma_digits_below_base(ds: Seq<nat>, b: int)
    requires
        is_supported_base(b),
        forall|i: int| 0 <= i < ds.len() ==> ds[i] < b,
    ensures
        forall|i: int| 0 <= i < ds.len() ==> ds[i] < two_pow(base_width(b)),
        base_width(b) >= 1,
{
    lemma_base_width_pow(b);
}

/// Converting digits from base `b1` to base `b2` and back gives the digits
/// again, with zero digits in front.
pub proof fn law_round_trip(ds: Seq<nat>, b1: int, b2: int)
    requires
        is_supported_base(b1),
        is_supported_base(b2),
        forall|i: int| 0 <= i < ds.len() ==> ds[i] < b1,
    ensures
        exists|k: nat|
            convert_digits_spec(convert_digits_spec(ds, b1, b2), b2, b1) == zero_digits(k) + ds,
{
    lemma_digits_below_base(ds, b1);
    lemma_base_width_pow(b2);
    let k = lemma_regroup_round_trip(ds, base_width(b1), base_width(b2));
    assert(convert_digits_spec(convert_digits_spec(ds, b1, b2), b2, b1) == zero_digits(k) + ds);
}

/// Converting digits from base `b1` to base `b2` keeps the number that they
/// spell.
pub proof fn law_value_kept(ds: Seq<nat>, b1: int, b2: int)
    requires
        is_supported_base(b1),
        is_supported_base(b2),
        forall|i: int| 0 <= i < ds.len() ==> ds[i] < b1,
    ensures
        digits_value(convert_digits_spec(ds, b1, b2), b2 as nat) == digits_value(ds, b1 as nat),
{
    lemma_digits_below_base(ds, b1);
    lemma_base_width_pow(b1);
    lemma_base_width_pow(b2);
    lemma_regroup_value(ds, base_width(b1), base_width(b2));
}

/// Converting digits from a base to the same base changes nothing.
pub proof fn law_same_base_digits(ds: Seq<nat>, b: int)
    requires
        is_supported_base(b),
        forall|i: int| 0 <= i < ds.len() ==> ds[i] < b,
    ensures
        convert_digits_spec(ds, b, b) == ds,
{
    lemma_digits_below_base(ds, b);
    lemma_regroup_same(ds, base_width(b));
}

/// Converting a number from a base to the same base gives the symbols of
/// its own digits.
pub proof fn law_same_base(n: int, b: int)
    requires
        is_supported_base(b),
        n >= 0,
        permitted(n, b),
    ensures
        conversion(n, b, b) == Ok::<Seq<char>, crate::convert::ConvertError>(
            render(decimal_digits(n as nat)),
        ),
{
    assert(magnitude(n) == n as nat);
    lemma_decimal_digits(n as nat);
    law_same_base_digits(decimal_digits(n as nat), b);
    assert(all_have_symbols(decimal_digits(n as nat)));
}

/// Zero converts to the single symbol `0` wherever the destination base is
/// at least the source base.
pub proof fn law_zero(b1: int, b2: int)
    requires
        is_supported_base(b1),
        is_supported_base(b2),
        b1 <= b2,
    ensures
        conversion(0, b1, b2) == Ok::<Seq<char>, crate::convert::ConvertError>(seq!['0']),
{
    assert(decimal_digits(0) == seq![0nat]);
    lemma_base_width_pow(b1);
    lemma_base_width_pow(b2);
    if base_width(b1) > base_width(b2) {
        lemma_two_pow_mono(base_width(b2), base_width(b1));
    }
    lemma_regroup_zero(base_width(b1), base_width(b2));
    assert(all_have_symbols(seq![0nat]));
    assert(render(seq![0nat]) =~= seq!['0']);
}

/// A number whose digits are below the source base converts, where the
/// destination base is at most 32, and whenever it converts it gives a
/// non-empty string of symbols `0`-`9`, `A`-`Z`.
pub proof fn law_symbols(n: int, b1: int, b2: int)
    requires
        is_supported_base(b1),
        is_supported_base(b2),
        n >= 0,
        permitted(n, b1),
    ensures
        b2 <= 32 ==> conversion(n, b1, b2) is Ok,
        conversion(n, b1, b2) matches Ok(s) ==> s.len() > 0 && forall|i: int|
            0 <= i < s.len() ==> is_symbol(#[trigger] s[i]),
{
    let ds = decimal_digits(n as nat);
    let r = convert_digits_spec(ds, b1, b2);
    lemma_decimal_digits(n as nat);
    lemma_base_width_pow(b1);
    lemma_base_width_pow(b2);
    let m = lemma_regroup_digits(ds, base_width(b1), base_width(b2));
    if b2 <= 32 {
        assert forall|i: int| 0 <= i < r.len() implies #[trigger] r[i] < 36 by {
            assert(r[i] < two_pow(base_width(b2)));
        }
    }
    if all_have_symbols(r) {
        let s = render(r);
        assert forall|i: int| 0 <= i < s.len() implies is_symbol(#[trigger] s[i]) by {
            assert(r[i] < 36);
            crate::symbols::lemma_symbol(r[i]);
        }
    }
}

/// A conversion gives one digit for every `log2(b2)` bits of the expansion,
/// a last partial field counting as one.
pub proof fn law_digit_count(ds: Seq<nat>, b1: int, b2: int)
    requires
        is_supported_base(b1),
        is_supported_base(b2),
    ensures
        convert_digits_spec(ds, b1, b2).len() == (ds.len() * base_width(b1) + base_width(b2) - 1)
            / (base_width(b2) as int),
{
    let w1 = base_width(b1);
    let w2 = base_width(b2);
    lemma_base_width_pow(b2);
    let m = lemma_regroup_digits(ds, w1, w2);
    crate::binary::lemma_expand_len(ds, w1);
    let e = crate::binary::expand(ds, w1);
    let p = crate::binary::pad_len(e.len(), w2);
    crate::binary::lemma_pad_len(e.len(), w2);
    let x = ds.len() * w1 + w2 - 1;
    assert(x == m * w2 + (w2 - 1 - p));
    vstd::arithmetic::div_mod::lemma_fundamental_div_mod_converse(
        x,
        w2 as int,
        m as int,
        (w2 - 1 - p) as int,
    );
}

/// Where the digits that a number converts to are all decimal digits, the
/// number that they spell in decimal converts back to the first number's
/// digits, with zero digits in front.
pub proof fn law_round_trip_through_decimal(n: int, b1: int, b2: int)
    requires
        is_supported_base(b1),
        is_supported_base(b2),
        n >= 0,
        permitted(n, b1),
        forall|i: int|
            0 <= i < convert_digits_spec(decimal_digits(n as nat), b1, b2).len()
                ==> #[trigger] convert_digits_spec(decimal_digits(n as nat), b1, b2)[i] < 10,
    ensures
        exists|k: nat|
            conversion(
                digits_value(convert_digits_spec(decimal_digits(n as nat), b1, b2), 10) as int,
                b2,
                b1,
            ) == Ok::<Seq<char>, crate::convert::ConvertError>(
                render(zero_digits(k) + decimal_digits(n as nat)),
            ),
{
    let ds = decimal_digits(n as nat);
    let r = convert_digits_spec(ds, b1, b2);
    let m = digits_value(r, 10);
    let ds2 = decimal_digits(m);
    let w1 = base_width(b1);
    let w2 = base_width(b2);
    lemma_base_width_pow(b1);
    lemma_base_width_pow(b2);
    lemma_decimal_digits(n as nat);
    lemma_decimal_digits(m);
    lemma_decimal_value(n as nat);
    lemma_decimal_value(m);
    assert(magnitude(n) == n as nat);
    assert(magnitude(m as int) == m);
    lemma_regroup_digits(ds, w1, w2);
    // the decimal digits of m are r without its leading zeros
    let kr = lemma_strip_zeros(r, 10);
    let sr = strip_zeros(r);
    assert forall|i: int| 0 <= i < sr.len() implies sr[i] < 10 && sr[i] < b2 by {
        assert(sr[i] == r[i + kr]);
    }
    if m > 0 {
        lemma_value_unique(ds2, sr, 10);
    } else {
        lemma_value_zeros_prefix(1, sr, 10);
        if sr.len() > 0 {
            crate::binary::lemma_value_positive(sr, 10);
        }
        assert(sr =~= seq![]);
    }
    assert forall|i: int| 0 <= i < ds2.len() implies #[trigger] ds2[i] < b2 by {
        if m > 0 {
            assert(ds2[i] == sr[i]);
        } else {
            assert(ds2[i] == 0);
        }
    }
    assert(permitted(m as int, b2));
    // converting back keeps the value, which fixes the digits up to leading zeros
    let t = convert_digits_spec(ds2, b2, b1);
    lemma_digits_below_base(ds, b1);
    law_value_kept(ds2, b2, b1);
    law_value_kept(ds, b1, b2);
    lemma_strip_zeros(ds2, b2 as nat);
    assert(digits_value(ds2, b2 as nat) == digits_value(sr, b2 as nat)) by {
        if m == 0 {
            assert(ds2 =~= zero_digits(1) + sr);
            lemma_value_zeros_prefix(1, sr, b2 as nat);
        }
    }
    lemma_strip_zeros(r, b2 as nat);
    let kt = lemma_strip_zeros(t, b1 as nat);
    let kd = lemma_strip_zeros(ds, b1 as nat);
    lemma_regroup_digits(ds2, w2, w1);
    assert forall|i: int| 0 <= i < strip_zeros(t).len() implies strip_zeros(t)[i] < b1 by {
        assert(strip_zeros(t)[i] == t[i + kt]);
    }
    assert forall|i: int| 0 <= i < strip_zeros(ds).len() implies strip_zeros(ds)[i] < b1 by {
        assert(strip_zeros(ds)[i] == ds[i + kd]);
    }
    lemma_value_unique(strip_zeros(t), strip_zeros(ds), b1 as nat);
    let k: nat = if n > 0 {
        assert(strip_zeros(ds) == ds);
        kt
    } else {
        assert(ds == seq![0nat]);
        assert(strip_zeros(ds.skip(1)) =~= seq![]);
        assert(t.len() > 0);
        assert(t =~= zero_digits((kt - 1) as nat) + ds);
        (kt - 1) as nat
    };
    assert(t =~= zero_digits(k) + ds);
    assert(all_have_symbols(t)) by {
        assert forall|i: int| 0 <= i < t.len() implies #[trigger] t[i] < 36 by {
            if i >= k {
                assert(t[i] == ds[i - k]);
            }
        }
    }
    assert(conversion(m as int, b2, b1) == Ok::<Seq<char>, crate::convert::ConvertError>(
        render(zero_digits(k) + ds),
    ));
}

} // verus!
