//! Checking an input against its source base, and converting it to the
//! destination base through its binary expansion.
use crate::binary::{
    bits_value, expand, field, group, lemma_bits_value_bound, lemma_group_step, lemma_pad_len,
    lemma_regroup_digits, pad, regroup, two_pow, zero_bits,
};
use crate::symbols::{digit_to_char, is_symbol, symbol};
use vstd::prelude::*;

verus! {

/// Why a conversion was refused.
#[derive(Debug, Clone, Copy, PartialEq, Eq, Structural)]
pub enum ConvertError {
    /// A base is not a power of two from 2 on.
    InvalidBase,
    /// The number is negative.
    NegativeNumber,
    /// A digit of the number is not below the source base.
    InvalidDigit,
    /// A digit in the destination base is 36 or more, and has no symbol.
    NoSymbol,
}

/// Whether `b` is a power of two (`1` included).
pub open spec fn is_power_of_two(b: nat) -> bool
    decreases b,
{
    if b <= 1 {
        b == 1
    } else if b % 2 != 0 {
        false
    } else {
        is_power_of_two(b / 2)
    }
}

/// `log2(b)`, rounded down; 0 for `b <= 1`.
pub open spec fn log2_floor(b: nat) -> nat
    decreases b,
{
    if b <= 1 {
        0
    } else {
        1 + log2_floor(b / 2)
    }
}

/// The number of bits of one digit in base `b`: `log2(b)`.
pub open spec fn base_width(b: int) -> nat {
    if b >= 1 {
        log2_floor(b as nat)
    } else {
        0
    }
}

/// Whether `b` is a base that the conversion accepts: a power of two from 2
/// on.
pub open spec fn is_supported_base(b: int) -> bool {
    b >= 2 && is_power_of_two(b as nat)
}

/// The decimal digits of `n`, most significant first; `0` has the one
/// digit 0.
pub open spec fn decimal_digits(n: nat) -> Seq<nat>
    decreases n,
{
    if n < 10 {
        seq![n]
    } else {
        decimal_digits(n / 10).push(n % 10)
    }
}

/// The magnitude of `n`.
pub open spec fn magnitude(n: int) -> nat {
    if n < 0 {
        (-n) as nat
    } else {
        n as nat
    }
}

/// Whether every decimal digit of `n` (its sign left aside) is below `base`.
pub open spec fn permitted(n: int, base: int) -> bool {
    forall|i: int|
        0 <= i < decimal_digits(magnitude(n)).len() ==> #[trigger] decimal_digits(
            magnitude(n),
        )[i] < base
}

/// Digit values held as bytes, as numbers.
pub open spec fn digit_values(v: Seq<u64>) -> Seq<nat> {
    v.map_values(|d: u64| d as nat)
}

/// Digits in base `b1` rewritten in base `b2` through their binary expansion.
pub open spec fn convert_digits_spec(ds: Seq<nat>, b1: int, b2: int) -> Seq<nat> {
    regroup(ds, base_width(b1), base_width(b2))
}

/// The symbols of a digit sequence.
pub open spec fn render(ds: Seq<nat>) -> Seq<char> {
    ds.map_values(|d: nat| symbol(d))
}

/// Whether every digit value of `ds` has a symbol.
pub open spec fn all_have_symbols(ds: Seq<nat>) -> bool {
    forall|i: int| 0 <= i < ds.len() ==> #[trigger] ds[i] < 36
}

/// The outcome of converting `n`, read as its decimal digits in base `b1`,
/// to base `b2`.
pub open spec fn conversion(n: int, b1: int, b2: int) -> Result<Seq<char>, ConvertError> {
    if !is_supported_base(b1) || !is_supported_base(b2) {
        Err(ConvertError::InvalidBase)
    } else if n < 0 {
        Err(ConvertError::NegativeNumber)
    } else if !permitted(n, b1) {
        Err(ConvertError::InvalidDigit)
    } else if !all_have_symbols(convert_digits_spec(decimal_digits(n as nat), b1, b2)) {
        Err(ConvertError::NoSymbol)
    } else {
        Ok(render(convert_digits_spec(decimal_digits(n as nat), b1, b2)))
    }
}

pub proof fn lemma_decimal_digits(n: nat)
    ensures
        decimal_digits(n).len() > 0,
        forall|i: int| 0 <= i < decimal_digits(n).len() ==> #[trigger] decimal_digits(n)[i] < 10,
    decreases n,
{
    if n >= 10 {
        lemma_decimal_digits(n / 10);
    }
}

/// The decimal digits of `n` spell `n`, with no leading zero unless `n` is 0.
pub proof fn lemma_decimal_value(n: nat)
    ensures
        crate::binary::digits_value(decimal_digits(n), 10) == n,
        n > 0 ==> crate::binary::no_leading_zero(decimal_digits(n)),
    decreases n,
{
    if n >= 10 {
        lemma_decimal_value(n / 10);
        assert(decimal_digits(n).drop_last() == decimal_digits(n / 10));
        assert(decimal_digits(n / 10)[0] == decimal_digits(n)[0]);
        assert(n == (n / 10) * 10 + n % 10);
        lemma_decimal_digits(n / 10);
        assert(decimal_digits(n).last() == n % 10);
    } else {
        assert(decimal_digits(n).drop_last() =~= seq![]);
        assert(crate::binary::digits_value(seq![], 10) == 0);
        assert(decimal_digits(n).last() == n);
    }
}

/// `10` raised to the power `k`.
pub open spec fn ten_pow(k: nat) -> nat
    decreases k,
{
    if k == 0 {
        1
    } else {
        10 * ten_pow((k - 1) as nat)
    }
}

/// A number below `10^k` has at most `k` decimal digits.
pub proof fn lemma_decimal_digits_len(n: nat, k: nat)
    requires
        k >= 1,
        n < ten_pow(k),
    ensures
        decimal_digits(n).len() <= k,
    decreases k,
{
    if n >= 10 {
        if k == 1 {
            assert(ten_pow(1) == 10) by {
                reveal_with_fuel(ten_pow, 2);
            }
        } else {
            lemma_decimal_digits_len(n / 10, (k - 1) as nat);
        }
    }
}

proof fn lemma_u64_digits(n: u64)
    ensures
        decimal_digits(n as nat).len() <= 20,
{
    assert(ten_pow(20) == 100_000_000_000_000_000_000) by {
        reveal_with_fuel(ten_pow, 21);
    }
    lemma_decimal_digits_len(n as nat, 20);
}

proof fn lemma_power_of_two(b: nat)
    requires
        is_power_of_two(b),
    ensures
        two_pow(log2_floor(b)) == b,
    decreases b,
{
    if b > 1 {
        lemma_power_of_two(b / 2);
    }
}

proof fn lemma_log2_below(b: nat, k: nat)
    requires
        1 <= b < two_pow(k),
    ensures
        log2_floor(b) < k,
    decreases k,
{
    if b > 1 {
        if k == 0 {
        } else {
            lemma_log2_below(b / 2, (k - 1) as nat);
        }
    }
}

proof fn lemma_two_pow_63()
    ensures
        two_pow(63) == 0x8000_0000_0000_0000,
        two_pow(62) == 0x4000_0000_0000_0000,
{
    reveal_with_fuel(two_pow, 64);
}

proof fn lemma_two_pow_small(k: nat)
    requires
        k <= 62,
    ensures
        two_pow(k) <= 0x4000_0000_0000_0000,
{
    lemma_two_pow_63();
    crate::binary::lemma_two_pow_mono(k, 62);
}

/// A supported base is `2` to the power of its width.
pub proof fn lemma_base_width_pow(b: int)
    requires
        is_supported_base(b),
    ensures
        two_pow(base_width(b)) == b,
        base_width(b) >= 1,
{
    lemma_power_of_two(b as nat);
}

proof fn lemma_base_width(b: int)
    requires
        is_supported_base(b),
        b <= i64::MAX,
    ensures
        two_pow(base_width(b)) == b,
        1 <= base_width(b) <= 62,
{
    lemma_power_of_two(b as nat);
    lemma_two_pow_63();
    lemma_log2_below(b as nat, 63);
}

/// The width of a supported base, or `None`.
fn base_width_of(base: i64) -> (r: Option<usize>)
    ensures
        r == (if is_supported_base(base as int) {
            Some(base_width(base as int) as usize)
        } else {
            None
        }),
{
    if base < 2 {
        return None;
    }
    proof {
        lemma_two_pow_63();
        lemma_log2_below(base as nat, 63);
    }
    let mut x: i64 = base;
    let mut w: usize = 0;
    while x > 1
        invariant
            1 <= x <= base,
            base >= 2,
            is_power_of_two(base as nat) == is_power_of_two(x as nat),
            log2_floor(base as nat) == w + log2_floor(x as nat),
            log2_floor(base as nat) < 63,
        decreases x,
    {
        if x % 2 != 0 {
            return None;
        }
        x = x / 2;
        w = w + 1;
    }
    Some(w)
}

/// Appends the decimal digits of `n`, most significant first.
fn push_decimal_digits(n: u64, out: &mut Vec<u64>)
    ensures
        digit_values(final(out)@) =~= digit_values(old(out)@) + decimal_digits(n as nat),
    decreases n,
{
    if n >= 10 {
        push_decimal_digits(n / 10, out);
    }
    let ghost before = out@;
    out.push(n % 10);
    assert(digit_values(out@) =~= digit_values(before).push((n % 10) as nat));
}

/// Whether every decimal digit of `number`, its sign left aside, is below
/// `base`.
pub fn permited_number(number: i64, base: i64) -> (r: bool)
    ensures
        r == permitted(number as int, base as int),
{
    let m: u64 = if number < 0 {
        (-(number + 1)) as u64 + 1
    } else {
        number as u64
    };
    assert(m as nat == magnitude(number as int));
    let mut digits: Vec<u64> = Vec::new();
    push_decimal_digits(m, &mut digits);
    let ghost ds = decimal_digits(m as nat);
    assert(digit_values(digits@) =~= ds);
    proof {
        lemma_decimal_digits(m as nat);
    }
    let mut i: usize = 0;
    while i < digits.len()
        invariant
            i <= digits@.len(),
            forall|j: int| 0 <= j < ds.len() ==> #[trigger] ds[j] < 10,
            digit_values(digits@) == ds,
            ds == decimal_digits(magnitude(number as int)),
            forall|j: int| 0 <= j < i ==> ds[j] < base,
        decreases digits@.len() - i,
    {
        assert(ds[i as int] == digits@[i as int] as nat);
        if digits[i] as i64 >= base {
            return false;
        }
        i = i + 1;
    }
    true
}

/// Appends the `w` low bits of `d`, most significant first.
fn push_field(bits: &mut Vec<bool>, d: u64, w: usize)
    ensures
        final(bits)@ == old(bits)@ + field(d as nat, w as nat),
    decreases w,
{
    if w > 0 {
        push_field(bits, d / 2, w - 1);
        bits.push(d % 2 == 1);
        assert(bits@ =~= old(bits)@ + field(d as nat, w as nat));
    }
}

/// The value of the bits from `start` up to `end`, most significant first.
fn field_value(bits: &Vec<bool>, start: usize, end: usize) -> (r: u64)
    requires
        start <= end <= bits@.len(),
        end - start <= 62,
    ensures
        r as nat == bits_value(bits@.subrange(start as int, end as int)),
    decreases end - start,
{
    if end == start {
        0
    } else {
        let high = field_value(bits, start, end - 1);
        let ghost s = bits@.subrange(start as int, end as int);
        assert(s.drop_last() =~= bits@.subrange(start as int, end - 1));
        proof {
            lemma_bits_value_bound(s.drop_last());
            lemma_two_pow_small((end - 1 - start) as nat);
        }
        let low: u64 = if bits[end - 1] {
            1
        } else {
            0
        };
        2 * high + low
    }
}

/// The digits written as fields of `w1` bits each, after zero bits that
/// fill the whole up to a multiple of `w2` bits.
fn expand_padded(digits: &Vec<u64>, w1: usize, w2: usize) -> (bits: Vec<bool>)
    requires
        1 <= w1 <= 62,
        1 <= w2 <= 62,
        digits@.len() <= usize::MAX / 64,
    ensures
        bits@ == pad(expand(digit_values(digits@), w1 as nat), w2 as nat),
{
    let ghost ds = digit_values(digits@);
    assert(digits@.len() * w1 <= digits@.len() * 62) by (nonlinear_arith)
        requires
            w1 <= 62,
    ;
    let total = digits.len() * w1;
    let padding: usize = if total % w2 == 0 {
        0
    } else {
        w2 - total % w2
    };
    let mut bits: Vec<bool> = Vec::new();
    let mut i: usize = 0;
    while i < padding
        invariant
            i <= padding,
            bits@ =~= zero_bits(i as nat),
        decreases padding - i,
    {
        bits.push(false);
        i = i + 1;
    }
    let mut j: usize = 0;
    while j < digits.len()
        invariant
            j <= digits@.len(),
            ds == digit_values(digits@),
            1 <= w1 <= 62,
            bits@ == zero_bits(padding as nat) + expand(ds.take(j as int), w1 as nat),
            bits@.len() == padding + j * w1,
            padding < 64,
            digits@.len() <= usize::MAX / 64,
        decreases digits@.len() - j,
    {
        proof {
            crate::binary::lemma_field_len(digits@[j as int] as nat, w1 as nat);
            assert(ds.take(j + 1).drop_last() =~= ds.take(j as int));
            assert((j + 1) * w1 == j * w1 + w1) by (nonlinear_arith);
            assert(j * w1 + w1 <= digits@.len() * 64) by (nonlinear_arith)
                requires
                    j < digits@.len(),
                    w1 <= 62,
            ;
        }
        push_field(&mut bits, digits[j], w1);
        j = j + 1;
    }
    assert(ds.take(digits@.len() as int) =~= ds);
    proof {
        crate::binary::lemma_expand_len(ds, w1 as nat);
        lemma_pad_len(total as nat, w2 as nat);
    }
    assert(bits@ =~= pad(expand(ds, w1 as nat), w2 as nat));
    bits
}

/// The values of the consecutive fields of `w` bits.
fn group_bits(bits: &Vec<bool>, w: usize, m: Ghost<nat>) -> (r: Vec<u64>)
    requires
        1 <= w <= 62,
        bits@.len() == m@ * w,
    ensures
        digit_values(r@) == group(bits@, w as nat),
{
    proof {
        vstd::arithmetic::div_mod::lemma_div_multiples_vanish(m@ as int, w as int);
        assert(m@ * w == w * m@) by (nonlinear_arith);
    }
    let n = bits.len();
    let count = n / w;
    assert(count == m@);
    let mut out: Vec<u64> = Vec::new();
    let mut k: usize = 0;
    while k < count
        invariant
            k <= count,
            count == m@,
            n == bits@.len(),
            bits@.len() == m@ * w,
            1 <= w <= 62,
            digit_values(out@) == group(bits@.take((k * w) as int), w as nat),
        decreases count - k,
    {
        proof {
            assert((k + 1) * w <= m@ * w) by (nonlinear_arith)
                requires
                    k < m@,
            ;
            lemma_group_step(bits@, w as nat, k as nat);
            assert(k * w + w <= bits@.len());
        }
        let v = field_value(bits, k * w, k * w + w);
        let ghost before = out@;
        out.push(v);
        assert(digit_values(out@) =~= digit_values(before).push(v as nat));
        k = k + 1;
    }
    assert(bits@.take((count * w) as int) =~= bits@);
    out
}

/// Rewrites digits of base `base1` in base `base2`: each digit becomes a
/// field of `log2(base1)` bits, the bits are filled up with zeros in front
/// to a multiple of `log2(base2)`, and each field of `log2(base2)` bits
/// becomes one digit.
pub fn convert_digits(digits: &Vec<u64>, base1: i64, base2: i64) -> (r: Vec<u64>)
    requires
        is_supported_base(base1 as int),
        is_supported_base(base2 as int),
        digits@.len() <= usize::MAX / 64,
    ensures
        digit_values(r@) == convert_digits_spec(digit_values(digits@), base1 as int, base2 as int),
        forall|i: int| 0 <= i < r@.len() ==> (r@[i] as int) < base2,
        digits@.len() > 0 ==> r@.len() > 0,
{
    let w1 = base_width_of(base1).unwrap();
    let w2 = base_width_of(base2).unwrap();
    let ghost ds = digit_values(digits@);
    proof {
        lemma_base_width(base1 as int);
        lemma_base_width(base2 as int);
    }
    let bits = expand_padded(digits, w1, w2);
    let ghost m = lemma_regroup_digits(ds, w1 as nat, w2 as nat);
    let out = group_bits(&bits, w2, Ghost(m));
    assert forall|i: int| 0 <= i < out@.len() implies (out@[i] as int) < base2 by {
        assert(digit_values(out@)[i] == out@[i] as nat);
    }
    out
}

/// Relies on `String::push`: the character is appended at the end.
#[verifier::external_body]
fn push_char(s: &mut String, c: char)
    ensures
        final(s)@ == old(s)@.push(c),
{
    s.push(c);
}

/// The symbols of digit values below 36, in order.
pub fn render_digits(digits: &Vec<u64>) -> (s: String)
    requires
        forall|i: int| 0 <= i < digits@.len() ==> digits@[i] < 36,
    ensures
        s@ == render(digit_values(digits@)),
        forall|i: int| 0 <= i < s@.len() ==> is_symbol(#[trigger] s@[i]),
{
    let ghost ds = digit_values(digits@);
    let mut s = String::new();
    let mut i: usize = 0;
    while i < digits.len()
        invariant
            i <= digits@.len(),
            ds == digit_values(digits@),
            forall|j: int| 0 <= j < digits@.len() ==> digits@[j] < 36,
            s@ =~= render(ds.take(i as int)),
            forall|j: int| 0 <= j < s@.len() ==> is_symbol(#[trigger] s@[j]),
        decreases digits@.len() - i,
    {
        let c = digit_to_char(digits[i] as u32);
        push_char(&mut s, c);
        assert(ds.take(i + 1) =~= ds.take(i as int).push(ds[i as int]));
        i = i + 1;
    }
    assert(ds.take(digits@.len() as int) =~= ds);
    s
}

/// Converts `number`, whose decimal digits are read as digits of base
/// `base1`, to the symbols of its digits in base `base2`.
///
/// Fails with `InvalidBase` unless both bases are powers of two from 2 on,
/// then with `NegativeNumber` for a negative number, then with
/// `InvalidDigit` where a digit is not below `base1`, then with `NoSymbol`
/// where a digit in `base2` is 36 or more.
pub fn convert_any_binary_base(number: i64, base1: i64, base2: i64) -> (r: Result<
    String,
    ConvertError,
>)
    ensures
        match r {
            Ok(s) => conversion(number as int, base1 as int, base2 as int) == Ok::<
                Seq<char>,
                ConvertError,
            >(s@),
            Err(e) => conversion(number as int, base1 as int, base2 as int) == Err::<
                Seq<char>,
                ConvertError,
            >(e),
        },
        r matches Ok(s) ==> s@.len() > 0 && forall|i: int|
            0 <= i < s@.len() ==> is_symbol(#[trigger] s@[i]),
{
    if base_width_of(base1).is_none() || base_width_of(base2).is_none() {
        return Err(ConvertError::InvalidBase);
    }
    if number < 0 {
        return Err(ConvertError::NegativeNumber);
    }
    if !permited_number(number, base1) {
        return Err(ConvertError::InvalidDigit);
    }
    let mut digits: Vec<u64> = Vec::new();
    push_decimal_digits(number as u64, &mut digits);
    proof {
        lemma_u64_digits(number as u64);
        lemma_decimal_digits(number as nat);
        assert(digit_values(digits@) =~= decimal_digits(number as nat));
    }
    let out = convert_digits(&digits, base1, base2);
    let ghost ds = digit_values(out@);
    let mut k: usize = 0;
    while k < out.len()
        invariant
            k <= out@.len(),
            ds == digit_values(out@),
            ds == convert_digits_spec(decimal_digits(number as nat), base1 as int, base2 as int),
            number >= 0,
            is_supported_base(base1 as int),
            is_supported_base(base2 as int),
            permitted(number as int, base1 as int),
            forall|j: int| 0 <= j < k ==> out@[j] < 36,
        decreases out@.len() - k,
    {
        assert(ds[k as int] == out@[k as int] as nat);
        if out[k] >= 36 {
            return Err(ConvertError::NoSymbol);
        }
        k = k + 1;
    }
    assert forall|i: int| 0 <= i < ds.len() implies #[trigger] ds[i] < 36 by {
        assert(ds[i] == out@[i] as nat);
    }
    let s = render_digits(&out);
    Ok(s)
}

} // verus!
