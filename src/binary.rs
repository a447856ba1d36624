//! The binary model: fixed-width bit fields, the expansion of a digit
//! sequence into bits, and the regrouping of bits into digit values.
//! Bits are listed most significant first throughout.
use vstd::arithmetic::div_mod::lemma_mod_breakdown;
use vstd::prelude::*;

verus! {

/// `2` raised to the power `k`.
pub open spec fn two_pow(k: nat) -> nat
    decreases k,
{
    if k == 0 {
        1
    } else {
        2 * two_pow((k - 1) as nat)
    }
}

/// `n` zero digits.
pub open spec fn zero_digits(n: nat) -> Seq<nat> {
    Seq::new(n, |i: int| 0nat)
}

/// `n` zero bits.
pub open spec fn zero_bits(n: nat) -> Seq<bool> {
    Seq::new(n, |i: int| false)
}

/// The `w` low bits of `d`, most significant first.
pub open spec fn field(d: nat, w: nat) -> Seq<bool>
    decreases w,
{
    if w == 0 {
        seq![]
    } else {
        field(d / 2, (w - 1) as nat).push(d % 2 == 1)
    }
}

/// The unsigned integer that a bit sequence spells, most significant first.
pub open spec fn bits_value(bs: Seq<bool>) -> nat
    decreases bs.len(),
{
    if bs.len() == 0 {
        0
    } else {
        2 * bits_value(bs.drop_last()) + if bs.last() {
            1nat
        } else {
            0nat
        }
    }
}

/// Each digit of `ds` written as a field of `w` bits, in digit order.
pub open spec fn expand(ds: Seq<nat>, w: nat) -> Seq<bool>
    decreases ds.len(),
{
    if ds.len() == 0 {
        seq![]
    } else {
        expand(ds.drop_last(), w) + field(ds.last(), w)
    }
}

/// The number that the digits `ds` spell in base `b`, most significant
/// first.
pub open spec fn digits_value(ds: Seq<nat>, b: nat) -> nat
    decreases ds.len(),
{
    if ds.len() == 0 {
        0
    } else {
        digits_value(ds.drop_last(), b) * b + ds.last()
    }
}

/// How many zero bits bring a length `n` up to a multiple of `w`.
pub open spec fn pad_len(n: nat, w: nat) -> nat {
    if n % w == 0 {
        0
    } else {
        (w - n % w) as nat
    }
}

/// `bs` with zero bits in front, up to a multiple of `w` bits.
pub open spec fn pad(bs: Seq<bool>, w: nat) -> Seq<bool> {
    zero_bits(pad_len(bs.len(), w)) + bs
}

/// The values of the consecutive `w`-bit fields of `bs`, counted from its
/// end; bits in front of the first whole field are left out.
pub open spec fn group(bs: Seq<bool>, w: nat) -> Seq<nat>
    decreases bs.len(),
{
    if w == 0 || bs.len() < w {
        seq![]
    } else {
        group(bs.take(bs.len() - w), w).push(bits_value(bs.skip(bs.len() - w)))
    }
}

/// The digits of `ds`, fields of `w1` bits each, regrouped into fields of
/// `w2` bits; the first field is filled up with zero bits in front.
pub open spec fn regroup(ds: Seq<nat>, w1: nat, w2: nat) -> Seq<nat> {
    group(pad(expand(ds, w1), w2), w2)
}

pub proof fn lemma_two_pow_pos(k: nat)
    ensures
        two_pow(k) > 0,
    decreases k,
{
    if k > 0 {
        lemma_two_pow_pos((k - 1) as nat);
    }
}

pub proof fn lemma_two_pow_mono(a: nat, b: nat)
    requires
        a <= b,
    ensures
        two_pow(a) <= two_pow(b),
        a < b ==> two_pow(a) < two_pow(b),
    decreases b,
{
    if a < b {
        lemma_two_pow_mono(a, (b - 1) as nat);
        lemma_two_pow_pos((b - 1) as nat);
    }
}

pub proof fn lemma_bits_value_bound(bs: Seq<bool>)
    ensures
        bits_value(bs) < two_pow(bs.len()),
    decreases bs.len(),
{
    if bs.len() > 0 {
        lemma_bits_value_bound(bs.drop_last());
    }
}

pub proof fn lemma_field_len(d: nat, w: nat)
    ensures
        field(d, w).len() == w,
    decreases w,
{
    if w > 0 {
        lemma_field_len(d / 2, (w - 1) as nat);
    }
}

/// A field keeps the value of `d` modulo `2^w`.
pub proof fn lemma_field_value(d: nat, w: nat)
    ensures
        bits_value(field(d, w)) == d % two_pow(w),
    decreases w,
{
    if w > 0 {
        let m = two_pow((w - 1) as nat);
        lemma_two_pow_pos((w - 1) as nat);
        lemma_field_value(d / 2, (w - 1) as nat);
        lemma_field_len(d / 2, (w - 1) as nat);
        let f = field(d, w);
        assert(f.drop_last() =~= field(d / 2, (w - 1) as nat));
        lemma_mod_breakdown(d as int, 2, m as int);
    }
}

/// Writing the value of a bit sequence back in as many bits gives it back.
pub proof fn lemma_field_of_value(bs: Seq<bool>)
    ensures
        field(bits_value(bs), bs.len()) =~= bs,
    decreases bs.len(),
{
    if bs.len() > 0 {
        let v = bits_value(bs.drop_last());
        lemma_field_of_value(bs.drop_last());
        let b: nat = if bs.last() {
            1
        } else {
            0
        };
        assert((2 * v + b) / 2 == v);
        assert((2 * v + b) % 2 == b);
        assert(bs =~= bs.drop_last().push(bs.last()));
    }
}

pub proof fn lemma_field_zero(w: nat)
    ensures
        field(0, w) =~= zero_bits(w),
    decreases w,
{
    if w > 0 {
        lemma_field_zero((w - 1) as nat);
    }
}

pub proof fn lemma_expand_len(ds: Seq<nat>, w: nat)
    ensures
        expand(ds, w).len() == ds.len() * w,
    decreases ds.len(),
{
    if ds.len() > 0 {
        lemma_expand_len(ds.drop_last(), w);
        lemma_field_len(ds.last(), w);
        assert(ds.len() * w == (ds.len() - 1) * w + w) by (nonlinear_arith);
    }
}

pub proof fn lemma_expand_concat(a: Seq<nat>, b: Seq<nat>, w: nat)
    ensures
        expand(a + b, w) =~= expand(a, w) + expand(b, w),
    decreases b.len(),
{
    if b.len() == 0 {
        assert(a + b =~= a);
    } else {
        lemma_expand_concat(a, b.drop_last(), w);
        assert((a + b).drop_last() =~= a + b.drop_last());
    }
}

pub proof fn lemma_expand_zeros(k: nat, w: nat)
    ensures
        expand(zero_digits(k), w) =~= zero_bits(k * w),
    decreases k,
{
    if k > 0 {
        lemma_expand_zeros((k - 1) as nat, w);
        assert(zero_digits(k).drop_last() =~= zero_digits((k - 1) as nat));
        lemma_field_zero(w);
        assert(k * w == (k - 1) * w + w) by (nonlinear_arith);
        assert(zero_bits(k * w) =~= zero_bits(((k - 1) * w) as nat) + zero_bits(w));
    } else {
        assert(k * w == 0) by (nonlinear_arith)
            requires
                k == 0,
        ;
    }
}

pub proof fn lemma_pad_len(n: nat, w: nat) -> (m: nat)
    requires
        w > 0,
    ensures
        pad_len(n, w) + n == m * w,
        pad_len(n, w) < w,
        n % w == 0 ==> pad_len(n, w) == 0,
{
    let q = n / w;
    let r = n % w;
    assert(n == w * q + r) by (nonlinear_arith)
        requires
            w > 0,
            q == n / w,
            r == n % w,
    ;
    if r == 0 {
        assert(q * w == w * q) by (nonlinear_arith);
        q
    } else {
        assert((q + 1) * w == w * q + w) by (nonlinear_arith);
        q + 1
    }
}

/// Bits spelled by digits below `2^w` regroup, `w` at a time, into those
/// digits.
pub proof fn lemma_group_expand(ds: Seq<nat>, w: nat)
    requires
        w > 0,
        forall|i: int| 0 <= i < ds.len() ==> ds[i] < two_pow(w),
    ensures
        group(expand(ds, w), w) =~= ds,
    decreases ds.len(),
{
    if ds.len() > 0 {
        let dl = ds.drop_last();
        let e = expand(ds, w);
        lemma_group_expand(dl, w);
        lemma_expand_len(ds, w);
        lemma_expand_len(dl, w);
        lemma_field_len(ds.last(), w);
        assert(e.take(e.len() - w) =~= expand(dl, w));
        assert(e.skip(e.len() - w) =~= field(ds.last(), w));
        lemma_field_value(ds.last(), w);
        lemma_two_pow_pos(w);
        vstd::arithmetic::div_mod::lemma_small_mod(ds.last(), two_pow(w));
        assert(ds.len() * w == dl.len() * w + w) by (nonlinear_arith)
            requires
                dl.len() + 1 == ds.len(),
        ;
        assert(group(e, w) == group(expand(dl, w), w).push(ds.last()));
        assert(ds =~= dl.push(ds.last()));
    }
}

/// Grouping `k` whole fields of `w` bits: `k` values, each below `2^w`.
pub proof fn lemma_group_len(bs: Seq<bool>, w: nat, k: nat)
    requires
        w > 0,
        bs.len() == k * w,
    ensures
        group(bs, w).len() == k,
        forall|i: int| 0 <= i < k ==> #[trigger] group(bs, w)[i] < two_pow(w),
    decreases k,
{
    if k > 0 {
        assert(k * w == (k - 1) * w + w) by (nonlinear_arith);
        let t = bs.take(bs.len() - w);
        lemma_group_len(t, w, (k - 1) as nat);
        lemma_bits_value_bound(bs.skip(bs.len() - w));
    } else {
        assert(k * w == 0) by (nonlinear_arith)
            requires
                k == 0,
        ;
    }
}

/// Writing out the values of whole `w`-bit fields gives back the bits.
pub proof fn lemma_expand_group(bs: Seq<bool>, w: nat, k: nat)
    requires
        w > 0,
        bs.len() == k * w,
    ensures
        expand(group(bs, w), w) =~= bs,
    decreases k,
{
    if k > 0 {
        assert(k * w == (k - 1) * w + w) by (nonlinear_arith);
        let t = bs.take(bs.len() - w);
        let s = bs.skip(bs.len() - w);
        lemma_expand_group(t, w, (k - 1) as nat);
        lemma_field_of_value(s);
        let g = group(bs, w);
        assert(g.drop_last() =~= group(t, w));
        assert(bs =~= t + s);
    } else {
        assert(k * w == 0) by (nonlinear_arith)
            requires
                k == 0,
        ;
        assert(bs =~= seq![]);
    }
}

/// Grouping one more field of a prefix appends that field's value.
pub proof fn lemma_group_step(s: Seq<bool>, w: nat, k: nat)
    requires
        w > 0,
        (k + 1) * w <= s.len(),
    ensures
        k * w + w == (k + 1) * w,
        group(s.take(((k + 1) * w) as int), w) =~= group(s.take((k * w) as int), w).push(
            bits_value(s.subrange((k * w) as int, ((k + 1) * w) as int)),
        ),
{
    assert((k + 1) * w == k * w + w) by (nonlinear_arith);
    let t = s.take(((k + 1) * w) as int);
    assert(t.take(t.len() - w) =~= s.take((k * w) as int));
    assert(t.skip(t.len() - w) =~= s.subrange((k * w) as int, ((k + 1) * w) as int));
}

/// The regrouped digits: one for every `w2` bits of the padded expansion,
/// each below `2^w2`, and at least one where there is a digit to regroup.
pub proof fn lemma_regroup_digits(ds: Seq<nat>, w1: nat, w2: nat) -> (m: nat)
    requires
        w2 > 0,
    ensures
        pad(expand(ds, w1), w2).len() == m * w2,
        regroup(ds, w1, w2).len() == m,
        forall|i: int| 0 <= i < m ==> #[trigger] regroup(ds, w1, w2)[i] < two_pow(w2),
        expand(regroup(ds, w1, w2), w2) =~= pad(expand(ds, w1), w2),
        ds.len() > 0 && w1 > 0 ==> m > 0,
{
    let e = expand(ds, w1);
    lemma_expand_len(ds, w1);
    let m = lemma_pad_len(e.len(), w2);
    lemma_group_len(pad(e, w2), w2, m);
    lemma_expand_group(pad(e, w2), w2, m);
    if ds.len() > 0 && w1 > 0 {
        assert(ds.len() * w1 > 0) by (nonlinear_arith)
            requires
                ds.len() > 0,
                w1 > 0,
        ;
        assert(m * w2 > 0);
        assert(m > 0) by (nonlinear_arith)
            requires
                m * w2 > 0,
                w2 > 0,
        ;
    }
    m
}

/// Regrouping into fields of the same width changes nothing.
pub proof fn lemma_regroup_same(ds: Seq<nat>, w: nat)
    requires
        w > 0,
        forall|i: int| 0 <= i < ds.len() ==> ds[i] < two_pow(w),
    ensures
        regroup(ds, w, w) =~= ds,
{
    let e = expand(ds, w);
    lemma_expand_len(ds, w);
    vstd::arithmetic::div_mod::lemma_mod_multiples_basic(ds.len() as int, w as int);
    lemma_pad_len(e.len(), w);
    assert(pad(e, w) =~= e);
    lemma_group_expand(ds, w);
}

/// Regrouping from `w1` to `w2` bits and back gives the digits again, with
/// zero digits in front.
pub proof fn lemma_regroup_round_trip(ds: Seq<nat>, w1: nat, w2: nat) -> (k: nat)
    requires
        w1 > 0,
        w2 > 0,
        forall|i: int| 0 <= i < ds.len() ==> ds[i] < two_pow(w1),
    ensures
        regroup(regroup(ds, w1, w2), w2, w1) =~= zero_digits(k) + ds,
{
    let e = expand(ds, w1);
    let r = regroup(ds, w1, w2);
    lemma_expand_len(ds, w1);
    lemma_regroup_digits(ds, w1, w2);
    let p = pad(e, w2);
    let a = pad_len(e.len(), w2);
    let m1 = lemma_pad_len(p.len(), w1);
    let b = pad_len(p.len(), w1);
    let n = ds.len();
    assert(b + a + n * w1 == m1 * w1);
    assert(m1 >= n) by (nonlinear_arith)
        requires
            b + a + n * w1 == m1 * w1,
            w1 > 0,
    ;
    let k = (m1 - n) as nat;
    assert(b + a == k * w1) by (nonlinear_arith)
        requires
            b + a + n * w1 == m1 * w1,
            k == m1 - n,
    ;
    lemma_expand_zeros(k, w1);
    lemma_expand_concat(zero_digits(k), ds, w1);
    assert(pad(expand(r, w2), w1) =~= expand(zero_digits(k) + ds, w1));
    lemma_two_pow_pos(w1);
    lemma_group_expand(zero_digits(k) + ds, w1);
    k
}

/// A single zero digit regroups into a single zero digit when the fields
/// do not get narrower.
pub proof fn lemma_regroup_zero(w1: nat, w2: nat)
    requires
        0 < w1 <= w2,
    ensures
        regroup(seq![0nat], w1, w2) =~= seq![0nat],
{
    let ds = seq![0nat];
    lemma_two_pow_pos(w1);
    if w1 == w2 {
        lemma_regroup_same(ds, w1);
    } else {
        assert(ds.drop_last() =~= seq![]);
        assert(expand(ds.drop_last(), w1) =~= seq![]);
        lemma_field_zero(w1);
        assert(expand(ds, w1) =~= zero_bits(w1));
        vstd::arithmetic::div_mod::lemma_small_mod(w1, w2);
        assert(pad(expand(ds, w1), w2) =~= zero_bits(w2));
        lemma_expand_zeros(1, w2);
        lemma_two_pow_pos(w2);
        lemma_group_expand(zero_digits(1), w2);
        assert(zero_digits(1) =~= ds);
    }
}

pub proof fn lemma_bits_value_concat(a: Seq<bool>, b: Seq<bool>)
    ensures
        bits_value(a + b) == bits_value(a) * two_pow(b.len()) + bits_value(b),
    decreases b.len(),
{
    if b.len() == 0 {
        assert(a + b =~= a);
        assert(bits_value(a) * 1 == bits_value(a));
    } else {
        let bl = b.drop_last();
        lemma_bits_value_concat(a, bl);
        assert((a + b).drop_last() =~= a + bl);
        assert((a + b).last() == b.last());
        assert(two_pow(b.len()) == 2 * two_pow(bl.len()));
        let x = bits_value(a);
        let p = two_pow(bl.len());
        let y = bits_value(bl);
        assert(2 * (x * p + y) == x * (2 * p) + 2 * y) by (nonlinear_arith);
    }
}

pub proof fn lemma_bits_value_zeros(n: nat)
    ensures
        bits_value(zero_bits(n)) == 0,
    decreases n,
{
    if n > 0 {
        lemma_bits_value_zeros((n - 1) as nat);
        assert(zero_bits(n).drop_last() =~= zero_bits((n - 1) as nat));
    }
}

/// The bits of the expansion spell the number that the digits spell.
pub proof fn lemma_expand_value(ds: Seq<nat>, w: nat)
    requires
        forall|i: int| 0 <= i < ds.len() ==> ds[i] < two_pow(w),
    ensures
        bits_value(expand(ds, w)) == digits_value(ds, two_pow(w)),
    decreases ds.len(),
{
    if ds.len() > 0 {
        lemma_expand_value(ds.drop_last(), w);
        lemma_bits_value_concat(expand(ds.drop_last(), w), field(ds.last(), w));
        lemma_field_len(ds.last(), w);
        lemma_field_value(ds.last(), w);
        vstd::arithmetic::div_mod::lemma_small_mod(ds.last(), two_pow(w));
    }
}

/// Regrouping keeps the number that the digits spell.
pub proof fn lemma_regroup_value(ds: Seq<nat>, w1: nat, w2: nat)
    requires
        w2 > 0,
        forall|i: int| 0 <= i < ds.len() ==> ds[i] < two_pow(w1),
    ensures
        digits_value(regroup(ds, w1, w2), two_pow(w2)) == digits_value(ds, two_pow(w1)),
{
    let e = expand(ds, w1);
    let r = regroup(ds, w1, w2);
    lemma_regroup_digits(ds, w1, w2);
    lemma_expand_value(r, w2);
    lemma_expand_value(ds, w1);
    lemma_bits_value_concat(zero_bits(pad_len(e.len(), w2)), e);
    lemma_bits_value_zeros(pad_len(e.len(), w2));
}

/// `ds` without its leading zero digits.
pub open spec fn strip_zeros(ds: Seq<nat>) -> Seq<nat>
    decreases ds.len(),
{
    if ds.len() > 0 && ds[0] == 0 {
        strip_zeros(ds.skip(1))
    } else {
        ds
    }
}

/// Whether `ds` is empty or starts with a digit other than zero.
pub open spec fn no_leading_zero(ds: Seq<nat>) -> bool {
    ds.len() == 0 || ds[0] != 0
}

pub proof fn lemma_value_zeros_prefix(k: nat, x: Seq<nat>, b: nat)
    ensures
        digits_value(zero_digits(k) + x, b) == digits_value(x, b),
    decreases x.len() + k,
{
    if x.len() == 0 {
        assert(zero_digits(k) + x =~= zero_digits(k));
        if k > 0 {
            lemma_value_zeros_prefix((k - 1) as nat, x, b);
            assert(zero_digits(k).drop_last() =~= zero_digits((k - 1) as nat) + x);
            assert(digits_value(zero_digits((k - 1) as nat) + x, b) == 0);
            assert(0 * b == 0);
        }
    } else {
        lemma_value_zeros_prefix(k, x.drop_last(), b);
        assert((zero_digits(k) + x).drop_last() =~= zero_digits(k) + x.drop_last());
    }
}

pub proof fn lemma_strip_zeros(ds: Seq<nat>, b: nat) -> (k: nat)
    ensures
        ds =~= zero_digits(k) + strip_zeros(ds),
        no_leading_zero(strip_zeros(ds)),
        digits_value(strip_zeros(ds), b) == digits_value(ds, b),
    decreases ds.len(),
{
    if ds.len() > 0 && ds[0] == 0 {
        let k1 = lemma_strip_zeros(ds.skip(1), b);
        let rest = ds.skip(1);
        assert(strip_zeros(ds) == strip_zeros(rest));
        assert(ds =~= seq![0nat] + rest);
        assert(seq![0nat] + zero_digits(k1) =~= zero_digits(k1 + 1));
        assert(ds =~= seq![0nat] + (zero_digits(k1) + strip_zeros(rest)));
        lemma_value_zeros_prefix(k1 + 1, strip_zeros(ds), b);
        k1 + 1
    } else {
        assert(ds =~= zero_digits(0) + ds);
        0
    }
}

pub proof fn lemma_value_positive(x: Seq<nat>, b: nat)
    requires
        b >= 1,
        x.len() > 0,
        x[0] != 0,
    ensures
        digits_value(x, b) > 0,
    decreases x.len(),
{
    if x.len() > 1 {
        lemma_value_positive(x.drop_last(), b);
        let v = digits_value(x.drop_last(), b);
        assert(v * b > 0) by (nonlinear_arith)
            requires
                v > 0,
                b >= 1,
        ;
    } else {
        assert(x.drop_last().len() == 0);
    }
}

/// Digits below `b` without leading zeros spell each number at most once.
pub proof fn lemma_value_unique(x: Seq<nat>, y: Seq<nat>, b: nat)
    requires
        b >= 2,
        no_leading_zero(x),
        no_leading_zero(y),
        forall|i: int| 0 <= i < x.len() ==> x[i] < b,
        forall|i: int| 0 <= i < y.len() ==> y[i] < b,
        digits_value(x, b) == digits_value(y, b),
    ensures
        x =~= y,
    decreases x.len() + y.len(),
{
    if x.len() > 0 {
        lemma_value_positive(x, b);
    }
    if y.len() > 0 {
        lemma_value_positive(y, b);
    }
    if x.len() > 0 && y.len() > 0 {
        let xp = x.drop_last();
        let yp = y.drop_last();
        let vx = digits_value(xp, b);
        let vy = digits_value(yp, b);
        vstd::arithmetic::div_mod::lemma_fundamental_div_mod_converse(
            (vx * b + x.last()) as int,
            b as int,
            vx as int,
            x.last() as int,
        );
        vstd::arithmetic::div_mod::lemma_fundamental_div_mod_converse(
            (vy * b + y.last()) as int,
            b as int,
            vy as int,
            y.last() as int,
        );
        assert(vx * b == b * vx && vy * b == b * vy) by (nonlinear_arith);
        lemma_value_unique(xp, yp, b);
        assert(x =~= xp.push(x.last()));
        assert(y =~= yp.push(y.last()));
    }
}

} // verus!
