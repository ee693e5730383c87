//! Fixed-width big-endian digit views of a natural number.
//!
//! A value below `2^(w*n)` is read as `n` digits of `w` bits each, most
//! significant first. The identifiers use two such views: 26 Crockford digits
//! of 5 bits, and 16 bytes of 8 bits.
use vstd::arithmetic::div_mod::*;
use vstd::arithmetic::power2::*;
use vstd::prelude::*;

verus! {

/// Digit `i` of `v` in the `n`-digit, `w`-bit view (digit 0 is the most significant).
pub open spec fn digit(v: nat, w: nat, n: nat, i: nat) -> nat {
    (v / pow2(w * ((n - 1 - i) as nat))) % pow2(w)
}

/// The number formed by the top `k` digits of `v`.
pub open spec fn prefix(v: nat, w: nat, n: nat, k: nat) -> nat {
    v / pow2(w * ((n - k) as nat))
}

/// The digits of `v1` and `v2` agree at every position before `j`.
pub open spec fn digits_agree_before(v1: nat, v2: nat, w: nat, n: nat, j: nat) -> bool {
    forall|i: nat| i < j ==> #[trigger] digit(v1, w, n, i) == digit(v2, w, n, i)
}

/// At the first position where the digits of `v1` and `v2` differ, `v1` has the smaller one.
pub open spec fn digits_precede(v1: nat, v2: nat, w: nat, n: nat) -> bool {
    exists|j: nat|
        #![trigger digit(v1, w, n, j)]
        j < n && digits_agree_before(v1, v2, w, n, j) && digit(v1, w, n, j) < digit(v2, w, n, j)
}

proof fn lemma_div_pow2_twice(v: nat, a: nat, b: nat)
    ensures
        v / pow2(a) / pow2(b) == v / pow2(a + b),
{
    lemma_pow2_pos(a);
    lemma_pow2_pos(b);
    lemma_pow2_adds(a, b);
    lemma_div_denominator(v as int, pow2(a) as int, pow2(b) as int);
}

/// Digit `i` depends only on the top `k` digits, for `i < k`.
pub proof fn lemma_digit_of_prefix(v: nat, w: nat, n: nat, k: nat, i: nat)
    requires
        i < k <= n,
    ensures
        digit(v, w, n, i) == (prefix(v, w, n, k) / pow2(w * ((k - 1 - i) as nat))) % pow2(w),
{
    assert(w * ((n - k) as nat) + w * ((k - 1 - i) as nat) == w * ((n - 1 - i) as nat))
        by (nonlinear_arith)
        requires
            i < k <= n,
    ;
    lemma_div_pow2_twice(v, w * ((n - k) as nat), w * ((k - 1 - i) as nat));
}

/// Values with equal top-`k` prefixes agree on their first `k` digits.
pub proof fn lemma_equal_prefix_digits(v1: nat, v2: nat, w: nat, n: nat, k: nat)
    requires
        k <= n,
        prefix(v1, w, n, k) == prefix(v2, w, n, k),
    ensures
        digits_agree_before(v1, v2, w, n, k),
{
    assert forall|i: nat| i < k implies #[trigger] digit(v1, w, n, i) == digit(v2, w, n, i) by {
        lemma_digit_of_prefix(v1, w, n, k, i);
        lemma_digit_of_prefix(v2, w, n, k, i);
    }
}

/// Dropping the last of the top `k` digits divides the prefix by `2^w`.
pub proof fn lemma_prefix_shorter(v: nat, w: nat, n: nat, k: nat)
    requires
        1 <= k <= n,
    ensures
        prefix(v, w, n, (k - 1) as nat) == prefix(v, w, n, k) / pow2(w),
        digit(v, w, n, (k - 1) as nat) == prefix(v, w, n, k) % pow2(w),
{
    assert(w * ((n - k) as nat) + w == w * ((n - (k - 1)) as nat)) by (nonlinear_arith)
        requires
            1 <= k <= n,
    ;
    lemma_div_pow2_twice(v, w * ((n - k) as nat), w);
}

/// The top `k` digits, read as a number, are the previous prefix shifted up one digit
/// plus digit `k - 1`.
pub proof fn lemma_prefix_extend(v: nat, w: nat, n: nat, k: nat)
    requires
        1 <= k <= n,
    ensures
        prefix(v, w, n, k) == prefix(v, w, n, (k - 1) as nat) * pow2(w) + digit(
            v,
            w,
            n,
            (k - 1) as nat,
        ),
{
    lemma_prefix_shorter(v, w, n, k);
    lemma_pow2_pos(w);
    lemma_fundamental_div_mod(prefix(v, w, n, k) as int, pow2(w) as int);
    assert(pow2(w) * (prefix(v, w, n, k) / pow2(w)) == (prefix(v, w, n, k) / pow2(w)) * pow2(w))
        by (nonlinear_arith);
}

/// A value below `2^(w*n)` has an empty top-0 prefix and is its own full prefix.
pub proof fn lemma_prefix_ends(v: nat, w: nat, n: nat)
    requires
        v < pow2(w * n),
    ensures
        prefix(v, w, n, 0) == 0,
        prefix(v, w, n, n) == v,
{
    lemma_pow2_pos(w * n);
    lemma_small_div_converse_nat(v, pow2(w * n));
    assert(w * ((n - n) as nat) == 0) by (nonlinear_arith);
    assert(pow2(0) == 1) by {
        lemma2_to64();
    }
}

proof fn lemma_small_div_converse_nat(x: nat, d: nat)
    requires
        x < d,
    ensures
        x / d == 0,
{
    lemma_basic_div(x as int, d as int);
}

/// If the top-`k` prefix of `v1` is smaller, then `v1` has the smaller digit at
/// the first position (before `k`) where the two differ.
pub proof fn lemma_prefix_order(v1: nat, v2: nat, w: nat, n: nat, k: nat)
    requires
        v1 < pow2(w * n),
        v2 < pow2(w * n),
        k <= n,
        prefix(v1, w, n, k) < prefix(v2, w, n, k),
    ensures
        exists|j: nat|
            #![trigger digit(v1, w, n, j)]
            j < k && digits_agree_before(v1, v2, w, n, j) && digit(v1, w, n, j) < digit(
                v2,
                w,
                n,
                j,
            ),
    decreases k,
{
    lemma_prefix_ends(v1, w, n);
    lemma_prefix_ends(v2, w, n);
    if k > 0 {
        let p1 = prefix(v1, w, n, k);
        let p2 = prefix(v2, w, n, k);
        let km = (k - 1) as nat;
        lemma_prefix_shorter(v1, w, n, k);
        lemma_prefix_shorter(v2, w, n, k);
        lemma_pow2_pos(w);
        lemma_div_is_ordered(p1 as int, p2 as int, pow2(w) as int);
        if prefix(v1, w, n, km) < prefix(v2, w, n, km) {
            lemma_prefix_order(v1, v2, w, n, km);
        } else {
            lemma_equal_prefix_digits(v1, v2, w, n, km);
            lemma_fundamental_div_mod(p1 as int, pow2(w) as int);
            lemma_fundamental_div_mod(p2 as int, pow2(w) as int);
            assert(digit(v1, w, n, km) < digit(v2, w, n, km));
        }
    }
}

/// A smaller value has the smaller digit at the first position where the digits differ.
pub proof fn lemma_value_order_digits(v1: nat, v2: nat, w: nat, n: nat)
    requires
        v1 < v2 < pow2(w * n),
    ensures
        digits_precede(v1, v2, w, n),
{
    lemma_prefix_ends(v1, w, n);
    lemma_prefix_ends(v2, w, n);
    lemma_prefix_order(v1, v2, w, n, n);
}

/// The number whose base-`2^w` digits, most significant first, are `ds`.
pub open spec fn horner(ds: Seq<nat>, w: nat) -> nat
    decreases ds.len(),
{
    if ds.len() == 0 {
        0
    } else {
        horner(ds.drop_last(), w) * pow2(w) + ds.last()
    }
}

/// Reading back the first `k` digits of `v` gives its top-`k` prefix.
pub proof fn lemma_horner_prefix(v: nat, w: nat, n: nat, ds: Seq<nat>, k: nat)
    requires
        v < pow2(w * n),
        k <= n,
        k <= ds.len(),
        forall|i: int| 0 <= i < k ==> #[trigger] ds[i] == digit(v, w, n, i as nat),
    ensures
        horner(ds.take(k as int), w) == prefix(v, w, n, k),
    decreases k,
{
    lemma_prefix_ends(v, w, n);
    if k > 0 {
        assert(ds.take(k as int).drop_last() =~= ds.take(k - 1));
        lemma_horner_prefix(v, w, n, ds, (k - 1) as nat);
        lemma_prefix_extend(v, w, n, k);
        assert(ds.take(k as int).last() == ds[k - 1]);
    }
}

/// Every digit is below `2^w`.
pub open spec fn digits_in_range(ds: Seq<nat>, w: nat) -> bool {
    forall|i: int| 0 <= i < ds.len() ==> #[trigger] ds[i] < pow2(w)
}

/// `n` digits below `2^w` spell a number below `2^(w*n)`.
pub proof fn lemma_horner_bound(ds: Seq<nat>, w: nat)
    requires
        digits_in_range(ds, w),
    ensures
        horner(ds, w) < pow2(w * ds.len()),
    decreases ds.len(),
{
    let n = ds.len();
    if n == 0 {
        lemma2_to64();
    } else {
        let dl = ds.drop_last();
        assert(digits_in_range(dl, w));
        lemma_horner_bound(dl, w);
        let a = horner(dl, w);
        let p = pow2(w * dl.len());
        lemma_pow2_adds(w * dl.len(), w);
        assert(w * dl.len() + w == w * n) by (nonlinear_arith)
            requires
                dl.len() + 1 == n,
        ;
        assert(a * pow2(w) + ds.last() < p * pow2(w)) by (nonlinear_arith)
            requires
                a < p,
                ds.last() < pow2(w),
        ;
    }
}

/// The first `k` digits, shifted up past the remaining ones, plus the number
/// the remaining digits spell, give the whole number.
pub proof fn lemma_horner_split(ds: Seq<nat>, w: nat, k: nat)
    requires
        k <= ds.len(),
    ensures
        horner(ds, w) == horner(ds.take(k as int), w) * pow2(w * ((ds.len() - k) as nat))
            + horner(ds.skip(k as int), w),
    decreases ds.len(),
{
    let n = ds.len();
    if k == n {
        assert(ds.take(k as int) =~= ds);
        assert(ds.skip(k as int) =~= Seq::<nat>::empty());
        assert(w * ((n - k) as nat) == 0) by (nonlinear_arith)
            requires
                k == n,
        ;
        lemma2_to64();
        assert(horner(ds.skip(k as int), w) == 0);
        assert(pow2(w * ((n - k) as nat)) == 1);
        assert(horner(ds.take(k as int), w) * 1 == horner(ds, w));
    } else {
        let dl = ds.drop_last();
        lemma_horner_split(dl, w, k);
        assert(dl.take(k as int) =~= ds.take(k as int));
        assert(ds.skip(k as int).drop_last() =~= dl.skip(k as int));
        assert(ds.skip(k as int).last() == ds.last());
        let a = horner(ds.take(k as int), w);
        let b = horner(dl.skip(k as int), w);
        let e = w * ((n - 1 - k) as nat);
        lemma_pow2_adds(e, w);
        assert(e + w == w * ((n - k) as nat)) by (nonlinear_arith)
            requires
                e == w * ((n - 1 - k) as nat),
                k < n,
        ;
        assert((a * pow2(e) + b) * pow2(w) + ds.last() == a * (pow2(e) * pow2(w)) + (b * pow2(w)
            + ds.last())) by (nonlinear_arith);
        assert(horner(ds, w) == horner(dl, w) * pow2(w) + ds.last());
        assert(horner(dl, w) == a * pow2(e) + b);
        assert(horner(ds.skip(k as int), w) == b * pow2(w) + ds.last());
        assert(pow2(e) * pow2(w) == pow2(w * ((n - k) as nat)));
    }
}

/// The digits of the number that digits below `2^w` spell are those digits,
/// and its top-`k` prefix is the number the first `k` of them spell.
pub proof fn lemma_digits_of_horner(ds: Seq<nat>, w: nat, k: nat)
    requires
        digits_in_range(ds, w),
        k <= ds.len(),
    ensures
        prefix(horner(ds, w), w, ds.len(), k) == horner(ds.take(k as int), w),
        k < ds.len() ==> digit(horner(ds, w), w, ds.len(), k) == ds[k as int],
    decreases ds.len() - k,
{
    let n = ds.len();
    let v = horner(ds, w);
    let e = w * ((n - k) as nat);
    lemma_horner_split(ds, w, k);
    let rest = ds.skip(k as int);
    assert(digits_in_range(rest, w));
    lemma_horner_bound(rest, w);
    assert(rest.len() == n - k);
    lemma_pow2_pos(e);
    lemma_fundamental_div_mod_converse_div(
        v as int,
        pow2(e) as int,
        horner(ds.take(k as int), w) as int,
        horner(rest, w) as int,
    );
    if k < n {
        lemma_digits_of_horner(ds, w, k + 1);
        lemma_prefix_shorter(v, w, n, k + 1);
        let t = ds.take((k + 1) as int);
        assert(t.drop_last() =~= ds.take(k as int));
        assert(t.last() == ds[k as int]);
        lemma_pow2_pos(w);
        lemma_fundamental_div_mod_converse_mod(
            horner(t, w) as int,
            pow2(w) as int,
            horner(ds.take(k as int), w) as int,
            ds[k as int] as int,
        );
    }
}

} // verus!
