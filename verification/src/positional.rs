//! The mathematical model of positional notation: how many digits a
//! number has in a given radix, what those digits are, and what number
//! a digit string denotes.

use vstd::prelude::*;
use vstd::arithmetic::div_mod::lemma_div_decreases;
use vstd::arithmetic::div_mod::lemma_div_denominator;
use vstd::arithmetic::div_mod::lemma_div_pos_is_pos;
use vstd::arithmetic::div_mod::lemma_fundamental_div_mod;
use vstd::arithmetic::div_mod::lemma_fundamental_div_mod_converse;
use vstd::arithmetic::div_mod::lemma_mod_bound;
use vstd::arithmetic::div_mod::lemma_mod_breakdown;
use vstd::arithmetic::div_mod::lemma_multiply_divide_lt;
use vstd::arithmetic::div_mod::lemma_small_mod;
use vstd::arithmetic::power::lemma_pow_positive;
use vstd::arithmetic::power::pow;

verus! {

/// How many digits `n` has in base `r`; zero has exactly one digit.
pub open spec fn num_digits(n: int, r: int) -> nat
    recommends
        r >= 2,
        n >= 0,
    decreases n,
        when r >= 2 && n >= 0 via num_digits_decreases
{
    if n < r {
        1
    } else {
        (1 + num_digits(n / r, r)) as nat
    }
}

#[via_fn]
proof fn num_digits_decreases(n: int, r: int) {
    if n >= r {
        lemma_div_decreases(n, r);
        lemma_div_pos_is_pos(n, r);
    }
}

/// The digit string of `n` in base `r`, most significant digit first,
/// padded with leading zeros to exactly `len` digits.
pub open spec fn digits_be(n: int, r: int, len: nat) -> Seq<int>
    recommends
        r >= 2,
        n >= 0,
    decreases len,
{
    if len == 0 {
        Seq::empty()
    } else {
        digits_be(n / r, r, (len - 1) as nat).push(n % r)
    }
}

/// The digit string of `n` in base `r`, least significant digit first,
/// padded with trailing zeros to exactly `len` digits.
pub open spec fn digits_le(n: int, r: int, len: nat) -> Seq<int>
    recommends
        r >= 2,
        n >= 0,
    decreases len,
{
    if len == 0 {
        Seq::empty()
    } else {
        seq![n % r] + digits_le(n / r, r, (len - 1) as nat)
    }
}

/// The number denoted by the digit string `s` in base `r`, reading the
/// digits most significant first: the fold `acc * r + digit`.
pub open spec fn value_of(s: Seq<int>, r: int) -> int
    decreases s.len(),
{
    if s.len() == 0 {
        0
    } else {
        value_of(s.drop_last(), r) * r + s.last()
    }
}

/// A digit string has exactly the length it was asked for.
pub proof fn lemma_digits_be_len(n: int, r: int, len: nat)
    ensures
        digits_be(n, r, len).len() == len,
    decreases len,
{
    if len > 0 {
        lemma_digits_be_len(n / r, r, (len - 1) as nat);
    }
}

/// Every digit of a number that fits in `len` digits lies in `[0, r)`.
pub proof fn lemma_digits_be_bounded(n: int, r: int, len: nat)
    requires
        r >= 2,
        0 <= n,
        n < pow(r, len),
    ensures
        forall|i: int|
            0 <= i < digits_be(n, r, len).len() ==> 0 <= #[trigger] digits_be(n, r, len)[i] < r,
    decreases len,
{
    reveal(pow);
    if len > 0 {
        let p = pow(r, (len - 1) as nat);
        assert(pow(r, len) == r * p);
        lemma_multiply_divide_lt(n, r, p);
        lemma_div_pos_is_pos(n, r);
        lemma_digits_be_bounded(n / r, r, (len - 1) as nat);
        lemma_mod_bound(n, r);
        let s = digits_be(n, r, len);
        let t = digits_be(n / r, r, (len - 1) as nat);
        lemma_digits_be_len(n / r, r, (len - 1) as nat);
        assert forall|i: int| 0 <= i < s.len() implies 0 <= #[trigger] s[i] < r by {
            if i < t.len() {
                assert(s[i] == t[i]);
            } else {
                assert(s[i] == n % r);
            }
        }
    }
}

/// The most significant digit is the quotient by the highest place
/// value, and what remains after removing it is the digit string of the
/// remainder by that place value.
pub proof fn lemma_digits_be_split_first(n: int, r: int, len: nat)
    requires
        r >= 2,
        0 <= n,
        n < pow(r, len),
        len >= 1,
    ensures
        digits_be(n, r, len).first() == n / pow(r, (len - 1) as nat),
        digits_be(n, r, len).drop_first() == digits_be(
            n % pow(r, (len - 1) as nat),
            r,
            (len - 1) as nat,
        ),
    decreases len,
{
    reveal(pow);
    let p = pow(r, (len - 1) as nat);
    lemma_pow_positive(r, (len - 1) as nat);
    lemma_digits_be_len(n, r, len);
    if len == 1 {
        lemma_small_mod(n as nat, r as nat);
        vstd::arithmetic::div_mod::lemma_div_basics(n);
        assert(digits_be(n, r, 1) =~= seq![n]);
        assert(digits_be(n, r, 1).drop_first() =~= digits_be(n % 1, r, 0));
    } else {
        let q = pow(r, (len - 2) as nat);
        assert(p == r * q);
        lemma_pow_positive(r, (len - 2) as nat);
        lemma_div_pos_is_pos(n, r);
        assert(pow(r, len) == r * p);
        lemma_multiply_divide_lt(n, r, p);
        lemma_digits_be_split_first(n / r, r, (len - 1) as nat);
        // The leading digit survives pushing a digit at the far end.
        lemma_div_denominator(n, r, q);
        let s = digits_be(n, r, len);
        let t = digits_be(n / r, r, (len - 1) as nat);
        lemma_digits_be_len(n / r, r, (len - 1) as nat);
        assert(s.first() == t.first());
        // The tail: the middle digits come from (n / r) % q, the last
        // digit is n % r, and together they are the digit string of
        // n % p.
        lemma_mod_breakdown(n, r, q);
        lemma_mod_bound(n, r);
        lemma_fundamental_div_mod_converse(n % p, r, (n / r) % q, n % r);
        lemma_digits_be_len((n / r) % q, r, (len - 2) as nat);
        assert(s.drop_first() =~= t.drop_first().push(n % r));
        assert(digits_be(n % p, r, (len - 1) as nat) == digits_be(
            (n % p) / r,
            r,
            (len - 2) as nat,
        ).push((n % p) % r));
    }
}

/// Folding the digit string of `n`, most significant first, with
/// `acc * r + digit` gives back exactly `n`.
pub proof fn lemma_value_of_digits_be(n: int, r: int, len: nat)
    requires
        r >= 2,
        0 <= n,
        n < pow(r, len),
    ensures
        value_of(digits_be(n, r, len), r) == n,
    decreases len,
{
    reveal(pow);
    if len > 0 {
        let p = pow(r, (len - 1) as nat);
        assert(pow(r, len) == r * p);
        lemma_multiply_divide_lt(n, r, p);
        lemma_div_pos_is_pos(n, r);
        lemma_value_of_digits_be(n / r, r, (len - 1) as nat);
        let t = digits_be(n / r, r, (len - 1) as nat);
        let s = digits_be(n, r, len);
        lemma_digits_be_len(n, r, len);
        lemma_digits_be_len(n / r, r, (len - 1) as nat);
        assert(s.drop_last() =~= t);
        lemma_fundamental_div_mod(n, r);
        assert(value_of(s, r) == value_of(s.drop_last(), r) * r + s.last());
    }
}

/// A number is strictly below the radix raised to its own digit count.
pub proof fn lemma_num_digits_bound(n: int, r: int)
    requires
        r >= 2,
        0 <= n,
    ensures
        num_digits(n, r) >= 1,
        n < pow(r, num_digits(n, r)),
    decreases n,
{
    reveal(pow);
    if n < r {
        assert(pow(r, 1) == r * pow(r, 0));
    } else {
        lemma_div_decreases(n, r);
        lemma_div_pos_is_pos(n, r);
        lemma_num_digits_bound(n / r, r);
        let d = num_digits(n / r, r);
        lemma_fundamental_div_mod(n, r);
        lemma_mod_bound(n, r);
        let q = n / r;
        let m = n % r;
        let p = pow(r, d);
        assert(n < r * p) by (nonlinear_arith)
            requires
                n == r * q + m,
                q < p,
                0 <= m < r,
                r >= 2,
        ;
        assert(pow(r, d + 1) == r * p);
    }
}

/// A digit string of nonnegative digits denotes a nonnegative number.
pub proof fn lemma_value_of_nonneg(s: Seq<int>, r: int)
    requires
        r >= 1,
        forall|i: int| 0 <= i < s.len() ==> s[i] >= 0,
    ensures
        value_of(s, r) >= 0,
    decreases s.len(),
{
    if s.len() > 0 {
        let t = s.drop_last();
        assert(forall|i: int| 0 <= i < t.len() ==> t[i] == s[i]);
        lemma_value_of_nonneg(t, r);
        let v = value_of(t, r);
        assert(v * r >= 0) by (nonlinear_arith)
            requires
                v >= 0,
                r >= 1,
        ;
    }
}

/// With nonnegative digits, the number denoted by a prefix of a digit
/// string never exceeds the number denoted by the whole string.
pub proof fn lemma_value_of_take_le(s: Seq<int>, r: int, j: int)
    requires
        r >= 1,
        0 <= j <= s.len(),
        forall|i: int| 0 <= i < s.len() ==> s[i] >= 0,
    ensures
        value_of(s.take(j), r) <= value_of(s, r),
    decreases s.len() - j,
{
    if j == s.len() {
        assert(s.take(j) =~= s);
    } else {
        let t = s.take(j);
        assert(forall|i: int| 0 <= i < t.len() ==> t[i] == s[i]);
        assert(s.take(j + 1).drop_last() =~= t);
        assert(s.take(j + 1).last() == s[j]);
        lemma_value_of_nonneg(t, r);
        let v = value_of(t, r);
        assert(v <= v * r) by (nonlinear_arith)
            requires
                v >= 0,
                r >= 1,
        ;
        lemma_value_of_take_le(s, r, j + 1);
    }
}

/// Law: the digit string read most significant first, then reversed,
/// is exactly the digit string read least significant first. Listing
/// the digits by repeated forward extraction and reversing that list
/// therefore agrees with listing them by repeated backward extraction.
pub proof fn lemma_digits_be_reverse(n: int, r: int, len: nat)
    requires
        r >= 2,
        0 <= n,
    ensures
        digits_be(n, r, len).reverse() == digits_le(n, r, len),
    decreases len,
{
    if len == 0 {
        assert(digits_be(n, r, 0).reverse() =~= digits_le(n, r, 0));
    } else {
        lemma_div_pos_is_pos(n, r);
        lemma_digits_be_reverse(n / r, r, (len - 1) as nat);
        let t = digits_be(n / r, r, (len - 1) as nat);
        lemma_digits_be_len(n / r, r, (len - 1) as nat);
        assert(t.push(n % r).reverse() =~= seq![n % r] + t.reverse());
    }
}

/// Law: decomposing a number into its digits and folding that digit
/// string back, most significant first, reproduces the number.
pub proof fn lemma_digits_round_trip(n: int, r: int)
    requires
        r >= 2,
        0 <= n,
    ensures
        value_of(digits_be(n, r, num_digits(n, r)), r) == n,
{
    lemma_num_digits_bound(n, r);
    lemma_value_of_digits_be(n, r, num_digits(n, r));
}

} // verus!
