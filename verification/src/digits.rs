//! A double-ended traversal over the digits of a number.

use vstd::prelude::*;
use crate::positional::digits_be;
use crate::positional::lemma_digits_be_bounded;
use crate::positional::lemma_digits_be_len;
use crate::positional::lemma_digits_be_split_first;
use crate::positional::lemma_num_digits_bound;
use crate::positional::lemma_value_of_digits_be;
use crate::positional::lemma_value_of_take_le;
use crate::positional::num_digits;
use crate::positional::value_of;
use vstd::arithmetic::div_mod::lemma_div_basics;
use vstd::arithmetic::div_mod::lemma_div_decreases;
use vstd::arithmetic::div_mod::lemma_div_denominator;
use vstd::arithmetic::div_mod::lemma_div_multiples_vanish;
use vstd::arithmetic::div_mod::lemma_div_pos_is_pos;
use vstd::arithmetic::div_mod::lemma_fundamental_div_mod;
use vstd::arithmetic::div_mod::lemma_mod_bound;
use vstd::arithmetic::div_mod::lemma_multiply_divide_lt;
use vstd::arithmetic::power::lemma_pow0;
use vstd::arithmetic::power::lemma_pow_increases;
use vstd::arithmetic::power::lemma_pow_positive;
use vstd::arithmetic::power::pow;
use vstd::arithmetic::power2::lemma2_to64;
use vstd::arithmetic::power2::lemma_pow2;

verus! {

/// The reasons a radix is rejected at construction.
#[derive(Debug, PartialEq, Eq)]
pub enum RadixError {
    /// The radix was 0: decomposition is undefined.
    Radix0,
    /// The radix was 1: the digit string would be unbounded.
    Radix1,
}

/// The digits of a number in a fixed radix, consumable one digit at a
/// time from either end.
///
/// The abstract value (the view) is the remaining digit string, most
/// significant digit first.
#[derive(Clone, Debug, PartialEq, Eq)]
pub struct DigitsIterator {
    current: u64,
    radix: u64,
    splitter: u64,
    len: usize,
}

impl View for DigitsIterator {
    type V = Seq<int>;

    closed spec fn view(&self) -> Seq<int> {
        digits_be(self.current as int, self.radix as int, self.len as nat)
    }
}

impl DigitsIterator {
    /// The radix the digits are taken in.
    pub closed spec fn radix(&self) -> int {
        self.radix as int
    }

    /// The internal consistency of the cursor state: the radix is
    /// valid, the remaining value fits in the remaining digit count,
    /// and the place-value divisor isolates the most significant
    /// remaining digit.
    pub closed spec fn wf(&self) -> bool {
        &&& self.radix >= 2
        &&& (self.current as int) < pow(self.radix as int, self.len as nat)
        &&& (self.len > 0 ==> self.splitter as int == pow(
            self.radix as int,
            (self.len - 1) as nat,
        ))
    }

    /// How many digits remain to be extracted; reading it consumes
    /// nothing.
    pub fn remaining_len(&self) -> (n: usize)
        ensures
            n == self@.len(),
    {
        proof {
            lemma_digits_be_len(self.current as int, self.radix as int, self.len as nat);
        }
        self.len
    }

    /// Decompose `number` into its digits in base `radix`.
    ///
    /// A radix of 0 or 1 is rejected, each with its own error; for any
    /// radix of at least 2 the digit string of `number` is produced,
    /// most significant digit first, with zero getting the single digit
    /// 0.
    pub fn new(number: u64, radix: u64) -> (result: Result<DigitsIterator, RadixError>)
        ensures
            radix == 0 ==> result == Err::<DigitsIterator, RadixError>(RadixError::Radix0),
            radix == 1 ==> result == Err::<DigitsIterator, RadixError>(RadixError::Radix1),
            radix >= 2 ==> (result matches Ok(d) && d.wf() && d.radix() == radix && d@
                == digits_be(
                number as int,
                radix as int,
                num_digits(number as int, radix as int),
            ) && d@.len() == num_digits(number as int, radix as int)),
    {
        if radix == 0 {
            return Err(RadixError::Radix0);
        } else if radix == 1 {
            return Err(RadixError::Radix1);
        }
        let mut len: usize = 1;
        let mut splitter: u64 = 1;
        let mut n = number;
        proof {
            lemma_pow0(radix as int);
            lemma_pow0(2);
            lemma_div_basics(number as int);
        }
        while n >= radix
            invariant
                radix >= 2,
                1 <= len <= 64,
                splitter as int == pow(radix as int, (len - 1) as nat),
                pow(2, (len - 1) as nat) <= splitter as int,
                n as int == number as int / (splitter as int),
                num_digits(number as int, radix as int) == (len - 1) + num_digits(
                    n as int,
                    radix as int,
                ),
            decreases n,
        {
            proof {
                let r = radix as int;
                let p = splitter as int;
                let num = number as int;
                lemma_pow_positive(r, (len - 1) as nat);
                lemma_fundamental_div_mod(num, p);
                lemma_mod_bound(num, p);
                assert(p * r <= num) by (nonlinear_arith)
                    requires
                        num == p * (num / p) + num % p,
                        num / p >= r,
                        num % p >= 0,
                        p > 0,
                        r > 0,
                ;
                assert(pow(r, len as nat) == r * pow(r, (len - 1) as nat)) by {
                    reveal(pow);
                }
                assert(pow(2, len as nat) == 2 * pow(2, (len - 1) as nat)) by {
                    reveal(pow);
                }
                assert(2 * p <= p * r) by (nonlinear_arith)
                    requires
                        p > 0,
                        r >= 2,
                ;
                lemma_div_denominator(num, p, r);
                // The loop cannot run past 64 digits: each iteration at
                // least doubles the place value, which fits in 64 bits.
                if len >= 64 {
                    lemma2_to64();
                    lemma_pow2(64);
                    lemma_pow_increases(2, 64, len as nat);
                    assert(false);
                }
                lemma_div_decreases(n as int, r);
                lemma_div_pos_is_pos(n as int, r);
            }
            len = len + 1;
            splitter = splitter * radix;
            n = n / radix;
        }
        proof {
            let r = radix as int;
            assert(num_digits(n as int, r) == 1);
            lemma_num_digits_bound(number as int, r);
            lemma_digits_be_len(number as int, r, len as nat);
        }
        Ok(DigitsIterator { current: number, radix, splitter, len })
    }

    /// Extract the most significant remaining digit, or report
    /// exhaustion; once exhausted, every further call reports
    /// exhaustion and changes nothing.
    pub fn next(&mut self) -> (result: Option<u64>)
        requires
            old(self).wf(),
        ensures
            final(self).wf(),
            final(self).radix() == old(self).radix(),
            old(self)@.len() == 0 ==> (result is None && *final(self) == *old(self)),
            old(self)@.len() > 0 ==> (result matches Some(d) && d as int == old(self)@.first()
                && final(self)@ == old(self)@.drop_first()),
    {
        proof {
            lemma_digits_be_len(self.current as int, self.radix as int, self.len as nat);
        }
        if self.len == 0 {
            None
        } else {
            proof {
                let c = self.current as int;
                let r = self.radix as int;
                let len = self.len as nat;
                lemma_pow_positive(r, (len - 1) as nat);
                lemma_digits_be_split_first(c, r, len);
                lemma_mod_bound(c, pow(r, (len - 1) as nat));
                if self.len >= 2 {
                    assert(pow(r, (len - 1) as nat) == r * pow(r, (len - 2) as nat)) by {
                        reveal(pow);
                    }
                    lemma_div_multiples_vanish(pow(r, (len - 2) as nat), r);
                    lemma_pow_positive(r, (len - 2) as nat);
                }
            }
            let digit = self.current / self.splitter;
            self.current = self.current % self.splitter;
            self.splitter = self.splitter / self.radix;
            self.len = self.len - 1;
            Some(digit)
        }
    }

    /// Extract the least significant remaining digit, or report
    /// exhaustion; once exhausted, every further call reports
    /// exhaustion and changes nothing.
    pub fn next_back(&mut self) -> (result: Option<u64>)
        requires
            old(self).wf(),
        ensures
            final(self).wf(),
            final(self).radix() == old(self).radix(),
            old(self)@.len() == 0 ==> (result is None && *final(self) == *old(self)),
            old(self)@.len() > 0 ==> (result matches Some(d) && d as int == old(self)@.last()
                && final(self)@ == old(self)@.drop_last()),
    {
        proof {
            lemma_digits_be_len(self.current as int, self.radix as int, self.len as nat);
        }
        if self.len == 0 {
            None
        } else {
            proof {
                let c = self.current as int;
                let r = self.radix as int;
                let len = self.len as nat;
                lemma_digits_be_len(c / r, r, (len - 1) as nat);
                assert(self@.drop_last() =~= digits_be(c / r, r, (len - 1) as nat));
                lemma_mod_bound(c, r);
                assert(pow(r, len) == r * pow(r, (len - 1) as nat)) by {
                    reveal(pow);
                }
                lemma_multiply_divide_lt(c, r, pow(r, (len - 1) as nat));
                lemma_div_pos_is_pos(c, r);
                if self.len >= 2 {
                    assert(pow(r, (len - 1) as nat) == r * pow(r, (len - 2) as nat)) by {
                        reveal(pow);
                    }
                    lemma_div_multiples_vanish(pow(r, (len - 2) as nat), r);
                    lemma_pow_positive(r, (len - 2) as nat);
                }
            }
            let digit = self.current % self.radix;
            self.current = self.current / self.radix;
            self.splitter = self.splitter / self.radix;
            self.len = self.len - 1;
            Some(digit)
        }
    }

    /// Fold the remaining digits into a number, most significant digit
    /// first, by `acc = acc * radix + digit`. The result is the value
    /// the remaining digit string denotes; it always fits, because the
    /// digits came out of a value of this same width.
    pub fn into_number(self) -> (n: u64)
        requires
            self.wf(),
        ensures
            n as int == value_of(self@, self.radix()),
    {
        let ghost s = self@;
        let ghost total = self.current as int;
        let radix = self.radix;
        let mut cur = self.current;
        let mut spl = self.splitter;
        let mut k = self.len;
        let mut acc: u64 = 0;
        proof {
            lemma_value_of_digits_be(self.current as int, radix as int, self.len as nat);
        }
        while k > 0
            invariant
                radix >= 2,
                (cur as int) < pow(radix as int, k as nat),
                k > 0 ==> spl as int == pow(radix as int, (k - 1) as nat),
                acc as int * pow(radix as int, k as nat) + cur as int == total,
                0 <= total <= u64::MAX,
                total == value_of(s, radix as int),
            decreases k,
        {
            proof {
                let r = radix as int;
                let a = acc as int;
                let c = cur as int;
                let p = pow(r, (k - 1) as nat);
                lemma_pow_positive(r, (k - 1) as nat);
                assert(pow(r, k as nat) == r * p) by {
                    reveal(pow);
                }
                lemma_fundamental_div_mod(c, p);
                lemma_mod_bound(c, p);
                lemma_div_pos_is_pos(c, p);
                assert(a * r + c / p <= total && (a * r + c / p) * p + c % p == total) by (nonlinear_arith)
                    requires
                        a >= 0,
                        r >= 2,
                        p >= 1,
                        c >= 0,
                        c / p >= 0,
                        c == p * (c / p) + c % p,
                        c % p >= 0,
                        a * (r * p) + c == total,
                ;
                if k >= 2 {
                    assert(p == r * pow(r, (k - 2) as nat)) by {
                        reveal(pow);
                    }
                    lemma_div_multiples_vanish(pow(r, (k - 2) as nat), r);
                    lemma_pow_positive(r, (k - 2) as nat);
                }
            }
            let digit = cur / spl;
            acc = acc * radix + digit;
            cur = cur % spl;
            spl = spl / radix;
            k = k - 1;
        }
        proof {
            lemma_pow0(radix as int);
        }
        acc
    }

    /// Fold the remaining digits into a number least significant digit
    /// first, building the mirror-image number with checked
    /// arithmetic. The result is the value the reversed digit string
    /// denotes, and it is `None` exactly when that value does not fit
    /// in 64 bits.
    pub fn into_reversed_number(self) -> (result: Option<u64>)
        requires
            self.wf(),
        ensures
            value_of(self@.reverse(), self.radix()) <= u64::MAX ==> (result matches Some(n)
                && n as int == value_of(self@.reverse(), self.radix())),
            value_of(self@.reverse(), self.radix()) > u64::MAX ==> result is None,
    {
        let ghost s = self@;
        let ghost t = self@.reverse();
        let radix = self.radix;
        let mut cur = self.current;
        let mut k = self.len;
        let mut acc: u64 = 0;
        proof {
            lemma_digits_be_len(self.current as int, radix as int, self.len as nat);
            lemma_digits_be_bounded(self.current as int, radix as int, self.len as nat);
            assert(t.take(0) =~= Seq::<int>::empty());
            assert(s.take(k as int) =~= s);
        }
        while k > 0
            invariant
                radix >= 2,
                s == self@,
                radix as int == self.radix(),
                k <= s.len(),
                t == s.reverse(),
                t.len() == s.len(),
                forall|j: int| 0 <= j < s.len() ==> 0 <= #[trigger] s[j] < radix as int,
                (cur as int) < pow(radix as int, k as nat),
                digits_be(cur as int, radix as int, k as nat) == s.take(k as int),
                acc as int == value_of(t.take(s.len() - k), radix as int),
            decreases k,
        {
            let ghost r = radix as int;
            let ghost i = s.len() - k;
            proof {
                lemma_digits_be_len(cur as int, r, k as nat);
                lemma_mod_bound(cur as int, r);
                // The digit about to come off is position i of the
                // reversed digit string.
                assert(s.take(k as int).last() == (cur as int) % r);
                assert(t[i as int] == s[k - 1]);
                assert(t.take(i + 1).drop_last() =~= t.take(i as int));
                assert(t.take(i + 1).last() == t[i as int]);
                assert(forall|j: int| 0 <= j < t.len() ==> #[trigger] t[j] >= 0);
            }
            let digit = cur % radix;
            let next_acc = match acc.checked_mul(radix) {
                Some(m) => m.checked_add(digit),
                None => None,
            };
            match next_acc {
                Some(a2) => {
                    acc = a2;
                },
                None => {
                    proof {
                        // The partial value already overflows, and the
                        // whole reversed value is at least as large.
                        assert(acc as int * r + digit as int > u64::MAX);
                        assert(digit as int == t[i as int]);
                        assert(value_of(t.take(i + 1), r) == acc as int * r + t[i as int]);
                        lemma_value_of_take_le(t, r, i + 1);
                        assert(value_of(t, r) > u64::MAX);
                    }
                    return None;
                },
            }
            proof {
                assert(pow(r, k as nat) == r * pow(r, (k - 1) as nat)) by {
                    reveal(pow);
                }
                lemma_multiply_divide_lt(cur as int, r, pow(r, (k - 1) as nat));
                lemma_div_pos_is_pos(cur as int, r);
                lemma_digits_be_len((cur as int) / r, r, (k - 1) as nat);
                assert(s.take(k - 1) =~= digits_be(cur as int, r, k as nat).drop_last());
            }
            cur = cur / radix;
            k = k - 1;
        }
        proof {
            assert(t.take(s.len() as int) =~= t);
        }
        Some(acc)
    }

    /// The exact bounds on how many digits remain: both bounds equal
    /// the remaining digit count.
    pub fn size_hint(&self) -> (r: (usize, Option<usize>))
        ensures
            r.0 == self@.len(),
            r.1 == Some(self@.len() as usize),
    {
        proof {
            lemma_digits_be_len(self.current as int, self.radix as int, self.len as nat);
        }
        (self.len, Some(self.len))
    }

    /// How many digits remain, consuming the sequence.
    pub fn count(self) -> (n: usize)
        ensures
            n == self@.len(),
    {
        proof {
            lemma_digits_be_len(self.current as int, self.radix as int, self.len as nat);
        }
        self.len
    }

    /// The least significant remaining digit, consuming the sequence;
    /// the empty signal if the sequence is exhausted.
    pub fn last(self) -> (result: Option<u64>)
        requires
            self.wf(),
        ensures
            self@.len() == 0 ==> result is None,
            self@.len() > 0 ==> (result matches Some(d) && d as int == self@.last()),
    {
        let mut it = self;
        it.next_back()
    }
}

} // verus!
