//! Single-precision numbers, held by their IEEE 754 bit pattern, and their
//! exact decimal text.

use vstd::arithmetic::power2::{lemma2_to64, lemma_pow2_adds, lemma_pow2_pos,
    lemma_pow2_strictly_increases, lemma_pow2_unfold, pow2};
use vstd::prelude::*;

verus! {

/// One single-precision number, stored as the 32 bits of its IEEE 754 encoding:
/// one sign bit, eight exponent bits, twenty-three fraction bits.
#[derive(Clone, Copy, Debug, PartialEq, Eq, Structural)]
pub struct Scalar {
    pub bits: u32,
}

/// The ASCII code of the decimal digit `d`.
pub open spec fn digit(d: nat) -> u8 {
    (48 + d) as u8
}

/// The decimal digits of `n`, most significant first, without leading zeros
/// (`0` itself is the single digit `0`).
pub open spec fn decimal_digits(n: nat) -> Seq<u8>
    decreases n,
{
    if n < 10 {
        seq![digit(n)]
    } else {
        decimal_digits(n / 10).push(digit(n % 10))
    }
}

/// The decimal digits after the point of the fraction `r / 2^k`, up to the last
/// one that is not zero. Multiplying by ten and dividing by `2^k` is the same as
/// multiplying by five and dividing by `2^(k-1)`.
pub open spec fn fraction_digits(r: nat, k: nat) -> Seq<u8>
    decreases k,
{
    if r == 0 || k == 0 {
        Seq::<u8>::empty()
    } else {
        let p = pow2((k - 1) as nat);
        seq![digit(5 * r / p)] + fraction_digits(5 * r % p, (k - 1) as nat)
    }
}

/// The text after the decimal point: always at least one digit.
pub open spec fn fraction_text(r: nat, k: nat) -> Seq<u8> {
    if r == 0 {
        seq![digit(0)]
    } else {
        fraction_digits(r, k)
    }
}

impl Scalar {
    /// The sign bit is set.
    pub open spec fn negative(self) -> bool {
        self.bits >= 0x8000_0000
    }

    /// The eight exponent bits, as a number.
    pub open spec fn exponent_field(self) -> nat {
        ((self.bits / 0x80_0000) % 0x100) as nat
    }

    /// The twenty-three fraction bits, as a number.
    pub open spec fn fraction_field(self) -> nat {
        (self.bits % 0x80_0000) as nat
    }

    /// Neither a NaN nor an infinity.
    pub open spec fn finite(self) -> bool {
        self.exponent_field() != 0xff
    }

    /// Positive or negative zero.
    pub open spec fn zero(self) -> bool {
        self.exponent_field() == 0 && self.fraction_field() == 0
    }

    /// The integer `m` in `|value| = m * 2^up / 2^down`.
    pub open spec fn significand(self) -> nat {
        if self.exponent_field() == 0 {
            self.fraction_field()
        } else {
            self.fraction_field() + 0x80_0000
        }
    }

    /// The power of two by which the significand is multiplied.
    pub open spec fn up(self) -> nat {
        if self.exponent_field() > 150 {
            (self.exponent_field() - 150) as nat
        } else {
            0
        }
    }

    /// The power of two by which the significand is divided.
    pub open spec fn down(self) -> nat {
        if self.exponent_field() == 0 {
            149
        } else if self.exponent_field() < 150 {
            (150 - self.exponent_field()) as nat
        } else {
            0
        }
    }

    /// The integer part of the magnitude.
    pub open spec fn whole(self) -> nat {
        self.significand() * pow2(self.up()) / pow2(self.down())
    }

    /// The numerator of the fractional part of the magnitude, over `2^down`.
    pub open spec fn part(self) -> nat {
        self.significand() * pow2(self.up()) % pow2(self.down())
    }

    /// The exact decimal text of a finite number: a minus sign where the sign
    /// bit is set, the integer part, a point, and the fractional digits.
    pub open spec fn decimal_text(self) -> Seq<u8> {
        (if self.negative() {
            seq![45u8]
        } else {
            Seq::<u8>::empty()
        }) + decimal_digits(self.whole()) + seq![46u8] + fraction_text(self.part(), self.down())
    }

    pub fn new(bits: u32) -> (r: Scalar)
        ensures
            r.bits == bits,
    {
        Scalar { bits }
    }

    pub fn is_finite(&self) -> (r: bool)
        ensures
            r == self.finite(),
    {
        (self.bits / 0x80_0000) % 0x100 != 0xff
    }

    pub fn is_zero(&self) -> (r: bool)
        ensures
            r == self.zero(),
    {
        (self.bits / 0x80_0000) % 0x100 == 0 && self.bits % 0x80_0000 == 0
    }

    /// The exact decimal text of the number, or `None` for a NaN or an infinity.
    pub fn to_decimal(&self) -> (r: Option<Vec<u8>>)
        ensures
            match r {
                Some(t) => self.finite() && t@ == self.decimal_text(),
                None => !self.finite(),
            },
    {
        if self.is_finite() {
            let mut out: Vec<u8> = Vec::new();
            self.write_decimal(&mut out);
            Some(out)
        } else {
            None
        }
    }

    /// Appends the exact decimal text of a finite number to `out`.
    #[verifier::rlimit(50)]
    pub(crate) fn write_decimal(&self, out: &mut Vec<u8>)
        requires
            self.finite(),
        ensures
            final(out)@ == old(out)@ + self.decimal_text(),
    {
        let e: u32 = (self.bits / 0x80_0000) % 0x100;
        let f: u32 = self.bits % 0x80_0000;
        let m: u32 = if e == 0 {
            f
        } else {
            f + 0x80_0000
        };
        if self.bits >= 0x8000_0000 {
            out.push(45u8);
        }
        proof {
            lemma_pow2_values();
        }
        if e >= 150 {
            let w: u128 = shifted(m, e - 150);
            proof {
                let n = (m * pow2((e - 150) as nat)) as nat;
                assert(pow2(0) == 1);
                assert(n / 1 == n && n % 1 == 0);
            }
            write_digits(w, out);
            out.push(46u8);
            out.push(48u8);
            assert(out@ =~= old(out)@ + self.decimal_text());
        } else {
            let k: u32 = if e == 0 {
                149
            } else {
                150 - e
            };
            let mut w: u32 = 0;
            let mut r: u32 = m;
            proof {
                assert(pow2(0) == 1);
                assert(m * 1 == m);
            }
            if k < 24 {
                let p: u128 = power_of_two(k);
                proof {
                    lemma_pow2_strictly_increases(k as nat, 24);
                    lemma_pow2_pos(k as nat);
                }
                let p32: u32 = p as u32;
                w = m / p32;
                r = m % p32;
            } else {
                proof {
                    if k > 24 {
                        lemma_pow2_strictly_increases(24, k as nat);
                    }
                    let p = pow2(k as nat);
                    assert(m < p);
                    assert(m as nat / p == 0 && m as nat % p == m) by {
                        vstd::arithmetic::div_mod::lemma_small_mod(m as nat, p);
                        vstd::arithmetic::div_mod::lemma_basic_div(m as int, p as int);
                    }
                }
            }
            write_digits(w as u128, out);
            out.push(46u8);
            if r == 0 {
                out.push(48u8);
            } else {
                proof {
                    vstd::arithmetic::div_mod::lemma_mod_bound(m as int, pow2(k as nat) as int);
                }
                write_fraction(r, k, out);
            }
            assert(out@ =~= old(out)@ + self.decimal_text());
        }
    }
}

/// Ten to the power `n`.
pub open spec fn ten_to(n: nat) -> nat
    decreases n,
{
    if n == 0 {
        1
    } else {
        10 * ten_to((n - 1) as nat)
    }
}

/// The number that a string of decimal digits denotes.
pub open spec fn digits_value(digits: Seq<u8>) -> nat
    decreases digits.len(),
{
    if digits.len() == 0 {
        0
    } else {
        digits_value(digits.drop_last()) * 10 + (digits.last() - 48) as nat
    }
}

/// The decimal digits of a number denote that number.
pub proof fn lemma_decimal_digits_value(n: nat)
    ensures
        digits_value(decimal_digits(n)) == n,
    decreases n,
{
    let digits = decimal_digits(n);
    if n < 10 {
        assert(digits.drop_last() =~= Seq::<u8>::empty());
        assert(digits_value(Seq::<u8>::empty()) == 0);
        assert(digits.last() == digit(n));
    } else {
        lemma_decimal_digits_value(n / 10);
        let front = decimal_digits(n / 10);
        assert(digits == front.push(digit(n % 10)));
        assert(digits.drop_last() =~= front);
        assert(digits.last() == digit(n % 10));
        assert(digits_value(digits) == digits_value(front) * 10 + (digit(n % 10) - 48) as nat);
    }
}

/// A digit in front of a string of digits counts for as many powers of ten as
/// the string is long.
proof fn lemma_value_with_first(first: nat, rest: Seq<u8>)
    requires
        first < 10,
    ensures
        digits_value(seq![digit(first)] + rest) == first * ten_to(rest.len()) + digits_value(rest),
    decreases rest.len(),
{
    let all = seq![digit(first)] + rest;
    if rest.len() == 0 {
        assert(all.drop_last() =~= Seq::<u8>::empty());
        assert(digits_value(Seq::<u8>::empty()) == 0);
        assert(all.last() == digit(first));
        assert(ten_to(0) == 1);
        assert(first * 1 == first);
        assert(digits_value(rest) == 0);
    } else {
        lemma_value_with_first(first, rest.drop_last());
        assert(all.drop_last() =~= seq![digit(first)] + rest.drop_last());
        assert(all.last() == rest.last());
        let shorter = ten_to((rest.len() - 1) as nat);
        let inner = digits_value(rest.drop_last());
        let last = (rest.last() - 48) as nat;
        assert(ten_to(rest.len()) == 10 * shorter);
        assert(digits_value(rest) == inner * 10 + last);
        assert(digits_value(all) == (first * shorter + inner) * 10 + last);
        assert(first * (10 * shorter) + (inner * 10 + last) == (first * shorter + inner) * 10 + last)
            by (nonlinear_arith);
    }
}

/// The digits of a fraction denote the fraction exactly: read as a whole
/// number and divided by ten to the power of their count, they give `r / 2^k`.
pub proof fn lemma_fraction_digits_value(r: nat, k: nat)
    requires
        r < pow2(k),
    ensures
        digits_value(fraction_digits(r, k)) * pow2(k) == r * ten_to(fraction_digits(r, k).len()),
    decreases k,
{
    if k == 0 {
        assert(pow2(0) == 1) by {
            lemma2_to64();
        }
        assert(digits_value(Seq::<u8>::empty()) == 0);
        assert(0 * pow2(k) == r * ten_to(0)) by (nonlinear_arith)
            requires
                r == 0,
        ;
    } else if r == 0 {
        assert(digits_value(Seq::<u8>::empty()) == 0);
        assert(0 * pow2(k) == r * ten_to(0)) by (nonlinear_arith)
            requires
                r == 0,
        ;
    } else {
        let p = pow2((k - 1) as nat);
        lemma_pow2_unfold(k);
        lemma_pow2_pos((k - 1) as nat);
        let first = 5 * r / p;
        let left = 5 * r % p;
        let rest = fraction_digits(left, (k - 1) as nat);
        vstd::arithmetic::div_mod::lemma_fundamental_div_mod((5 * r) as int, p as int);
        vstd::arithmetic::div_mod::lemma_mod_bound((5 * r) as int, p as int);
        assert(first < 10) by (nonlinear_arith)
            requires
                first == 5 * r / p,
                r < 2 * p,
                p > 0,
        ;
        lemma_fraction_digits_value(left, (k - 1) as nat);
        lemma_value_with_first(first, rest);
        let scale = ten_to(rest.len());
        let tail = digits_value(rest);
        let all = fraction_digits(r, k);
        assert(all == seq![digit(first)] + rest);
        assert(all.len() == rest.len() + 1);
        assert(ten_to(all.len()) == 10 * scale);
        assert((first * scale + tail) * (2 * p) == r * (10 * scale)) by (nonlinear_arith)
            requires
                tail * p == left * scale,
                5 * r == p * first + left,
        ;
    }
}

impl Scalar {
    /// The text of a finite number denotes the number exactly. With `w` the
    /// value of the digits before the point, `f` the value of the `n` digits
    /// after it, the text stands for `w + f / 10^n`, and this is the magnitude
    /// `significand * 2^up / 2^down`.
    pub proof fn lemma_decimal_text_exact(self)
        requires
            self.finite(),
        ensures
            ({
                let w = digits_value(decimal_digits(self.whole()));
                let after = fraction_text(self.part(), self.down());
                let f = digits_value(after);
                (w * ten_to(after.len()) + f) * pow2(self.down()) == self.significand() * pow2(
                    self.up(),
                ) * ten_to(after.len())
            }),
    {
        let value = self.significand() * pow2(self.up());
        let p = pow2(self.down());
        let after = fraction_text(self.part(), self.down());
        let scale = ten_to(after.len());
        lemma_pow2_pos(self.down());
        lemma_decimal_digits_value(self.whole());
        vstd::arithmetic::div_mod::lemma_fundamental_div_mod(value as int, p as int);
        vstd::arithmetic::div_mod::lemma_mod_bound(value as int, p as int);
        if self.part() == 0 {
            assert(after.drop_last() =~= Seq::<u8>::empty());
            assert(digits_value(Seq::<u8>::empty()) == 0);
            assert(after.last() == digit(0));
            assert(digits_value(after) == 0);
        } else {
            lemma_fraction_digits_value(self.part(), self.down());
        }
        let f = digits_value(after);
        let w = self.whole();
        assert((w * scale + f) * p == value * scale) by (nonlinear_arith)
            requires
                f * p == self.part() * scale,
                value == p * w + self.part(),
        ;
    }
}

/// The powers of two that bound the machine integers used here.
proof fn lemma_pow2_values()
    ensures
        pow2(0) == 1,
        pow2(24) == 0x100_0000,
        pow2(32) == 0x1_0000_0000,
        pow2(64) == 0x1_0000_0000_0000_0000,
        pow2(128) == 0x1_0000_0000_0000_0000 * 0x1_0000_0000_0000_0000,
{
    lemma2_to64();
    lemma_pow2_adds(64, 64);
}

/// `2^e` as a machine integer.
fn power_of_two(e: u32) -> (p: u128)
    requires
        e < 128,
    ensures
        p == pow2(e as nat),
{
    let mut p: u128 = 1;
    let mut i: u32 = 0;
    proof {
        lemma_pow2_values();
    }
    while i < e
        invariant
            i <= e < 128,
            p == pow2(i as nat),
            pow2(128) == 0x1_0000_0000_0000_0000 * 0x1_0000_0000_0000_0000,
        decreases e - i,
    {
        proof {
            lemma_pow2_unfold((i + 1) as nat);
            if i + 1 < 128 {
                lemma_pow2_strictly_increases((i + 1) as nat, 128);
            }
            lemma_pow2_strictly_increases(i as nat, 128);
        }
        p = p * 2;
        i = i + 1;
    }
    p
}

/// `m * 2^e` as a machine integer, for a significand of at most 24 bits.
fn shifted(m: u32, e: u32) -> (w: u128)
    requires
        m < 0x100_0000,
        e <= 104,
    ensures
        w == m * pow2(e as nat),
{
    let p: u128 = power_of_two(e);
    proof {
        lemma_pow2_values();
        lemma_pow2_pos(e as nat);
        if e < 104 {
            lemma_pow2_strictly_increases(e as nat, 104);
        }
        lemma_pow2_adds(24, 104);
        assert(m * p < pow2(24) * pow2(104)) by (nonlinear_arith)
            requires
                m < pow2(24),
                0 < p <= pow2(104),
        ;
    }
    (m as u128) * p
}

/// Appends the decimal digits of `n` to `out`.
fn write_digits(n: u128, out: &mut Vec<u8>)
    ensures
        final(out)@ == old(out)@ + decimal_digits(n as nat),
{
    let mut low: Vec<u8> = Vec::new();
    let mut rest: u128 = n;
    while rest >= 10
        invariant
            decimal_digits(n as nat) == decimal_digits(rest as nat) + low@.reverse(),
        decreases rest,
    {
        let d: u8 = (rest % 10) as u8;
        proof {
            let next = low@.push((48 + d) as u8);
            assert(next.reverse() =~= seq![(48 + d) as u8] + low@.reverse());
            assert(decimal_digits(rest as nat) == decimal_digits((rest / 10) as nat).push(
                digit((rest % 10) as nat),
            ));
            assert(decimal_digits((rest / 10) as nat).push(digit((rest % 10) as nat))
                + low@.reverse() =~= decimal_digits((rest / 10) as nat) + next.reverse());
        }
        low.push(48 + d);
        rest = rest / 10;
    }
    out.push(48 + rest as u8);
    let mut i: usize = low.len();
    while i > 0
        invariant
            i <= low.len(),
            rest < 10,
            out@ == old(out)@ + seq![digit(rest as nat)] + low@.reverse().take(low.len() - i),
        decreases i,
    {
        i = i - 1;
        out.push(low[i]);
        assert(low@.reverse().take(low.len() - i) =~= low@.reverse().take(low.len() - i - 1).push(
            low@[i as int],
        ));
    }
    assert(low@.reverse().take(low.len() as int) =~= low@.reverse());
    assert(out@ =~= old(out)@ + (seq![digit(rest as nat)] + low@.reverse()));
}

/// Appends the fractional digits of `r / 2^k` to `out`.
#[verifier::rlimit(50)]
fn write_fraction(r: u32, k: u32, out: &mut Vec<u8>)
    requires
        0 < r < 0x100_0000,
        r < pow2(k as nat),
        k <= 149,
    ensures
        final(out)@ == old(out)@ + fraction_digits(r as nat, k as nat),
{
    let mut rest: u128 = r as u128;
    let mut left: u32 = k;
    proof {
        lemma_pow2_values();
    }
    while rest != 0 && left != 0
        invariant
            left <= k <= 149,
            rest < pow2(left as nat),
            rest < pow2((24 + 3 * (k - left)) as nat),
            old(out)@ + fraction_digits(r as nat, k as nat) == out@ + fraction_digits(
                rest as nat,
                left as nat,
            ),
        decreases left,
    {
        proof {
            lemma_pow2_values();
            lemma_fraction_bound(rest as nat, left as nat, (k - left) as nat);
            lemma_pow2_unfold(left as nat);
            lemma_pow2_pos((left - 1) as nat);
        }
        let t: u128 = 5 * rest;
        let mut d: u128 = 0;
        let mut next: u128 = t;
        if left - 1 < 121 {
            let p: u128 = power_of_two(left - 1);
            d = t / p;
            next = t % p;
            proof {
                assert(t / p < 10) by (nonlinear_arith)
                    requires
                        t < 10 * p,
                        p > 0,
                ;
            }
        } else {
            proof {
                let p = pow2((left - 1) as nat);
                if left - 1 > 121 {
                    lemma_pow2_strictly_increases(121, (left - 1) as nat);
                }
                lemma_pow2_adds(3, 118);
                assert(pow2(3) == 8) by {
                    lemma2_to64();
                }
                assert(t < p);
                vstd::arithmetic::div_mod::lemma_small_mod(t as nat, p);
                vstd::arithmetic::div_mod::lemma_basic_div(t as int, p as int);
            }
        }
        proof {
            let p = pow2((left - 1) as nat);
            assert(next == (5 * rest) as nat % p);
            assert(d == (5 * rest) as nat / p);
            assert(next < p) by {
                vstd::arithmetic::div_mod::lemma_mod_bound(t as int, p as int);
            }
            assert(next <= t) by {
                vstd::arithmetic::div_mod::lemma_mod_decreases(t as nat, p);
            }
            let done = (24 + 3 * (k - left)) as nat;
            lemma_pow2_adds(3, done);
            assert(pow2(3) == 8) by {
                lemma2_to64();
            }
            assert(3 + done == 24 + 3 * (k - (left - 1)));
            let bound = pow2(done);
            assert(t < 8 * bound) by (nonlinear_arith)
                requires
                    t == 5 * rest,
                    rest < bound,
            ;
            assert(next < pow2((24 + 3 * (k - (left - 1))) as nat));
            assert(out@.push(digit(d as nat)) + fraction_digits(next as nat, (left - 1) as nat)
                =~= out@ + fraction_digits(rest as nat, left as nat));
        }
        out.push(48 + d as u8);
        rest = next;
        left = left - 1;
    }
}

/// A remainder below `2^left` and below `2^(24 + 3 * done)` is below `2^118`
/// when `left + done` is at most 149.
proof fn lemma_fraction_bound(rest: nat, left: nat, done: nat)
    requires
        rest < pow2(left),
        rest < pow2(24 + 3 * done),
        left + done <= 149,
    ensures
        rest < pow2(118),
        5 * rest < pow2(121),
        pow2(121) < pow2(128),
{
    if left < 118 {
        lemma_pow2_strictly_increases(left, 118);
    } else if left > 118 {
        if 24 + 3 * done < 118 {
            lemma_pow2_strictly_increases(24 + 3 * done, 118);
        }
    }
    lemma_pow2_adds(3, 118);
    lemma2_to64();
    lemma_pow2_strictly_increases(121, 128);
}

} // verus!
