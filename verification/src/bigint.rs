//! Integers of any size, held as a sign and base-2^32 digits (least significant
//! first); the arithmetic on them is done by `num_bigint`.

use num_bigint::{BigInt, Sign};
use std::cmp::Ordering;
use vstd::prelude::*;

verus! {

/// The sign of a [`BigValue`].
#[derive(Debug, Clone, Copy, PartialEq, Eq)]
pub enum BigSign {
    Minus,
    NoSign,
    Plus,
}

/// An integer of any size: a sign and its magnitude in base-2^32 digits, least
/// significant digit first. `NoSign` stands for zero, whatever the digits.
#[derive(Debug, Clone, PartialEq, Eq)]
pub struct BigValue {
    pub sign: BigSign,
    pub digits: Vec<u32>,
}

/// The number that base-2^32 digits stand for, least significant digit first.
pub open spec fn magnitude(ds: Seq<u32>) -> int
    decreases ds.len(),
{
    if ds.len() == 0 {
        0
    } else {
        ds[0] + 0x1_0000_0000 * magnitude(ds.drop_first())
    }
}

/// The sign of `x`: `-1`, `0` or `1`.
pub open spec fn sgn(x: int) -> int {
    if x < 0 {
        -1
    } else if x == 0 {
        0
    } else {
        1
    }
}

/// The absolute value of `x`.
pub open spec fn abs(x: int) -> int {
    if x < 0 {
        -x
    } else {
        x
    }
}

/// `a / b` rounded toward zero (`b != 0`).
pub open spec fn trunc_div(a: int, b: int) -> int {
    if (a < 0) == (b < 0) {
        abs(a) / abs(b)
    } else {
        -(abs(a) / abs(b))
    }
}

/// The remainder of `a / b` rounded toward zero: it has the sign of `a`.
pub open spec fn trunc_rem(a: int, b: int) -> int {
    if a < 0 {
        -(abs(a) % abs(b))
    } else {
        abs(a) % abs(b)
    }
}

impl View for BigValue {
    type V = int;

    open spec fn view(&self) -> int {
        match self.sign {
            BigSign::Minus => -magnitude(self.digits@),
            BigSign::NoSign => 0,
            BigSign::Plus => magnitude(self.digits@),
        }
    }
}

impl BigValue {
    /// The one representation of each value: zero and only zero has no sign and no
    /// digits, and the most significant digit is not zero.
    pub open spec fn canonical(&self) -> bool {
        &&& (self.sign is NoSign) == (self.digits@.len() == 0)
        &&& self.digits@.len() > 0 ==> self.digits@.last() != 0
    }

    /// The value of `v`.
    pub fn from_i64(v: i64) -> (r: BigValue)
        ensures
            r@ == v as int,
            r.canonical(),
    {
        let m: u64 = if v < 0 {
            ((-(v + 1)) as u64) + 1
        } else {
            v as u64
        };
        let lo: u32 = (m % 0x1_0000_0000) as u32;
        let hi: u32 = (m / 0x1_0000_0000) as u32;
        let mut digits: Vec<u32> = Vec::new();
        if m > 0 {
            digits.push(lo);
        }
        if hi > 0 {
            digits.push(hi);
        }
        let sign = if v < 0 {
            BigSign::Minus
        } else if v == 0 {
            BigSign::NoSign
        } else {
            BigSign::Plus
        };
        proof {
            reveal_with_fuel(magnitude, 3);
            assert(m as int == lo + 0x1_0000_0000 * hi);
            if hi > 0 {
                assert(digits@ == seq![lo, hi]);
                assert(digits@.drop_first() == seq![hi]);
                assert(seq![hi].drop_first() == Seq::<u32>::empty());
                assert(magnitude(seq![hi]) == hi);
            } else if m > 0 {
                assert(digits@ == seq![lo]);
                assert(seq![lo].drop_first() == Seq::<u32>::empty());
            } else {
                assert(digits@ == Seq::<u32>::empty());
            }
        }
        BigValue { sign, digits }
    }

    /// The sign of the value: `-1`, `0` or `1`.
    pub fn signum(&self) -> (r: i8)
        ensures
            r == sgn(self@),
    {
        proof {
            lemma_magnitude_zero(self.digits@);
        }
        match self.sign {
            BigSign::NoSign => 0,
            _ => {
                let mut i: usize = 0;
                while i < self.digits.len()
                    invariant
                        i <= self.digits@.len(),
                        !(self.sign is NoSign),
                        forall|j: int| 0 <= j < i ==> self.digits@[j] == 0,
                    decreases self.digits@.len() - i,
                {
                    if self.digits[i] != 0 {
                        proof {
                            lemma_magnitude_zero(self.digits@);
                            assert(!(forall|j: int| 0 <= j < self.digits@.len() ==> self.digits@[j] == 0));
                        }
                        return match self.sign {
                            BigSign::Minus => -1,
                            _ => 1,
                        };
                    }
                    i = i + 1;
                }
                0
            },
        }
    }
}

/// A magnitude is never negative, and it is zero exactly when every digit is.
pub proof fn lemma_magnitude_zero(ds: Seq<u32>)
    ensures
        magnitude(ds) >= 0,
        (magnitude(ds) == 0) == (forall|i: int| 0 <= i < ds.len() ==> ds[i] == 0),
    decreases ds.len(),
{
    if ds.len() > 0 {
        let rest = ds.drop_first();
        lemma_magnitude_zero(rest);
        if magnitude(ds) == 0 {
            assert forall|i: int| 0 <= i < ds.len() implies ds[i] == 0 by {
                if i > 0 {
                    assert(ds[i] == rest[i - 1]);
                }
            }
        }
        if forall|i: int| 0 <= i < ds.len() ==> ds[i] == 0 {
            assert forall|i: int| 0 <= i < rest.len() implies rest[i] == 0 by {
                assert(rest[i] == ds[i + 1]);
            }
        }
    }
}

/// `a + b`: the `+` of `num_bigint::BigInt`, which is exact; the digits that come back
/// are those of `BigInt::to_u32_digits`, which leaves no leading zero digit and gives
/// zero no sign.
#[verifier::external_body]
pub(crate) fn big_add(a: &BigValue, b: &BigValue) -> (r: BigValue)
    ensures
        r@ == a@ + b@,
        r.canonical(),
{
    let x = BigInt::from_slice(match a.sign { BigSign::Minus => Sign::Minus, BigSign::NoSign => Sign::NoSign, BigSign::Plus => Sign::Plus }, &a.digits);
    let y = BigInt::from_slice(match b.sign { BigSign::Minus => Sign::Minus, BigSign::NoSign => Sign::NoSign, BigSign::Plus => Sign::Plus }, &b.digits);
    let (sign, digits) = (&x + &y).to_u32_digits();
    BigValue { sign: match sign { Sign::Minus => BigSign::Minus, Sign::NoSign => BigSign::NoSign, Sign::Plus => BigSign::Plus }, digits }
}

/// `a - b`: the `-` of `num_bigint::BigInt`, exact, with the digits of
/// `BigInt::to_u32_digits` (no leading zero digit, no sign for zero).
#[verifier::external_body]
pub(crate) fn big_sub(a: &BigValue, b: &BigValue) -> (r: BigValue)
    ensures
        r@ == a@ - b@,
        r.canonical(),
{
    let x = BigInt::from_slice(match a.sign { BigSign::Minus => Sign::Minus, BigSign::NoSign => Sign::NoSign, BigSign::Plus => Sign::Plus }, &a.digits);
    let y = BigInt::from_slice(match b.sign { BigSign::Minus => Sign::Minus, BigSign::NoSign => Sign::NoSign, BigSign::Plus => Sign::Plus }, &b.digits);
    let (sign, digits) = (&x - &y).to_u32_digits();
    BigValue { sign: match sign { Sign::Minus => BigSign::Minus, Sign::NoSign => BigSign::NoSign, Sign::Plus => BigSign::Plus }, digits }
}

/// `a * b`: the `*` of `num_bigint::BigInt`, exact, with the digits of
/// `BigInt::to_u32_digits` (no leading zero digit, no sign for zero).
#[verifier::external_body]
pub(crate) fn big_mul(a: &BigValue, b: &BigValue) -> (r: BigValue)
    ensures
        r@ == a@ * b@,
        r.canonical(),
{
    let x = BigInt::from_slice(match a.sign { BigSign::Minus => Sign::Minus, BigSign::NoSign => Sign::NoSign, BigSign::Plus => Sign::Plus }, &a.digits);
    let y = BigInt::from_slice(match b.sign { BigSign::Minus => Sign::Minus, BigSign::NoSign => Sign::NoSign, BigSign::Plus => Sign::Plus }, &b.digits);
    let (sign, digits) = (&x * &y).to_u32_digits();
    BigValue { sign: match sign { Sign::Minus => BigSign::Minus, Sign::NoSign => BigSign::NoSign, Sign::Plus => BigSign::Plus }, digits }
}

/// `a / b` for `b != 0`: the `/` of `num_bigint::BigInt`, which rounds toward zero
/// (it panics on a zero divisor); digits as `BigInt::to_u32_digits` gives them.
#[verifier::external_body]
pub(crate) fn big_div(a: &BigValue, b: &BigValue) -> (r: BigValue)
    requires
        b@ != 0,
    ensures
        r@ == trunc_div(a@, b@),
        r.canonical(),
{
    let x = BigInt::from_slice(match a.sign { BigSign::Minus => Sign::Minus, BigSign::NoSign => Sign::NoSign, BigSign::Plus => Sign::Plus }, &a.digits);
    let y = BigInt::from_slice(match b.sign { BigSign::Minus => Sign::Minus, BigSign::NoSign => Sign::NoSign, BigSign::Plus => Sign::Plus }, &b.digits);
    let (sign, digits) = (&x / &y).to_u32_digits();
    BigValue { sign: match sign { Sign::Minus => BigSign::Minus, Sign::NoSign => BigSign::NoSign, Sign::Plus => BigSign::Plus }, digits }
}

/// `a % b` for `b != 0`: the `%` of `num_bigint::BigInt`, the remainder of the
/// division rounded toward zero, with the sign of `a` (it panics on a zero divisor);
/// digits as `BigInt::to_u32_digits` gives them.
#[verifier::external_body]
pub(crate) fn big_rem(a: &BigValue, b: &BigValue) -> (r: BigValue)
    requires
        b@ != 0,
    ensures
        r@ == trunc_rem(a@, b@),
        r.canonical(),
{
    let x = BigInt::from_slice(match a.sign { BigSign::Minus => Sign::Minus, BigSign::NoSign => Sign::NoSign, BigSign::Plus => Sign::Plus }, &a.digits);
    let y = BigInt::from_slice(match b.sign { BigSign::Minus => Sign::Minus, BigSign::NoSign => Sign::NoSign, BigSign::Plus => Sign::Plus }, &b.digits);
    let (sign, digits) = (&x % &y).to_u32_digits();
    BigValue { sign: match sign { Sign::Minus => BigSign::Minus, Sign::NoSign => BigSign::NoSign, Sign::Plus => BigSign::Plus }, digits }
}

/// How `a` compares with `b`: `Ord::cmp` of `num_bigint::BigInt`, which orders by
/// value.
#[verifier::external_body]
pub(crate) fn big_order(a: &BigValue, b: &BigValue) -> (o: Ordering)
    ensures
        (o is Less) == (a@ < b@),
        (o is Equal) == (a@ == b@),
        (o is Greater) == (a@ > b@),
{
    let x = BigInt::from_slice(match a.sign { BigSign::Minus => Sign::Minus, BigSign::NoSign => Sign::NoSign, BigSign::Plus => Sign::Plus }, &a.digits);
    let y = BigInt::from_slice(match b.sign { BigSign::Minus => Sign::Minus, BigSign::NoSign => Sign::NoSign, BigSign::Plus => Sign::Plus }, &b.digits);
    x.cmp(&y)
}

} // verus!
