//! Arbitrary-precision natural numbers.
//!
//! A `BigNat` holds its value as little-endian base-2^32 digits; the
//! arithmetic itself is done by `num_bigint::BigUint`.

use num_bigint::BigUint;
use vstd::prelude::*;

verus! {

/// Weight of one base-2^32 digit.
pub open spec fn digit_base() -> nat {
    0x1_0000_0000
}

/// The value of little-endian base-2^32 digits.
pub open spec fn digits_value(d: Seq<u32>) -> nat
    decreases d.len(),
{
    if d.len() == 0 {
        0
    } else {
        d[0] as nat + digit_base() * digits_value(d.subrange(1, d.len() as int))
    }
}

/// The value of big-endian bytes.
pub open spec fn be_value(b: Seq<u8>) -> nat
    decreases b.len(),
{
    if b.len() == 0 {
        0
    } else {
        be_value(b.drop_last()) * 256 + b.last() as nat
    }
}

/// The number of bits needed to write `v` in binary (0 for 0).
pub open spec fn bit_length(v: nat) -> nat
    decreases v,
{
    if v == 0 {
        0
    } else {
        1 + bit_length(v / 2)
    }
}

pub struct BigNat {
    digits: Vec<u32>,
}

impl View for BigNat {
    type V = nat;

    closed spec fn view(&self) -> nat {
        digits_value(self.digits@)
    }
}

/// Relies on `BigUint::from_slice` / `to_u32_digits` (little-endian base-2^32
/// digits) and `BigUint` multiplication, which is exact.
#[verifier::external_body]
fn digits_mul(a: &Vec<u32>, b: &Vec<u32>) -> (r: Vec<u32>)
    ensures
        digits_value(r@) == digits_value(a@) * digits_value(b@),
{
    (BigUint::from_slice(a) * BigUint::from_slice(b)).to_u32_digits()
}

/// Relies on `BigUint` division and remainder (truncating, exact); both panic
/// on a zero divisor, which `requires` leaves out.
#[verifier::external_body]
fn digits_div_rem(a: &Vec<u32>, b: &Vec<u32>) -> (r: (Vec<u32>, Vec<u32>))
    requires
        digits_value(b@) > 0,
    ensures
        digits_value(r.0@) == digits_value(a@) / digits_value(b@),
        digits_value(r.1@) == digits_value(a@) % digits_value(b@),
{
    let x = BigUint::from_slice(a);
    let y = BigUint::from_slice(b);
    ((&x / &y).to_u32_digits(), (&x % &y).to_u32_digits())
}

/// Relies on `BigUint`'s `PartialOrd`, which orders by value.
#[verifier::external_body]
fn digits_lt(a: &Vec<u32>, b: &Vec<u32>) -> (r: bool)
    ensures
        r == (digits_value(a@) < digits_value(b@)),
{
    BigUint::from_slice(a) < BigUint::from_slice(b)
}

/// Relies on `BigUint` addition, which is exact.
#[verifier::external_body]
fn digits_add(a: &Vec<u32>, b: &Vec<u32>) -> (r: Vec<u32>)
    ensures
        digits_value(r@) == digits_value(a@) + digits_value(b@),
{
    (BigUint::from_slice(a) + BigUint::from_slice(b)).to_u32_digits()
}

/// Relies on `BigUint - BigUint`, which is exact and panics on underflow (left
/// out by `requires`).
#[verifier::external_body]
fn digits_sub(a: &Vec<u32>, b: &Vec<u32>) -> (r: Vec<u32>)
    requires
        digits_value(a@) >= digits_value(b@),
    ensures
        digits_value(r@) == digits_value(a@) - digits_value(b@),
{
    (BigUint::from_slice(a) - BigUint::from_slice(b)).to_u32_digits()
}

/// Relies on `BigUint::bits`: the fewest bits that express the value.
#[verifier::external_body]
fn digits_bits(a: &Vec<u32>) -> (r: u64)
    ensures
        r as nat == bit_length(digits_value(a@)),
{
    BigUint::from_slice(a).bits()
}

/// Relies on `BigUint::from_bytes_be`: the bytes read as a big-endian number.
#[verifier::external_body]
fn digits_of_be_bytes(b: &[u8]) -> (r: Vec<u32>)
    ensures
        digits_value(r@) == be_value(b@),
{
    BigUint::from_bytes_be(b).to_u32_digits()
}

/// Relies on `BigUint - u32`, which is exact and panics on underflow (left out
/// by `requires`).
#[verifier::external_body]
fn digits_sub_small(a: &Vec<u32>, b: u32) -> (r: Vec<u32>)
    requires
        digits_value(a@) >= b,
    ensures
        digits_value(r@) == digits_value(a@) - b,
{
    (BigUint::from_slice(a) - b).to_u32_digits()
}

/// Relies on `u64::try_from(&BigUint)`, which succeeds exactly when the value
/// fits.
#[verifier::external_body]
fn digits_to_u64(a: &Vec<u32>) -> (r: Option<u64>)
    ensures
        digits_value(a@) <= u64::MAX ==> r == Some(digits_value(a@) as u64),
        digits_value(a@) > u64::MAX ==> r is None,
{
    u64::try_from(&BigUint::from_slice(a)).ok()
}

proof fn lemma_digits_value_pair(lo: u32, hi: u32)
    ensures
        digits_value(seq![lo, hi]) == lo as nat + digit_base() * hi as nat,
{
    let s = seq![lo, hi];
    assert(s.subrange(1, 2) =~= seq![hi]);
    assert(seq![hi].subrange(1, 1) =~= Seq::<u32>::empty());
    assert(digits_value(seq![hi]) == hi as nat + digit_base() * digits_value(Seq::<u32>::empty()));
}

impl BigNat {
    pub fn from_u64(x: u64) -> (r: BigNat)
        ensures
            r@ == x as nat,
    {
        let lo64: u64 = x & 0xffff_ffff;
        let hi64: u64 = x >> 32;
        assert(x == (x & 0xffff_ffff) + 0x1_0000_0000 * (x >> 32)) by (bit_vector);
        assert((x & 0xffff_ffff) <= 0xffff_ffff) by (bit_vector);
        assert((x >> 32) <= 0xffff_ffff) by (bit_vector);
        let lo: u32 = lo64 as u32;
        let hi: u32 = hi64 as u32;
        proof {
            lemma_digits_value_pair(lo, hi);
        }
        let r = BigNat { digits: vec![lo, hi] };
        assert(r.digits@ =~= seq![lo, hi]);
        r
    }

    pub fn from_usize(x: usize) -> (r: BigNat)
        ensures
            r@ == x as nat,
    {
        BigNat::from_u64(x as u64)
    }

    pub fn one() -> (r: BigNat)
        ensures
            r@ == 1,
    {
        BigNat::from_u64(1)
    }

    pub fn from_be_bytes(b: &[u8]) -> (r: BigNat)
        ensures
            r@ == be_value(b@),
    {
        BigNat { digits: digits_of_be_bytes(b) }
    }

    pub fn mul(&self, o: &BigNat) -> (r: BigNat)
        ensures
            r@ == self@ * o@,
    {
        BigNat { digits: digits_mul(&self.digits, &o.digits) }
    }

    pub fn add(&self, o: &BigNat) -> (r: BigNat)
        ensures
            r@ == self@ + o@,
    {
        BigNat { digits: digits_add(&self.digits, &o.digits) }
    }

    pub fn sub(&self, o: &BigNat) -> (r: BigNat)
        requires
            self@ >= o@,
        ensures
            r@ == self@ - o@,
    {
        BigNat { digits: digits_sub(&self.digits, &o.digits) }
    }

    pub fn div_rem(&self, d: &BigNat) -> (r: (BigNat, BigNat))
        requires
            d@ > 0,
        ensures
            r.0@ == self@ / d@,
            r.1@ == self@ % d@,
    {
        let (q, m) = digits_div_rem(&self.digits, &d.digits);
        (BigNat { digits: q }, BigNat { digits: m })
    }

    pub fn lt(&self, o: &BigNat) -> (r: bool)
        ensures
            r == (self@ < o@),
    {
        digits_lt(&self.digits, &o.digits)
    }

    pub fn bit_length(&self) -> (r: u64)
        ensures
            r as nat == bit_length(self@),
    {
        digits_bits(&self.digits)
    }

    pub fn sub_one(&self) -> (r: BigNat)
        requires
            self@ >= 1,
        ensures
            r@ == self@ - 1,
    {
        BigNat { digits: digits_sub_small(&self.digits, 1) }
    }

    pub fn to_u64(&self) -> (r: Option<u64>)
        ensures
            self@ <= u64::MAX ==> r == Some(self@ as u64),
            self@ > u64::MAX ==> r is None,
    {
        digits_to_u64(&self.digits)
    }

    pub fn duplicate(&self) -> (r: BigNat)
        ensures
            r@ == self@,
    {
        let mut digits: Vec<u32> = Vec::new();
        let mut i: usize = 0;
        while i < self.digits.len()
            invariant
                i <= self.digits@.len(),
                digits@ == self.digits@.subrange(0, i as int),
            decreases self.digits@.len() - i,
        {
            digits.push(self.digits[i]);
            i = i + 1;
            assert(digits@ =~= self.digits@.subrange(0, i as int));
        }
        assert(digits@ =~= self.digits@);
        BigNat { digits }
    }
}

} // verus!
