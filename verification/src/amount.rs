//! 256-bit unsigned amounts, with the arithmetic done by `ethers`' `U256`.
use ethers::types::U256;
use vstd::prelude::*;

verus! {

/// Two to the power 256: every amount is below it.
pub open spec fn limit() -> nat {
    0x1_0000_0000_0000_0000 * 0x1_0000_0000_0000_0000 * 0x1_0000_0000_0000_0000
        * 0x1_0000_0000_0000_0000
}

/// Ten to the power 18: the number of base units in one whole unit, which is
/// also the scale of the reward-per-share accumulator.
pub open spec fn wei_per_ether() -> nat {
    1_000_000_000_000_000_000
}

/// A 256-bit unsigned integer, held as four 64-bit limbs, least significant
/// first.
#[derive(Clone, Copy, Debug, PartialEq, Eq)]
pub struct Amount {
    pub limbs: [u64; 4],
}

impl View for Amount {
    type V = nat;

    open spec fn view(&self) -> nat {
        ((self.limbs[3] as nat * 0x1_0000_0000_0000_0000 + self.limbs[2] as nat)
            * 0x1_0000_0000_0000_0000 + self.limbs[1] as nat) * 0x1_0000_0000_0000_0000
            + self.limbs[0] as nat
    }
}

/// Two amounts of one value are one amount: the limbs of a value are unique.
pub proof fn lemma_value_decides_amount(a: Amount, b: Amount)
    requires
        a@ == b@,
    ensures
        a == b,
{
    assert(a.limbs@ =~= b.limbs@);
    assert(a.limbs =~= b.limbs);
}

impl Amount {
    /// The amount with the value of `value`.
    pub fn from_u64(value: u64) -> (r: Amount)
        ensures
            r@ == value,
    {
        Amount { limbs: [value, 0, 0, 0] }
    }

    /// Whether the amount is zero.
    pub fn is_zero(&self) -> (r: bool)
        ensures
            r == (self@ == 0),
    {
        self.limbs[0] == 0 && self.limbs[1] == 0 && self.limbs[2] == 0 && self.limbs[3] == 0
    }

    /// The sum, or `None` where it does not fit in 256 bits.
    pub fn checked_add(self, other: Amount) -> (r: Option<Amount>)
        ensures
            match r {
                Some(v) => v@ == self@ + other@,
                None => self@ + other@ >= limit(),
            },
    {
        u256_checked_add(self, other)
    }

    /// The difference, or `None` where `other` is the larger.
    pub fn checked_sub(self, other: Amount) -> (r: Option<Amount>)
        ensures
            match r {
                Some(v) => v@ == self@ - other@,
                None => self@ < other@,
            },
    {
        u256_checked_sub(self, other)
    }

    /// The product, or `None` where it does not fit in 256 bits.
    pub fn checked_mul(self, other: Amount) -> (r: Option<Amount>)
        ensures
            match r {
                Some(v) => v@ == self@ * other@,
                None => self@ * other@ >= limit(),
            },
    {
        u256_checked_mul(self, other)
    }

    /// The quotient, rounded down, or `None` where `other` is zero.
    pub fn checked_div(self, other: Amount) -> (r: Option<Amount>)
        ensures
            match r {
                Some(v) => other@ != 0 && v@ == self@ / other@,
                None => other@ == 0,
            },
    {
        u256_checked_div(self, other)
    }

    /// The sum of two amounts that is known to fit in 256 bits.
    pub fn sum(self, other: Amount) -> (r: Amount)
        requires
            self@ + other@ < limit(),
        ensures
            r@ == self@ + other@,
    {
        match u256_checked_add(self, other) {
            Some(v) => v,
            None => self,
        }
    }

    /// The product of two amounts that is known to fit in 256 bits.
    pub fn product(self, other: Amount) -> (r: Amount)
        requires
            self@ * other@ < limit(),
        ensures
            r@ == self@ * other@,
    {
        match u256_checked_mul(self, other) {
            Some(v) => v,
            None => self,
        }
    }

    /// The difference of two amounts of which `other` is not the larger.
    pub fn difference(self, other: Amount) -> (r: Amount)
        requires
            other@ <= self@,
        ensures
            r@ == self@ - other@,
    {
        match u256_checked_sub(self, other) {
            Some(v) => v,
            None => self,
        }
    }

    /// The quotient, rounded down, by an amount that is not zero.
    pub fn quotient(self, other: Amount) -> (r: Amount)
        requires
            other@ != 0,
        ensures
            r@ == self@ / other@,
    {
        match u256_checked_div(self, other) {
            Some(v) => v,
            None => self,
        }
    }

    /// Whether the amount is smaller than `other`.
    pub fn less_than(&self, other: &Amount) -> (r: bool)
        ensures
            r == (self@ < other@),
    {
        u256_less_than(*self, *other)
    }

    /// `units` whole units, in base units.
    pub fn ether(units: u64) -> (r: Amount)
        ensures
            r@ == units * wei_per_ether(),
    {
        match parse_ether(units) {
            Some(v) => v,
            None => Amount::from_u64(0),
        }
    }
}

/// `U256::checked_add` of `ethers` (the `uint` crate's type) on the two
/// amounts, limb for limb. Trusted: the limbs are little-endian words of the
/// integer, and the call returns the sum unless it overflows 256 bits.
#[verifier::external_body]
fn u256_checked_add(a: Amount, b: Amount) -> (r: Option<Amount>)
    ensures
        match r {
            Some(v) => v@ == a@ + b@,
            None => a@ + b@ >= limit(),
        },
{
    match U256(a.limbs).checked_add(U256(b.limbs)) {
        Some(v) => Some(Amount { limbs: v.0 }),
        None => None,
    }
}

/// `U256::checked_sub` of `ethers`. Trusted: the call returns the difference
/// unless the second operand is the larger.
#[verifier::external_body]
fn u256_checked_sub(a: Amount, b: Amount) -> (r: Option<Amount>)
    ensures
        match r {
            Some(v) => v@ == a@ - b@,
            None => a@ < b@,
        },
{
    match U256(a.limbs).checked_sub(U256(b.limbs)) {
        Some(v) => Some(Amount { limbs: v.0 }),
        None => None,
    }
}

/// `U256::checked_mul` of `ethers`. Trusted: the call returns the product
/// unless it overflows 256 bits.
#[verifier::external_body]
fn u256_checked_mul(a: Amount, b: Amount) -> (r: Option<Amount>)
    ensures
        match r {
            Some(v) => v@ == a@ * b@,
            None => a@ * b@ >= limit(),
        },
{
    match U256(a.limbs).checked_mul(U256(b.limbs)) {
        Some(v) => Some(Amount { limbs: v.0 }),
        None => None,
    }
}

/// `U256::checked_div` of `ethers`. Trusted: the call returns the quotient,
/// rounded down, unless the divisor is zero.
#[verifier::external_body]
fn u256_checked_div(a: Amount, b: Amount) -> (r: Option<Amount>)
    ensures
        match r {
            Some(v) => b@ != 0 && v@ == a@ / b@,
            None => b@ == 0,
        },
{
    match U256(a.limbs).checked_div(U256(b.limbs)) {
        Some(v) => Some(Amount { limbs: v.0 }),
        None => None,
    }
}

/// The `<` of `ethers`' `U256`. Trusted: it compares the two integers by
/// value.
#[verifier::external_body]
fn u256_less_than(a: Amount, b: Amount) -> (r: bool)
    ensures
        r == (a@ < b@),
{
    U256(a.limbs) < U256(b.limbs)
}

/// `ethers::utils::parse_ether` on an unsigned integer. Trusted: the call
/// multiplies the integer by ten to the power 18, and succeeds on every
/// 64-bit input.
#[verifier::external_body]
fn parse_ether(units: u64) -> (r: Option<Amount>)
    ensures
        match r {
            Some(v) => v@ == units * wei_per_ether(),
            None => false,
        },
{
    match ethers::utils::parse_ether(units) {
        Ok(v) => Some(Amount { limbs: v.0 }),
        Err(_) => None,
    }
}

} // verus!
