//! The field element type and its arithmetic.
use crate::primes::{is_prime, lemma_fermat};
use crate::text::{push_signed_decimal, signed_decimal};
use vstd::arithmetic::div_mod::*;
use vstd::arithmetic::power::*;
use vstd::prelude::*;
use vstd::string::*;

verus! {

/// Why an operation on field elements was refused.
#[derive(Debug, Clone, Copy, PartialEq, Eq, Structural)]
pub enum FieldElementError {
    /// The two operands belong to fields of different moduli.
    DifferentFields,
    /// The residue given to the constructor lies outside `[0, prime)`.
    InvalidElement,
}

impl FieldElementError {
    /// A sentence that says what went wrong.
    pub fn message(&self) -> (r: &'static str)
        ensures
            *self == FieldElementError::DifferentFields ==> r@
                == "Cannot operate on elements from different fields"@,
            *self == FieldElementError::InvalidElement ==> r@
                == "Element is not in valid field range"@,
    {
        match self {
            FieldElementError::DifferentFields => "Cannot operate on elements from different fields",
            FieldElementError::InvalidElement => "Element is not in valid field range",
        }
    }
}

/// A residue `num` in the field of integers modulo `prime`.
#[derive(Debug, Clone, Copy, PartialEq, Eq, Structural)]
pub struct FieldElement {
    num: i64,
    prime: i64,
}

/// What exponentiation yields on residue `b` modulo `p` with exponent `e`:
/// `b^e mod p` for a positive exponent, and 1 for any other.
pub open spec fn pow_mod(b: int, e: int, p: int) -> int {
    if e > 0 {
        pow(b, e as nat) % p
    } else {
        1
    }
}

/// One step of square-and-multiply keeps the value of `acc * base^exp` modulo `p`.
proof fn lemma_square_multiply_step(acc: int, base: int, exp: nat, p: int)
    requires
        p > 0,
        exp > 0,
    ensures
        (if exp % 2 == 1 { (acc * base) % p } else { acc }) * pow((base * base) % p, exp / 2) % p
            == acc * pow(base, exp) % p,
{
    let h = exp / 2;
    let sq = base * base;
    lemma_square_is_pow2(base);
    lemma_pow_multiplies(base, 2, h);
    assert(pow(base, 2 * h) == pow(sq, h));
    lemma_pow_mod_noop(sq, h, p);
    lemma_mul_mod_noop_right(acc, pow(sq % p, h), p);
    lemma_mul_mod_noop_right(acc, pow(sq, h), p);
    if exp % 2 == 1 {
        lemma_pow_adds(base, 1, 2 * h);
        lemma_pow1(base);
        assert(exp == 1 + 2 * h);
        lemma_mul_mod_noop_left(acc * base, pow(sq % p, h), p);
        lemma_mul_mod_noop_right(acc * base, pow(sq % p, h), p);
        lemma_mul_mod_noop_right(acc * base, pow(sq, h), p);
        assert(acc * base * pow(sq, h) == acc * (base * pow(base, 2 * h))) by (nonlinear_arith)
            requires
                pow(base, 2 * h) == pow(sq, h),
        ;
    } else {
        assert(exp == 2 * h);
    }
}

/// `x * y mod p`, with the product taken in 128 bits so that it cannot overflow.
fn mul_mod(x: i64, y: i64, p: i64) -> (r: i64)
    requires
        0 <= x,
        0 <= y,
        p > 0,
    ensures
        r == (x * y) % (p as int),
        0 <= r < p,
{
    assert((x as int) * (y as int) < 0x1_0000_0000_0000_0000_0000_0000_0000_0000) by (nonlinear_arith)
        requires
            0 <= x < 0x8000_0000_0000_0000,
            0 <= y < 0x8000_0000_0000_0000,
    ;
    assert(0 <= (x as int) * (y as int)) by (nonlinear_arith)
        requires
            0 <= x,
            0 <= y,
    ;
    ((x as u128) * (y as u128) % (p as u128)) as i64
}

impl FieldElement {
    /// The residue of this element.
    pub closed spec fn num_spec(&self) -> int {
        self.num as int
    }

    /// The modulus of the field this element belongs to.
    pub closed spec fn prime_spec(&self) -> int {
        self.prime as int
    }

    /// The element's residue lies in `[0, prime)`.
    pub open spec fn wf(&self) -> bool {
        0 <= self.num_spec() < self.prime_spec()
    }

    /// Builds the element `num` of the field modulo `prime`, when `0 <= num < prime`.
    pub fn new(num: i64, prime: i64) -> (r: Result<FieldElement, FieldElementError>)
        ensures
            (0 <= num < prime) <==> r is Ok,
            r is Err ==> r == Err::<FieldElement, FieldElementError>(FieldElementError::InvalidElement),
            r matches Ok(e) ==> e.num_spec() == num && e.prime_spec() == prime && e.wf(),
    {
        if num >= prime || num < 0 {
            Err(FieldElementError::InvalidElement)
        } else {
            Ok(FieldElement { num, prime })
        }
    }

    /// The residue of this element.
    pub fn num(&self) -> (r: i64)
        ensures
            r == self.num_spec(),
    {
        self.num
    }

    /// The modulus of the field this element belongs to.
    pub fn prime(&self) -> (r: i64)
        ensures
            r == self.prime_spec(),
    {
        self.prime
    }

    /// The text `FieldElement_<prime>(<num>)`, both numbers in decimal.
    pub fn to_string(&self) -> (r: String)
        ensures
            r@ == "FieldElement_"@ + signed_decimal(self.prime_spec()) + "("@ + signed_decimal(
                self.num_spec(),
            ) + ")"@,
    {
        let mut out = String::from_str("FieldElement_");
        push_signed_decimal(&mut out, self.prime);
        out.append("(");
        push_signed_decimal(&mut out, self.num);
        out.append(")");
        out
    }

    /// Raises this element to `exponent` by square-and-multiply. A non-positive exponent
    /// gives the residue 1.
    pub fn pow(self, exponent: i64) -> (r: FieldElement)
        requires
            self.wf(),
        ensures
            r.prime_spec() == self.prime_spec(),
            r.num_spec() == pow_mod(self.num_spec(), exponent as int, self.prime_spec()),
            exponent > 0 || self.prime_spec() > 1 ==> r.wf(),
    {
        let p = self.prime;
        let mut exp: u64 = if exponent > 0 { exponent as u64 } else { 0 };
        let mut base = self.num;
        let mut result: i64 = 1;
        while exp > 0
            invariant
                p == self.prime,
                p > 0,
                0 <= base < p,
                0 <= result,
                result <= 1 || result < p,
                exp == 0 && exponent > 0 ==> result < p,
                exponent <= 0 ==> exp == 0 && result == 1,
                exponent > 0 ==> result * pow(base as int, exp as nat) % (p as int) == pow(
                    self.num as int,
                    exponent as nat,
                ) % (p as int),
            decreases exp,
        {
            proof {
                lemma_square_multiply_step(result as int, base as int, exp as nat, p as int);
            }
            if exp % 2 == 1 {
                result = mul_mod(result, base, p);
            }
            base = mul_mod(base, base, p);
            exp = exp / 2;
        }
        proof {
            if exponent > 0 {
                lemma_pow0(base as int);
                lemma_small_mod(result as nat, p as nat);
            }
        }
        FieldElement { num: result, prime: p }
    }

    /// The sum of two elements of one field.
    pub fn add(self, other: FieldElement) -> (r: Result<FieldElement, FieldElementError>)
        requires
            self.wf(),
            other.wf(),
        ensures
            (self.prime_spec() == other.prime_spec()) <==> r is Ok,
            r is Err ==> r == Err::<FieldElement, FieldElementError>(FieldElementError::DifferentFields),
            r matches Ok(e) ==> e.prime_spec() == self.prime_spec() && e.num_spec() == (
            self.num_spec() + other.num_spec()) % self.prime_spec() && e.wf(),
    {
        if self.prime != other.prime {
            Err(FieldElementError::DifferentFields)
        } else {
            let num = ((self.num as i128 + other.num as i128) % (self.prime as i128)) as i64;
            Ok(FieldElement { num, prime: self.prime })
        }
    }

    /// The difference of two elements of one field, brought back into `[0, prime)`.
    pub fn sub(self, other: FieldElement) -> (r: Result<FieldElement, FieldElementError>)
        requires
            self.wf(),
            other.wf(),
        ensures
            (self.prime_spec() == other.prime_spec()) <==> r is Ok,
            r is Err ==> r == Err::<FieldElement, FieldElementError>(FieldElementError::DifferentFields),
            r matches Ok(e) ==> e.prime_spec() == self.prime_spec() && e.num_spec() == (
            self.num_spec() - other.num_spec()) % self.prime_spec() && e.wf(),
    {
        if self.prime != other.prime {
            Err(FieldElementError::DifferentFields)
        } else {
            let p = self.prime as i128;
            let diff = self.num as i128 - other.num as i128;
            // `diff` lies in `(-p, p)`: one more `p` makes it non-negative.
            let num = ((diff + p) % p) as i64;
            proof {
                lemma_mod_add_multiples_vanish(diff as int, p as int);
            }
            Ok(FieldElement { num, prime: self.prime })
        }
    }

    /// The product of two elements of one field.
    pub fn mul(self, other: FieldElement) -> (r: Result<FieldElement, FieldElementError>)
        requires
            self.wf(),
            other.wf(),
        ensures
            (self.prime_spec() == other.prime_spec()) <==> r is Ok,
            r is Err ==> r == Err::<FieldElement, FieldElementError>(FieldElementError::DifferentFields),
            r matches Ok(e) ==> e.prime_spec() == self.prime_spec() && e.num_spec() == (
            self.num_spec() * other.num_spec()) % self.prime_spec() && e.wf(),
    {
        if self.prime != other.prime {
            Err(FieldElementError::DifferentFields)
        } else {
            let num = mul_mod(self.num, other.num, self.prime);
            Ok(FieldElement { num, prime: self.prime })
        }
    }

    /// The quotient of two elements of one field: `self` times the inverse of `other`,
    /// the inverse taken as `other^(prime - 2)`. A zero divisor gives zero.
    pub fn div(self, other: FieldElement) -> (r: Result<FieldElement, FieldElementError>)
        requires
            self.wf(),
            other.wf(),
        ensures
            (self.prime_spec() == other.prime_spec()) <==> r is Ok,
            r is Err ==> r == Err::<FieldElement, FieldElementError>(FieldElementError::DifferentFields),
            r matches Ok(e) ==> e.prime_spec() == self.prime_spec() && e.num_spec() == (
            self.num_spec() * pow_mod(other.num_spec(), self.prime_spec() - 2, self.prime_spec()))
                % self.prime_spec() && e.wf(),
    {
        if self.prime != other.prime {
            Err(FieldElementError::DifferentFields)
        } else {
            let inverse = other.pow(self.prime - 2);
            let num = mul_mod(self.num, inverse.num, self.prime);
            Ok(FieldElement { num, prime: self.prime })
        }
    }
}

/// Adding the zero of the field leaves an element unchanged, and subtracting an element from
/// itself gives zero.
pub proof fn lemma_additive_identity_and_inverse(a: FieldElement, zero: FieldElement)
    requires
        a.wf(),
        zero.num_spec() == 0,
        zero.prime_spec() == a.prime_spec(),
    ensures
        (a.num_spec() + zero.num_spec()) % a.prime_spec() == a.num_spec(),
        (a.num_spec() - a.num_spec()) % a.prime_spec() == zero.num_spec(),
{
    lemma_small_mod(a.num_spec() as nat, a.prime_spec() as nat);
}

/// Raising a non-zero element of a prime field to the power `prime - 1` gives one.
pub proof fn lemma_pow_prime_minus_one(a: FieldElement)
    requires
        a.wf(),
        is_prime(a.prime_spec()),
        a.num_spec() != 0,
    ensures
        pow_mod(a.num_spec(), a.prime_spec() - 1, a.prime_spec()) == 1,
{
    lemma_small_mod(a.num_spec() as nat, a.prime_spec() as nat);
    lemma_fermat(a.num_spec(), a.prime_spec());
}

/// Dividing a non-zero element of a prime field by itself gives one.
pub proof fn lemma_divide_by_self(a: FieldElement)
    requires
        a.wf(),
        is_prime(a.prime_spec()),
        a.num_spec() != 0,
    ensures
        (a.num_spec() * pow_mod(a.num_spec(), a.prime_spec() - 2, a.prime_spec())) % a.prime_spec()
            == 1,
{
    let x = a.num_spec();
    let p = a.prime_spec();
    lemma_pow_prime_minus_one(a);
    if p == 2 {
        assert(x == 1);
        lemma_small_mod(1, 2);
    } else {
        let e = (p - 2) as nat;
        lemma_mul_mod_noop_right(x, pow(x, e), p);
        lemma_pow_adds(x, 1, e);
        lemma_pow1(x);
        assert((p - 1) as nat == 1 + e);
    }
}

/// Division by a non-zero element is multiplication by that element raised to `prime - 2`:
/// `inverse`, the result of that exponentiation, is an element of the field, and the quotient's
/// residue is the product's.
pub proof fn lemma_div_is_mul_by_inverse(a: FieldElement, b: FieldElement, inverse: FieldElement)
    requires
        a.wf(),
        b.wf(),
        a.prime_spec() == b.prime_spec(),
        b.num_spec() != 0,
        inverse.prime_spec() == b.prime_spec(),
        inverse.num_spec() == pow_mod(b.num_spec(), b.prime_spec() - 2, b.prime_spec()),
    ensures
        inverse.wf(),
        (a.num_spec() * pow_mod(b.num_spec(), b.prime_spec() - 2, b.prime_spec())) % a.prime_spec()
            == (a.num_spec() * inverse.num_spec()) % a.prime_spec(),
{
    let p = b.prime_spec();
    if p - 2 > 0 {
        lemma_mod_bound(pow(b.num_spec(), (p - 2) as nat), p);
    }
}

/// In a prime field, multiplying the quotient `a / b` by a non-zero `b` gives back `a`.
pub proof fn lemma_quotient_times_divisor(a: FieldElement, b: FieldElement)
    requires
        a.wf(),
        b.wf(),
        a.prime_spec() == b.prime_spec(),
        is_prime(b.prime_spec()),
        b.num_spec() != 0,
    ensures
        ((a.num_spec() * pow_mod(b.num_spec(), b.prime_spec() - 2, b.prime_spec()))
            % a.prime_spec()) * b.num_spec() % a.prime_spec() == a.num_spec(),
{
    let p = b.prime_spec();
    let x = a.num_spec();
    let y = b.num_spec();
    let inv = pow_mod(y, p - 2, p);
    lemma_divide_by_self(b);
    lemma_mul_mod_noop_left(x * inv, y, p);
    assert(x * inv * y == x * (y * inv)) by (nonlinear_arith);
    lemma_mul_mod_noop_right(x, y * inv, p);
    lemma_small_mod(x as nat, p as nat);
}

} // verus!
