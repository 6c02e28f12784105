//! One element of the integers modulo a fixed modulus, with the four field
//! operations. Values are always held in the canonical range `[0, modulus)`;
//! construction reduces any integer with the Euclidean (never negative)
//! remainder.

use vstd::prelude::*;
use crate::decimal::{dec_seq, dec_string};

verus! {

/// One value of the integers modulo `modulus`, held in canonical range.
#[derive(Debug, Clone, Copy, PartialEq, Eq, Structural)]
pub struct GFElement {
    pub value: i32,
    pub modulus: i32,
}

/// Why a field operation could not produce a result.
#[derive(Debug, Clone, Copy, PartialEq, Eq, Structural)]
pub enum FieldError {
    /// The divisor was the zero element.
    DivisionByZero,
    /// No `i` in `[0, modulus)` satisfies `(value * i) % modulus == 1`,
    /// so the value has no multiplicative inverse under this modulus.
    NoInverseExists,
}

/// `i` is a multiplicative inverse of `v` modulo `m`.
pub open spec fn is_inverse(v: int, i: int, m: int) -> bool {
    (v * i) % m == 1
}

/// Some inverse of `v` exists in the canonical range `[0, m)`.
pub open spec fn has_inverse(v: int, m: int) -> bool {
    exists|i: int| 0 <= i < m && is_inverse(v, i, m)
}

/// The multiplicative inverse of `v` modulo `m`, in canonical range.
/// Meaningful only when `has_inverse(v, m)` holds; an inverse is then unique
/// (see `lemma_inverse_unique`).
pub open spec fn inverse_of(v: int, m: int) -> int {
    choose|i: int| 0 <= i < m && is_inverse(v, i, m)
}

/// Every non-zero canonical value has an inverse modulo `m`. This holds
/// exactly when `m` is 1 or a prime; it is what division and row reduction
/// need in order to never fail.
pub open spec fn invertible_modulus(m: int) -> bool {
    forall|v: int| 0 < v < m ==> has_inverse(v, m)
}

/// The sum of two elements, reduced into canonical range.
pub open spec fn gf_add(a: GFElement, b: GFElement) -> GFElement {
    GFElement { value: ((a.value + b.value) % (a.modulus as int)) as i32, modulus: a.modulus }
}

/// The difference of two elements, reduced into canonical range.
pub open spec fn gf_sub(a: GFElement, b: GFElement) -> GFElement {
    GFElement { value: ((a.value - b.value) % (a.modulus as int)) as i32, modulus: a.modulus }
}

/// The product of two elements, reduced into canonical range.
pub open spec fn gf_mul(a: GFElement, b: GFElement) -> GFElement {
    GFElement { value: ((a.value * b.value) % (a.modulus as int)) as i32, modulus: a.modulus }
}

/// The quotient of two elements: `a` times the inverse of `b`. Meaningful
/// only when `b.value` has an inverse modulo the shared modulus.
pub open spec fn gf_div(a: GFElement, b: GFElement) -> GFElement {
    GFElement {
        value: ((a.value * inverse_of(b.value as int, a.modulus as int)) % (a.modulus as int)) as i32,
        modulus: a.modulus,
    }
}

impl GFElement {
    /// A well-formed element: positive modulus, value reduced into range.
    pub open spec fn wf(self) -> bool {
        1 <= self.modulus && 0 <= self.value < self.modulus
    }

    /// Create a new element, reducing `v` into `[0, m)` with the Euclidean
    /// remainder, which is non-negative even for negative `v`.
    pub fn new(v: i32, m: i32) -> (r: GFElement)
        requires
            m >= 1,
        ensures
            r.modulus == m,
            r.value == (v as int) % (m as int),
            r.wf(),
    {
        let value = v.checked_rem_euclid(m).unwrap();
        GFElement { value, modulus: m }
    }

    /// The decimal text of the canonical value alone; the modulus is not
    /// shown.
    pub fn render(&self) -> (r: String)
        requires
            self.wf(),
        ensures
            r@ == dec_seq(self.value as int),
    {
        dec_string(self.value)
    }

    /// Field addition. Both operands must share a modulus.
    pub fn add(self, other: GFElement) -> (r: GFElement)
        requires
            self.wf(),
            other.wf(),
            self.modulus == other.modulus,
        ensures
            r == gf_add(self, other),
            r.wf(),
    {
        let s: i64 = self.value as i64 + other.value as i64;
        let value = s.checked_rem_euclid(self.modulus as i64).unwrap() as i32;
        GFElement { value, modulus: self.modulus }
    }

    /// Field subtraction. Both operands must share a modulus.
    pub fn sub(self, other: GFElement) -> (r: GFElement)
        requires
            self.wf(),
            other.wf(),
            self.modulus == other.modulus,
        ensures
            r == gf_sub(self, other),
            r.wf(),
    {
        let d: i64 = self.value as i64 - other.value as i64;
        let value = d.checked_rem_euclid(self.modulus as i64).unwrap() as i32;
        GFElement { value, modulus: self.modulus }
    }

    /// Field multiplication. Both operands must share a modulus.
    pub fn mul(self, other: GFElement) -> (r: GFElement)
        requires
            self.wf(),
            other.wf(),
            self.modulus == other.modulus,
        ensures
            r == gf_mul(self, other),
            r.wf(),
    {
        proof {
            lemma_prod_fits_i64(self.value as int, other.value as int);
        }
        let p: i64 = self.value as i64 * other.value as i64;
        let value = p.checked_rem_euclid(self.modulus as i64).unwrap() as i32;
        GFElement { value, modulus: self.modulus }
    }

    /// The multiplicative inverse of this element, found by an ascending
    /// search over `[0, modulus)`; the first hit is returned, so the result
    /// is the smallest non-negative representative. Fails exactly when no
    /// inverse exists, which happens precisely when the value and the
    /// modulus share a factor.
    pub fn mult_inverse(&self) -> (r: Result<GFElement, FieldError>)
        requires
            self.wf(),
        ensures
            match r {
                Ok(y) => {
                    &&& has_inverse(self.value as int, self.modulus as int)
                    &&& y.modulus == self.modulus
                    &&& y.wf()
                    &&& y.value == inverse_of(self.value as int, self.modulus as int)
                },
                Err(e) => {
                    &&& e == FieldError::NoInverseExists
                    &&& !has_inverse(self.value as int, self.modulus as int)
                },
            },
    {
        let m = self.modulus;
        let v = self.value;
        let mut i: i32 = 0;
        while i < m
            invariant
                m == self.modulus,
                v == self.value,
                0 <= i <= m,
                1 <= m,
                0 <= v < m,
                forall|j: int| 0 <= j < i ==> !is_inverse(v as int, j, m as int),
            decreases m - i,
        {
            proof {
                lemma_prod_fits_i64(v as int, i as int);
            }
            let p: i64 = v as i64 * i as i64;
            if p.checked_rem_euclid(m as i64).unwrap() == 1 {
                proof {
                    assert(is_inverse(v as int, i as int, m as int));
                    assert(has_inverse(v as int, m as int)) by {
                        assert(0 <= i < m && is_inverse(v as int, i as int, m as int));
                    }
                    lemma_inverse_unique(
                        v as int,
                        i as int,
                        inverse_of(v as int, m as int),
                        m as int,
                    );
                }
                return Ok(GFElement { value: i, modulus: m });
            }
            i += 1;
        }
        Err(FieldError::NoInverseExists)
    }

    /// Field division: `self` times the inverse of `other`. Fails with
    /// `DivisionByZero` exactly when `other` is the zero element, and with
    /// `NoInverseExists` exactly when `other` is a non-zero zero divisor.
    pub fn div(self, other: GFElement) -> (r: Result<GFElement, FieldError>)
        requires
            self.wf(),
            other.wf(),
            self.modulus == other.modulus,
        ensures
            match r {
                Ok(c) => {
                    &&& other.value != 0
                    &&& has_inverse(other.value as int, other.modulus as int)
                    &&& c == gf_div(self, other)
                    &&& c.wf()
                },
                Err(e) => match e {
                    FieldError::DivisionByZero => other.value == 0,
                    FieldError::NoInverseExists => {
                        &&& other.value != 0
                        &&& !has_inverse(other.value as int, other.modulus as int)
                    },
                },
            },
    {
        if other.value == 0 {
            return Err(FieldError::DivisionByZero);
        }
        match other.mult_inverse() {
            Err(_) => Err(FieldError::NoInverseExists),
            Ok(inv) => {
                proof {
                    lemma_prod_fits_i64(self.value as int, inv.value as int);
                }
                let p: i64 = self.value as i64 * inv.value as i64;
                let value = p.checked_rem_euclid(self.modulus as i64).unwrap() as i32;
                Ok(GFElement { value, modulus: self.modulus })
            },
        }
    }
}

/// Construction is periodic in the modulus: any two representatives of the
/// same residue class reduce to the same canonical value, so
/// `GFElement::new(v, m)` and `GFElement::new(v + k * m, m)` agree.
pub proof fn lemma_construct_periodic(v: int, k: int, m: int)
    requires
        1 <= m,
    ensures
        (v + k * m) % m == v % m,
{
    vstd::arithmetic::div_mod::lemma_mod_multiples_vanish(k, v, m);
    assert(m * k + v == v + k * m) by (nonlinear_arith);
}

/// Addition is commutative: `a + b == b + a`.
pub proof fn lemma_add_commutative(a: GFElement, b: GFElement)
    requires
        a.wf(),
        b.wf(),
        a.modulus == b.modulus,
    ensures
        gf_add(a, b) == gf_add(b, a),
{
}

/// Addition is associative: `(a + b) + c == a + (b + c)`.
pub proof fn lemma_add_associative(a: GFElement, b: GFElement, c: GFElement)
    requires
        a.wf(),
        b.wf(),
        c.wf(),
        a.modulus == b.modulus,
        b.modulus == c.modulus,
    ensures
        gf_add(gf_add(a, b), c) == gf_add(a, gf_add(b, c)),
{
    let m = a.modulus as int;
    vstd::arithmetic::div_mod::lemma_small_mod(c.value as nat, m as nat);
    vstd::arithmetic::div_mod::lemma_small_mod(a.value as nat, m as nat);
    vstd::arithmetic::div_mod::lemma_add_mod_noop(a.value + b.value, c.value as int, m);
    vstd::arithmetic::div_mod::lemma_add_mod_noop(a.value as int, b.value + c.value, m);
}

/// The zero element is the additive identity: `a + new(0, m) == a`.
pub proof fn lemma_add_zero(a: GFElement)
    requires
        a.wf(),
    ensures
        gf_add(a, GFElement { value: 0, modulus: a.modulus }) == a,
{
    vstd::arithmetic::div_mod::lemma_small_mod(a.value as nat, a.modulus as nat);
}

/// The one element is the multiplicative identity: `a * new(1, m) == a`
/// whenever `m > 1` so that 1 is itself canonical.
pub proof fn lemma_mul_one(a: GFElement)
    requires
        a.wf(),
        a.modulus >= 2,
    ensures
        gf_mul(a, GFElement { value: 1, modulus: a.modulus }) == a,
{
    vstd::arithmetic::div_mod::lemma_small_mod(a.value as nat, a.modulus as nat);
}

/// Division inverts multiplication: for an invertible divisor,
/// `(a / b) * b == a`.
pub proof fn lemma_div_mul_cancel(a: GFElement, b: GFElement)
    requires
        a.wf(),
        b.wf(),
        a.modulus == b.modulus,
        b.value != 0,
        has_inverse(b.value as int, b.modulus as int),
    ensures
        gf_mul(gf_div(a, b), b) == a,
{
    let m = a.modulus as int;
    let av = a.value as int;
    let bv = b.value as int;
    let i = inverse_of(bv, m);
    assert(0 <= i < m && is_inverse(bv, i, m));
    let d = (av * i) % m;
    vstd::arithmetic::div_mod::lemma_mul_mod_noop_left(av * i, bv, m);
    assert(av * i * bv == av * (bv * i)) by (nonlinear_arith);
    vstd::arithmetic::div_mod::lemma_mul_mod_noop_right(av, bv * i, m);
    vstd::arithmetic::div_mod::lemma_small_mod(a.value as nat, a.modulus as nat);
    assert((d * bv) % m == av);
}

/// For an invertible modulus, the chosen inverse of a non-zero canonical
/// value really is one: it lies in range and multiplies to one.
pub proof fn lemma_inverse_works(v: int, m: int)
    requires
        1 <= m,
        0 < v < m,
        invertible_modulus(m),
    ensures
        0 <= inverse_of(v, m) < m,
        (v * inverse_of(v, m)) % m == 1,
{
    assert(has_inverse(v, m));
    let i = choose|i: int| 0 <= i < m && is_inverse(v, i, m);
    assert(0 <= inverse_of(v, m) < m && is_inverse(v, inverse_of(v, m), m));
}

/// One is its own inverse whenever it is canonical, that is for `m >= 2`.
pub proof fn lemma_inverse_of_one(m: int)
    requires
        2 <= m,
    ensures
        inverse_of(1, m) == 1,
{
    vstd::arithmetic::div_mod::lemma_small_mod(1nat, m as nat);
    assert(is_inverse(1, 1, m));
    assert(has_inverse(1, m));
    assert(0 <= inverse_of(1, m) < m && is_inverse(1, inverse_of(1, m), m));
    lemma_inverse_unique(1, 1, inverse_of(1, m), m);
}

/// Dividing by an element whose value is one returns the dividend
/// unchanged.
pub proof fn lemma_div_by_one(a: GFElement, b: GFElement)
    requires
        a.wf(),
        b.wf(),
        b.modulus == a.modulus,
        b.value == 1,
    ensures
        gf_div(a, b) == a,
{
    lemma_inverse_of_one(a.modulus as int);
    vstd::arithmetic::div_mod::lemma_small_mod(a.value as nat, a.modulus as nat);
    assert(a.value * 1 == a.value as int) by (nonlinear_arith);
}

/// Subtracting an element times one from itself yields the zero value.
pub proof fn lemma_cancel_self(x: GFElement, one: GFElement)
    requires
        x.wf(),
        one.wf(),
        one.modulus == x.modulus,
        one.value == 1,
    ensures
        gf_sub(x, gf_mul(x, one)).value == 0,
{
    let m = x.modulus as int;
    vstd::arithmetic::div_mod::lemma_small_mod(x.value as nat, x.modulus as nat);
    assert(x.value * 1 == x.value as int) by (nonlinear_arith);
    assert(gf_mul(x, one).value == x.value);
    assert((x.value - x.value) % m == 0) by {
        vstd::arithmetic::div_mod::lemma_small_mod(0nat, x.modulus as nat);
    }
}

/// The product of two values below `2^31` stays well inside `i64`.
pub proof fn lemma_prod_fits_i64(a: int, b: int)
    requires
        0 <= a < 0x8000_0000,
        0 <= b < 0x8000_0000,
    ensures
        0 <= a * b < 0x4000_0000_0000_0000,
{
    assert(0 <= a * b < 0x4000_0000_0000_0000) by (nonlinear_arith)
        requires
            0 <= a < 0x8000_0000,
            0 <= b < 0x8000_0000,
    ;
}

/// An inverse in canonical range is unique: modular inverses of the same
/// value agree.
pub proof fn lemma_inverse_unique(v: int, i: int, j: int, m: int)
    requires
        1 <= m,
        0 <= i < m,
        0 <= j < m,
        is_inverse(v, i, m),
        is_inverse(v, j, m),
    ensures
        i == j,
{
    // i == i * (v * j) == j * (v * i) == j  (mod m)
    vstd::arithmetic::div_mod::lemma_mul_mod_noop_right(i, v * j, m);
    vstd::arithmetic::div_mod::lemma_mul_mod_noop_right(j, v * i, m);
    assert(i * (v * j) == j * (v * i)) by (nonlinear_arith);
    vstd::arithmetic::div_mod::lemma_small_mod(i as nat, m as nat);
    vstd::arithmetic::div_mod::lemma_small_mod(j as nat, m as nat);
    assert((i * 1) % m == i % m);
    assert((j * 1) % m == j % m);
}

} // verus!
