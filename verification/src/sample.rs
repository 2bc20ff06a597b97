//! A sample type with exact arithmetic: 64-bit integers whose sums and
//! products wrap around. It keeps every law that the engine's laws ask for,
//! which the proofs below show.

use crate::algebra::additive_laws;
use crate::algebra::distributive;
use crate::algebra::mul_associative;
use crate::algebra::right_unit;
use crate::algebra::zero_absorbing;
use crate::convolution::total_arithmetic;
use crate::convolution::zero;
use crate::ring_buffer::is_default;
use core::ops::Add;
use core::ops::Mul;
use vstd::arithmetic::div_mod::lemma_add_mod_noop;
use vstd::arithmetic::div_mod::lemma_mod_sub_multiples_vanish;
use vstd::arithmetic::div_mod::lemma_mod_twice;
use vstd::arithmetic::div_mod::lemma_mul_mod_noop_general;
use vstd::arithmetic::div_mod::lemma_small_mod;
use vstd::prelude::*;
use vstd::std_specs::ops::AddSpec;
use vstd::std_specs::ops::MulSpec;
use vstd::wrapping::i64_specs::signed_crop;
use vstd::wrapping::i64_specs::wrapping_add;
use vstd::wrapping::i64_specs::wrapping_mul;

verus! {

/// A sample that is a 64-bit integer. Its sum and its product are those of
/// the integers, brought back into 64 bits by dropping what does not fit.
#[derive(Debug, Clone, Copy, PartialEq, Eq, Structural)]
pub struct Wrapped(pub i64);

impl Default for Wrapped {
    fn default() -> (r: Self)
        ensures
            r == Wrapped(0),
    {
        Wrapped(0)
    }
}

impl Add for Wrapped {
    type Output = Wrapped;

    fn add(self, rhs: Wrapped) -> (r: Wrapped) {
        Wrapped(self.0.wrapping_add(rhs.0))
    }
}

impl vstd::std_specs::ops::AddSpecImpl for Wrapped {
    open spec fn obeys_add_spec() -> bool {
        true
    }

    open spec fn add_req(self, rhs: Wrapped) -> bool {
        true
    }

    open spec fn add_spec(self, rhs: Wrapped) -> Wrapped {
        Wrapped(wrapping_add(self.0, rhs.0))
    }
}

impl Mul for Wrapped {
    type Output = Wrapped;

    fn mul(self, rhs: Wrapped) -> (r: Wrapped) {
        Wrapped(self.0.wrapping_mul(rhs.0))
    }
}

impl vstd::std_specs::ops::MulSpecImpl for Wrapped {
    open spec fn obeys_mul_spec() -> bool {
        true
    }

    open spec fn mul_req(self, rhs: Wrapped) -> bool {
        true
    }

    open spec fn mul_spec(self, rhs: Wrapped) -> Wrapped {
        Wrapped(wrapping_mul(self.0, rhs.0))
    }
}

/// The number of values that 64 bits hold.
pub open spec fn modulus() -> int {
    0x1_0000_0000_0000_0000
}

/// What is left of an integer in 64 bits differs from it by a multiple of
/// `modulus()`.
proof fn lemma_crop_congruent(v: int)
    ensures
        (signed_crop(v) as int) % modulus() == v % modulus(),
{
    let m = v % modulus();
    lemma_mod_twice(v, modulus());
    if m > i64::MAX {
        lemma_mod_sub_multiples_vanish(m, modulus());
    }
}

/// Integers that differ by a multiple of `modulus()` leave the same in 64
/// bits.
proof fn lemma_crop_of_congruent(u: int, v: int)
    requires
        u % modulus() == v % modulus(),
    ensures
        signed_crop(u) == signed_crop(v),
{
}

/// A 64-bit integer is what is left of itself.
proof fn lemma_crop_in_range(x: i64)
    ensures
        signed_crop(x as int) == x,
{
    if x >= 0 {
        lemma_small_mod(x as nat, modulus() as nat);
    } else {
        lemma_small_mod((x + modulus()) as nat, modulus() as nat);
        lemma_mod_sub_multiples_vanish(x + modulus(), modulus());
    }
}

/// The wrapping sum is what is left of the sum.
proof fn lemma_add_is_crop(x: i64, y: i64)
    ensures
        wrapping_add(x, y) == signed_crop(x + y),
{
    let s = x + y;
    if s > i64::MAX {
        lemma_crop_in_range((s - modulus()) as i64);
        lemma_mod_sub_multiples_vanish(s, modulus());
    } else if s < i64::MIN {
        lemma_crop_in_range((s + modulus()) as i64);
        lemma_mod_sub_multiples_vanish(s + modulus(), modulus());
    } else {
        lemma_crop_in_range(s as i64);
    }
}

/// The sample type's zero is the integer zero, and its arithmetic never
/// fails. `blank` is any value that `Wrapped::default()` has returned.
pub proof fn lemma_wrapped_zero(blank: Wrapped)
    requires
        is_default(blank),
    ensures
        zero::<Wrapped>() == Wrapped(0),
        total_arithmetic::<Wrapped>(),
{
}

/// Sums of wrapped samples may be regrouped and reordered, and zero changes
/// none. `blank` is any value that `Wrapped::default()` has returned.
pub proof fn lemma_wrapped_additive(blank: Wrapped)
    requires
        is_default(blank),
    ensures
        additive_laws::<Wrapped>(),
{
    lemma_wrapped_zero(blank);
    assert forall|a: Wrapped, b: Wrapped, c: Wrapped| #[trigger]
        a.add_spec(b).add_spec(c) == a.add_spec(b.add_spec(c)) by {
        let ab = wrapping_add(a.0, b.0);
        let bc = wrapping_add(b.0, c.0);
        lemma_add_is_crop(a.0, b.0);
        lemma_add_is_crop(b.0, c.0);
        lemma_add_is_crop(ab, c.0);
        lemma_add_is_crop(a.0, bc);
        lemma_crop_congruent(a.0 + b.0);
        lemma_crop_congruent(b.0 + c.0);
        lemma_add_mod_noop(ab as int, c.0 as int, modulus());
        lemma_add_mod_noop(a.0 + b.0, c.0 as int, modulus());
        lemma_add_mod_noop(a.0 as int, bc as int, modulus());
        lemma_add_mod_noop(a.0 as int, b.0 + c.0, modulus());
        lemma_crop_of_congruent(ab + c.0, a.0 + bc);
    }
    assert forall|a: Wrapped, b: Wrapped| #[trigger] a.add_spec(b) == b.add_spec(a) by {}
    assert forall|a: Wrapped| #[trigger] a.add_spec(zero::<Wrapped>()) == a by {}
    assert forall|a: Wrapped| #[trigger] zero::<Wrapped>().add_spec(a) == a by {}
}

/// Products of wrapped samples may be regrouped, spread over sums, and are
/// zero with zero; one changes none. `blank` is any value that
/// `Wrapped::default()` has returned.
pub proof fn lemma_wrapped_multiplicative(blank: Wrapped)
    requires
        is_default(blank),
    ensures
        mul_associative::<Wrapped>(),
        distributive::<Wrapped>(),
        zero_absorbing::<Wrapped>(),
        right_unit(Wrapped(1)),
{
    lemma_wrapped_zero(blank);
    let m = modulus();
    assert forall|a: Wrapped, b: Wrapped, c: Wrapped| #[trigger]
        a.mul_spec(b).mul_spec(c) == a.mul_spec(b.mul_spec(c)) by {
        let ab = wrapping_mul(a.0, b.0);
        let bc = wrapping_mul(b.0, c.0);
        lemma_crop_congruent(a.0 * b.0);
        lemma_crop_congruent(b.0 * c.0);
        lemma_mul_mod_noop_general(ab as int, c.0 as int, m);
        lemma_mul_mod_noop_general(a.0 * b.0, c.0 as int, m);
        lemma_mul_mod_noop_general(a.0 as int, bc as int, m);
        lemma_mul_mod_noop_general(a.0 as int, b.0 * c.0, m);
        assert((a.0 * b.0) * c.0 == a.0 * (b.0 * c.0)) by (nonlinear_arith);
        lemma_crop_of_congruent(ab * c.0, a.0 * bc);
    }
    assert forall|a: Wrapped, b: Wrapped, c: Wrapped| #[trigger]
        a.mul_spec(b.add_spec(c)) == a.mul_spec(b).add_spec(a.mul_spec(c)) by {
        let bc = wrapping_add(b.0, c.0);
        let ab = wrapping_mul(a.0, b.0);
        let ac = wrapping_mul(a.0, c.0);
        lemma_add_is_crop(b.0, c.0);
        lemma_add_is_crop(ab, ac);
        lemma_crop_congruent(b.0 + c.0);
        lemma_crop_congruent(a.0 * b.0);
        lemma_crop_congruent(a.0 * c.0);
        lemma_mul_mod_noop_general(a.0 as int, bc as int, m);
        lemma_mul_mod_noop_general(a.0 as int, b.0 + c.0, m);
        lemma_add_mod_noop(ab as int, ac as int, m);
        lemma_add_mod_noop(a.0 * b.0, a.0 * c.0, m);
        assert(a.0 * (b.0 + c.0) == a.0 * b.0 + a.0 * c.0) by (nonlinear_arith);
        lemma_crop_of_congruent(a.0 * bc, ab + ac);
    }
    assert forall|a: Wrapped, b: Wrapped, c: Wrapped| #[trigger]
        a.add_spec(b).mul_spec(c) == a.mul_spec(c).add_spec(b.mul_spec(c)) by {
        let ab = wrapping_add(a.0, b.0);
        let ac = wrapping_mul(a.0, c.0);
        let bc = wrapping_mul(b.0, c.0);
        lemma_add_is_crop(a.0, b.0);
        lemma_add_is_crop(ac, bc);
        lemma_crop_congruent(a.0 + b.0);
        lemma_crop_congruent(a.0 * c.0);
        lemma_crop_congruent(b.0 * c.0);
        lemma_mul_mod_noop_general(ab as int, c.0 as int, m);
        lemma_mul_mod_noop_general(a.0 + b.0, c.0 as int, m);
        lemma_add_mod_noop(ac as int, bc as int, m);
        lemma_add_mod_noop(a.0 * c.0, b.0 * c.0, m);
        assert((a.0 + b.0) * c.0 == a.0 * c.0 + b.0 * c.0) by (nonlinear_arith);
        lemma_crop_of_congruent(ab * c.0, ac + bc);
    }
    assert forall|a: Wrapped| #[trigger] a.mul_spec(zero::<Wrapped>()) == zero::<Wrapped>() by {
        assert(a.0 * 0 == 0) by (nonlinear_arith);
        lemma_crop_in_range(0);
    }
    assert forall|a: Wrapped| #[trigger] zero::<Wrapped>().mul_spec(a) == zero::<Wrapped>() by {
        assert(0 * a.0 == 0) by (nonlinear_arith);
        lemma_crop_in_range(0);
    }
    assert forall|a: Wrapped| #[trigger] a.mul_spec(Wrapped(1)) == a by {
        assert(a.0 * 1 == a.0) by (nonlinear_arith);
        lemma_crop_in_range(a.0);
    }
}

} // verus!
