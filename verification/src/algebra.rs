//! What the laws of convolution ask of a sample type's sums and products.
//! Each law below names the ones it needs; a ring has all of them.

use crate::convolution::zero;
use core::ops::Add;
use core::ops::Mul;
use vstd::prelude::*;
use vstd::std_specs::ops::AddSpec;
use vstd::std_specs::ops::MulSpec;

verus! {

/// `(a + b) + c == a + (b + c)`.
pub open spec fn add_associative<T: Add<Output = T>>() -> bool {
    forall|a: T, b: T, c: T| #[trigger] a.add_spec(b).add_spec(c) == a.add_spec(b.add_spec(c))
}

/// `a + b == b + a`.
pub open spec fn add_commutative<T: Add<Output = T>>() -> bool {
    forall|a: T, b: T| #[trigger] a.add_spec(b) == b.add_spec(a)
}

/// `a + 0 == a` and `0 + a == a`.
pub open spec fn zero_neutral<T: Default + Add<Output = T>>() -> bool {
    &&& forall|a: T| #[trigger] a.add_spec(zero::<T>()) == a
    &&& forall|a: T| #[trigger] zero::<T>().add_spec(a) == a
}

/// `a * 0 == 0` and `0 * a == 0`.
pub open spec fn zero_absorbing<T: Default + Mul<Output = T>>() -> bool {
    &&& forall|a: T| #[trigger] a.mul_spec(zero::<T>()) == zero::<T>()
    &&& forall|a: T| #[trigger] zero::<T>().mul_spec(a) == zero::<T>()
}

/// `a * (b + c) == a * b + a * c` and `(a + b) * c == a * c + b * c`.
pub open spec fn distributive<T: Add<Output = T> + Mul<Output = T>>() -> bool {
    &&& forall|a: T, b: T, c: T| #[trigger]
        a.mul_spec(b.add_spec(c)) == a.mul_spec(b).add_spec(a.mul_spec(c))
    &&& forall|a: T, b: T, c: T| #[trigger]
        a.add_spec(b).mul_spec(c) == a.mul_spec(c).add_spec(b.mul_spec(c))
}

/// `(a * b) * c == a * (b * c)`.
pub open spec fn mul_associative<T: Mul<Output = T>>() -> bool {
    forall|a: T, b: T, c: T| #[trigger] a.mul_spec(b).mul_spec(c) == a.mul_spec(b.mul_spec(c))
}

/// `a * unit == a`.
pub open spec fn right_unit<T: Mul<Output = T>>(unit: T) -> bool {
    forall|a: T| #[trigger] a.mul_spec(unit) == a
}

/// Sums may be regrouped and reordered, and zero changes none.
pub open spec fn additive_laws<T: Default + Add<Output = T>>() -> bool {
    &&& add_associative::<T>()
    &&& add_commutative::<T>()
    &&& zero_neutral::<T>()
}

/// `(a + b) + (c + d) == (a + c) + (b + d)`.
pub proof fn lemma_add_interchange<T: Default + Add<Output = T>>(a: T, b: T, c: T, d: T)
    requires
        add_associative::<T>(),
        add_commutative::<T>(),
    ensures
        a.add_spec(b).add_spec(c.add_spec(d)) == a.add_spec(c).add_spec(b.add_spec(d)),
{
    let bc = b.add_spec(c);
    let cb = c.add_spec(b);
    assert(a.add_spec(b).add_spec(c.add_spec(d)) == a.add_spec(b.add_spec(c.add_spec(d))));
    assert(b.add_spec(c.add_spec(d)) == bc.add_spec(d));
    assert(bc == cb);
    assert(cb.add_spec(d) == c.add_spec(b.add_spec(d)));
    assert(a.add_spec(c.add_spec(b.add_spec(d))) == a.add_spec(c).add_spec(b.add_spec(d)));
}

} // verus!
