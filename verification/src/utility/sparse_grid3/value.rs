//! What the grid asks of a value type's equality.

use vstd::laws_eq::obeys_eq;
use vstd::prelude::*;
use vstd::std_specs::cmp::PartialEqSpec;

verus! {

/// The very same value.
pub open spec fn identical<T>(a: T, b: T) -> bool {
    a == b
}

/// Equality on `T` is symmetric and transitive, or `T` has a single value.
///
/// Reflexivity is not asked for: a value may differ from itself, as a
/// floating-point NaN does.
pub open spec fn lawful<T: PartialEq>() -> bool {
    obeys_eq::<T>() || (forall|a: T, b: T| #[trigger] identical(a, b))
}

/// The very same value, or one that compares equal to it.
pub open spec fn same<T: PartialEq>(a: T, b: T) -> bool {
    identical(a, b) || (T::obeys_eq_spec() && a.eq_spec(&b))
}

/// Both absent, or both present with `same` values.
pub open spec fn same_cell<T: PartialEq>(a: Option<T>, b: Option<T>) -> bool {
    match (a, b) {
        (None, None) => true,
        (Some(x), Some(y)) => same(x, y),
        _ => false,
    }
}

/// `same` is transitive.
pub proof fn lemma_same_transitive<T: PartialEq>(a: T, b: T, c: T)
    requires
        lawful::<T>(),
        same(a, b),
        same(b, c),
    ensures
        same(a, c),
{
    reveal(vstd::laws_eq::obeys_eq_spec_properties);
}

/// `same_cell` is transitive.
pub proof fn lemma_same_cell_transitive<T: PartialEq>(a: Option<T>, b: Option<T>, c: Option<T>)
    requires
        lawful::<T>(),
        same_cell(a, b),
        same_cell(b, c),
    ensures
        same_cell(a, c),
{
    if a is Some {
        lemma_same_transitive(a->0, b->0, c->0);
    }
}

/// Where equality means identity, `same` cells are identical.
pub proof fn law_same_cell_identical<T: PartialEq>(a: Option<T>, b: Option<T>)
    requires
        vstd::laws_eq::obeys_concrete_eq::<T>(),
        same_cell(a, b),
    ensures
        a == b,
{
    reveal(vstd::laws_eq::obeys_concrete_eq);
}

/// Marks a voxel that carries no value of its own.
#[derive(Debug, Clone, Copy, PartialEq, Eq, Structural)]
pub struct Present;

/// There is only one mark.
pub proof fn lemma_present_lawful()
    ensures
        lawful::<Present>(),
{
    assert forall|a: Present, b: Present| #[trigger] identical(a, b) by {}
}

} // verus!
