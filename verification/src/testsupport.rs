//! Difference quotients, against which gradients can be held.
use vstd::prelude::*;
use std::ops::{Add, Div, Sub};
use vstd::std_specs::ops::{AddSpec, DivSpec, SubSpec};
use crate::context::{exact_clone, total_add, Context, Variable};
use crate::expr::{Container, Expression};
use crate::functions::total_sub;
use crate::rule::VecJacProduct;

verus! {

/// Whether `/` on `T` is defined everywhere and is a function of its
/// operands.
pub open spec fn total_div<T: Div<Output = T>>() -> bool {
    &&& T::obeys_div_spec()
    &&& forall|x: T, y: T| #[trigger] x.div_req(y)
}

/// The difference quotient of the expression at the stored value of
/// `var` for the step `h`: the value of the expression after the step,
/// less its value before, divided by the step. The variable keeps the
/// value after the step.
pub fn finite_diff_grad<T, R, E>(
    expr: &Container<T, E>,
    c: &mut Context<T>,
    var: Container<T, Variable>,
    h: T,
) -> (quotient: T) where
    R: VecJacProduct<T>,
    E: Expression<T, R>,
    T: Clone + Add<Output = T> + Sub<Output = T> + Div<Output = T>,

    requires
        exact_clone::<T>(),
        total_add::<T>(),
        total_sub::<T>(),
        total_div::<T>(),
        var@.0 < old(c).values().len(),
        expr@.admits(old(c).values()),
        expr@.admits(
            old(c).values().update(
                var@.0 as int,
                old(c).values()[var@.0 as int].add_spec(h),
            ),
        ),
        old(c).next_id() + 2 * expr@.minted() <= usize::MAX,
    ensures
        final(c).values() == old(c).values().update(
            var@.0 as int,
            old(c).values()[var@.0 as int].add_spec(h),
        ),
        final(c).minted() == old(c).minted() + 2 * expr@.minted(),
        quotient == expr@.tree(final(c).values(), old(c).next_id() + expr@.minted()).value.sub_spec(
            expr@.tree(old(c).values(), old(c).next_id()).value,
        ).div_spec(h),
{
    let handle = var.into_inner();
    let curr_val = c.get_variable_value(&handle);
    let new_val = curr_val + h.clone();

    let curr_eval = expr.eval(c).value().clone();
    c.set_variable_value(var, new_val);
    let new_eval = expr.eval(c).value().clone();

    (new_eval - curr_eval) / h
}

} // verus!
