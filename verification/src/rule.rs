//! The contract between the engine and the backward rule of an operation.
use vstd::prelude::*;

verus! {

/// The backward rule of one operation: the local step of the chain rule.
///
/// A rule is a pure function of what it captured when its node was built
/// and of its arguments: the gradient `g` that flows into the node, the
/// node's own value, the value of one operand and that operand's position.
///
/// An implementation states its formula by overriding the two
/// specification functions; left as they are, they stand for a rule that
/// is defined everywhere and of whose values nothing is known.
pub trait VecJacProduct<T> {
    /// The arguments on which the rule is defined.
    open spec fn vjp_req(&self, g: T, node: T, parent: T, argnum: usize) -> bool {
        true
    }

    /// The gradient that the rule hands to the operand at `argnum`.
    open spec fn vjp_spec(&self, g: T, node: T, parent: T, argnum: usize) -> T {
        arbitrary()
    }

    /// Computes the gradient that flows into the operand at `argnum`.
    fn vjp(&self, g: T, node: &T, parent: &T, argnum: usize) -> (r: T)
        requires
            self.vjp_req(g, *node, *parent, argnum),
        ensures
            r == self.vjp_spec(g, *node, *parent, argnum),
    ;
}

} // verus!
