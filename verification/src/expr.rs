//! Expressions: descriptions of a computation that are evaluated on demand.
use vstd::prelude::*;
use std::marker::PhantomData;
use crate::context::{exact_clone, Context, Variable};
use crate::model::{upstream, Tree};
use crate::node::Node;
use crate::rule::VecJacProduct;

verus! {

/// A computation that can be evaluated against a context.
///
/// Evaluation is a function of the expression, the stored values and the
/// next free id. It evaluates the operands in argument order, then takes
/// one id for the node itself, so that the ids of the tree it returns are
/// numbered as [`Tree::wf`] says.
///
/// An implementation states what it builds by overriding the three
/// specification functions; left as they are, they stand for a tree and a
/// number of ids of which nothing is known.
pub trait Expression<T, R: VecJacProduct<T>> {
    /// The stored values against which the expression can be evaluated.
    open spec fn admits(&self, vars: Seq<T>) -> bool {
        true
    }

    /// The number of ids that one evaluation takes.
    open spec fn minted(&self) -> nat {
        arbitrary()
    }

    /// The tree that evaluation returns over the stored values `vars` when
    /// the next free id is `lo`.
    open spec fn tree(&self, vars: Seq<T>, lo: nat) -> Tree<T, R> {
        arbitrary()
    }

    /// Evaluates the expression in the given context.
    fn eval(&self, c: &mut Context<T>) -> (n: Node<T, R>)
        requires
            self.admits(old(c).values()),
            old(c).next_id() + self.minted() <= usize::MAX,
        ensures
            final(c).values() == old(c).values(),
            final(c).minted() == old(c).minted() + self.minted(),
            n@ == self.tree(old(c).values(), old(c).next_id()),
            n@.wf(old(c).values().len(), old(c).next_id()),
            n@.span(old(c).values().len()) == self.minted(),
            n.tidy(),
    ;
}

/// A wrapper around an expression, on which the arithmetic operators are
/// defined.
pub struct Container<T, E> {
    /// The wrapped expression.
    pub inner: E,
    /// The type of the values of the expression.
    pub _marker: PhantomData<T>,
}

impl<T, E> Container<T, E> {
    /// The wrapped expression.
    pub open spec fn view(&self) -> E {
        self.inner
    }

    /// The wrapper around `e`.
    pub open spec fn wrap(e: E) -> Self {
        Container { inner: e, _marker: PhantomData }
    }

    /// Wraps an expression.
    pub fn new(e: E) -> (c: Self)
        ensures
            c == Self::wrap(e),
    {
        Container { inner: e, _marker: PhantomData }
    }

    /// The wrapped expression.
    pub fn inner(&self) -> (e: &E)
        ensures
            *e == self@,
    {
        &self.inner
    }

    /// Unwraps the expression.
    pub fn into_inner(self) -> (e: E)
        ensures
            e == self@,
    {
        self.inner
    }
}

impl<T, E: Clone> Clone for Container<T, E> {
    fn clone(&self) -> (c: Self)
        ensures
            call_ensures(E::clone, (&self@,), c@),
    {
        Container { inner: self.inner.clone(), _marker: PhantomData }
    }
}

impl<T, E: Copy> Copy for Container<T, E> {

}

impl<T, R: VecJacProduct<T>, E: Expression<T, R>> Expression<T, R> for Container<T, E> {
    open spec fn admits(&self, vars: Seq<T>) -> bool {
        self@.admits(vars)
    }

    open spec fn minted(&self) -> nat {
        self@.minted()
    }

    open spec fn tree(&self, vars: Seq<T>, lo: nat) -> Tree<T, R> {
        self@.tree(vars, lo)
    }

    fn eval(&self, c: &mut Context<T>) -> (n: Node<T, R>) {
        self.inner.eval(c)
    }
}

impl<T: Clone, R: VecJacProduct<T>> Expression<T, R> for Variable {
    open spec fn admits(&self, vars: Seq<T>) -> bool {
        &&& exact_clone::<T>()
        &&& self.0 < vars.len()
    }

    open spec fn minted(&self) -> nat {
        0
    }

    open spec fn tree(&self, vars: Seq<T>, lo: nat) -> Tree<T, R> {
        Tree {
            id: self.0,
            value: vars[self.0 as int],
            kids: Seq::empty(),
            progs: Set::empty(),
            rule: None,
        }
    }

    fn eval(&self, c: &mut Context<T>) -> (n: Node<T, R>) {
        let n = Node::leaf(self.0, c.get_variable_value(self));
        proof {
            reveal(Tree::wf);
            assert(n@.progs =~= upstream(n@.kids));
        }
        n
    }
}

/// A leaf that carries a value of its own and takes an id of the pass.
pub struct LeafVar<T>(pub T);

impl<T: Clone, R: VecJacProduct<T>> Expression<T, R> for LeafVar<T> {
    open spec fn admits(&self, vars: Seq<T>) -> bool {
        exact_clone::<T>()
    }

    open spec fn minted(&self) -> nat {
        1
    }

    open spec fn tree(&self, vars: Seq<T>, lo: nat) -> Tree<T, R> {
        Tree {
            id: lo as usize,
            value: self.0,
            kids: Seq::empty(),
            progs: Set::empty(),
            rule: None,
        }
    }

    fn eval(&self, c: &mut Context<T>) -> (n: Node<T, R>) {
        let index = c.get_index();
        let n = Node::leaf(index, self.0.clone());
        proof {
            reveal(Tree::wf);
            assert(n@.progs =~= upstream(n@.kids));
        }
        n
    }
}

} // verus!
