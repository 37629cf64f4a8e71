//! The arithmetic operations and their backward rules.
use vstd::prelude::*;
use std::marker::PhantomData;
use std::ops;
use vstd::std_specs::ops::{AddSpec, DivSpec, MulSpec, NegSpec, SubSpec};
use crate::context::{exact_clone, total_add, Context};
use crate::expr::Expression;
use crate::lemmas::{lemma_binary_wf, lemma_unary_wf};
use crate::model::{upstream, Tree};
use crate::node::Node;
use crate::rule::VecJacProduct;

pub mod op_overrides;

verus! {

/// Whether negation, multiplication and division on `T` are defined
/// everywhere and are functions of their operands, and a clone of a value
/// is that value.
pub open spec fn arith<T: Clone + ops::Neg<Output = T> + ops::Mul<Output = T> + ops::Div<
    Output = T,
>>() -> bool {
    &&& exact_clone::<T>()
    &&& T::obeys_neg_spec()
    &&& T::obeys_mul_spec()
    &&& T::obeys_div_spec()
    &&& forall|x: T| #[trigger] x.neg_req()
    &&& forall|x: T, y: T| #[trigger] x.mul_req(y)
    &&& forall|x: T, y: T| #[trigger] x.div_req(y)
}

/// Whether `-` on `T` is defined everywhere and is a function of its
/// operands.
pub open spec fn total_sub<T: ops::Sub<Output = T>>() -> bool {
    &&& T::obeys_sub_spec()
    &&& forall|x: T, y: T| #[trigger] x.sub_req(y)
}

/// The backward rules of the arithmetic operations.
pub enum Rule<T> {
    /// Hands the gradient on unchanged: a sum.
    Identity,
    /// Hands on the negated gradient: a negation.
    Negate,
    /// Hands the gradient to the first operand and its negation to the
    /// second: a difference.
    Difference,
    /// The product rule; holds the values of the two factors.
    Product(T, T),
    /// The quotient rule; holds the values of numerator and denominator.
    Quotient(T, T),
    /// The chain rule of a function of one operand; holds the derivative
    /// of the function at the operand's value.
    Scale(T),
}

impl<T> VecJacProduct<T> for Rule<T> where
    T: Clone + ops::Neg<Output = T> + ops::Mul<Output = T> + ops::Div<Output = T>,
 {
    open spec fn vjp_req(&self, g: T, node: T, parent: T, argnum: usize) -> bool {
        &&& arith::<T>()
        &&& match self {
            Rule::Difference | Rule::Product(_, _) | Rule::Quotient(_, _) => argnum < 2,
            _ => true,
        }
    }

    open spec fn vjp_spec(&self, g: T, node: T, parent: T, argnum: usize) -> T {
        match self {
            Rule::Identity => g,
            Rule::Negate => g.neg_spec(),
            Rule::Difference => if argnum == 0 {
                g
            } else {
                g.neg_spec()
            },
            Rule::Product(x, y) => if argnum == 0 {
                g.mul_spec(*y)
            } else {
                g.mul_spec(*x)
            },
            Rule::Quotient(x, y) => if argnum == 0 {
                g.div_spec(*y)
            } else {
                g.neg_spec().mul_spec(*x).div_spec(y.mul_spec(*y))
            },
            Rule::Scale(d) => g.mul_spec(*d),
        }
    }

    fn vjp(&self, g: T, node: &T, parent: &T, argnum: usize) -> (r: T) {
        match self {
            Rule::Identity => g,
            Rule::Negate => ops::Neg::neg(g),
            Rule::Difference => if argnum == 0 {
                g
            } else {
                ops::Neg::neg(g)
            },
            Rule::Product(x, y) => if argnum == 0 {
                g * y.clone()
            } else {
                g * x.clone()
            },
            Rule::Quotient(x, y) => if argnum == 0 {
                g / y.clone()
            } else {
                ops::Neg::neg(g) * x.clone() / (y.clone() * y.clone())
            },
            Rule::Scale(d) => g * d.clone(),
        }
    }
}

/// The sum of two expressions.
pub struct Add<T, X, Y> {
    /// The first operand.
    pub x: X,
    /// The second operand.
    pub y: Y,
    /// The type of the values of the operands.
    pub _marker: PhantomData<T>,
}

impl<T, X, Y> Add<T, X, Y> {
    /// The two terms.
    pub open spec fn view(&self) -> (X, Y) {
        (self.x, self.y)
    }

    /// The sum of `x` and `y`, for use in specifications.
    pub open spec fn of(x: X, y: Y) -> Self {
        Add { x: x, y: y, _marker: PhantomData }
    }

    /// The sum of `x` and `y`.
    pub fn new(x: X, y: Y) -> (e: Self)
        ensures
            e == Self::of(x, y),
    {
        Add { x: x, y: y, _marker: PhantomData }
    }
}

impl<T, X, Y> Expression<T, Rule<T>> for Add<T, X, Y> where
    T: Clone + ops::Add<Output = T> + ops::Neg<Output = T> + ops::Mul<Output = T> + ops::Div<
        Output = T,
    >,
    X: Expression<T, Rule<T>>,
    Y: Expression<T, Rule<T>>,
 {
    open spec fn admits(&self, vars: Seq<T>) -> bool {
        &&& arith::<T>()
        &&& total_add::<T>()
        &&& self@.0.admits(vars)
        &&& self@.1.admits(vars)
    }

    open spec fn minted(&self) -> nat {
        self@.0.minted() + self@.1.minted() + 1
    }

    open spec fn tree(&self, vars: Seq<T>, lo: nat) -> Tree<T, Rule<T>> {
        let x = self@.0.tree(vars, lo);
        let y = self@.1.tree(vars, lo + self@.0.minted());
        Tree {
            id: (lo + self@.0.minted() + self@.1.minted()) as usize,
            value: x.value.add_spec(y.value),
            kids: seq![x, y],
            progs: upstream(seq![x, y]),
            rule: Some(Rule::Identity),
        }
    }

    fn eval(&self, c: &mut Context<T>) -> (n: Node<T, Rule<T>>) {
        let x_eval = self.x.eval(c);
        let y_eval = self.y.eval(c);

        let parents = vec![x_eval, y_eval];
        let progenitors = Node::get_progenitors(&parents);
        let v1 = parents[0].value().clone();
        let v2 = parents[1].value().clone();
        let value = v1 + v2;
        let n = Node::new(c, value, parents, progenitors, Rule::Identity);
        proof {
            assert(n@.kids =~= seq![x_eval@, y_eval@]);
            lemma_binary_wf(n@, old(c).values().len(), old(c).next_id());
        }
        n
    }
}

/// The product of two expressions.
pub struct Mul<T, X, Y> {
    /// The first operand.
    pub x: X,
    /// The second operand.
    pub y: Y,
    /// The type of the values of the operands.
    pub _marker: PhantomData<T>,
}

impl<T, X, Y> Mul<T, X, Y> {
    /// The two factors.
    pub open spec fn view(&self) -> (X, Y) {
        (self.x, self.y)
    }

    /// The product of `x` and `y`, for use in specifications.
    pub open spec fn of(x: X, y: Y) -> Self {
        Mul { x: x, y: y, _marker: PhantomData }
    }

    /// The product of `x` and `y`.
    pub fn new(x: X, y: Y) -> (e: Self)
        ensures
            e == Self::of(x, y),
    {
        Mul { x: x, y: y, _marker: PhantomData }
    }
}

impl<T, X, Y> Expression<T, Rule<T>> for Mul<T, X, Y> where
    T: Clone + ops::Neg<Output = T> + ops::Mul<Output = T> + ops::Div<Output = T>,
    X: Expression<T, Rule<T>>,
    Y: Expression<T, Rule<T>>,
 {
    open spec fn admits(&self, vars: Seq<T>) -> bool {
        &&& arith::<T>()
        &&& self@.0.admits(vars)
        &&& self@.1.admits(vars)
    }

    open spec fn minted(&self) -> nat {
        self@.0.minted() + self@.1.minted() + 1
    }

    open spec fn tree(&self, vars: Seq<T>, lo: nat) -> Tree<T, Rule<T>> {
        let x = self@.0.tree(vars, lo);
        let y = self@.1.tree(vars, lo + self@.0.minted());
        Tree {
            id: (lo + self@.0.minted() + self@.1.minted()) as usize,
            value: x.value.mul_spec(y.value),
            kids: seq![x, y],
            progs: upstream(seq![x, y]),
            rule: Some(Rule::Product(x.value, y.value)),
        }
    }

    fn eval(&self, c: &mut Context<T>) -> (n: Node<T, Rule<T>>) {
        let x_eval = self.x.eval(c);
        let y_eval = self.y.eval(c);

        let parents = vec![x_eval, y_eval];
        let progenitors = Node::get_progenitors(&parents);
        let v1 = parents[0].value().clone();
        let v2 = parents[1].value().clone();
        let value = v1.clone() * v2.clone();
        let n = Node::new(c, value, parents, progenitors, Rule::Product(v1, v2));
        proof {
            assert(n@.kids =~= seq![x_eval@, y_eval@]);
            lemma_binary_wf(n@, old(c).values().len(), old(c).next_id());
        }
        n
    }
}

/// The quotient of two expressions.
pub struct Div<T, X, Y> {
    /// The first operand.
    pub x: X,
    /// The second operand.
    pub y: Y,
    /// The type of the values of the operands.
    pub _marker: PhantomData<T>,
}

impl<T, X, Y> Div<T, X, Y> {
    /// Numerator and denominator.
    pub open spec fn view(&self) -> (X, Y) {
        (self.x, self.y)
    }

    /// The quotient of `x` by `y`, for use in specifications.
    pub open spec fn of(x: X, y: Y) -> Self {
        Div { x: x, y: y, _marker: PhantomData }
    }

    /// The quotient of `x` by `y`.
    pub fn new(x: X, y: Y) -> (e: Self)
        ensures
            e == Self::of(x, y),
    {
        Div { x: x, y: y, _marker: PhantomData }
    }
}

impl<T, X, Y> Expression<T, Rule<T>> for Div<T, X, Y> where
    T: Clone + ops::Neg<Output = T> + ops::Mul<Output = T> + ops::Div<Output = T>,
    X: Expression<T, Rule<T>>,
    Y: Expression<T, Rule<T>>,
 {
    open spec fn admits(&self, vars: Seq<T>) -> bool {
        &&& arith::<T>()
        &&& self@.0.admits(vars)
        &&& self@.1.admits(vars)
    }

    open spec fn minted(&self) -> nat {
        self@.0.minted() + self@.1.minted() + 1
    }

    open spec fn tree(&self, vars: Seq<T>, lo: nat) -> Tree<T, Rule<T>> {
        let x = self@.0.tree(vars, lo);
        let y = self@.1.tree(vars, lo + self@.0.minted());
        Tree {
            id: (lo + self@.0.minted() + self@.1.minted()) as usize,
            value: x.value.div_spec(y.value),
            kids: seq![x, y],
            progs: upstream(seq![x, y]),
            rule: Some(Rule::Quotient(x.value, y.value)),
        }
    }

    fn eval(&self, c: &mut Context<T>) -> (n: Node<T, Rule<T>>) {
        let x_eval = self.x.eval(c);
        let y_eval = self.y.eval(c);

        let parents = vec![x_eval, y_eval];
        let progenitors = Node::get_progenitors(&parents);
        let v1 = parents[0].value().clone();
        let v2 = parents[1].value().clone();
        let value = v1.clone() / v2.clone();
        let n = Node::new(c, value, parents, progenitors, Rule::Quotient(v1, v2));
        proof {
            assert(n@.kids =~= seq![x_eval@, y_eval@]);
            lemma_binary_wf(n@, old(c).values().len(), old(c).next_id());
        }
        n
    }
}

/// The difference of two expressions.
pub struct Sub<T, X, Y> {
    /// The first operand.
    pub x: X,
    /// The second operand.
    pub y: Y,
    /// The type of the values of the operands.
    pub _marker: PhantomData<T>,
}

impl<T, X, Y> Sub<T, X, Y> {
    /// Minuend and subtrahend.
    pub open spec fn view(&self) -> (X, Y) {
        (self.x, self.y)
    }

    /// The difference of `x` and `y`, for use in specifications.
    pub open spec fn of(x: X, y: Y) -> Self {
        Sub { x: x, y: y, _marker: PhantomData }
    }

    /// The difference of `x` and `y`.
    pub fn new(x: X, y: Y) -> (e: Self)
        ensures
            e == Self::of(x, y),
    {
        Sub { x: x, y: y, _marker: PhantomData }
    }
}

impl<T, X, Y> Expression<T, Rule<T>> for Sub<T, X, Y> where
    T: Clone + ops::Sub<Output = T> + ops::Neg<Output = T> + ops::Mul<Output = T> + ops::Div<
        Output = T,
    >,
    X: Expression<T, Rule<T>>,
    Y: Expression<T, Rule<T>>,
 {
    open spec fn admits(&self, vars: Seq<T>) -> bool {
        &&& arith::<T>()
        &&& total_sub::<T>()
        &&& self@.0.admits(vars)
        &&& self@.1.admits(vars)
    }

    open spec fn minted(&self) -> nat {
        self@.0.minted() + self@.1.minted() + 1
    }

    open spec fn tree(&self, vars: Seq<T>, lo: nat) -> Tree<T, Rule<T>> {
        let x = self@.0.tree(vars, lo);
        let y = self@.1.tree(vars, lo + self@.0.minted());
        Tree {
            id: (lo + self@.0.minted() + self@.1.minted()) as usize,
            value: x.value.sub_spec(y.value),
            kids: seq![x, y],
            progs: upstream(seq![x, y]),
            rule: Some(Rule::Difference),
        }
    }

    fn eval(&self, c: &mut Context<T>) -> (n: Node<T, Rule<T>>) {
        let x_eval = self.x.eval(c);
        let y_eval = self.y.eval(c);

        let parents = vec![x_eval, y_eval];
        let progenitors = Node::get_progenitors(&parents);
        let v1 = parents[0].value().clone();
        let v2 = parents[1].value().clone();
        let value = v1 - v2;
        let n = Node::new(c, value, parents, progenitors, Rule::Difference);
        proof {
            assert(n@.kids =~= seq![x_eval@, y_eval@]);
            lemma_binary_wf(n@, old(c).values().len(), old(c).next_id());
        }
        n
    }
}

/// The negation of an expression.
pub struct Neg<T, X>(pub X, pub PhantomData<T>);

impl<T, X> Neg<T, X> {
    /// The negated expression.
    pub open spec fn view(&self) -> X {
        self.0
    }

    /// The negation of `x`, for use in specifications.
    pub open spec fn of(x: X) -> Self {
        Neg(x, PhantomData)
    }

    /// The negation of `x`.
    pub fn new(x: X) -> (e: Self)
        ensures
            e == Self::of(x),
    {
        Neg(x, PhantomData)
    }
}

impl<T, X> Expression<T, Rule<T>> for Neg<T, X> where
    T: Clone + ops::Neg<Output = T> + ops::Mul<Output = T> + ops::Div<Output = T>,
    X: Expression<T, Rule<T>>,
 {
    open spec fn admits(&self, vars: Seq<T>) -> bool {
        &&& arith::<T>()
        &&& self@.admits(vars)
    }

    open spec fn minted(&self) -> nat {
        self@.minted() + 1
    }

    open spec fn tree(&self, vars: Seq<T>, lo: nat) -> Tree<T, Rule<T>> {
        let x = self@.tree(vars, lo);
        Tree {
            id: (lo + self@.minted()) as usize,
            value: x.value.neg_spec(),
            kids: seq![x],
            progs: upstream(seq![x]),
            rule: Some(Rule::Negate),
        }
    }

    fn eval(&self, c: &mut Context<T>) -> (n: Node<T, Rule<T>>) {
        let x_eval = self.0.eval(c);

        let parents = vec![x_eval];
        let progenitors = Node::get_progenitors(&parents);
        let value = ops::Neg::neg(parents[0].value().clone());
        let n = Node::new(c, value, parents, progenitors, Rule::Negate);
        proof {
            assert(n@.kids =~= seq![x_eval@]);
            lemma_unary_wf(n@, old(c).values().len(), old(c).next_id());
        }
        n
    }
}

} // verus!
