//! The arithmetic operators on wrapped expressions.
use vstd::prelude::*;
use crate::expr::{Container, Expression};
use crate::functions::Rule;

verus! {

impl<T, E1, E2> std::ops::Add<Container<T, E2>> for Container<T, E1> where
    E1: Expression<T, Rule<T>>,
    E2: Expression<T, Rule<T>>,
    T: Clone + std::ops::Add<Output = T> + std::ops::Neg<Output = T> + std::ops::Mul<
        Output = T,
    > + std::ops::Div<Output = T>,
 {
    type Output = Container<T, crate::functions::Add<T, E1, E2>>;

    fn add(self, rhs: Container<T, E2>) -> (out: Container<
        T,
        crate::functions::Add<T, E1, E2>,
    >) {
        Container::new(crate::functions::Add::new(self.into_inner(), rhs.into_inner()))
    }
}

impl<T, E1, E2> vstd::std_specs::ops::AddSpecImpl<Container<T, E2>> for Container<T, E1> where
    E1: Expression<T, Rule<T>>,
    E2: Expression<T, Rule<T>>,
    T: Clone + std::ops::Add<Output = T> + std::ops::Neg<Output = T> + std::ops::Mul<
        Output = T,
    > + std::ops::Div<Output = T>,
 {
    open spec fn obeys_add_spec() -> bool {
        true
    }

    open spec fn add_req(self, rhs: Container<T, E2>) -> bool {
        true
    }

    open spec fn add_spec(self, rhs: Container<T, E2>) -> Container<
        T,
        crate::functions::Add<T, E1, E2>,
    > {
        Container::wrap(crate::functions::Add::of(self@, rhs@))
    }
}

impl<T, E1, E2> std::ops::Mul<Container<T, E2>> for Container<T, E1> where
    E1: Expression<T, Rule<T>>,
    E2: Expression<T, Rule<T>>,
    T: Clone + std::ops::Neg<Output = T> + std::ops::Mul<Output = T> + std::ops::Div<Output = T>,
 {
    type Output = Container<T, crate::functions::Mul<T, E1, E2>>;

    fn mul(self, rhs: Container<T, E2>) -> (out: Container<
        T,
        crate::functions::Mul<T, E1, E2>,
    >) {
        Container::new(crate::functions::Mul::new(self.into_inner(), rhs.into_inner()))
    }
}

impl<T, E1, E2> vstd::std_specs::ops::MulSpecImpl<Container<T, E2>> for Container<T, E1> where
    E1: Expression<T, Rule<T>>,
    E2: Expression<T, Rule<T>>,
    T: Clone + std::ops::Neg<Output = T> + std::ops::Mul<Output = T> + std::ops::Div<Output = T>,
 {
    open spec fn obeys_mul_spec() -> bool {
        true
    }

    open spec fn mul_req(self, rhs: Container<T, E2>) -> bool {
        true
    }

    open spec fn mul_spec(self, rhs: Container<T, E2>) -> Container<
        T,
        crate::functions::Mul<T, E1, E2>,
    > {
        Container::wrap(crate::functions::Mul::of(self@, rhs@))
    }
}

impl<T, E1, E2> std::ops::Div<Container<T, E2>> for Container<T, E1> where
    E1: Expression<T, Rule<T>>,
    E2: Expression<T, Rule<T>>,
    T: Clone + std::ops::Neg<Output = T> + std::ops::Mul<Output = T> + std::ops::Div<Output = T>,
 {
    type Output = Container<T, crate::functions::Div<T, E1, E2>>;

    fn div(self, rhs: Container<T, E2>) -> (out: Container<
        T,
        crate::functions::Div<T, E1, E2>,
    >) {
        Container::new(crate::functions::Div::new(self.into_inner(), rhs.into_inner()))
    }
}

impl<T, E1, E2> vstd::std_specs::ops::DivSpecImpl<Container<T, E2>> for Container<T, E1> where
    E1: Expression<T, Rule<T>>,
    E2: Expression<T, Rule<T>>,
    T: Clone + std::ops::Neg<Output = T> + std::ops::Mul<Output = T> + std::ops::Div<Output = T>,
 {
    open spec fn obeys_div_spec() -> bool {
        true
    }

    open spec fn div_req(self, rhs: Container<T, E2>) -> bool {
        true
    }

    open spec fn div_spec(self, rhs: Container<T, E2>) -> Container<
        T,
        crate::functions::Div<T, E1, E2>,
    > {
        Container::wrap(crate::functions::Div::of(self@, rhs@))
    }
}

impl<T, E1, E2> std::ops::Sub<Container<T, E2>> for Container<T, E1> where
    E1: Expression<T, Rule<T>>,
    E2: Expression<T, Rule<T>>,
    T: Clone + std::ops::Sub<Output = T> + std::ops::Neg<Output = T> + std::ops::Mul<
        Output = T,
    > + std::ops::Div<Output = T>,
 {
    type Output = Container<T, crate::functions::Sub<T, E1, E2>>;

    fn sub(self, rhs: Container<T, E2>) -> (out: Container<
        T,
        crate::functions::Sub<T, E1, E2>,
    >) {
        Container::new(crate::functions::Sub::new(self.into_inner(), rhs.into_inner()))
    }
}

impl<T, E1, E2> vstd::std_specs::ops::SubSpecImpl<Container<T, E2>> for Container<T, E1> where
    E1: Expression<T, Rule<T>>,
    E2: Expression<T, Rule<T>>,
    T: Clone + std::ops::Sub<Output = T> + std::ops::Neg<Output = T> + std::ops::Mul<
        Output = T,
    > + std::ops::Div<Output = T>,
 {
    open spec fn obeys_sub_spec() -> bool {
        true
    }

    open spec fn sub_req(self, rhs: Container<T, E2>) -> bool {
        true
    }

    open spec fn sub_spec(self, rhs: Container<T, E2>) -> Container<
        T,
        crate::functions::Sub<T, E1, E2>,
    > {
        Container::wrap(crate::functions::Sub::of(self@, rhs@))
    }
}

impl<T, E> std::ops::Neg for Container<T, E> where
    E: Expression<T, Rule<T>>,
    T: Clone + std::ops::Neg<Output = T> + std::ops::Mul<Output = T> + std::ops::Div<Output = T>,
 {
    type Output = Container<T, crate::functions::Neg<T, E>>;

    fn neg(self) -> (out: Container<T, crate::functions::Neg<T, E>>) {
        Container::new(crate::functions::Neg::new(self.into_inner()))
    }
}

impl<T, E> vstd::std_specs::ops::NegSpecImpl for Container<T, E> where
    E: Expression<T, Rule<T>>,
    T: Clone + std::ops::Neg<Output = T> + std::ops::Mul<Output = T> + std::ops::Div<Output = T>,
 {
    open spec fn obeys_neg_spec() -> bool {
        true
    }

    open spec fn neg_req(self) -> bool {
        true
    }

    open spec fn neg_spec(self) -> Container<T, crate::functions::Neg<T, E>> {
        Container::wrap(crate::functions::Neg::of(self@))
    }
}

} // verus!
