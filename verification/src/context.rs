//! The store of variable values and the ids of one forward pass.
use vstd::prelude::*;
use std::ops::Add;
use vstd::std_specs::ops::AddSpec;
use crate::expr::Container;

verus! {

/// Whether a clone of a value of `T` is that value.
pub open spec fn exact_clone<T: Clone>() -> bool {
    forall|x: T, y: T| #[trigger] call_ensures(T::clone, (&x,), y) ==> x == y
}

/// Whether `+` on `T` is defined everywhere and is a function of its
/// operands.
pub open spec fn total_add<T: Add<Output = T>>() -> bool {
    &&& T::obeys_add_spec()
    &&& forall|x: T, y: T| #[trigger] x.add_req(y)
}

/// A stable handle to one storage slot of a context.
#[derive(Clone, Copy)]
pub struct Variable(pub usize);

impl Variable {
    /// The value stored for this variable in the given context.
    pub fn value<'a, T>(&self, c: &'a Context<T>) -> (v: &'a T)
        requires
            self.0 < c.values().len(),
        ensures
            *v == c.values()[self.0 as int],
    {
        c.value_at(self)
    }
}

/// The values of the variables of an expression, and the counter from
/// which one forward pass takes the ids of its nodes.
///
/// Ids are taken above the highest variable index, so the id of a node is
/// never that of a variable.
pub struct Context<T> {
    vars: Vec<T>,
    node_count: usize,
}

impl<T> Context<T> {
    /// The stored values, by variable index.
    pub closed spec fn values(&self) -> Seq<T> {
        self.vars@
    }

    /// The number of ids taken since the counter was last reset.
    pub closed spec fn minted(&self) -> nat {
        self.node_count as nat
    }

    /// The id that the next node gets.
    pub open spec fn next_id(&self) -> nat {
        self.values().len() + self.minted()
    }

    /// Creates a context without variables.
    pub fn new() -> (c: Context<T>)
        ensures
            c.values() == Seq::<T>::empty(),
            c.minted() == 0,
    {
        Context { vars: Vec::new(), node_count: 0 }
    }

    /// The number of variables.
    pub fn len(&self) -> (n: usize)
        ensures
            n == self.values().len(),
    {
        self.vars.len()
    }

    /// The number of ids taken since the counter was last reset.
    pub fn node_count(&self) -> (n: usize)
        ensures
            n == self.minted(),
    {
        self.node_count
    }

    /// Takes the next id.
    pub(crate) fn get_index(&mut self) -> (idx: usize)
        requires
            old(self).next_id() < usize::MAX,
        ensures
            idx == old(self).next_id(),
            final(self).values() == old(self).values(),
            final(self).minted() == old(self).minted() + 1,
    {
        let idx = self.vars.len() + self.node_count;
        self.node_count += 1;
        idx
    }

    /// Starts a new pass: the next id is again the first above the
    /// variables.
    pub(crate) fn reset(&mut self)
        ensures
            final(self).values() == old(self).values(),
            final(self).minted() == 0,
    {
        self.node_count = 0;
    }

    /// The stored value of a variable.
    pub(crate) fn value_at(&self, var: &Variable) -> (v: &T)
        requires
            var.0 < self.values().len(),
        ensures
            *v == self.values()[var.0 as int],
    {
        &self.vars[var.0]
    }

    /// The stored value of a variable, for writing.
    pub(crate) fn value_at_mut(&mut self, var: &Variable) -> (v: &mut T)
        requires
            var.0 < old(self).values().len(),
        ensures
            *v == old(self).values()[var.0 as int],
            final(self).values() == old(self).values().update(var.0 as int, *final(v)),
            final(self).minted() == old(self).minted(),
    {
        &mut self.vars[var.0]
    }
}

impl<T: Clone> Context<T> {
    /// Appends a variable with the given value and returns its handle.
    pub fn create_variable(&mut self, value: T) -> (var: Container<T, Variable>)
        ensures
            var@.0 == old(self).values().len(),
            final(self).values() == old(self).values().push(value),
            final(self).minted() == old(self).minted(),
    {
        let var_idx = self.vars.len();
        self.vars.push(value);
        Container::new(Variable(var_idx))
    }

    /// A copy of the stored value of a variable.
    pub(crate) fn get_variable_value(&self, var: &Variable) -> (v: T)
        requires
            exact_clone::<T>(),
            var.0 < self.values().len(),
        ensures
            v == self.values()[var.0 as int],
    {
        self.vars[var.0].clone()
    }

    /// Overwrites the stored value of a variable of this context.
    pub fn set_variable_value(&mut self, var: Container<T, Variable>, value: T)
        requires
            var@.0 < old(self).values().len(),
        ensures
            final(self).values() == old(self).values().update(var@.0 as int, value),
            final(self).minted() == old(self).minted(),
    {
        let var = var.into_inner();
        self.vars[var.0] = value;
    }
}

} // verus!
