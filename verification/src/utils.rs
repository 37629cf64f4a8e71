//! Small helpers of the backward pass.
use vstd::prelude::*;
use std::ops::Add;
use vstd::std_specs::ops::AddSpec;
use crate::context::{exact_clone, total_add};
use crate::model::total;

verus! {

/// Whether `x` occurs in `xs`.
pub fn contains(xs: &Vec<usize>, x: usize) -> (found: bool)
    ensures
        found == xs@.contains(x),
{
    let mut i: usize = 0;
    while i < xs.len()
        invariant
            i <= xs.len(),
            forall|k: int| 0 <= k < i ==> xs@[k] != x,
        decreases xs.len() - i,
    {
        if xs[i] == x {
            return true;
        }
        i += 1;
    }
    false
}

/// Appends `x` to `xs` unless it occurs there.
pub fn push_unique(xs: &mut Vec<usize>, x: usize)
    requires
        old(xs)@.no_duplicates(),
    ensures
        final(xs)@.no_duplicates(),
        final(xs)@.to_set() == old(xs)@.to_set().insert(x),
        final(xs)@ == if old(xs)@.contains(x) {
            old(xs)@
        } else {
            old(xs)@.push(x)
        },
{
    if !contains(xs, x) {
        xs.push(x);
        assert(xs@.to_set() =~= old(xs)@.to_set().insert(x)) by {
            assert forall|y: usize| xs@.contains(y) <==> (old(xs)@.contains(y) || y == x) by {
                if old(xs)@.contains(y) {
                    let k = choose|k: int| 0 <= k < old(xs)@.len() && old(xs)@[k] == y;
                    assert(xs@[k] == y);
                }
                if y == x {
                    assert(xs@[xs@.len() - 1] == x);
                }
            }
        }
    } else {
        assert(xs@.to_set() =~= old(xs)@.to_set().insert(x));
    }
}

/// Sums a non-empty slice from the left, starting from a copy of its first
/// element.
pub fn assigning_sum<T>(xs: &[T]) -> (sum: T) where T: Clone + Add<Output = T>
    requires
        xs@.len() > 0,
        exact_clone::<T>(),
        total_add::<T>(),
    ensures
        sum == total(xs@),
{
    let mut sum = xs[0].clone();
    let mut i: usize = 1;
    assert(xs@.take(1) =~= seq![xs@[0]]);
    while i < xs.len()
        invariant
            1 <= i <= xs@.len(),
            sum == total(xs@.take(i as int)),
            exact_clone::<T>(),
            total_add::<T>(),
        decreases xs@.len() - i,
    {
        let elmt = xs[i].clone();
        assert(xs@.take(i + 1).drop_last() =~= xs@.take(i as int));
        sum = sum + elmt;
        i += 1;
    }
    assert(xs@.take(i as int) =~= xs@);
    sum
}

} // verus!
