//! What holds of gradients, whatever the expression.
use vstd::prelude::*;
use std::ops;
use std::ops::Add;
use vstd::std_specs::ops::{AddSpec, DivSpec, MulSpec, NegSpec};
use crate::expr::Expression;
use crate::functions::Rule;
use crate::gradient::Gradient;
use crate::lemmas::{
    lemma_carrier_has_hit, lemma_chain_below_from, lemma_flow_len, lemma_kid, lemma_kid_relevant,
    lemma_node, lemma_span_upto_grows, lemma_variable_id,
};
use crate::model::{total, Tree};
use crate::rule::VecJacProduct;

verus! {

/// The chain rule. The gradient of a function of one operand is the
/// gradient of the operand, started from what the function's rule makes
/// of the seed: that value itself where the operand is the target,
/// nothing where the target is not upstream of the operand.
pub proof fn law_chain_rule<T: Add<Output = T>, R: VecJacProduct<T>>(
    t: Tree<T, R>,
    target: usize,
    seed: T,
)
    requires
        t.kids.len() == 1,
        t.id != target,
    ensures
        t.gradient(target, seed) == if t.kids[0].id == target {
            Some(t.pull(seed, 0))
        } else if t.kids[0].progs.contains(target) {
            t.kids[0].gradient(target, t.pull(seed, 0))
        } else {
            None
        },
{
    let kid = t.kids[0];
    let g = t.pull(seed, 0);
    assert(t.flow_direct(target, seed, 0) =~= Seq::empty());
    assert(t.flow_below(target, seed, 0) =~= Seq::empty());
    if kid.id == target {
        assert(t.flow_direct(target, seed, 1) =~= seq![g]);
        assert(t.flow_below(target, seed, 1) =~= Seq::empty());
        assert(t.flow(target, seed) =~= seq![g]);
    } else if kid.progs.contains(target) {
        assert(t.flow_direct(target, seed, 1) =~= Seq::empty());
        assert(t.flow_below(target, seed, 1) =~= kid.flow(target, g));
        assert(t.flow(target, seed) =~= kid.flow(target, g));
    } else {
        assert(t.flow_direct(target, seed, 1) =~= Seq::empty());
        assert(t.flow_below(target, seed, 1) =~= Seq::empty());
        assert(t.flow(target, seed) =~= Seq::empty());
    }
}

/// A variable that does not occur in a well-formed expression has no
/// gradient, and one that occurs has one.
pub proof fn law_unreachable_target<T: Add<Output = T>, R: VecJacProduct<T>>(
    t: Tree<T, R>,
    nvars: nat,
    target: usize,
    seed: T,
)
    requires
        t.sound(nvars),
        target < nvars,
    ensures
        t.gradient(target, seed) is None <==> !t.relevant(target),
{
    lemma_flow_len(t, target, seed);
    if t.carries(target) {
        lemma_carrier_has_hit(t, nvars, target);
    } else if t.id != target {
        lemma_no_hits(t, nvars, target, t.kids.len());
    }
}

/// A well-formed node that does not carry the target meets no occurrence
/// of it.
proof fn lemma_no_hits<T, R: VecJacProduct<T>>(t: Tree<T, R>, nvars: nat, target: usize, k: nat)
    requires
        t.sound(nvars),
        !t.progs.contains(target),
        k <= t.kids.len(),
    ensures
        t.hits_direct(target, k).len() == 0,
        t.hits_below(target, k).len() == 0,
    decreases k,
{
    if k > 0 {
        lemma_no_hits(t, nvars, target, (k - 1) as nat);
        if t.kids[k - 1].relevant(target) {
            lemma_kid_relevant(t, nvars, target, k - 1);
        }
    }
}

/// Whether `e` is an operand of one of the first `j` entries of `visits`.
pub open spec fn handed_on<T, R>(visits: Seq<Tree<T, R>>, j: int, e: Tree<T, R>) -> bool {
    exists|i: int, k: int|
        0 <= i < j && i < visits.len() && 0 <= k < visits[i].kids.len() && #[trigger] visits[i].kids[k]
            == e
}

/// Dependents first. Every node that a backward pass visits after the
/// first is an operand of a node that it visited before.
pub proof fn law_dependents_first<T, R: VecJacProduct<T>>(t: Tree<T, R>, target: usize, j: int)
    requires
        0 < j < t.order(target).len(),
    ensures
        handed_on(t.order(target), j, t.order(target)[j]),
{
    let chain = t.chain(target);
    let order = t.order(target);
    if j < chain.len() {
        lemma_chain_parents(t, target, j);
        let (i, k) = choose|i: int, k: int|
            0 <= i < j && i < chain.len() && 0 <= k < chain[i].kids.len() && #[trigger] chain[i].kids[k]
                == chain[j];
        assert(order[i] == chain[i]);
        assert(order[i].kids[k] == order[j]);
    } else {
        let last = t.hits(target).len() - 1;
        lemma_hit_parent(t, target, last);
        let (i, k) = choose|i: int, k: int|
            0 <= i < chain.len() && 0 <= k < chain[i].kids.len() && #[trigger] chain[i].kids[k]
                == t.hits(target)[last];
        assert(order[i] == chain[i]);
        assert(order[i].kids[k] == order[j]);
    }
}

/// Every node that a pass visits from a node, but the node itself, is an
/// operand of a node visited before it.
proof fn lemma_chain_parents<T, R: VecJacProduct<T>>(t: Tree<T, R>, target: usize, j: int)
    requires
        0 < j < t.chain(target).len(),
    ensures
        handed_on(t.chain(target), j, t.chain(target)[j]),
    decreases t, t.kids.len() + 1,
{
    let chain = t.chain(target);
    let below = t.chain_below(target, t.kids.len());
    assert(chain[j] == below[j - 1]);
    lemma_below_parents(t, target, t.kids.len(), j - 1);
    if exists|q: int| 0 <= q < t.kids.len() && #[trigger] t.kids[q] == below[j - 1] {
        let q = choose|q: int| 0 <= q < t.kids.len() && #[trigger] t.kids[q] == below[j - 1];
        assert(chain[0].kids[q] == chain[j]);
    } else {
        let (i, k) = choose|i: int, k: int|
            0 <= i < j - 1 && i < below.len() && 0 <= k < below[i].kids.len()
                && #[trigger] below[i].kids[k] == below[j - 1];
        assert(chain[i + 1] == below[i]);
        assert(chain[i + 1].kids[k] == chain[j]);
    }
}

/// Every node that a pass visits below a node is an operand of the node
/// or of a node visited before it.
proof fn lemma_below_parents<T, R: VecJacProduct<T>>(t: Tree<T, R>, target: usize, n: nat, j: int)
    requires
        n <= t.kids.len(),
        0 <= j < t.chain_below(target, n).len(),
    ensures
        (exists|q: int| 0 <= q < t.kids.len() && #[trigger] t.kids[q] == t.chain_below(target, n)[j])
            || handed_on(t.chain_below(target, n), j, t.chain_below(target, n)[j]),
    decreases t, n,
{
    let kid = t.kids[n - 1];
    let whole = t.chain_below(target, n);
    let rest = t.chain_below(target, (n - 1) as nat);
    if kid.carries(target) {
        let first = kid.chain(target);
        if j == 0 {
            assert(whole[0] == first[0]);
            assert(t.kids[n - 1] == whole[j]);
        } else if j < first.len() {
            lemma_chain_parents(kid, target, j);
            let (i, k) = choose|i: int, k: int|
                0 <= i < j && i < first.len() && 0 <= k < first[i].kids.len()
                    && #[trigger] first[i].kids[k] == first[j];
            assert(whole[i] == first[i]);
            assert(whole[i].kids[k] == whole[j]);
        } else {
            let j2 = j - first.len();
            lemma_below_parents(t, target, (n - 1) as nat, j2);
            assert(whole[j] == rest[j2]);
            if exists|q: int| 0 <= q < t.kids.len() && #[trigger] t.kids[q] == rest[j2] {
                let q = choose|q: int| 0 <= q < t.kids.len() && #[trigger] t.kids[q] == rest[j2];
                assert(t.kids[q] == whole[j]);
            } else {
                let (i, k) = choose|i: int, k: int|
                    0 <= i < j2 && i < rest.len() && 0 <= k < rest[i].kids.len()
                        && #[trigger] rest[i].kids[k] == rest[j2];
                assert(whole[i + first.len()] == rest[i]);
                assert(whole[i + first.len()].kids[k] == whole[j]);
            }
        }
    } else {
        lemma_below_parents(t, target, (n - 1) as nat, j);
        if exists|q: int| 0 <= q < t.kids.len() && #[trigger] t.kids[q] == rest[j] {
            let q = choose|q: int| 0 <= q < t.kids.len() && #[trigger] t.kids[q] == rest[j];
            assert(t.kids[q] == whole[j]);
        } else {
            let (i, k) = choose|i: int, k: int|
                0 <= i < j && i < rest.len() && 0 <= k < rest[i].kids.len()
                    && #[trigger] rest[i].kids[k] == rest[j];
            assert(whole[i].kids[k] == whole[j]);
        }
    }
}

/// Every occurrence of the target that a pass meets is an operand of a
/// node that it visits.
proof fn lemma_hit_parent<T, R: VecJacProduct<T>>(t: Tree<T, R>, target: usize, j: int)
    requires
        0 <= j < t.hits(target).len(),
    ensures
        handed_on(t.chain(target), t.chain(target).len() as int, t.hits(target)[j]),
    decreases t, t.kids.len() + 1,
{
    let chain = t.chain(target);
    let direct = t.hits_direct(target, t.kids.len());
    let below = t.chain_below(target, t.kids.len());
    if j < direct.len() {
        let q = lemma_direct_index(t, target, t.kids.len(), j);
        assert(chain[0].kids[q] == t.hits(target)[j]);
    } else {
        lemma_hit_below_parent(t, target, t.kids.len(), j - direct.len());
        let e = t.hits_below(target, t.kids.len())[j - direct.len()];
        let (i, k) = choose|i: int, k: int|
            0 <= i < below.len() && 0 <= k < below[i].kids.len() && #[trigger] below[i].kids[k]
                == e;
        assert(chain[i + 1] == below[i]);
        assert(chain[i + 1].kids[k] == e);
    }
}

/// A direct occurrence of the target stands among the operands.
proof fn lemma_direct_index<T, R>(t: Tree<T, R>, target: usize, n: nat, j: int) -> (q: int)
    requires
        n <= t.kids.len(),
        0 <= j < t.hits_direct(target, n).len(),
    ensures
        0 <= q < n,
        t.kids[q] == t.hits_direct(target, n)[j],
        t.kids[q].id == target,
    decreases n,
{
    let before = t.hits_direct(target, (n - 1) as nat);
    if j < before.len() {
        lemma_direct_index(t, target, (n - 1) as nat, j)
    } else {
        n - 1
    }
}

/// Every occurrence of the target that a pass meets below the operands
/// is an operand of a node that it visits below the node.
proof fn lemma_hit_below_parent<T, R: VecJacProduct<T>>(
    t: Tree<T, R>,
    target: usize,
    n: nat,
    j: int,
)
    requires
        n <= t.kids.len(),
        0 <= j < t.hits_below(target, n).len(),
    ensures
        handed_on(
            t.chain_below(target, n),
            t.chain_below(target, n).len() as int,
            t.hits_below(target, n)[j],
        ),
    decreases t, n,
{
    let kid = t.kids[n - 1];
    let whole = t.chain_below(target, n);
    let rest = t.chain_below(target, (n - 1) as nat);
    let e = t.hits_below(target, n)[j];
    if kid.carries(target) {
        let first = kid.chain(target);
        if j < kid.hits(target).len() {
            lemma_hit_parent(kid, target, j);
            let (i, k) = choose|i: int, k: int|
                0 <= i < first.len() && 0 <= k < first[i].kids.len() && #[trigger] first[i].kids[k]
                    == e;
            assert(whole[i] == first[i]);
            assert(whole[i].kids[k] == e);
        } else {
            lemma_hit_below_parent(t, target, (n - 1) as nat, j - kid.hits(target).len());
            let (i, k) = choose|i: int, k: int|
                0 <= i < rest.len() && 0 <= k < rest[i].kids.len() && #[trigger] rest[i].kids[k]
                    == e;
            assert(whole[i + first.len()] == rest[i]);
            assert(whole[i + first.len()].kids[k] == e);
        }
    } else {
        lemma_hit_below_parent(t, target, (n - 1) as nat, j);
        let (i, k) = choose|i: int, k: int|
            0 <= i < rest.len() && 0 <= k < rest[i].kids.len() && #[trigger] rest[i].kids[k] == e;
        assert(whole[i].kids[k] == e);
    }
}

/// The target last. Where the result is not the target itself, a
/// backward pass visits the target at most once, and then as the last
/// node, after every node that has it as an operand.
pub proof fn law_target_last<T, R: VecJacProduct<T>>(t: Tree<T, R>, target: usize, j: int)
    requires
        t.id != target,
        0 <= j < t.order(target).len(),
    ensures
        t.order(target)[j].id == target <==> t.hits(target).len() > 0 && j == t.order(
            target,
        ).len() - 1,
{
    let chain = t.chain(target);
    if j < chain.len() {
        lemma_chain_off_target(t, target, j);
    } else {
        lemma_hit_on_target(t, target, t.hits(target).len() - 1);
    }
}

/// No node that a pass visits from a node other than the target has the
/// id of the target.
proof fn lemma_chain_off_target<T, R: VecJacProduct<T>>(t: Tree<T, R>, target: usize, j: int)
    requires
        t.id != target,
        0 <= j < t.chain(target).len(),
    ensures
        t.chain(target)[j].id != target,
    decreases t, t.kids.len() + 1,
{
    if j > 0 {
        lemma_below_off_target(t, target, t.kids.len(), j - 1);
    }
}

/// No node that a pass visits below a node has the id of the target.
proof fn lemma_below_off_target<T, R: VecJacProduct<T>>(
    t: Tree<T, R>,
    target: usize,
    n: nat,
    j: int,
)
    requires
        n <= t.kids.len(),
        0 <= j < t.chain_below(target, n).len(),
    ensures
        t.chain_below(target, n)[j].id != target,
    decreases t, n,
{
    let kid = t.kids[n - 1];
    if kid.carries(target) {
        if j < kid.chain(target).len() {
            lemma_chain_off_target(kid, target, j);
        } else {
            lemma_below_off_target(t, target, (n - 1) as nat, j - kid.chain(target).len());
        }
    } else {
        lemma_below_off_target(t, target, (n - 1) as nat, j);
    }
}

/// Every occurrence of the target that a pass meets has the id of the
/// target.
proof fn lemma_hit_on_target<T, R: VecJacProduct<T>>(t: Tree<T, R>, target: usize, j: int)
    requires
        0 <= j < t.hits(target).len(),
    ensures
        t.hits(target)[j].id == target,
    decreases t, t.kids.len() + 1,
{
    let direct = t.hits_direct(target, t.kids.len());
    if j < direct.len() {
        lemma_direct_index(t, target, t.kids.len(), j);
    } else {
        lemma_hit_below_on_target(t, target, t.kids.len(), j - direct.len());
    }
}

/// Every occurrence of the target that a pass meets below the operands
/// has the id of the target.
proof fn lemma_hit_below_on_target<T, R: VecJacProduct<T>>(
    t: Tree<T, R>,
    target: usize,
    n: nat,
    j: int,
)
    requires
        n <= t.kids.len(),
        0 <= j < t.hits_below(target, n).len(),
    ensures
        t.hits_below(target, n)[j].id == target,
    decreases t, n,
{
    let kid = t.kids[n - 1];
    if kid.carries(target) {
        if j < kid.hits(target).len() {
            lemma_hit_on_target(kid, target, j);
        } else {
            lemma_hit_below_on_target(t, target, (n - 1) as nat, j - kid.hits(target).len());
        }
    } else {
        lemma_hit_below_on_target(t, target, (n - 1) as nat, j);
    }
}

/// Each id once. A backward pass through a well-formed tree visits no
/// two nodes with the same id: the gradient of a node is complete when
/// the node is visited.
pub proof fn law_visited_once<T, R: VecJacProduct<T>>(
    t: Tree<T, R>,
    nvars: nat,
    target: usize,
    i: int,
    j: int,
)
    requires
        t.sound(nvars),
        target < nvars,
        0 <= i < j < t.order(target).len(),
    ensures
        t.order(target)[i].id != t.order(target)[j].id,
{
    let chain = t.chain(target);
    if t.id == target {
        lemma_variable_id(t, nvars);
        assert(t.chain_below(target, 0) =~= Seq::empty());
        assert(t.hits(target) =~= Seq::empty());
    } else if j < chain.len() {
        lemma_chain_distinct(t, nvars, target, i, j);
    } else {
        law_target_last(t, target, i);
        law_target_last(t, target, j);
    }
}

/// The ids of the nodes that a pass visits from a node with operands lie
/// in the range minted for the node.
proof fn lemma_chain_range<T, R: VecJacProduct<T>>(
    t: Tree<T, R>,
    nvars: nat,
    target: usize,
    e: Tree<T, R>,
)
    requires
        t.sound(nvars),
        target < nvars,
        !t.is_variable(nvars),
        t.chain(target).contains(e),
    ensures
        t.base(nvars) <= e.id <= t.id,
        e != t ==> e.id < t.id,
    decreases t,
{
    lemma_node(t, nvars);
    if e != t {
        let chain = t.chain(target);
        let j = choose|j: int| 0 <= j < chain.len() && chain[j] == e;
        assert(t.chain_below(target, t.kids.len())[j - 1] == e);
        let q = lemma_chain_below_from(t, target, t.kids.len(), e);
        lemma_kid(t, nvars, q);
        if t.kids[q].id < nvars {
            lemma_variable_id(t.kids[q], nvars);
        }
        lemma_chain_range(t.kids[q], nvars, target, e);
    }
}

/// No two nodes that a pass visits from a node have the same id.
proof fn lemma_chain_distinct<T, R: VecJacProduct<T>>(
    t: Tree<T, R>,
    nvars: nat,
    target: usize,
    i: int,
    j: int,
)
    requires
        t.sound(nvars),
        target < nvars,
        0 <= i < j < t.chain(target).len(),
    ensures
        t.chain(target)[i].id != t.chain(target)[j].id,
    decreases t, t.kids.len() + 1,
{
    let chain = t.chain(target);
    let below = t.chain_below(target, t.kids.len());
    assert(chain[j] == below[j - 1]);
    if i == 0 {
        let q = lemma_chain_below_from(t, target, t.kids.len(), chain[j]);
        lemma_kid(t, nvars, q);
        if t.kids[q].id < nvars {
            lemma_variable_id(t.kids[q], nvars);
        }
        lemma_chain_range(t.kids[q], nvars, target, chain[j]);
    } else {
        assert(chain[i] == below[i - 1]);
        lemma_below_distinct(t, nvars, target, t.kids.len(), i - 1, j - 1);
    }
}

/// No two nodes that a pass visits below a node have the same id.
proof fn lemma_below_distinct<T, R: VecJacProduct<T>>(
    t: Tree<T, R>,
    nvars: nat,
    target: usize,
    n: nat,
    i: int,
    j: int,
)
    requires
        t.sound(nvars),
        target < nvars,
        n <= t.kids.len(),
        0 <= i < j < t.chain_below(target, n).len(),
    ensures
        t.chain_below(target, n)[i].id != t.chain_below(target, n)[j].id,
    decreases t, n,
{
    let kid = t.kids[n - 1];
    let whole = t.chain_below(target, n);
    let rest = t.chain_below(target, (n - 1) as nat);
    lemma_kid(t, nvars, n - 1);
    if kid.carries(target) {
        let first = kid.chain(target);
        if j < first.len() {
            lemma_chain_distinct(kid, nvars, target, i, j);
        } else if i >= first.len() {
            lemma_below_distinct(
                t,
                nvars,
                target,
                (n - 1) as nat,
                i - first.len(),
                j - first.len(),
            );
        } else {
            assert(first[i] == whole[i]);
            assert(rest[j - first.len()] == whole[j]);
            if kid.id < nvars {
                lemma_variable_id(kid, nvars);
            }
            lemma_chain_range(kid, nvars, target, whole[i]);
            let q = lemma_chain_below_from(t, target, (n - 1) as nat, whole[j]);
            lemma_kid(t, nvars, q);
            if t.kids[q].id < nvars {
                lemma_variable_id(t.kids[q], nvars);
            }
            lemma_chain_range(t.kids[q], nvars, target, whole[j]);
            lemma_span_upto_grows(t, nvars, (q + 1) as nat, (n - 1) as nat);
        }
    } else {
        lemma_below_distinct(t, nvars, target, (n - 1) as nat, i, j);
    }
}

/// Whether `h` passes through every rule of the tree: handing on `h(g)`
/// gives what `h` makes of handing on `g`.
pub open spec fn passes_through<T, R: VecJacProduct<T>>(t: Tree<T, R>, h: spec_fn(T) -> T) -> bool
    decreases t,
{
    forall|i: int|
        0 <= i < t.kids.len() ==> {
            &&& forall|g: T| #[trigger] t.pull(h(g), i) == h(t.pull(g, i))
            &&& passes_through(#[trigger] t.kids[i], h)
        }
}

/// Whether `h` distributes over `+`.
pub open spec fn additive<T: Add<Output = T>>(h: spec_fn(T) -> T) -> bool {
    forall|a: T, b: T| #[trigger] h(a.add_spec(b)) == h(a).add_spec(h(b))
}

/// Seed linearity. Where `h` distributes over `+` and passes through
/// every rule of the tree, as multiplying by a scalar does with linear
/// rules, the gradient from the seed `h(seed)` is what `h` makes of the
/// gradient from `seed`.
pub proof fn law_seed_linearity<T: Add<Output = T>, R: VecJacProduct<T>>(
    t: Tree<T, R>,
    target: usize,
    seed: T,
    h: spec_fn(T) -> T,
)
    requires
        additive(h),
        passes_through(t, h),
    ensures
        t.gradient(target, h(seed)) == match t.gradient(target, seed) {
            Some(g) => Some(h(g)),
            None => None,
        },
{
    lemma_flow_scaled(t, target, seed, h);
    let xs = t.flow(target, seed);
    if xs.len() > 0 {
        lemma_total_scaled(xs, h);
    }
}

/// What reaches the target from `h(g)` is what `h` makes of what reaches
/// it from `g`.
proof fn lemma_flow_scaled<T, R: VecJacProduct<T>>(
    t: Tree<T, R>,
    target: usize,
    g: T,
    h: spec_fn(T) -> T,
)
    requires
        passes_through(t, h),
    ensures
        t.flow(target, h(g)) == t.flow(target, g).map_values(h),
    decreases t, t.kids.len() + 1,
{
    lemma_flow_direct_scaled(t, target, g, h, t.kids.len());
    lemma_flow_below_scaled(t, target, g, h, t.kids.len());
    assert(t.flow(target, h(g)) =~= t.flow(target, g).map_values(h));
}

/// The direct contributions from `h(g)` are what `h` makes of those from
/// `g`.
proof fn lemma_flow_direct_scaled<T, R: VecJacProduct<T>>(
    t: Tree<T, R>,
    target: usize,
    g: T,
    h: spec_fn(T) -> T,
    k: nat,
)
    requires
        passes_through(t, h),
        k <= t.kids.len(),
    ensures
        t.flow_direct(target, h(g), k) == t.flow_direct(target, g, k).map_values(h),
    decreases k,
{
    if k > 0 {
        lemma_flow_direct_scaled(t, target, g, h, (k - 1) as nat);
        assert(t.pull(h(g), k - 1) == h(t.pull(g, k - 1)));
    }
    assert(t.flow_direct(target, h(g), k) =~= t.flow_direct(target, g, k).map_values(h));
}

/// The contributions below the operands from `h(g)` are what `h` makes
/// of those from `g`.
proof fn lemma_flow_below_scaled<T, R: VecJacProduct<T>>(
    t: Tree<T, R>,
    target: usize,
    g: T,
    h: spec_fn(T) -> T,
    k: nat,
)
    requires
        passes_through(t, h),
        k <= t.kids.len(),
    ensures
        t.flow_below(target, h(g), k) == t.flow_below(target, g, k).map_values(h),
    decreases t, k,
{
    if k > 0 {
        lemma_flow_below_scaled(t, target, g, h, (k - 1) as nat);
        assert(t.pull(h(g), k - 1) == h(t.pull(g, k - 1)));
        assert(passes_through(t.kids[k - 1], h));
        if t.kids[k - 1].carries(target) {
            lemma_flow_scaled(t.kids[k - 1], target, t.pull(g, k - 1), h);
        }
    }
    assert(t.flow_below(target, h(g), k) =~= t.flow_below(target, g, k).map_values(h));
}

/// The sum of what `h` makes of the terms is what `h` makes of the sum.
proof fn lemma_total_scaled<T: Add<Output = T>>(xs: Seq<T>, h: spec_fn(T) -> T)
    requires
        additive(h),
        xs.len() > 0,
    ensures
        total(xs.map_values(h)) == h(total(xs)),
    decreases xs.len(),
{
    if xs.len() > 1 {
        lemma_total_scaled(xs.drop_last(), h);
        assert(xs.map_values(h).drop_last() =~= xs.drop_last().map_values(h));
    }
}

/// Whether multiplying by `k` from the left passes through negation, through
/// multiplication by a further factor and through division.
pub open spec fn scales<T>(k: T) -> bool where
    T: Clone + ops::Neg<Output = T> + ops::Mul<Output = T> + ops::Div<Output = T>,
 {
    &&& forall|g: T| #[trigger] k.mul_spec(g).neg_spec() == k.mul_spec(g.neg_spec())
    &&& forall|g: T, y: T| #[trigger] k.mul_spec(g).mul_spec(y) == k.mul_spec(g.mul_spec(y))
    &&& forall|g: T, y: T| #[trigger] k.mul_spec(g).div_spec(y) == k.mul_spec(g.div_spec(y))
}

/// Seed linearity for the arithmetic rules. Where multiplying by the
/// scalar `k` distributes over `+` and passes through negation, further
/// factors and division, as it does in a field, the gradient from the
/// seed `k * seed` is `k` times the gradient from `seed`.
pub proof fn law_scalar_seed<T>(t: Tree<T, Rule<T>>, target: usize, seed: T, k: T) where
    T: Clone + Add<Output = T> + ops::Neg<Output = T> + ops::Mul<Output = T> + ops::Div<
        Output = T,
    >,

    requires
        scales(k),
        additive(|g: T| k.mul_spec(g)),
    ensures
        t.gradient(target, k.mul_spec(seed)) == match t.gradient(target, seed) {
            Some(g) => Some(k.mul_spec(g)),
            None => None,
        },
{
    let h = |g: T| k.mul_spec(g);
    lemma_rules_scale(t, k);
    law_seed_linearity(t, target, seed, h);
}

/// Multiplying by a scalar passes through every arithmetic rule.
proof fn lemma_rules_scale<T>(t: Tree<T, Rule<T>>, k: T) where
    T: Clone + ops::Neg<Output = T> + ops::Mul<Output = T> + ops::Div<Output = T>,

    requires
        scales(k),
    ensures
        passes_through(t, |g: T| k.mul_spec(g)),
    decreases t,
{
    let h = |g: T| k.mul_spec(g);
    assert forall|i: int| 0 <= i < t.kids.len() implies {
        &&& forall|g: T| #[trigger] t.pull(h(g), i) == h(t.pull(g, i))
        &&& passes_through(#[trigger] t.kids[i], h)
    } by {
        lemma_rules_scale(t.kids[i], k);
        assert forall|g: T| #[trigger] t.pull(h(g), i) == h(t.pull(g, i)) by {
            assert(h(g) == k.mul_spec(g));
        }
    }
}

/// Whether `+` on `T` gives the same sum for any grouping and any order
/// of its terms.
pub open spec fn commutative_sum<T: Add<Output = T>>() -> bool {
    &&& forall|a: T, b: T| #[trigger] a.add_spec(b) == b.add_spec(a)
    &&& forall|a: T, b: T, c: T|
        #[trigger] a.add_spec(b).add_spec(c) == a.add_spec(b.add_spec(c))
}

/// Any order. Where `+` is associative and commutative, the sum of the
/// contributions does not depend on the order in which they are met: two
/// lists of the same contributions have the same sum.
pub proof fn law_sum_in_any_order<T: Add<Output = T>>(xs: Seq<T>, ys: Seq<T>)
    requires
        commutative_sum::<T>(),
        xs.len() > 0,
        xs.to_multiset() == ys.to_multiset(),
    ensures
        total(xs) == total(ys),
    decreases xs.len(),
{
    xs.to_multiset_ensures();
    ys.to_multiset_ensures();
    assert(xs.len() == xs.to_multiset().len());
    assert(ys.len() == ys.to_multiset().len());
    let last = xs.last();
    assert(xs[xs.len() - 1] == last);
    assert(xs.contains(last));
    assert(xs.to_multiset().count(last) > 0);
    assert(ys.contains(last));
    let k = choose|k: int| 0 <= k < ys.len() && ys[k] == last;
    if xs.len() == 1 {
        assert(k == 0);
    } else {
        lemma_sum_last(ys, k);
        let rest = ys.remove(k);
        assert(xs.drop_last() =~= xs.remove(xs.len() - 1));
        assert(xs.remove(xs.len() - 1).to_multiset() =~= xs.to_multiset().remove(last));
        assert(rest.to_multiset() =~= ys.to_multiset().remove(last));
        law_sum_in_any_order(xs.drop_last(), rest);
    }
}

/// Where `+` is associative and commutative, a term can be taken out of a
/// sum and added last.
proof fn lemma_sum_last<T: Add<Output = T>>(ys: Seq<T>, k: int)
    requires
        commutative_sum::<T>(),
        ys.len() >= 2,
        0 <= k < ys.len(),
    ensures
        total(ys) == total(ys.remove(k)).add_spec(ys[k]),
    decreases ys.len(),
{
    let n = ys.len() as int;
    let front = ys.drop_last();
    let last = ys.last();
    assert(total(ys) == total(front).add_spec(last));
    if k == n - 1 {
        assert(ys.remove(k) =~= front);
    } else if n == 2 {
        assert(k == 0);
        assert(ys.remove(k) =~= seq![ys[1]]);
        assert(front =~= seq![ys[0]]);
        assert(total(front) == ys[0]);
        assert(total(ys.remove(k)) == ys[1]);
        assert(ys[0].add_spec(ys[1]) == ys[1].add_spec(ys[0]));
    } else {
        assert(0 <= k < front.len());
        lemma_sum_last(front, k);
        let shorter = ys.remove(k);
        assert(shorter.len() == n - 1);
        assert(shorter.drop_last() =~= front.remove(k));
        assert(shorter.last() == last);
        assert(front[k] == ys[k]);
        let a = total(front.remove(k));
        assert(total(shorter) == a.add_spec(last));
        assert(total(front) == a.add_spec(ys[k]));
        assert(a.add_spec(ys[k]).add_spec(last) == a.add_spec(ys[k].add_spec(last)));
        assert(ys[k].add_spec(last) == last.add_spec(ys[k]));
        assert(a.add_spec(last).add_spec(ys[k]) == a.add_spec(last.add_spec(ys[k])));
    }
}

/// A gradient depends on the expression and on the stored values alone:
/// not on how many passes went before, nor on the ids they took. So a
/// pass repeated on an unchanged context gives the same gradient again,
/// and a pass after a variable was overwritten gives the gradient at the
/// new value.
pub proof fn law_gradient_of_store<T: Clone + Add<Output = T>, E, R: VecJacProduct<T>>(
    first: Gradient<T, E>,
    second: Gradient<T, E>,
    target: usize,
    seed: T,
) where E: Expression<T, R>
    requires
        first.expression() == second.expression(),
        first.store().values() == second.store().values(),
    ensures
        first.forward::<R>() == second.forward::<R>(),
        first.forward::<R>().gradient(target, seed) == second.forward::<R>().gradient(
            target,
            seed,
        ),
{
}

} // verus!
