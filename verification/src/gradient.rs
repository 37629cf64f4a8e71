//! The driver of one forward and one backward pass.
use vstd::prelude::*;
use std::collections::HashMap;
use std::ops::Add;
use crate::context::{exact_clone, total_add, Context, Variable};
use crate::expr::{Container, Expression};
use crate::iter::reverse_topology;
use crate::lemmas::{
    lemma_carriers, lemma_carriers_chain, lemma_carriers_flow, lemma_chain_head, lemma_flow_len,
    lemma_hits_are_leaves, lemma_kid, lemma_no_kid_outside, lemma_no_kid_within, lemma_node,
    lemma_variable_id, lemma_wf_sound,
};
use crate::model::{apart, chain_all, flow_all, follows, Tree};
use crate::node::{trees, Node};
use crate::rule::VecJacProduct;
use crate::utils::assigning_sum;

verus! {

/// The contributions recorded for the id `k`, none recorded counting as
/// the empty list.
spec fn pend<T>(grads: Map<usize, Vec<T>>, k: usize) -> Seq<T> {
    if grads.contains_key(k) {
        grads[k]@
    } else {
        Seq::empty()
    }
}

/// Whether every id on record has at least one contribution.
spec fn no_empty<T>(grads: Map<usize, Vec<T>>) -> bool {
    forall|k: usize| #[trigger] grads.contains_key(k) ==> grads[k]@.len() > 0
}

/// Appends a contribution to those recorded for `key`.
fn record<T>(grads: &mut HashMap<usize, Vec<T>>, key: usize, value: T)
    ensures
        final(grads)@.contains_key(key),
        final(grads)@[key]@ == pend(old(grads)@, key).push(value),
        forall|k: usize|
            k != key ==> (#[trigger] final(grads)@.contains_key(k) <==> old(grads)@.contains_key(k)),
        forall|k: usize|
            k != key && old(grads)@.contains_key(k) ==> #[trigger] final(grads)@[k] == old(
                grads,
            )@[k],
{
    let mut list = match grads.remove(&key) {
        Some(list) => list,
        None => Vec::new(),
    };
    list.push(value);
    grads.insert(key, list);
}

/// Hands the gradient `g` of `node` to its operands: records, for each
/// operand in argument order, what the backward rule of the node gives
/// it.
fn feed<T: Clone, R: VecJacProduct<T>>(
    grads: &mut HashMap<usize, Vec<T>>,
    node: &Node<T, R>,
    g: &T,
)
    requires
        exact_clone::<T>(),
        node@.rule_total(),
        no_empty(old(grads)@),
    ensures
        no_empty(final(grads)@),
        forall|k: usize|
            #[trigger] pend(final(grads)@, k) == pend(old(grads)@, k) + node@.flow_direct(
                k,
                *g,
                node@.kids.len(),
            ),
{
    let ghost s = node@;
    let ghost before = grads@;
    let parents = node.parents();
    let n = parents.len();
    let mut argnum: usize = 0;
    proof {
        assert forall|k: usize| #[trigger] pend(grads@, k) == pend(before, k) + s.flow_direct(
            k,
            *g,
            0,
        ) by {
            assert(pend(before, k) + Seq::<T>::empty() =~= pend(before, k));
        }
    }
    while argnum < n
        invariant
            argnum <= n,
            n == parents.len(),
            trees(parents@) == s.kids,
            s == node@,
            exact_clone::<T>(),
            s.rule_total(),
            no_empty(grads@),
            forall|k: usize|
                #[trigger] pend(grads@, k) == pend(before, k) + s.flow_direct(
                    k,
                    *g,
                    argnum as nat,
                ),
        decreases n - argnum,
    {
        let p_node = &parents[argnum];
        let ghost cur = grads@;
        proof {
            assert(p_node@ == s.kids[argnum as int]);
            let i = argnum as int;
            assert(s.pull_req(*g, s.kids[i].value, i as usize));
        }
        let in_grad = node.vjp(g.clone(), p_node, argnum);
        record(grads, p_node.index(), in_grad);
        proof {
            let key = p_node@.id;
            assert(in_grad == s.pull(*g, argnum as int));
            assert forall|k: usize| #[trigger] pend(grads@, k) == pend(before, k) + s.flow_direct(
                k,
                *g,
                (argnum + 1) as nat,
            ) by {
                assert(pend(cur, k) == pend(before, k) + s.flow_direct(k, *g, argnum as nat));
                if k == key {
                    assert(pend(grads@, k) =~= pend(before, k) + s.flow_direct(
                        k,
                        *g,
                        (argnum + 1) as nat,
                    ));
                } else {
                    assert(pend(grads@, k) == pend(cur, k));
                }
            }
            assert forall|k: usize| #[trigger] grads@.contains_key(k) implies grads@[k]@.len()
                > 0 by {
                if k != key {
                    assert(cur.contains_key(k));
                }
            }
        }
        argnum += 1;
    }
}

/// What holds of the contributions on record between two visits of a
/// backward pass: `stack` holds the subtrees that wait for their visit
/// and `flows` what flows into each.
spec fn settled<T, R: VecJacProduct<T>>(
    stack: Seq<Tree<T, R>>,
    flows: Seq<T>,
    nvars: nat,
    target: usize,
    grads: Map<usize, Vec<T>>,
) -> bool {
    &&& stack.len() == flows.len()
    &&& forall|j: int|
        0 <= j < stack.len() ==> (#[trigger] stack[j]).sound(nvars) && stack[j].id != target
    &&& forall|j: int|
        0 <= j < stack.len() && stack.len() >= 2 ==> !(#[trigger] stack[j]).is_variable(nvars)
    &&& forall|j: int|
        0 <= j < stack.len() ==> grads.contains_key((#[trigger] stack[j]).id)
            && grads[stack[j].id]@ == seq![flows[j]]
    &&& forall|j: int, m: usize|
        #![trigger stack[j], grads.contains_key(m)]
        0 <= j < stack.len() && stack[j].base(nvars) <= m < stack[j].id ==> !grads.contains_key(m)
    &&& forall|j: int, k: int|
        #![trigger stack[j], stack[k]]
        0 <= j < k < stack.len() ==> apart(stack[j], stack[k], nvars)
}

/// Visiting the subtree on top of the stack keeps the record settled:
/// its operands that carry the target take its place, each with what it
/// was handed.
proof fn lemma_backward_step<T, R: VecJacProduct<T>>(
    stack: Seq<Tree<T, R>>,
    flows: Seq<T>,
    nv: nat,
    t: usize,
    before: Map<usize, Vec<T>>,
    after: Map<usize, Vec<T>>,
)
    requires
        settled(stack, flows, nv, t, before),
        stack.len() > 0,
        t < nv,
        no_empty(before),
        no_empty(after),
        forall|k: usize|
            #[trigger] pend(after, k) == pend(before, k) + stack.last().flow_direct(
                k,
                flows.last(),
                stack.last().kids.len(),
            ),
    ensures
        settled(
            stack.drop_last() + stack.last().carriers(t, stack.last().kids.len()),
            flows.drop_last() + stack.last().carried(t, flows.last(), stack.last().kids.len()),
            nv,
            t,
            after,
        ),
{
    let s = stack.last();
    let g = flows.last();
    let n = s.kids.len();
    let rest = stack.drop_last();
    let cs = s.carriers(t, n);
    let hs = s.carried(t, g, n);
    let ts = rest + cs;
    let gs = flows.drop_last() + hs;
    assert(s == stack[stack.len() - 1]);
    lemma_carriers(s, nv, t, g, n);
    lemma_node(s, nv);
    if n > 0 {
        lemma_kid(s, nv, 0);
    } else {
        assert(cs =~= Seq::empty());
    }
    assert forall|j: int| 0 <= j < ts.len() implies (#[trigger] ts[j]).sound(nv) && ts[j].id
        != t by {
        if j < rest.len() {
            assert(ts[j] == stack[j]);
        } else {
            assert(ts[j] == cs[j - rest.len()]);
        }
    }
    assert forall|j: int| 0 <= j < ts.len() && ts.len() >= 2 implies !(#[trigger] ts[j]).is_variable(
        nv,
    ) by {
        if j < rest.len() {
            assert(ts[j] == stack[j]);
        } else {
            assert(ts[j] == cs[j - rest.len()]);
        }
    }
    assert forall|j: int| 0 <= j < ts.len() implies after.contains_key((#[trigger] ts[j]).id)
        && after[ts[j].id]@ == seq![gs[j]] by {
        let u = ts[j];
        if j < rest.len() {
            assert(u == stack[j]);
            assert(gs[j] == flows[j]);
            assert(apart(stack[j], stack[stack.len() - 1], nv));
            lemma_node(u, nv);
            lemma_no_kid_outside(s, nv, u.id, g, n);
            assert(pend(after, u.id) == pend(before, u.id) + s.flow_direct(u.id, g, n));
            assert(pend(before, u.id) + Seq::<T>::empty() =~= pend(before, u.id));
        } else {
            assert(u == cs[j - rest.len()]);
            assert(gs[j] == hs[j - rest.len()]);
            assert(!before.contains_key(u.id));
            assert(pend(after, u.id) == pend(before, u.id) + s.flow_direct(u.id, g, n));
            assert(Seq::<T>::empty() + seq![gs[j]] =~= seq![gs[j]]);
        }
        assert(pend(after, u.id).len() > 0);
    }
    assert forall|j: int, m: usize|
        #![trigger ts[j], after.contains_key(m)]
        0 <= j < ts.len() && ts[j].base(nv) <= m < ts[j].id implies !after.contains_key(m) by {
        let u = ts[j];
        assert(pend(after, m) == pend(before, m) + s.flow_direct(m, g, n));
        if j < rest.len() {
            assert(u == stack[j]);
            assert(apart(stack[j], stack[stack.len() - 1], nv));
            lemma_node(u, nv);
            lemma_no_kid_outside(s, nv, m, g, n);
            assert(!before.contains_key(m));
        } else {
            assert(u == cs[j - rest.len()]);
            assert(follows(u, s, nv, t));
            assert(!before.contains_key(m));
            let q = lemma_carrier_index(s, t, n, j - rest.len());
            lemma_no_kid_within(s, nv, m, g, q, n);
        }
        assert(pend(after, m) =~= Seq::<T>::empty());
    }
    assert forall|j: int, k: int|
        #![trigger ts[j], ts[k]]
        0 <= j < k < ts.len() implies apart(ts[j], ts[k], nv) by {
        if k < rest.len() {
            assert(ts[j] == stack[j] && ts[k] == stack[k]);
        } else if j < rest.len() {
            assert(ts[j] == stack[j]);
            assert(ts[k] == cs[k - rest.len()]);
            assert(apart(stack[j], stack[stack.len() - 1], nv));
        } else {
            assert(ts[j] == cs[j - rest.len()]);
            assert(ts[k] == cs[k - rest.len()]);
        }
    }
}

/// An operand that carries the target stands among the operands.
proof fn lemma_carrier_index<T, R: VecJacProduct<T>>(
    s: Tree<T, R>,
    target: usize,
    k: nat,
    j: int,
) -> (q: int)
    requires
        k <= s.kids.len(),
        0 <= j < s.carriers(target, k).len(),
    ensures
        0 <= q < k,
        s.kids[q] == s.carriers(target, k)[j],
    decreases k,
{
    let before = s.carriers(target, (k - 1) as nat);
    if j < before.len() {
        lemma_carrier_index(s, target, (k - 1) as nat, j)
    } else {
        k - 1
    }
}

/// An expression together with the context it is evaluated in, ready
/// to be differentiated.
pub struct Gradient<T, E> {
    expr: E,
    context: Context<T>,
}

impl<T, E> Gradient<T, E> {
    /// The expression that is differentiated.
    pub closed spec fn expression(&self) -> E {
        self.expr
    }

    /// The context in which it is evaluated.
    pub closed spec fn store(&self) -> Context<T> {
        self.context
    }

    /// Takes the gradient of an expression in some context.
    pub fn of(expr: Container<T, E>, context: Context<T>) -> (grad: Self)
        ensures
            grad.expression() == expr@,
            grad.store() == context,
    {
        Gradient { expr: expr.into_inner(), context: context }
    }

    /// The context of this gradient, through which the values of the
    /// variables can be changed.
    pub fn context(&mut self) -> (c: &mut Context<T>)
        ensures
            *c == old(self).store(),
            final(self).store() == *final(c),
            final(self).expression() == old(self).expression(),
    {
        &mut self.context
    }

    /// The stored value of a variable of this gradient, for writing.
    pub fn get_mut(&mut self, var: Container<T, Variable>) -> (v: &mut T)
        requires
            var@.0 < old(self).store().values().len(),
        ensures
            *v == old(self).store().values()[var@.0 as int],
            final(self).store().values() == old(self).store().values().update(
                var@.0 as int,
                *final(v),
            ),
            final(self).store().minted() == old(self).store().minted(),
            final(self).expression() == old(self).expression(),
    {
        let var = var.into_inner();
        self.context.value_at_mut(&var)
    }

    /// The stored value of a variable of this gradient.
    pub fn get(&self, var: Container<T, Variable>) -> (v: &T)
        requires
            var@.0 < self.store().values().len(),
        ensures
            *v == self.store().values()[var@.0 as int],
    {
        let var = var.into_inner();
        self.context.value_at(&var)
    }
}

impl<T: Clone + Add<Output = T>, E> Gradient<T, E> {
    /// The tree that a forward pass builds from the expression and the
    /// stored values.
    pub open spec fn forward<R: VecJacProduct<T>>(&self) -> Tree<T, R> where E: Expression<T, R> {
        self.expression().tree(self.store().values(), self.store().values().len())
    }

    /// Runs a forward pass and then a backward pass towards `wrt`,
    /// starting from `seed` at the result.
    ///
    /// Returns the sum of what the backward pass hands to the occurrences
    /// of the variable, taken from the left in the order in which the pass
    /// meets them, and nothing where the variable does not occur in the
    /// expression or does not belong to the context.
    ///
    /// The expression has to be one that can be evaluated on the stored
    /// values; the ids it takes and the occurrences of the variable have
    /// to fit a `usize`.
    pub fn backprop<R: VecJacProduct<T>>(&mut self, wrt: Container<T, Variable>, seed: T) -> (r:
        Option<T>) where E: Expression<T, R>
        requires
            exact_clone::<T>(),
            total_add::<T>(),
            old(self).expression().admits(old(self).store().values()),
            old(self).store().values().len() + old(self).expression().minted() <= usize::MAX,
            old(self).forward::<R>().hits(wrt@.0).len() < usize::MAX,
        ensures
            final(self).expression() == old(self).expression(),
            final(self).store().values() == old(self).store().values(),
            final(self).store().minted() == old(self).expression().minted(),
            r == if wrt@.0 < old(self).store().values().len() {
                old(self).forward::<R>().gradient(wrt@.0, seed)
            } else {
                None
            },
    {
        let target = wrt.into_inner().0;
        self.context.reset();
        let end = self.expr.eval(&mut self.context);
        if target >= self.context.len() {
            return None;
        }
        if end.index() == target {
            return Some(seed);
        }
        let ghost root = end@;
        let ghost nv = self.context.values().len();
        let ghost t = target;
        proof {
            lemma_wf_sound(root, nv, nv);
            lemma_chain_head(root, t);
            lemma_flow_len(root, t, seed);
        }
        let mut node_in_grads: HashMap<usize, Vec<T>> = HashMap::new();
        let mut first: Vec<T> = Vec::new();
        first.push(seed);
        node_in_grads.insert(end.index(), first);
        let mut it = reverse_topology(&end, target);
        let ghost mut ts: Seq<Tree<T, R>> = seq![root];
        let ghost mut gs: Seq<T> = seq![seed];
        let ghost mut tail: Seq<Tree<T, R>> = if root.hits(t).len() > 0 {
            seq![root.hits(t).last()]
        } else {
            Seq::empty()
        };
        let ghost mut queue: Seq<Tree<T, R>> = it.remaining();
        proof {
            assert(ts.drop_last() =~= Seq::empty());
            assert(gs.drop_last() =~= Seq::empty());
            assert(chain_all(ts.drop_last(), t) =~= Seq::empty());
            assert(flow_all(ts.drop_last(), gs.drop_last(), t) =~= Seq::empty());
            assert(chain_all(ts, t) =~= root.chain(t));
            assert(flow_all(ts, gs, t) =~= root.flow(t, seed));
            assert(queue =~= chain_all(ts, t) + tail);
            assert(pend(node_in_grads@, t) + flow_all(ts, gs, t) =~= root.flow(t, seed));
            if root.hits(t).len() > 0 {
                lemma_hits_are_leaves(root, nv, t, root.hits(t).len() - 1);
            }
        }
        let mut current = it.next();
        while current.is_some()
            invariant
                exact_clone::<T>(),
                total_add::<T>(),
                t == target,
                t < nv,
                it.inv(),
                match current {
                    None => queue.len() == 0,
                    Some(node) => queue.len() > 0 && node@ == queue[0] && it.remaining()
                        == queue.skip(1),
                },
                queue == chain_all(ts, t) + tail,
                tail.len() <= 1,
                tail.len() == 1 ==> tail[0].id == t && tail[0].sound(nv),
                settled(ts, gs, nv, t, node_in_grads@),
                no_empty(node_in_grads@),
                root.flow(t, seed) == pend(node_in_grads@, t) + flow_all(ts, gs, t),
            decreases queue.len(),
        {
            let node = current.unwrap();
            let ghost before = node_in_grads@;
            let ghost s = node@;
            proof {
                if ts.len() > 0 {
                    lemma_chain_head(ts.last(), t);
                    assert(chain_all(ts, t) == ts.last().chain(t) + chain_all(ts.drop_last(), t));
                    assert(s == ts.last());
                    assert(s == ts[ts.len() - 1]);
                    assert(gs.last() == gs[ts.len() - 1]);
                } else {
                    assert(chain_all(ts, t) =~= Seq::empty());
                    assert(s == tail[0]);
                    lemma_variable_id(s, nv);
                }
                lemma_node(s, nv);
            }
            let in_grad = match node_in_grads.get(&node.index()) {
                Some(list) => Some(assigning_sum(list.as_slice())),
                None => None,
            };
            match in_grad {
                None => {
                    proof {
                        assert(ts.len() == 0);
                        assert(s.flow(t, seed) =~= Seq::empty()) by {
                            assert(s.kids.len() == 0);
                        }
                        tail = Seq::empty();
                        queue = queue.skip(1);
                        assert(queue =~= chain_all(ts, t) + tail);
                    }
                },
                Some(cur_in_grad) => {
                    feed(&mut node_in_grads, node, &cur_in_grad);
                    proof {
                        let n = s.kids.len();
                        if ts.len() > 0 {
                            let g = gs.last();
                            assert(before[s.id]@ == seq![g]);
                            assert(cur_in_grad == g);
                            lemma_backward_step(ts, gs, nv, t, before, node_in_grads@);
                            lemma_carriers_chain(ts.drop_last(), s, t, n);
                            lemma_carriers_flow(ts.drop_last(), gs.drop_last(), s, t, g, n);
                            assert(ts.last().chain(t) =~= seq![s] + s.chain_below(t, n));
                            assert(flow_all(ts, gs, t) == s.flow(t, g) + flow_all(
                                ts.drop_last(),
                                gs.drop_last(),
                                t,
                            ));
                            let ts2 = ts.drop_last() + s.carriers(t, n);
                            let gs2 = gs.drop_last() + s.carried(t, g, n);
                            assert(queue.skip(1) =~= chain_all(ts2, t) + tail);
                            assert(pend(node_in_grads@, t) == pend(before, t) + s.flow_direct(
                                t,
                                g,
                                n,
                            ));
                            assert(root.flow(t, seed) =~= pend(node_in_grads@, t) + flow_all(
                                ts2,
                                gs2,
                                t,
                            ));
                            ts = ts2;
                            gs = gs2;
                            queue = queue.skip(1);
                        } else {
                            assert(n == 0);
                            assert forall|k: usize| #[trigger]
                                pend(node_in_grads@, k) == pend(before, k) by {
                                assert(pend(node_in_grads@, k) == pend(before, k)
                                    + s.flow_direct(k, cur_in_grad, n));
                                assert(pend(before, k) + Seq::<T>::empty() =~= pend(before, k));
                            }
                            assert(pend(node_in_grads@, t) == pend(before, t));
                            tail = Seq::empty();
                            queue = queue.skip(1);
                            assert(queue =~= chain_all(ts, t) + tail);
                        }
                    }
                },
            }
            current = it.next();
        }
        proof {
            if ts.len() > 0 {
                lemma_chain_head(ts.last(), t);
                assert(chain_all(ts, t) == ts.last().chain(t) + chain_all(ts.drop_last(), t));
                assert(false);
            }
            assert(flow_all(ts, gs, t) =~= Seq::empty());
            assert(root.flow(t, seed) =~= pend(node_in_grads@, t));
        }
        match node_in_grads.get(&target) {
            Some(list) => Some(assigning_sum(list.as_slice())),
            None => None,
        }
    }
}

} // verus!
