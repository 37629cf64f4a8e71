//! The order in which the backward pass visits the nodes of a tree.
use vstd::prelude::*;
use std::collections::HashMap;
use crate::lemmas::{
    lemma_below_grows, lemma_below_hit, lemma_carrier_has_hit, lemma_chain_below_from,
    lemma_chain_below_has, lemma_chain_head, lemma_direct_grows, lemma_hits_all_covers, lemma_kid,
    lemma_kid_relevant, lemma_next_kept, lemma_node, lemma_rest_irrelevant, lemma_skip_irrelevant,
    lemma_stack_push, lemma_variable_id,
};
use crate::model::{apart, chain_all, follows, hits_all, order_all, Tree};
use crate::node::{trees, Node};
use crate::rule::VecJacProduct;
use crate::utils::contains;

verus! {

/// The models of a list of borrowed nodes, in order.
pub open spec fn trees_of<T, R>(nodes: Seq<&Node<T, R>>) -> Seq<Tree<T, R>> {
    Seq::new(nodes.len(), |i: int| nodes[i]@)
}

/// Whether `node` is the node with id `start_idx` or has it upstream.
pub fn depends_on<T, R>(node: &Node<T, R>, start_idx: usize) -> (found: bool)
    ensures
        found == node@.relevant(start_idx),
{
    contains(node.progenitors(), start_idx) || node.index() == start_idx
}

/// The test that picks the nodes relevant to `target`.
pub open spec fn relevant_to<T, R>(target: usize) -> spec_fn(Tree<T, R>) -> bool {
    |p: Tree<T, R>| p.relevant(target)
}

/// The operands that are the node with id `start_idx` or have it
/// upstream, in argument order.
pub fn relevant_parents<'b, T, R>(parents: &'b Vec<Node<T, R>>, start_idx: usize) -> (kept: Vec<
    &'b Node<T, R>,
>)
    ensures
        trees_of(kept@) == trees(parents@).filter(relevant_to(start_idx)),
{
    let ghost pred = relevant_to::<T, R>(start_idx);
    let mut kept: Vec<&'b Node<T, R>> = Vec::new();
    let mut i: usize = 0;
    assert(trees(parents@).take(0) =~= Seq::empty());
    assert(trees_of(kept@) =~= Seq::empty());
    while i < parents.len()
        invariant
            i <= parents.len(),
            pred == relevant_to::<T, R>(start_idx),
            trees_of(kept@) == trees(parents@).take(i as int).filter(pred),
        decreases parents.len() - i,
    {
        let p = &parents[i];
        let ghost before = trees_of(kept@);
        let ghost prefix = trees(parents@).take(i as int);
        let ghost grown = trees(parents@).take(i + 1);
        proof {
            assert(grown.drop_last() =~= prefix);
            assert(grown.last() == p@);
            reveal(Seq::filter);
        }
        if depends_on(p, start_idx) {
            kept.push(p);
            assert(trees_of(kept@) =~= before.push(p@));
        }
        i += 1;
    }
    assert(trees(parents@).take(i as int) =~= trees(parents@));
    kept
}

/// How many visits a subtree adds to those that wait for `target`.
spec fn weight<T, R>(s: Tree<T, R>, target: usize) -> nat {
    if s.id == target {
        1
    } else {
        s.hits(target).len()
    }
}

/// How many visits the subtrees of a stack add to those that wait for
/// `target`.
spec fn weight_all<T, R>(stack: Seq<Tree<T, R>>, target: usize) -> nat
    decreases stack.len(),
{
    if stack.len() == 0 {
        0
    } else {
        weight(stack.last(), target) + weight_all(stack.drop_last(), target)
    }
}

/// Whether `m` is the id of `s` or one of the ids minted below it.
spec fn inside<T, R: VecJacProduct<T>>(s: Tree<T, R>, nvars: nat, m: usize) -> bool {
    m == s.id || s.base(nvars) <= m <= s.id
}

/// Whether no id of a waiting subtree has been counted yet.
spec fn fresh<T, R: VecJacProduct<T>>(
    stack: Seq<Tree<T, R>>,
    nvars: nat,
    target: usize,
    counts: Map<usize, usize>,
) -> bool {
    forall|j: int, m: usize|
        #![trigger stack[j], counts.contains_key(m)]
        0 <= j < stack.len() && stack[j].id != target && inside(stack[j], nvars, m)
            ==> !counts.contains_key(m)
}

/// Whether the waiting subtrees mint ids in ranges that do not meet.
spec fn spread<T, R: VecJacProduct<T>>(
    stack: Seq<Tree<T, R>>,
    nvars: nat,
    target: usize,
) -> bool {
    forall|j: int, k: int|
        #![trigger stack[j], stack[k]]
        0 <= j < k < stack.len() && stack[j].id != target && stack[k].id != target ==> apart(
            stack[j],
            stack[k],
            nvars,
        )
}

/// Whether `e` is still to be counted from one of the waiting subtrees.
spec fn pending<T, R>(stack: Seq<Tree<T, R>>, target: usize, e: Tree<T, R>) -> bool {
    exists|j: int|
        0 <= j < stack.len() && (#[trigger] stack[j]).id != target && stack[j].chain(
            target,
        ).contains(e)
}

/// The count recorded for `k`, nothing recorded counting as zero.
spec fn count_of(counts: Map<usize, usize>, k: usize) -> nat {
    if counts.contains_key(k) {
        counts[k] as nat
    } else {
        0
    }
}

/// What holds of the operands among the first `k` that are relevant to
/// the target, put on top of `below`: each is an occurrence of the
/// target or a node of its own below `s`, later ones have higher ids,
/// every operand that carries the target is among them, and they add to
/// the visits what `s` has below it.
spec fn picked<T, R: VecJacProduct<T>>(
    s: Tree<T, R>,
    nvars: nat,
    t: usize,
    below: Seq<Tree<T, R>>,
    k: nat,
) -> bool {
    let f = s.kids.take(k as int).filter(relevant_to(t));
    let w = below + f;
    &&& forall|j: int| 0 <= j < f.len() ==> follows(#[trigger] f[j], s, nvars, t)
    &&& forall|j: int|
        0 <= j < f.len() && (#[trigger] f[j]).id != t ==> f[j].id < s.base(nvars) + s.span_upto(
            nvars,
            k,
        )
    &&& forall|i: int, j: int|
        #![trigger f[i], f[j]]
        0 <= i < j < f.len() && f[i].id != t && f[j].id != t ==> f[i].id < f[j].base(nvars)
    &&& forall|q: int|
        0 <= q < k && (#[trigger] s.kids[q]).carries(t) ==> exists|j: int|
            0 <= j < f.len() && #[trigger] f[j] == s.kids[q]
    &&& weight_all(w, t) == weight_all(below, t) + s.hits_direct(t, k).len() + s.hits_below(
        t,
        k,
    ).len()
    &&& chain_all(w, t).len() + hits_all(w, t).len() == chain_all(below, t).len() + hits_all(
        below,
        t,
    ).len() + s.chain_below(t, k).len() + s.hits_direct(t, k).len() + s.hits_below(t, k).len()
}

/// [`picked`] holds of every number of operands of a well-formed node.
proof fn lemma_picked<T, R: VecJacProduct<T>>(
    s: Tree<T, R>,
    nv: nat,
    t: usize,
    below: Seq<Tree<T, R>>,
    k: nat,
)
    requires
        s.sound(nv),
        t < nv,
        k <= s.kids.len(),
    ensures
        picked(s, nv, t, below, k),
    decreases k,
{
    let pred = relevant_to::<T, R>(t);
    reveal(Seq::filter);
    if k == 0 {
        let f = s.kids.take(0).filter(pred);
        assert(s.kids.take(0) =~= Seq::empty());
        assert(f =~= Seq::empty());
        assert(below + f =~= below);
    } else {
        lemma_picked(s, nv, t, below, (k - 1) as nat);
        let p = s.kids[k - 1];
        let before = s.kids.take(k - 1).filter(pred);
        let f = s.kids.take(k as int).filter(pred);
        let w = below + before;
        assert(s.kids.take(k as int).drop_last() =~= s.kids.take(k - 1));
        assert(s.kids.take(k as int).last() == p);
        lemma_kid(s, nv, k - 1);
        lemma_node(s, nv);
        if p.relevant(t) {
            lemma_kid_relevant(s, nv, t, k - 1);
            if s.id == t {
                lemma_variable_id(s, nv);
            }
        }
        if p.id == t {
            lemma_variable_id(p, nv);
            lemma_chain_head(p, t);
            assert(p.chain(t) =~= seq![p]);
            assert(p.hits(t) =~= Seq::empty());
        }
        if p.carries(t) {
            if p.id < nv {
                lemma_variable_id(p, nv);
            }
            lemma_node(p, nv);
        }
        if pred(p) {
            assert(f == before.push(p));
            assert(below + f =~= w.push(p));
            assert(w.push(p).drop_last() =~= w);
            lemma_stack_push(w, p, t);
            assert forall|q: int|
                0 <= q < k && (#[trigger] s.kids[q]).carries(t) implies exists|j: int|
                0 <= j < f.len() && #[trigger] f[j] == s.kids[q] by {
                if q < k - 1 {
                    let j = choose|j: int| 0 <= j < before.len() && #[trigger] before[j] == s.kids[q];
                    assert(f[j] == s.kids[q]);
                } else {
                    assert(f[before.len() as int] == s.kids[q]);
                }
            }
            assert forall|j: int| 0 <= j < f.len() implies follows(#[trigger] f[j], s, nv, t) by {
                if j < before.len() {
                    assert(f[j] == before[j]);
                }
            }
            assert forall|j: int|
                0 <= j < f.len() && (#[trigger] f[j]).id != t implies f[j].id < s.base(nv)
                + s.span_upto(nv, k) by {
                if j < before.len() {
                    assert(f[j] == before[j]);
                }
            }
            assert forall|i: int, j: int|
                #![trigger f[i], f[j]]
                0 <= i < j < f.len() && f[i].id != t && f[j].id != t implies f[i].id < f[j].base(
                nv,
            ) by {
                assert(f[i] == before[i]);
                if j < before.len() {
                    assert(f[j] == before[j]);
                }
            }
        } else {
            assert(f == before);
        }
    }
}

/// Puts on the stack the operands of `node` that are the target or have
/// it upstream, in argument order.
fn push_relevant<'a, T, R: VecJacProduct<T>>(
    stack: &mut Vec<&'a Node<T, R>>,
    node: &'a Node<T, R>,
    start_idx: usize,
    Ghost(nv): Ghost<nat>,
)
    requires
        node@.sound(nv),
        start_idx < nv,
    ensures
        ({
            let w0 = trees_of(old(stack)@);
            let w = trees_of(final(stack)@);
            let s = node@;
            let t = start_idx;
            let n = s.kids.len();
            &&& w.len() >= w0.len()
            &&& w.take(w0.len() as int) == w0
            &&& n == 0 ==> w == w0
            &&& forall|j: int| w0.len() <= j < w.len() ==> follows(#[trigger] w[j], s, nv, t)
            &&& forall|j: int, k: int|
                #![trigger w[j], w[k]]
                w0.len() <= j < k < w.len() && w[j].id != t && w[k].id != t ==> w[j].id
                    < w[k].base(nv)
            &&& forall|k: int|
                0 <= k < n && (#[trigger] s.kids[k]).carries(t) ==> exists|j: int|
                    w0.len() <= j < w.len() && #[trigger] w[j] == s.kids[k]
            &&& weight_all(w, t) == weight_all(w0, t) + s.hits(t).len()
            &&& chain_all(w, t).len() + hits_all(w, t).len() + 1 == chain_all(w0, t).len()
                + hits_all(w0, t).len() + s.chain(t).len() + s.hits(t).len()
        }),
{
    let ghost w0 = trees_of(stack@);
    let ghost s = node@;
    let ghost t = start_idx;
    let mut kept = relevant_parents(node.parents(), start_idx);
    let ghost f = trees_of(kept@);
    stack.append(&mut kept);
    proof {
        let n = s.kids.len();
        let w = trees_of(stack@);
        assert(s.kids.take(n as int) =~= s.kids);
        assert(w =~= w0 + f);
        assert(w.take(w0.len() as int) =~= w0);
        lemma_picked(s, nv, t, w0, n);
        lemma_chain_head(s, t);
        assert(s.chain(t) =~= seq![s] + s.chain_below(t, n));
        assert(s.hits(t) == s.hits_direct(t, n) + s.hits_below(t, n));
        if n == 0 {
            reveal(Seq::filter);
            assert(f =~= Seq::empty());
        }
        assert forall|j: int| w0.len() <= j < w.len() implies follows(
            #[trigger] w[j],
            s,
            nv,
            t,
        ) by {
            assert(w[j] == f[j - w0.len()]);
        }
        assert forall|j: int, k: int|
            #![trigger w[j], w[k]]
            w0.len() <= j < k < w.len() && w[j].id != t && w[k].id != t implies w[j].id < w[k].base(
            nv,
        ) by {
            assert(w[j] == f[j - w0.len()]);
            assert(w[k] == f[k - w0.len()]);
        }
        assert forall|k: int| 0 <= k < n && (#[trigger] s.kids[k]).carries(t) implies exists|
            j: int,
        |
            w0.len() <= j < w.len() && #[trigger] w[j] == s.kids[k] by {
            let j = choose|j: int| 0 <= j < f.len() && #[trigger] f[j] == s.kids[k];
            assert(w[j + w0.len()] == s.kids[k]);
        }
    }
}

/// What holds while the visits are counted: `stack` holds the subtrees
/// still to be counted and `counts` what has been counted.
spec fn counting<T, R: VecJacProduct<T>>(
    root: Tree<T, R>,
    nvars: nat,
    target: usize,
    stack: Seq<Tree<T, R>>,
    counts: Map<usize, usize>,
) -> bool {
    &&& target < nvars
    &&& root.sound(nvars)
    &&& forall|j: int| 0 <= j < stack.len() ==> (#[trigger] stack[j]).sound(nvars)
    &&& forall|j: int|
        0 <= j < stack.len() && stack.len() >= 2 && (#[trigger] stack[j]).id != target
            ==> !stack[j].is_variable(nvars)
    &&& count_of(counts, target) + weight_all(stack, target) == weight(root, target)
    &&& forall|e: Tree<T, R>|
        #![trigger root.chain(target).contains(e)]
        root.chain(target).contains(e) && e.id != target ==> (counts.contains_key(e.id)
            && counts[e.id] == 1) || pending(stack, target, e)
    &&& fresh(stack, nvars, target, counts)
    &&& spread(stack, nvars, target)
}

/// Counting one node and putting its relevant operands on the stack
/// keeps what holds while the visits are counted.
proof fn lemma_counting_step<T, R: VecJacProduct<T>>(
    root: Tree<T, R>,
    nv: nat,
    t: usize,
    w_old: Seq<Tree<T, R>>,
    counts_old: Map<usize, usize>,
    w: Seq<Tree<T, R>>,
    counts: Map<usize, usize>,
)
    requires
        counting(root, nv, t, w_old, counts_old),
        w_old.len() > 0,
        counts == counts_old.insert(
            w_old.last().id,
            (count_of(counts_old, w_old.last().id) + 1) as usize,
        ),
        count_of(counts_old, w_old.last().id) + 1 <= usize::MAX,
        ({
            let w0 = w_old.drop_last();
            let s = w_old.last();
            let n = s.kids.len();
            &&& w.len() >= w0.len()
            &&& w.take(w0.len() as int) == w0
            &&& n == 0 ==> w == w0
            &&& forall|j: int| w0.len() <= j < w.len() ==> follows(#[trigger] w[j], s, nv, t)
            &&& forall|j: int, k: int|
                #![trigger w[j], w[k]]
                w0.len() <= j < k < w.len() && w[j].id != t && w[k].id != t ==> w[j].id
                    < w[k].base(nv)
            &&& forall|k: int|
                0 <= k < n && (#[trigger] s.kids[k]).carries(t) ==> exists|j: int|
                    w0.len() <= j < w.len() && #[trigger] w[j] == s.kids[k]
            &&& weight_all(w, t) == weight_all(w0, t) + s.hits(t).len()
        }),
    ensures
        counting(root, nv, t, w, counts),
{
    let w_rest = w_old.drop_last();
    let s = w_old.last();
    let n = s.kids.len();
    let id = s.id;
    lemma_chain_head(s, t);
    assert(s == w_old[w_old.len() - 1]);
    assert(weight_all(w_old, t) == weight(s, t) + weight_all(w_rest, t));
    if s.id != t {
        assert(inside(s, nv, s.id));
        assert(!counts_old.contains_key(s.id));
    } else {
        lemma_variable_id(s, nv);
        assert(s.hits(t) =~= Seq::empty());
    }
    if n > 0 {
        lemma_node(s, nv);
        lemma_kid(s, nv, 0);
    }
    assert(s.chain(t) =~= seq![s] + s.chain_below(t, n));
    assert forall|j: int| 0 <= j < w.len() implies (#[trigger] w[j]).sound(nv) by {
        if j < w_rest.len() {
            assert(w[j] == w.take(w_rest.len() as int)[j]);
            assert(w[j] == w_old[j]);
        } else {
            assert(follows(w[j], s, nv, t));
        }
    }
    assert forall|j: int|
        0 <= j < w.len() && w.len() >= 2 && (#[trigger] w[j]).id != t implies !w[j].is_variable(
        nv,
    ) by {
        if j < w_rest.len() {
            assert(w[j] == w.take(w_rest.len() as int)[j]);
            assert(w[j] == w_old[j]);
            if w_old.len() < 2 {
                assert(false);
            }
        } else {
            assert(follows(w[j], s, nv, t));
        }
    }
    assert forall|e: Tree<T, R>|
        #![trigger root.chain(t).contains(e)]
        root.chain(t).contains(e) && e.id != t implies (counts.contains_key(e.id) && counts[e.id]
        == 1) || pending(w, t, e) by {
        if counts_old.contains_key(e.id) && counts_old[e.id] == 1 {
            assert(e.id != id);
        } else {
            assert(pending(w_old, t, e));
            let j = choose|j: int|
                0 <= j < w_old.len() && (#[trigger] w_old[j]).id != t && w_old[j].chain(
                    t,
                ).contains(e);
            if j < w_rest.len() {
                assert(w[j] == w.take(w_rest.len() as int)[j]);
                assert(w[j] == w_old[j]);
            } else {
                assert(w_old[j] == s);
                let k = choose|k: int| 0 <= k < s.chain(t).len() && s.chain(t)[k] == e;
                if k == 0 {
                    assert(e == s);
                } else {
                    assert(s.chain_below(t, n)[k - 1] == e);
                    let q = lemma_chain_below_from(s, t, n, e);
                    let j2 = choose|j2: int|
                        w_rest.len() <= j2 < w.len() && #[trigger] w[j2] == s.kids[q];
                    assert(w[j2].id != t && w[j2].chain(t).contains(e));
                }
            }
        }
    }
    assert(fresh(w, nv, t, counts)) by {
        assert forall|j: int, m: usize|
            #![trigger w[j], counts.contains_key(m)]
            0 <= j < w.len() && w[j].id != t && inside(w[j], nv, m) implies !counts.contains_key(
            m,
        ) by {
            if j < w_rest.len() {
                assert(w[j] == w.take(w_rest.len() as int)[j]);
                assert(w[j] == w_old[j]);
                assert(!counts_old.contains_key(m));
                lemma_node(w_old[j], nv);
                if m == id {
                    if s.id != t {
                        assert(apart(w_old[j], w_old[w_old.len() - 1], nv));
                        lemma_node(s, nv);
                    }
                }
            } else {
                assert(follows(w[j], s, nv, t));
                assert(inside(s, nv, m));
                assert(m != s.id);
                assert(!counts_old.contains_key(m));
            }
        }
    }
    assert(spread(w, nv, t)) by {
        assert forall|j: int, k: int|
            #![trigger w[j], w[k]]
            0 <= j < k < w.len() && w[j].id != t && w[k].id != t implies apart(w[j], w[k], nv) by {
            if k < w_rest.len() {
                assert(w[j] == w.take(w_rest.len() as int)[j]);
                assert(w[k] == w.take(w_rest.len() as int)[k]);
                assert(apart(w_old[j], w_old[k], nv));
            } else if j < w_rest.len() {
                assert(w[j] == w.take(w_rest.len() as int)[j]);
                assert(w[j] == w_old[j]);
                assert(follows(w[k], s, nv, t));
                assert(apart(w_old[j], w_old[w_old.len() - 1], nv));
            }
        }
    }
}

/// Prepares a backward pass from `end` towards the variable with index
/// `start_idx`: counts, for every id that the pass will come by, the
/// visits that wait for it.
///
/// The tree has to be one that a forward pass built, `start_idx` the
/// index of one of its variables, and the occurrences of that variable
/// have to be fewer than `usize::MAX`. The pass then visits the nodes of
/// [`Tree::order`], one with each call of [`RevTopology::next`].
pub fn reverse_topology<'a, T, R: VecJacProduct<T>>(end: &'a Node<T, R>, start_idx: usize) -> (it:
    RevTopology<'a, T, R>)
    requires
        exists|nvars: nat| start_idx < nvars && end@.sound(nvars),
        end@.hits(start_idx).len() < usize::MAX,
    ensures
        it.inv(),
        it.target() == start_idx,
        it.remaining() == end@.order(start_idx),
{
    let ghost nv = choose|nvars: nat| start_idx < nvars && end@.sound(nvars);
    let ghost t = start_idx;
    let ghost root = end@;
    let mut child_counts: HashMap<usize, usize> = HashMap::new();
    let mut stack: Vec<&'a Node<T, R>> = Vec::new();
    stack.push(end);
    proof {
        let w = trees_of(stack@);
        assert(w =~= seq![root]);
        assert(w.drop_last() =~= Seq::empty());
        assert(weight_all(w.drop_last(), t) == 0);
        lemma_chain_head(root, t);
        if root.id == t {
            lemma_variable_id(root, nv);
            assert(root.chain(t) =~= seq![root]);
        }
        assert forall|e: Tree<T, R>|
            #![trigger root.chain(t).contains(e)]
            root.chain(t).contains(e) && e.id != t implies pending(w, t, e) by {
            assert(w[0].id != t && w[0].chain(t).contains(e));
        }
    }
    while stack.len() > 0
        invariant
            t == start_idx,
            root == end@,
            root.hits(t).len() < usize::MAX,
            counting(root, nv, t, trees_of(stack@), child_counts@),
        decreases chain_all(trees_of(stack@), t).len() + hits_all(trees_of(stack@), t).len(),
    {
        let ghost w_old = trees_of(stack@);
        let ghost counts_old = child_counts@;
        let node = stack.pop().unwrap();
        let ghost s = node@;
        let ghost w_rest = trees_of(stack@);
        let id = node.index();
        proof {
            assert(w_rest =~= w_old.drop_last());
            assert(s == w_old[w_old.len() - 1]);
            assert(weight_all(w_old, t) == weight(s, t) + weight_all(w_rest, t));
            assert(chain_all(w_old, t) == s.chain(t) + chain_all(w_rest, t));
            assert(hits_all(w_old, t) == s.hits(t) + hits_all(w_rest, t));
            if s.id != t {
                assert(inside(s, nv, s.id));
                assert(!counts_old.contains_key(s.id));
            }
        }
        let cc = match child_counts.get(&id) {
            Some(c) => *c,
            None => 0,
        };
        assert(cc == count_of(counts_old, id));
        child_counts.insert(id, cc + 1);
        push_relevant(&mut stack, node, start_idx, Ghost(nv));
        proof {
            lemma_counting_step(root, nv, t, w_old, counts_old, trees_of(stack@), child_counts@);
        }
    }
    stack.push(end);
    let it = RevTopology {
        start: start_idx,
        child_counts: child_counts,
        childless_nodes: stack,
        nvars: Ghost(nv),
    };
    proof {
        let w = trees_of(it.childless_nodes@);
        assert(w =~= seq![root]);
        assert(w.drop_last() =~= Seq::empty());
        assert(chain_all(w.drop_last(), t) =~= Seq::empty());
        assert(hits_all(w.drop_last(), t) =~= Seq::empty());
        assert(chain_all(w, t) =~= root.chain(t));
        assert(hits_all(w, t) =~= root.hits(t));
        if root.id == t {
            lemma_variable_id(root, nv);
            assert(root.hits(t) =~= Seq::empty());
        }
        assert forall|e: Tree<T, R>| #[trigger]
            chain_all(w, t).contains(e) && e.id != t implies it.child_counts@.contains_key(e.id)
            && it.child_counts@[e.id] == 1 by {
            assert(root.chain(t).contains(e));
            assert(!pending(Seq::<Tree<T, R>>::empty(), t, e));
        }
    }
    it
}

/// A backward pass in progress: the nodes that are ready to be visited
/// and, for every id still to come, how many visits wait for it.
pub struct RevTopology<'a, T, R> {
    start: usize,
    child_counts: HashMap<usize, usize>,
    childless_nodes: Vec<&'a Node<T, R>>,
    nvars: Ghost<nat>,
}

impl<'a, T, R: VecJacProduct<T>> RevTopology<'a, T, R> {
    /// The id towards which the pass runs.
    pub closed spec fn target(&self) -> usize {
        self.start
    }

    /// The nodes that the pass has yet to visit, in the order in which it
    /// visits them.
    pub closed spec fn remaining(&self) -> Seq<Tree<T, R>> {
        order_all(trees_of(self.childless_nodes@), self.start)
    }

    /// What holds of the pass between two visits.
    pub closed spec fn inv(&self) -> bool {
        let w = trees_of(self.childless_nodes@);
        let t = self.start;
        &&& t < self.nvars@
        &&& forall|j: int| 0 <= j < w.len() ==> (#[trigger] w[j]).sound(self.nvars@)
        &&& w.len() <= 1 || forall|j: int| 0 <= j < w.len() ==> (#[trigger] w[j]).carries(t)
        &&& forall|e: Tree<T, R>| #[trigger]
            chain_all(w, t).contains(e) && e.id != t ==> self.child_counts@.contains_key(e.id)
                && self.child_counts@[e.id] == 1
        &&& hits_all(w, t).len() > 0 ==> self.child_counts@.contains_key(t)
            && self.child_counts@[t] == hits_all(w, t).len()
    }

    /// Visits the next node: hands it out and makes ready those of its
    /// operands for which no other visit waits. Returns `None` once every
    /// node has been visited.
    pub fn next(&mut self) -> (r: Option<&'a Node<T, R>>)
        requires
            old(self).inv(),
        ensures
            final(self).inv(),
            final(self).target() == old(self).target(),
            match r {
                None => old(self).remaining().len() == 0 && final(self).remaining() == old(
                    self,
                ).remaining(),
                Some(node) => old(self).remaining().len() > 0 && node@ == old(self).remaining()[0]
                    && final(self).remaining() == old(self).remaining().skip(1),
            },
    {
        let ghost w_old = trees_of(self.childless_nodes@);
        let ghost counts_old = self.child_counts@;
        let ghost t = self.start;
        let ghost nv = self.nvars@;
        match self.childless_nodes.pop() {
            None => {
                assert(w_old =~= Seq::empty());
                None
            },
            Some(node) => {
                let ghost s = node@;
                let ghost w_rest = trees_of(self.childless_nodes@);
                let ghost c0 = hits_all(w_old, t).len();
                let parents = node.parents();
                let n = parents.len();
                proof {
                    assert(w_rest =~= w_old.drop_last());
                    assert(w_old.last() == s);
                    assert(s == w_old[w_old.len() - 1]);
                    assert(hits_all(w_old, t) == s.hits(t) + hits_all(w_rest, t));
                    assert(chain_all(w_old, t) == s.chain(t) + chain_all(w_rest, t));
                    lemma_chain_head(s, t);
                }
                let kept = relevant_parents(parents, self.start);
                let m = kept.len();
                let ghost pred = relevant_to::<T, R>(t);
                let ghost f = trees_of(kept@);
                let ghost mut i: nat = 0;
                proof {
                    reveal(Seq::filter);
                    assert(s.kids.take(0) =~= Seq::empty());
                    assert(f.take(0) =~= s.kids.take(0).filter(pred));
                }
                let mut j: usize = 0;
                while j < m
                    invariant
                        j <= m,
                        m == kept.len(),
                        f == trees_of(kept@),
                        f == s.kids.filter(pred),
                        pred == relevant_to::<T, R>(t),
                        s.kids.take(i as int).filter(pred) == f.take(j as int),
                        i <= n,
                        n == parents.len(),
                        trees(parents@) == s.kids,
                        self.start == t,
                        self.nvars@ == nv,
                        t < nv,
                        s.sound(nv),
                        w_old.len() >= 1,
                        w_rest == w_old.drop_last(),
                        s == w_old.last(),
                        old(self).inv(),
                        w_old == trees_of(old(self).childless_nodes@),
                        counts_old == old(self).child_counts@,
                        t == old(self).start,
                        nv == old(self).nvars@,
                        c0 == hits_all(w_old, t).len(),
                        hits_all(w_old, t) == s.hits(t) + hits_all(w_rest, t),
                        chain_all(w_old, t) == s.chain(t) + chain_all(w_rest, t),
                        s.hits_direct(t, i).len() <= c0,
                        forall|j: int|
                            0 <= j < trees_of(self.childless_nodes@).len() ==> (
                            #[trigger] trees_of(self.childless_nodes@)[j]).sound(nv),
                        forall|k: usize|
                            k != t ==> (self.child_counts@.contains_key(k)
                                <==> counts_old.contains_key(k)),
                        forall|k: usize|
                            k != t && counts_old.contains_key(k) ==> self.child_counts@[k]
                                == counts_old[k],
                        ({
                            let w = trees_of(self.childless_nodes@);
                            let d = s.hits_direct(t, i).len();
                            if d == c0 && c0 > 0 {
                                &&& w == seq![s.hits_direct(t, i).last()]
                                &&& s.hits_direct(t, i).last().id == t
                                &&& s.chain_below(t, i).len() == 0
                                &&& w_rest.len() == 0
                            } else {
                                &&& chain_all(w, t) == s.chain_below(t, i) + chain_all(
                                    w_rest,
                                    t,
                                )
                                &&& hits_all(w, t) == s.hits_below(t, i) + hits_all(
                                    w_rest,
                                    t,
                                )
                                &&& w.len() >= w_rest.len()
                                &&& w.take(w_rest.len() as int) == w_rest
                                &&& forall|j: int|
                                    w_rest.len() <= j < w.len() ==> (#[trigger] w[j]).carries(t)
                                &&& c0 > 0 ==> self.child_counts@.contains_key(t)
                                    && self.child_counts@[t] == c0 - d
                            }
                        }),
                    decreases m - j,
                {
                    let p = kept[j];
                    let ghost w = trees_of(self.childless_nodes@);
                    proof {
                        let found = lemma_next_kept(s.kids, pred, i as int, j as int);
                        lemma_skip_irrelevant(s, t, i, (found - 1) as nat);
                        i = (found - 1) as nat;
                        assert(p@ == f[j as int]);
                    }
                    let ghost d = s.hits_direct(t, i).len();
                    proof {
                        assert(p@ == s.kids[i as int]);
                        assert(p@.relevant(t));
                        lemma_kid(s, nv, i as int);
                        lemma_direct_grows(s, t, (i + 1) as nat, n as nat);
                        lemma_kid_relevant(s, nv, t, i as int);
                        if p@.carries(t) {
                            lemma_carrier_has_hit(p@, nv, t);
                            lemma_below_hit(s, t, i as int, n as nat);
                        }
                        if p@.id == t {
                            lemma_variable_id(p@, nv);
                        }
                        if d == c0 && c0 > 0 {
                            if p@.id == t {
                                assert(s.hits_direct(t, (i + 1) as nat).len() == d + 1);
                            } else {
                                assert(s.hits(t).len() >= d + 1);
                            }
                            assert(false);
                        }
                        if p@.id != t {
                            lemma_chain_head(p@, t);
                            assert(p@.chain(t).contains(p@));
                            assert(s.kids.len() == n);
                            lemma_chain_below_has(s, t, i as int, n as nat, p@);
                            lemma_chain_head(s, t);
                            assert(s.chain(t).skip(1) == s.chain_below(t, n as nat));
                            assert(s.chain(t).skip(1).contains(p@));
                            let k = choose|k: int|
                                0 <= k < s.chain(t).skip(1).len() && s.chain(t).skip(1)[k]
                                    == p@;
                            assert(chain_all(w_old, t)[k + 1] == p@);
                            assert(chain_all(w_old, t).contains(p@));
                        } else {
                            assert(s.hits_direct(t, (i + 1) as nat).len() == d + 1);
                            assert(c0 > 0);
                        }
                    }
                    let cc = *self.child_counts.get(&p.index()).unwrap();
                    if cc == 1 {
                        self.childless_nodes.push(p);
                        proof {
                            let w2 = trees_of(self.childless_nodes@);
                            assert(w2 =~= w.push(p@));
                            lemma_stack_push(w, p@, t);
                            if p@.id == t {
                                assert(c0 == d + 1);
                                assert(s.hits(t).len() == d + 1 + s.hits_below(
                                    t,
                                    n as nat,
                                ).len() + 0) by {
                                    assert(s.hits_direct(t, n as nat).len() >= d + 1);
                                }
                                assert(hits_all(w, t).len() == 0) by {
                                    lemma_below_grows(s, t, i, n as nat);
                                }
                                if w.len() > 0 {
                                    let last = w[w.len() - 1];
                                    lemma_hits_all_covers(w, t, w.len() - 1);
                                    if w_rest.len() < w.len() {
                                        assert(last.carries(t));
                                    } else {
                                        assert(w =~= w_rest);
                                        assert(w_old.len() >= 2);
                                        assert(w_old[w_rest.len() - 1].carries(t));
                                        assert(w_rest[w_rest.len() - 1] == w_old[w_rest.len()
                                            - 1]);
                                    }
                                    lemma_carrier_has_hit(last, nv, t);
                                    assert(false);
                                }
                                assert(w =~= Seq::empty());
                                assert(w2 =~= seq![p@]);
                                assert(w_rest.len() == 0);
                                assert(s.hits_direct(t, (i + 1) as nat).last() == p@);
                                assert(chain_all(w, t) =~= Seq::empty());
                                assert(s.chain_below(t, i).len() == 0);
                                assert(s.chain_below(t, (i + 1) as nat).len() == 0);
                            } else {
                                assert(s.hits_direct(t, (i + 1) as nat).len() == d);
                                assert(chain_all(w2, t) =~= s.chain_below(t, (i + 1) as nat)
                                    + chain_all(w_rest, t));
                                assert(hits_all(w2, t) =~= s.hits_below(t, (i + 1) as nat)
                                    + hits_all(w_rest, t));
                                assert(w2.take(w_rest.len() as int) =~= w_rest);
                            }
                        }
                    } else {
                        proof {
                            if p@.id != t {
                                assert(false);
                            }
                            assert(cc == c0 - d);
                            assert(cc >= 1) by {
                                assert(d + 1 <= c0);
                            }
                        }
                        self.child_counts.insert(p.index(), cc - 1);
                        proof {
                            assert(s.hits_direct(t, (i + 1) as nat).len() == d + 1);
                            assert(s.chain_below(t, (i + 1) as nat) == s.chain_below(
                                t,
                                i,
                            ));
                            assert(s.hits_below(t, (i + 1) as nat) == s.hits_below(t, i));
                        }
                    }
                    proof {
                        i = i + 1;
                    }
                    j += 1;
                }
                proof {
                    let w = trees_of(self.childless_nodes@);
                    assert(f.take(m as int) =~= f);
                    lemma_rest_irrelevant(s.kids, pred, i as int);
                    lemma_skip_irrelevant(s, t, i, n as nat);
                    let d = s.hits_direct(t, n as nat).len();
                    assert(s.kids.len() == n);
                    assert(s.chain(t) =~= seq![s] + s.chain_below(t, n as nat));
                    assert(s.hits(t) == s.hits_direct(t, n as nat) + s.hits_below(t, n as nat));
                    let old_chain = chain_all(w_old, t);
                    let old_hits = hits_all(w_old, t);
                    assert(old(self).remaining() == order_all(w_old, t));
                    if d == c0 && c0 > 0 {
                        let leaf = s.hits_direct(t, n as nat).last();
                        lemma_variable_id(leaf, nv);
                        assert(leaf.chain(t) =~= seq![leaf]);
                        assert(leaf.hits(t) =~= Seq::empty());
                        assert(w.last() == leaf);
                        assert(w.drop_last() =~= Seq::empty());
                        assert(chain_all(w.drop_last(), t) =~= Seq::empty());
                        assert(hits_all(w.drop_last(), t) =~= Seq::empty());
                        assert(chain_all(w, t) =~= seq![leaf]);
                        assert(hits_all(w, t) =~= Seq::empty());
                        assert(chain_all(w_rest, t) =~= Seq::empty());
                        assert(s.hits_below(t, n as nat).len() == 0);
                        assert(hits_all(w_rest, t).len() == 0);
                        assert(old_hits =~= s.hits_direct(t, n as nat));
                        assert(old_chain =~= seq![s]);
                        assert(order_all(w_old, t) =~= seq![s, leaf]);
                        assert(order_all(w, t) =~= seq![leaf]);
                        assert(order_all(w_old, t).skip(1) =~= order_all(w, t));
                        assert forall|e: Tree<T, R>| #[trigger]
                            chain_all(w, t).contains(e) && e.id != t implies self.child_counts@.contains_key(
                            e.id,
                        ) && self.child_counts@[e.id] == 1 by {
                            let k = choose|k: int|
                                0 <= k < chain_all(w, t).len() && chain_all(w, t)[k] == e;
                            assert(e == leaf);
                        }
                    } else {
                        assert(old_chain =~= seq![s] + chain_all(w, t));
                        assert(old_hits =~= s.hits_direct(t, n as nat) + hits_all(w, t));
                        assert(old_chain.skip(1) =~= chain_all(w, t));
                        if hits_all(w, t).len() > 0 {
                            assert(old_hits.last() == hits_all(w, t).last());
                            assert(order_all(w_old, t).skip(1) =~= order_all(w, t));
                        } else {
                            assert(c0 == d);
                            assert(old_hits.len() == 0);
                            assert(order_all(w_old, t).skip(1) =~= order_all(w, t));
                        }
                        assert forall|e: Tree<T, R>| #[trigger]
                            chain_all(w, t).contains(e) && e.id != t implies self.child_counts@.contains_key(
                            e.id,
                        ) && self.child_counts@[e.id] == 1 by {
                            let k = choose|k: int|
                                0 <= k < chain_all(w, t).len() && chain_all(w, t)[k] == e;
                            assert(old_chain[k + 1] == e);
                            assert(old_chain.contains(e));
                        }
                        if w.len() > 1 {
                            assert forall|j: int| 0 <= j < w.len() implies (#[trigger] w[
                                j
                            ]).carries(t) by {
                                if j < w_rest.len() {
                                    assert(w[j] == w.take(w_rest.len() as int)[j]);
                                    assert(w_rest[j] == w_old[j]);
                                    if w_old.len() <= 1 {
                                        assert(false);
                                    }
                                }
                            }
                        }
                    }
                    assert(order_all(w_old, t)[0] == s);
                }
                Some(node)
            },
        }
    }
}

} // verus!
