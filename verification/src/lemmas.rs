//! Facts about well-formed trees that the backward pass rests on.
use vstd::prelude::*;
use crate::model::{chain_all, flow_all, follows, hits_all, upstream, Tree};
use crate::rule::VecJacProduct;

verus! {

/// The ids minted for the first `k` operands grow with `k`.
pub proof fn lemma_span_upto_grows<T, R>(t: Tree<T, R>, nvars: nat, i: nat, k: nat)
    requires
        i <= k <= t.kids.len(),
    ensures
        t.span_upto(nvars, i) <= t.span_upto(nvars, k),
    decreases k,
{
    if i < k {
        lemma_span_upto_grows(t, nvars, i, (k - 1) as nat);
    }
}

/// A well-formed tree is well-formed from its own first id.
pub proof fn lemma_wf_sound<T, R: VecJacProduct<T>>(t: Tree<T, R>, nvars: nat, lo: nat)
    requires
        t.wf(nvars, lo),
    ensures
        t.sound(nvars),
        !t.is_variable(nvars) ==> t.base(nvars) == lo && t.span(nvars) >= 1 && nvars <= lo,
{
    reveal(Tree::wf);
}

/// What a well-formed node records as upstream, and what its rule
/// accepts.
pub proof fn lemma_node<T, R: VecJacProduct<T>>(t: Tree<T, R>, nvars: nat)
    requires
        t.sound(nvars),
    ensures
        t.progs == upstream(t.kids),
        t.rule_total(),
        !t.is_variable(nvars) ==> nvars <= t.base(nvars) && t.base(nvars) <= t.id,
{
    reveal(Tree::wf);
}

/// A node over one well-formed operand, numbered after it, is
/// well-formed.
pub proof fn lemma_unary_wf<T, R: VecJacProduct<T>>(t: Tree<T, R>, nvars: nat, lo: nat)
    requires
        t.kids.len() == 1,
        nvars <= lo,
        t.progs == upstream(t.kids),
        t.rule_total(),
        t.kids[0].wf(nvars, lo),
        t.id == lo + t.kids[0].span(nvars),
    ensures
        t.wf(nvars, lo),
        t.span(nvars) == t.kids[0].span(nvars) + 1,
{
    reveal(Tree::wf);
    assert(t.span_upto(nvars, 0) == 0);
    assert(t.span_upto(nvars, 1) == t.kids[0].span(nvars));
    assert(t.span(nvars) == 1 + t.span_upto(nvars, 1));
}

/// A node over two well-formed operands, the second numbered after the
/// first and the node after both, is well-formed.
pub proof fn lemma_binary_wf<T, R: VecJacProduct<T>>(t: Tree<T, R>, nvars: nat, lo: nat)
    requires
        t.kids.len() == 2,
        nvars <= lo,
        t.progs == upstream(t.kids),
        t.rule_total(),
        t.kids[0].wf(nvars, lo),
        t.kids[1].wf(nvars, lo + t.kids[0].span(nvars)),
        t.id == lo + t.kids[0].span(nvars) + t.kids[1].span(nvars),
    ensures
        t.wf(nvars, lo),
        t.span(nvars) == t.kids[0].span(nvars) + t.kids[1].span(nvars) + 1,
{
    reveal(Tree::wf);
    assert(t.span_upto(nvars, 0) == 0);
    assert(t.span_upto(nvars, 1) == t.kids[0].span(nvars));
    assert(t.span_upto(nvars, 2) == t.kids[0].span(nvars) + t.kids[1].span(nvars));
    assert(t.span(nvars) == 1 + t.span_upto(nvars, 2));
    assert forall|i: int| 0 <= i < t.kids.len() implies (#[trigger] t.kids[i]).wf(
        nvars,
        lo + t.span_upto(nvars, i as nat),
    ) by {
        if i != 0 {
            assert(i == 1);
        }
    }
}

/// In a well-formed tree a node with the id of a variable is a leaf with
/// nothing upstream.
pub proof fn lemma_variable_id<T, R: VecJacProduct<T>>(t: Tree<T, R>, nvars: nat)
    requires
        t.sound(nvars),
        t.id < nvars,
    ensures
        t.is_variable(nvars),
        t.kids.len() == 0,
        t.progs == Set::<usize>::empty(),
        forall|target: usize| !t.carries(target),
{
    reveal(Tree::wf);
    assert(t.progs =~= Set::<usize>::empty());
}

/// The operands of a well-formed node are well-formed, and their ids lie
/// in consecutive ranges below the id of the node.
pub proof fn lemma_kid<T, R: VecJacProduct<T>>(t: Tree<T, R>, nvars: nat, i: int)
    requires
        t.sound(nvars),
        0 <= i < t.kids.len(),
    ensures
        t.kids[i].sound(nvars),
        !t.is_variable(nvars),
        nvars <= t.base(nvars),
        t.base(nvars) + t.span_upto(nvars, t.kids.len()) == t.id,
        t.span_upto(nvars, i as nat) + t.kids[i].span(nvars) == t.span_upto(nvars, (i + 1) as nat),
        t.span_upto(nvars, (i + 1) as nat) <= t.span_upto(nvars, t.kids.len()),
        !t.kids[i].is_variable(nvars) ==> {
            &&& t.kids[i].base(nvars) == t.base(nvars) + t.span_upto(nvars, i as nat)
            &&& t.kids[i].id + 1 == t.base(nvars) + t.span_upto(nvars, (i + 1) as nat)
            &&& t.kids[i].id < t.id
        },
{
    reveal(Tree::wf);
    let lo = t.base(nvars);
    assert(t.kids[i].wf(nvars, lo + t.span_upto(nvars, i as nat)));
    lemma_wf_sound(t.kids[i], nvars, lo + t.span_upto(nvars, i as nat));
    lemma_span_upto_grows(t, nvars, (i + 1) as nat, t.kids.len());
}

/// An operand that is the target is among the direct occurrences.
pub proof fn lemma_direct_hit<T, R>(t: Tree<T, R>, target: usize, i: int, k: nat)
    requires
        0 <= i < k <= t.kids.len(),
        t.kids[i].id == target,
    ensures
        t.hits_direct(target, k).len() >= 1,
    decreases k,
{
    if i < k - 1 {
        lemma_direct_hit(t, target, i, (k - 1) as nat);
    }
}

/// The occurrences below an operand are among those below the node.
pub proof fn lemma_below_hit<T, R>(t: Tree<T, R>, target: usize, i: int, k: nat)
    requires
        0 <= i < k <= t.kids.len(),
        t.kids[i].carries(target),
    ensures
        t.hits_below(target, k).len() >= t.kids[i].hits(target).len(),
    decreases k,
{
    if i < k - 1 {
        lemma_below_hit(t, target, i, (k - 1) as nat);
    }
}

/// A well-formed node that has a variable upstream meets an occurrence of
/// it on the way back.
pub proof fn lemma_carrier_has_hit<T, R: VecJacProduct<T>>(
    t: Tree<T, R>,
    nvars: nat,
    target: usize,
)
    requires
        t.sound(nvars),
        target < nvars,
        t.carries(target),
    ensures
        t.hits(target).len() >= 1,
    decreases t,
{
    lemma_node(t, nvars);
    assert(upstream(t.kids).contains(target));
    let i = choose|i: int| 0 <= i < t.kids.len() && #[trigger] t.kids[i].relevant(target);
    lemma_kid(t, nvars, i);
    if t.kids[i].id == target {
        lemma_direct_hit(t, target, i, t.kids.len());
    } else {
        lemma_carrier_has_hit(t.kids[i], nvars, target);
        lemma_below_hit(t, target, i, t.kids.len());
    }
}

/// A node is the first that a backward pass visits from it.
pub proof fn lemma_chain_head<T, R>(t: Tree<T, R>, target: usize)
    ensures
        t.chain(target).len() >= 1,
        t.chain(target)[0] == t,
        t.chain(target).skip(1) =~= t.chain_below(target, t.kids.len()),
{
}

/// What a backward pass visits from an operand that carries the target,
/// it visits from the node.
pub proof fn lemma_chain_below_has<T, R>(t: Tree<T, R>, target: usize, i: int, k: nat, e: Tree<T, R>)
    requires
        0 <= i < k <= t.kids.len(),
        t.kids[i].carries(target),
        t.kids[i].chain(target).contains(e),
    ensures
        t.chain_below(target, k).contains(e),
    decreases k,
{
    let last = t.kids[k - 1];
    let rest = t.chain_below(target, (k - 1) as nat);
    if i < k - 1 {
        lemma_chain_below_has(t, target, i, (k - 1) as nat, e);
        let j = choose|j: int| 0 <= j < rest.len() && rest[j] == e;
        if last.carries(target) {
            assert((last.chain(target) + rest)[last.chain(target).len() + j] == e);
        }
    } else {
        let j = choose|j: int| 0 <= j < last.chain(target).len() && last.chain(target)[j] == e;
        assert((last.chain(target) + rest)[j] == e);
    }
}

/// What a backward pass visits below a node, it visits from an operand
/// that carries the target.
pub proof fn lemma_chain_below_from<T, R>(t: Tree<T, R>, target: usize, k: nat, e: Tree<T, R>) -> (i:
    int)
    requires
        k <= t.kids.len(),
        t.chain_below(target, k).contains(e),
    ensures
        0 <= i < k,
        t.kids[i].carries(target),
        t.kids[i].chain(target).contains(e),
    decreases k,
{
    let last = t.kids[k - 1];
    let rest = t.chain_below(target, (k - 1) as nat);
    let whole = t.chain_below(target, k);
    let j = choose|j: int| 0 <= j < whole.len() && whole[j] == e;
    if last.carries(target) {
        if j < last.chain(target).len() {
            assert(last.chain(target)[j] == e);
            k - 1
        } else {
            assert(rest[j - last.chain(target).len()] == e);
            lemma_chain_below_from(t, target, (k - 1) as nat, e)
        }
    } else {
        lemma_chain_below_from(t, target, (k - 1) as nat, e)
    }
}

/// Putting a subtree on the stack puts what the pass visits from it
/// before the rest.
pub proof fn lemma_stack_push<T, R>(stack: Seq<Tree<T, R>>, top: Tree<T, R>, target: usize)
    ensures
        chain_all(stack.push(top), target) == top.chain(target) + chain_all(stack, target),
        hits_all(stack.push(top), target) == top.hits(target) + hits_all(stack, target),
{
    assert(stack.push(top).drop_last() =~= stack);
}

/// The occurrences met from one subtree of the stack are met from the
/// stack.
pub proof fn lemma_hits_all_covers<T, R>(stack: Seq<Tree<T, R>>, target: usize, j: int)
    requires
        0 <= j < stack.len(),
    ensures
        hits_all(stack, target).len() >= stack[j].hits(target).len(),
    decreases stack.len(),
{
    if j < stack.len() - 1 {
        lemma_hits_all_covers(stack.drop_last(), target, j);
    }
}

/// The direct occurrences among the first operands are among those of
/// more operands.
pub proof fn lemma_direct_grows<T, R>(t: Tree<T, R>, target: usize, i: nat, k: nat)
    requires
        i <= k <= t.kids.len(),
    ensures
        t.hits_direct(target, i).len() <= t.hits_direct(target, k).len(),
    decreases k,
{
    if i < k {
        lemma_direct_grows(t, target, i, (k - 1) as nat);
    }
}

/// The occurrences below the first operands are among those below more
/// operands.
pub proof fn lemma_below_grows<T, R>(t: Tree<T, R>, target: usize, i: nat, k: nat)
    requires
        i <= k <= t.kids.len(),
    ensures
        t.hits_below(target, i).len() <= t.hits_below(target, k).len(),
    decreases k,
{
    if i < k {
        lemma_below_grows(t, target, i, (k - 1) as nat);
    }
}

/// Where the kept entries among the first `i` of `xs` are the first `j`
/// of all kept entries, the next kept entry stands at a later place of
/// `xs`, with none kept between.
pub proof fn lemma_next_kept<A>(xs: Seq<A>, pred: spec_fn(A) -> bool, i: int, j: int) -> (found:
    int)
    requires
        0 <= i <= xs.len(),
        0 <= j < xs.filter(pred).len(),
        xs.take(i).filter(pred) == xs.filter(pred).take(j),
    ensures
        i < found <= xs.len(),
        xs[found - 1] == xs.filter(pred)[j],
        pred(xs[found - 1]),
        forall|q: int| i <= q < found - 1 ==> !pred(#[trigger] xs[q]),
        xs.take(found - 1).filter(pred) == xs.filter(pred).take(j),
        xs.take(found).filter(pred) == xs.filter(pred).take(j + 1),
    decreases xs.len() - i,
{
    let all = xs.filter(pred);
    if i == xs.len() {
        assert(xs.take(i) =~= xs);
        assert(all.take(j).len() == j);
    }
    let grown = xs.take(i + 1);
    assert(grown.drop_last() =~= xs.take(i));
    assert(grown.last() == xs[i]);
    reveal(Seq::filter);
    if pred(xs[i]) {
        assert(grown.filter(pred) == xs.take(i).filter(pred).push(xs[i]));
        Seq::filter_distributes_over_add(grown, xs.skip(i + 1), pred);
        assert(grown + xs.skip(i + 1) =~= xs);
        assert(grown.filter(pred) =~= all.take(j + 1));
        assert(grown.filter(pred)[j] == xs[i]);
        i + 1
    } else {
        assert(grown.filter(pred) == xs.take(i).filter(pred));
        lemma_next_kept(xs, pred, i + 1, j)
    }
}

/// Where the kept entries among the first `i` of `xs` are all kept
/// entries, none of the others is kept.
pub proof fn lemma_rest_irrelevant<A>(xs: Seq<A>, pred: spec_fn(A) -> bool, i: int)
    requires
        0 <= i <= xs.len(),
        xs.take(i).filter(pred) == xs.filter(pred),
    ensures
        forall|q: int| i <= q < xs.len() ==> !pred(#[trigger] xs[q]),
{
    assert forall|q: int| i <= q < xs.len() implies !pred(#[trigger] xs[q]) by {
        if pred(xs[q]) {
            let head = xs.take(q);
            let one = seq![xs[q]];
            let tail = xs.skip(q + 1);
            Seq::filter_distributes_over_add(head + one, tail, pred);
            Seq::filter_distributes_over_add(head, one, pred);
            Seq::filter_distributes_over_add(xs.take(i), xs.take(q).skip(i), pred);
            assert(xs.take(i) + xs.take(q).skip(i) =~= head);
            assert(head + one + tail =~= xs);
            reveal_with_fuel(Seq::filter, 2);
            assert(one.drop_last() =~= Seq::empty());
            assert(one.filter(pred) =~= one);
            assert(xs.filter(pred).len() >= xs.take(i).filter(pred).len() + 1);
        }
    }
}

/// Operands that are irrelevant to the target add nothing to what a pass
/// visits or meets.
pub proof fn lemma_skip_irrelevant<T, R>(s: Tree<T, R>, target: usize, i: nat, k: nat)
    requires
        i <= k <= s.kids.len(),
        forall|q: int| i <= q < k ==> !(#[trigger] s.kids[q]).relevant(target),
    ensures
        s.hits_direct(target, k) == s.hits_direct(target, i),
        s.hits_below(target, k) == s.hits_below(target, i),
        s.chain_below(target, k) == s.chain_below(target, i),
    decreases k,
{
    if i < k {
        assert(!s.kids[k - 1].relevant(target));
        lemma_skip_irrelevant(s, target, i, (k - 1) as nat);
    }
}

/// No operand of a well-formed node is relevant to a target that the
/// node does not carry.
pub proof fn lemma_kid_relevant<T, R: VecJacProduct<T>>(
    t: Tree<T, R>,
    nvars: nat,
    target: usize,
    i: int,
)
    requires
        t.sound(nvars),
        0 <= i < t.kids.len(),
        t.kids[i].relevant(target),
    ensures
        t.progs.contains(target),
{
    lemma_node(t, nvars);
    assert(upstream(t.kids).contains(target));
}

/// Every occurrence of the target gets one contribution.
pub proof fn lemma_flow_len<T, R: VecJacProduct<T>>(t: Tree<T, R>, target: usize, g: T)
    ensures
        t.flow(target, g).len() == t.hits(target).len(),
    decreases t, t.kids.len() + 1,
{
    lemma_flow_direct_len(t, target, g, t.kids.len());
    lemma_flow_below_len(t, target, g, t.kids.len());
}

/// Every direct occurrence of the target gets one contribution.
pub proof fn lemma_flow_direct_len<T, R: VecJacProduct<T>>(
    t: Tree<T, R>,
    target: usize,
    g: T,
    k: nat,
)
    ensures
        t.flow_direct(target, g, k).len() == t.hits_direct(target, k).len(),
    decreases k,
{
    if 0 < k <= t.kids.len() {
        lemma_flow_direct_len(t, target, g, (k - 1) as nat);
    }
}

/// Every occurrence of the target below the operands gets one
/// contribution.
pub proof fn lemma_flow_below_len<T, R: VecJacProduct<T>>(
    t: Tree<T, R>,
    target: usize,
    g: T,
    k: nat,
)
    ensures
        t.flow_below(target, g, k).len() == t.hits_below(target, k).len(),
    decreases t, k,
{
    if 0 < k <= t.kids.len() {
        lemma_flow_below_len(t, target, g, (k - 1) as nat);
        if t.kids[k - 1].carries(target) {
            lemma_flow_len(t.kids[k - 1], target, t.pull(g, k - 1));
        }
    }
}

/// The occurrences of a variable met from a well-formed tree are leaves
/// with the variable's index.
pub proof fn lemma_hits_are_leaves<T, R: VecJacProduct<T>>(
    t: Tree<T, R>,
    nvars: nat,
    target: usize,
    j: int,
)
    requires
        t.sound(nvars),
        0 <= j < t.hits(target).len(),
    ensures
        t.hits(target)[j].id == target,
        t.hits(target)[j].sound(nvars),
    decreases t, t.kids.len() + 1,
{
    let direct = t.hits_direct(target, t.kids.len());
    if j < direct.len() {
        lemma_hits_direct_are_leaves(t, nvars, target, t.kids.len(), j);
    } else {
        lemma_hits_below_are_leaves(t, nvars, target, t.kids.len(), j - direct.len());
    }
}

/// The direct occurrences of a variable are leaves with its index.
pub proof fn lemma_hits_direct_are_leaves<T, R: VecJacProduct<T>>(
    t: Tree<T, R>,
    nvars: nat,
    target: usize,
    k: nat,
    j: int,
)
    requires
        t.sound(nvars),
        k <= t.kids.len(),
        0 <= j < t.hits_direct(target, k).len(),
    ensures
        t.hits_direct(target, k)[j].id == target,
        t.hits_direct(target, k)[j].sound(nvars),
    decreases k,
{
    let before = t.hits_direct(target, (k - 1) as nat);
    lemma_kid(t, nvars, k - 1);
    if j < before.len() {
        lemma_hits_direct_are_leaves(t, nvars, target, (k - 1) as nat, j);
    }
}

/// The occurrences of a variable below the operands are leaves with its
/// index.
pub proof fn lemma_hits_below_are_leaves<T, R: VecJacProduct<T>>(
    t: Tree<T, R>,
    nvars: nat,
    target: usize,
    k: nat,
    j: int,
)
    requires
        t.sound(nvars),
        k <= t.kids.len(),
        0 <= j < t.hits_below(target, k).len(),
    ensures
        t.hits_below(target, k)[j].id == target,
        t.hits_below(target, k)[j].sound(nvars),
    decreases t, k,
{
    let kid = t.kids[k - 1];
    lemma_kid(t, nvars, k - 1);
    if kid.carries(target) {
        if j < kid.hits(target).len() {
            lemma_hits_are_leaves(kid, nvars, target, j);
        } else {
            lemma_hits_below_are_leaves(
                t,
                nvars,
                target,
                (k - 1) as nat,
                j - kid.hits(target).len(),
            );
        }
    } else {
        lemma_hits_below_are_leaves(t, nvars, target, (k - 1) as nat, j);
    }
}

/// Putting the operands that carry the target on the stack puts what the
/// pass visits below the node before the rest.
pub proof fn lemma_carriers_chain<T, R: VecJacProduct<T>>(
    stack: Seq<Tree<T, R>>,
    s: Tree<T, R>,
    target: usize,
    k: nat,
)
    requires
        k <= s.kids.len(),
    ensures
        chain_all(stack + s.carriers(target, k), target) == s.chain_below(target, k) + chain_all(
            stack,
            target,
        ),
    decreases k,
{
    if k == 0 {
        assert(stack + s.carriers(target, k) =~= stack);
        assert(s.chain_below(target, k) + chain_all(stack, target) =~= chain_all(stack, target));
    } else {
        lemma_carriers_chain(stack, s, target, (k - 1) as nat);
        let kid = s.kids[k - 1];
        let before = stack + s.carriers(target, (k - 1) as nat);
        if kid.carries(target) {
            assert(stack + s.carriers(target, k) =~= before.push(kid));
            lemma_stack_push(before, kid, target);
            assert(kid.chain(target) + (s.chain_below(target, (k - 1) as nat) + chain_all(
                stack,
                target,
            )) =~= s.chain_below(target, k) + chain_all(stack, target));
        }
    }
}

/// Putting the operands that carry the target on the stack, each with
/// what it is handed, puts what flows below the node before the rest.
pub proof fn lemma_carriers_flow<T, R: VecJacProduct<T>>(
    stack: Seq<Tree<T, R>>,
    grads: Seq<T>,
    s: Tree<T, R>,
    target: usize,
    g: T,
    k: nat,
)
    requires
        k <= s.kids.len(),
        stack.len() == grads.len(),
    ensures
        s.carriers(target, k).len() == s.carried(target, g, k).len(),
        flow_all(stack + s.carriers(target, k), grads + s.carried(target, g, k), target)
            == s.flow_below(target, g, k) + flow_all(stack, grads, target),
    decreases k,
{
    if k == 0 {
        assert(stack + s.carriers(target, k) =~= stack);
        assert(grads + s.carried(target, g, k) =~= grads);
        assert(s.flow_below(target, g, k) + flow_all(stack, grads, target) =~= flow_all(
            stack,
            grads,
            target,
        ));
    } else {
        lemma_carriers_flow(stack, grads, s, target, g, (k - 1) as nat);
        let kid = s.kids[k - 1];
        let ts = stack + s.carriers(target, (k - 1) as nat);
        let gs = grads + s.carried(target, g, (k - 1) as nat);
        if kid.carries(target) {
            let ts2 = stack + s.carriers(target, k);
            let gs2 = grads + s.carried(target, g, k);
            assert(ts2 =~= ts.push(kid));
            assert(gs2 =~= gs.push(s.pull(g, k - 1)));
            assert(ts2.drop_last() =~= ts);
            assert(gs2.drop_last() =~= gs);
            assert(kid.flow(target, s.pull(g, k - 1)) + (s.flow_below(
                target,
                g,
                (k - 1) as nat,
            ) + flow_all(stack, grads, target)) =~= s.flow_below(target, g, k) + flow_all(
                stack,
                grads,
                target,
            ));
        }
    }
}

/// No operand of a well-formed node has an id above the variables that
/// lies outside the range minted for the operands.
pub proof fn lemma_no_kid_outside<T, R: VecJacProduct<T>>(
    s: Tree<T, R>,
    nvars: nat,
    m: usize,
    g: T,
    k: nat,
)
    requires
        s.sound(nvars),
        k <= s.kids.len(),
        nvars <= m,
        m < s.base(nvars) || m >= s.base(nvars) + s.span_upto(nvars, k),
    ensures
        s.flow_direct(m, g, k) == Seq::<T>::empty(),
    decreases k,
{
    if k > 0 {
        let kid = s.kids[k - 1];
        lemma_kid(s, nvars, k - 1);
        lemma_node(kid, nvars);
        lemma_no_kid_outside(s, nvars, m, g, (k - 1) as nat);
    }
}

/// No operand of a well-formed node has an id minted below another
/// operand.
pub proof fn lemma_no_kid_within<T, R: VecJacProduct<T>>(
    s: Tree<T, R>,
    nvars: nat,
    m: usize,
    g: T,
    q: int,
    k: nat,
)
    requires
        s.sound(nvars),
        0 <= q < k <= s.kids.len(),
        !s.kids[q].is_variable(nvars),
        s.kids[q].base(nvars) <= m < s.kids[q].id,
    ensures
        s.flow_direct(m, g, k) == Seq::<T>::empty(),
    decreases k,
{
    let kid = s.kids[k - 1];
    lemma_kid(s, nvars, k - 1);
    lemma_kid(s, nvars, q);
    lemma_node(kid, nvars);
    lemma_node(s.kids[q], nvars);
    if k - 1 == q {
        lemma_no_kid_outside(s, nvars, m, g, (k - 1) as nat);
    } else {
        lemma_span_upto_grows(s, nvars, (q + 1) as nat, (k - 1) as nat);
        lemma_no_kid_within(s, nvars, m, g, q, (k - 1) as nat);
    }
}

/// What holds of the operands that carry the target and of what they are
/// handed: each is a node of its own below the node, later ones have
/// higher ids, and each is the only operand with its id.
pub proof fn lemma_carriers<T, R: VecJacProduct<T>>(
    s: Tree<T, R>,
    nvars: nat,
    target: usize,
    g: T,
    k: nat,
)
    requires
        s.sound(nvars),
        target < nvars,
        k <= s.kids.len(),
    ensures
        s.carriers(target, k).len() == s.carried(target, g, k).len(),
        forall|j: int|
            0 <= j < s.carriers(target, k).len() ==> {
                let u = #[trigger] s.carriers(target, k)[j];
                &&& follows(u, s, nvars, target)
                &&& u.id != target
                &&& u.id < s.base(nvars) + s.span_upto(nvars, k)
                &&& s.flow_direct(u.id, g, k) == seq![s.carried(target, g, k)[j]]
            },
        forall|i: int, j: int|
            #![trigger s.carriers(target, k)[i], s.carriers(target, k)[j]]
            0 <= i < j < s.carriers(target, k).len() ==> s.carriers(target, k)[i].id
                < s.carriers(target, k)[j].base(nvars),
    decreases k,
{
    if k > 0 {
        let kid = s.kids[k - 1];
        let before = s.carriers(target, (k - 1) as nat);
        let cs = s.carriers(target, k);
        let gs = s.carried(target, g, k);
        lemma_carriers(s, nvars, target, g, (k - 1) as nat);
        lemma_kid(s, nvars, k - 1);
        lemma_node(s, nvars);
        lemma_node(kid, nvars);
        if kid.id < nvars {
            lemma_variable_id(kid, nvars);
        }
        if kid.relevant(target) {
            lemma_kid_relevant(s, nvars, target, k - 1);
            if s.id == target {
                lemma_variable_id(s, nvars);
            }
        }
        assert forall|j: int| 0 <= j < cs.len() implies {
            let u = #[trigger] cs[j];
            &&& follows(u, s, nvars, target)
            &&& u.id != target
            &&& u.id < s.base(nvars) + s.span_upto(nvars, k)
            &&& s.flow_direct(u.id, g, k) == seq![gs[j]]
        } by {
            if j < before.len() {
                let u = before[j];
                assert(cs[j] == u);
                assert(s.flow_direct(u.id, g, (k - 1) as nat) == seq![
                    s.carried(target, g, (k - 1) as nat)[j],
                ]);
                assert(kid.id != u.id);
            } else {
                assert(cs[j] == kid);
                lemma_no_kid_outside(s, nvars, kid.id, g, (k - 1) as nat);
                assert(s.flow_direct(kid.id, g, k) =~= seq![s.pull(g, k - 1)]);
            }
        }
        assert forall|i: int, j: int|
            #![trigger cs[i], cs[j]]
            0 <= i < j < cs.len() implies cs[i].id < cs[j].base(nvars) by {
            if j < before.len() {
                assert(cs[i] == before[i] && cs[j] == before[j]);
            } else {
                assert(cs[i] == before[i]);
            }
        }
    }
}

} // verus!
