//! The mathematical model of an evaluated expression.
//!
//! Evaluation yields a tree in which every occurrence of a variable is a
//! leaf of its own, all of them carrying the variable's index. Everything
//! the engine promises is stated over this tree.
use vstd::prelude::*;
use crate::rule::VecJacProduct;
use std::ops::Add;
use vstd::std_specs::ops::AddSpec;

verus! {

/// One evaluated node with the subtrees of its operands.
pub struct Tree<T, R> {
    /// The variable's index for a variable leaf, else an id of this pass.
    pub id: usize,
    /// The value computed in the forward pass.
    pub value: T,
    /// The operands, in argument order.
    pub kids: Seq<Tree<T, R>>,
    /// The ids recorded as upstream of this node.
    pub progs: Set<usize>,
    /// The backward rule; `None` hands the gradient on unchanged.
    pub rule: Option<R>,
}

/// The ids of the given operands together with everything recorded as
/// upstream of them.
pub open spec fn upstream<T, R>(kids: Seq<Tree<T, R>>) -> Set<usize> {
    Set::new(|x: usize| exists|i: int| 0 <= i < kids.len() && #[trigger] kids[i].relevant(x))
}

impl<T, R: VecJacProduct<T>> Tree<T, R> {
    /// The gradient handed to operand `i` when `g` flows into this node.
    pub open spec fn pull(self, g: T, i: int) -> T {
        self.pull_with(g, self.kids[i].value, i as usize)
    }

    /// The gradient handed to an operand of value `operand` at position
    /// `argnum` when `g` flows into this node.
    pub open spec fn pull_with(self, g: T, operand: T, argnum: usize) -> T {
        match self.rule {
            None => g,
            Some(r) => r.vjp_spec(g, self.value, operand, argnum),
        }
    }

    /// Whether the backward rule accepts these arguments.
    pub open spec fn pull_req(self, g: T, operand: T, argnum: usize) -> bool {
        match self.rule {
            None => true,
            Some(r) => r.vjp_req(g, self.value, operand, argnum),
        }
    }

    /// Whether the backward rule accepts every gradient at every operand.
    pub open spec fn rule_total(self) -> bool {
        forall|g: T, i: int|
            0 <= i < self.kids.len() ==> #[trigger] self.pull_req(
                g,
                self.kids[i].value,
                i as usize,
            )
    }
}

impl<T, R> Tree<T, R> {
    /// Whether this node is `target` or has it upstream.
    pub open spec fn relevant(self, target: usize) -> bool {
        self.id == target || self.progs.contains(target)
    }

    /// Whether this node has `target` upstream without being it.
    pub open spec fn carries(self, target: usize) -> bool {
        self.id != target && self.progs.contains(target)
    }

    /// Whether this node is a leaf that stands for one of `nvars` variables.
    pub open spec fn is_variable(self, nvars: nat) -> bool {
        self.kids.len() == 0 && self.id < nvars
    }

    /// The number of ids minted for this subtree: one for every node that
    /// is not a variable leaf.
    pub open spec fn span(self, nvars: nat) -> nat
        decreases self, self.kids.len() + 1,
    {
        if self.is_variable(nvars) {
            0
        } else {
            1 + self.span_upto(nvars, self.kids.len())
        }
    }

    /// The number of ids minted for the first `k` operands.
    pub open spec fn span_upto(self, nvars: nat, k: nat) -> nat
        decreases self, k,
    {
        if k == 0 || k > self.kids.len() {
            0
        } else {
            self.span_upto(nvars, (k - 1) as nat) + self.kids[k - 1].span(nvars)
        }
    }
}

impl<T, R: VecJacProduct<T>> Tree<T, R> {
    /// Whether the tree is what a forward pass builds over `nvars`
    /// variables when the next free id is `lo`.
    ///
    /// Operands are numbered before the node, each from where the one
    /// before it stopped, so no two minted ids agree; a variable leaf
    /// mints nothing; every node records as upstream exactly the ids of
    /// its operands and what they record.
    #[verifier::opaque]
    pub open spec fn wf(self, nvars: nat, lo: nat) -> bool
        decreases self,
    {
        &&& self.progs == upstream(self.kids)
        &&& self.rule_total()
        &&& if self.is_variable(nvars) {
            true
        } else {
            &&& nvars <= lo
            &&& self.id == lo + self.span(nvars) - 1
            &&& forall|i: int|
                0 <= i < self.kids.len() ==> (#[trigger] self.kids[i]).wf(
                    nvars,
                    lo + self.span_upto(nvars, i as nat),
                )
        }
    }

    /// The first id minted for this subtree, if it mints any.
    pub open spec fn base(self, nvars: nat) -> nat {
        (self.id + 1 - self.span(nvars)) as nat
    }

    /// Whether the tree is what a forward pass over `nvars` variables
    /// builds, whatever the id it started from.
    pub open spec fn sound(self, nvars: nat) -> bool {
        self.wf(nvars, self.base(nvars))
    }
}

impl<T, R> Tree<T, R> {
    /// The nodes a backward pass towards `target` visits below and at this
    /// node, in the order it visits them: the node, then the subtrees of
    /// the operands that carry `target`, the last operand first.
    pub open spec fn chain(self, target: usize) -> Seq<Tree<T, R>>
        decreases self, self.kids.len() + 1,
    {
        seq![self] + self.chain_below(target, self.kids.len())
    }

    /// The part of [`Tree::chain`] that lies in the first `k` operands.
    pub open spec fn chain_below(self, target: usize, k: nat) -> Seq<Tree<T, R>>
        decreases self, k,
    {
        if k == 0 || k > self.kids.len() {
            Seq::empty()
        } else if self.kids[k - 1].carries(target) {
            self.kids[k - 1].chain(target) + self.chain_below(target, (k - 1) as nat)
        } else {
            self.chain_below(target, (k - 1) as nat)
        }
    }

    /// The occurrences of `target` among the operands of the nodes of
    /// [`Tree::chain`], in the order the backward pass meets them.
    pub open spec fn hits(self, target: usize) -> Seq<Tree<T, R>>
        decreases self, self.kids.len() + 1,
    {
        self.hits_direct(target, self.kids.len()) + self.hits_below(target, self.kids.len())
    }

    /// The occurrences of `target` among the first `k` operands.
    pub open spec fn hits_direct(self, target: usize, k: nat) -> Seq<Tree<T, R>>
        decreases k,
    {
        if k == 0 || k > self.kids.len() {
            Seq::empty()
        } else if self.kids[k - 1].id == target {
            self.hits_direct(target, (k - 1) as nat).push(self.kids[k - 1])
        } else {
            self.hits_direct(target, (k - 1) as nat)
        }
    }

    /// The occurrences of `target` below the first `k` operands.
    pub open spec fn hits_below(self, target: usize, k: nat) -> Seq<Tree<T, R>>
        decreases self, k,
    {
        if k == 0 || k > self.kids.len() {
            Seq::empty()
        } else if self.kids[k - 1].carries(target) {
            self.kids[k - 1].hits(target) + self.hits_below(target, (k - 1) as nat)
        } else {
            self.hits_below(target, (k - 1) as nat)
        }
    }

    /// The order in which a backward pass from this node towards `target`
    /// visits nodes: [`Tree::chain`], and then once the occurrence of
    /// `target` that it met last, if it met any.
    pub open spec fn order(self, target: usize) -> Seq<Tree<T, R>> {
        if self.hits(target).len() > 0 {
            self.chain(target).push(self.hits(target).last())
        } else {
            self.chain(target)
        }
    }
}

impl<T, R: VecJacProduct<T>> Tree<T, R> {
    /// What reaches the occurrences of `target` when `g` flows into this
    /// node: one contribution for each entry of [`Tree::hits`], in the same
    /// order, each the product of the rules along its path.
    pub open spec fn flow(self, target: usize, g: T) -> Seq<T>
        decreases self, self.kids.len() + 1,
    {
        self.flow_direct(target, g, self.kids.len()) + self.flow_below(target, g, self.kids.len())
    }

    /// The contributions to occurrences of `target` among the first `k`
    /// operands.
    pub open spec fn flow_direct(self, target: usize, g: T, k: nat) -> Seq<T>
        decreases k,
    {
        if k == 0 || k > self.kids.len() {
            Seq::empty()
        } else if self.kids[k - 1].id == target {
            self.flow_direct(target, g, (k - 1) as nat).push(self.pull(g, k - 1))
        } else {
            self.flow_direct(target, g, (k - 1) as nat)
        }
    }

    /// The contributions to occurrences of `target` below the first `k`
    /// operands.
    pub open spec fn flow_below(self, target: usize, g: T, k: nat) -> Seq<T>
        decreases self, k,
    {
        if k == 0 || k > self.kids.len() {
            Seq::empty()
        } else if self.kids[k - 1].carries(target) {
            self.kids[k - 1].flow(target, self.pull(g, k - 1)) + self.flow_below(
                target,
                g,
                (k - 1) as nat,
            )
        } else {
            self.flow_below(target, g, (k - 1) as nat)
        }
    }
}

/// Whether the ids minted for `a` and for `b` lie in ranges that do not
/// meet.
pub open spec fn apart<T, R: VecJacProduct<T>>(a: Tree<T, R>, b: Tree<T, R>, nvars: nat) -> bool {
    a.id < b.base(nvars) || b.id < a.base(nvars)
}

/// Whether `u` is an operand of `s` that the pass towards `target` goes
/// on to: an occurrence of the target, or a node of its own below `s`.
pub open spec fn follows<T, R: VecJacProduct<T>>(
    u: Tree<T, R>,
    s: Tree<T, R>,
    nvars: nat,
    target: usize,
) -> bool {
    &&& u.sound(nvars)
    &&& u.id == target || (!u.is_variable(nvars) && s.base(nvars) <= u.base(nvars) && u.base(nvars)
        <= u.id && u.id < s.id && s.id != target)
}

/// The nodes that a backward pass still visits when the subtrees in
/// `stack` wait for it, the last of them first.
pub open spec fn chain_all<T, R>(stack: Seq<Tree<T, R>>, target: usize) -> Seq<Tree<T, R>>
    decreases stack.len(),
{
    if stack.len() == 0 {
        Seq::empty()
    } else {
        stack.last().chain(target) + chain_all(stack.drop_last(), target)
    }
}

/// The occurrences of `target` that a backward pass still meets when the
/// subtrees in `stack` wait for it, the last of them first.
pub open spec fn hits_all<T, R>(stack: Seq<Tree<T, R>>, target: usize) -> Seq<Tree<T, R>>
    decreases stack.len(),
{
    if stack.len() == 0 {
        Seq::empty()
    } else {
        stack.last().hits(target) + hits_all(stack.drop_last(), target)
    }
}

/// What a backward pass still visits from `stack`: the nodes of
/// [`chain_all`] and then once the occurrence of `target` met last.
pub open spec fn order_all<T, R>(stack: Seq<Tree<T, R>>, target: usize) -> Seq<Tree<T, R>> {
    if hits_all(stack, target).len() > 0 {
        chain_all(stack, target).push(hits_all(stack, target).last())
    } else {
        chain_all(stack, target)
    }
}

impl<T, R: VecJacProduct<T>> Tree<T, R> {
    /// The operands among the first `k` that carry `target`, in argument
    /// order.
    pub open spec fn carriers(self, target: usize, k: nat) -> Seq<Tree<T, R>>
        decreases k,
    {
        if k == 0 || k > self.kids.len() {
            Seq::empty()
        } else if self.kids[k - 1].carries(target) {
            self.carriers(target, (k - 1) as nat).push(self.kids[k - 1])
        } else {
            self.carriers(target, (k - 1) as nat)
        }
    }

    /// What the entries of [`Tree::carriers`] are handed when `g` flows
    /// into this node.
    pub open spec fn carried(self, target: usize, g: T, k: nat) -> Seq<T>
        decreases k,
    {
        if k == 0 || k > self.kids.len() {
            Seq::empty()
        } else if self.kids[k - 1].carries(target) {
            self.carried(target, g, (k - 1) as nat).push(self.pull(g, k - 1))
        } else {
            self.carried(target, g, (k - 1) as nat)
        }
    }
}

/// What reaches the occurrences of `target` from the subtrees in `stack`
/// when `grads` flow into them, the last subtree first.
pub open spec fn flow_all<T, R: VecJacProduct<T>>(
    stack: Seq<Tree<T, R>>,
    grads: Seq<T>,
    target: usize,
) -> Seq<T>
    decreases stack.len(),
{
    if stack.len() == 0 {
        Seq::empty()
    } else {
        stack.last().flow(target, grads.last()) + flow_all(
            stack.drop_last(),
            grads.drop_last(),
            target,
        )
    }
}

/// The sum of a non-empty sequence, taken from the left.
pub open spec fn total<T: Add<Output = T>>(xs: Seq<T>) -> T
    decreases xs.len(),
{
    if xs.len() <= 1 {
        xs[0]
    } else {
        total(xs.drop_last()).add_spec(xs.last())
    }
}

impl<T: Add<Output = T>, R: VecJacProduct<T>> Tree<T, R> {
    /// The derivative of this node with respect to `target`, scaled by
    /// `seed`: the seed itself where the node is the target, nothing where
    /// the target does not occur upstream, and else the sum of
    /// [`Tree::flow`].
    pub open spec fn gradient(self, target: usize, seed: T) -> Option<T> {
        if self.id == target {
            Some(seed)
        } else if self.flow(target, seed).len() == 0 {
            None
        } else {
            Some(total(self.flow(target, seed)))
        }
    }
}

} // verus!
