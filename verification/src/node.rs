//! The record that evaluating an expression leaves behind.
use vstd::prelude::*;
use crate::context::Context;
use crate::model::{upstream, Tree};
use crate::rule::VecJacProduct;
use crate::utils::push_unique;

verus! {

/// One evaluated node: its id, its value, the evaluated operands, the ids
/// upstream of it and its backward rule.
///
/// Two occurrences of one variable are two nodes with one id, so the
/// backward pass goes by ids.
pub struct Node<T, R> {
    index: usize,
    value: T,
    parents: Vec<Node<T, R>>,
    progenitors: Vec<usize>,
    rule: Option<R>,
}

/// The models of a list of nodes, in order.
pub open spec fn trees<T, R>(nodes: Seq<Node<T, R>>) -> Seq<Tree<T, R>> {
    Seq::new(nodes.len(), |i: int| nodes[i]@)
}

impl<T, R> Node<T, R> {
    /// The tree that this node stands for.
    pub closed spec fn view(&self) -> Tree<T, R>
        decreases self,
    {
        Tree {
            id: self.index,
            value: self.value,
            kids: Seq::new(
                self.parents.len() as nat,
                |i: int|
                    if 0 <= i < self.parents.len() {
                        self.parents[i].view()
                    } else {
                        arbitrary()
                    },
            ),
            progs: self.progenitors@.to_set(),
            rule: self.rule,
        }
    }

    /// The recorded upstream ids, in the order they are stored.
    pub closed spec fn progenitor_list(&self) -> Seq<usize> {
        self.progenitors@
    }

    /// Whether this node and every node below it records each upstream
    /// id once.
    pub closed spec fn tidy(&self) -> bool
        decreases self,
    {
        &&& self.progenitors@.no_duplicates()
        &&& forall|i: int| 0 <= i < self.parents.len() ==> (#[trigger] self.parents[i]).tidy()
    }

    /// Builds a leaf that stands for a value of its own: it has the given
    /// id, no operands, nothing upstream, and hands gradients on
    /// unchanged.
    pub fn leaf(index: usize, value: T) -> (n: Node<T, R>)
        ensures
            n@ == (Tree::<T, R> {
                id: index,
                value: value,
                kids: Seq::empty(),
                progs: Set::empty(),
                rule: None,
            }),
            n.progenitor_list() == Seq::<usize>::empty(),
            n.tidy(),
    {
        let n = Node {
            index,
            value,
            parents: Vec::new(),
            progenitors: Vec::new(),
            rule: None,
        };
        assert(n@.kids =~= Seq::empty());
        assert(n@.progs =~= Set::empty());
        n
    }

    /// Builds a node under the next id of the context.
    pub fn new(
        c: &mut Context<T>,
        value: T,
        parents: Vec<Node<T, R>>,
        progenitors: Vec<usize>,
        vjp: R,
    ) -> (n: Node<T, R>)
        requires
            old(c).next_id() < usize::MAX,
        ensures
            final(c).values() == old(c).values(),
            final(c).minted() == old(c).minted() + 1,
            n@ == (Tree::<T, R> {
                id: old(c).next_id() as usize,
                value: value,
                kids: trees(parents@),
                progs: progenitors@.to_set(),
                rule: Some(vjp),
            }),
            n.progenitor_list() == progenitors@,
            n.tidy() <==> progenitors@.no_duplicates() && forall|i: int|
                0 <= i < parents.len() ==> (#[trigger] parents[i]).tidy(),
    {
        let index = c.get_index();
        let n = Node { index, value, parents, progenitors, rule: Some(vjp) };
        assert(n@.kids =~= trees(parents@));
        n
    }

    /// The ids upstream of a node with the given operands: the ids of the
    /// operands, then what each operand records as upstream of itself,
    /// every id once.
    pub fn get_progenitors(parents: &Vec<Node<T, R>>) -> (progenitors: Vec<usize>)
        ensures
            progenitors@.no_duplicates(),
            progenitors@.to_set() == upstream(trees(parents@)),
    {
        let mut progenitors: Vec<usize> = Vec::new();
        let n = parents.len();
        let mut i: usize = 0;
        while i < n
            invariant
                n == parents.len(),
                i <= n,
                progenitors@.no_duplicates(),
                forall|x: usize|
                    progenitors@.contains(x) <==> exists|k: int|
                        0 <= k < i && (#[trigger] parents@[k])@.id == x,
            decreases n - i,
        {
            let ghost before = progenitors@;
            push_unique(&mut progenitors, parents[i].index);
            proof {
                assert forall|x: usize|
                    progenitors@.contains(x) <==> exists|k: int|
                        0 <= k < i + 1 && (#[trigger] parents@[k])@.id == x by {
                    assert(progenitors@.to_set().contains(x) <==> before.to_set().insert(
                        parents@[i as int]@.id,
                    ).contains(x));
                    if before.contains(x) {
                        let k = choose|k: int| 0 <= k < i && (#[trigger] parents@[k])@.id == x;
                        assert(0 <= k < i + 1 && parents@[k]@.id == x);
                    }
                    if x == parents@[i as int]@.id {
                        assert(0 <= i < i + 1 && parents@[i as int]@.id == x);
                    }
                }
            }
            i += 1;
        }
        let mut i: usize = 0;
        while i < n
            invariant
                n == parents.len(),
                i <= n,
                progenitors@.no_duplicates(),
                forall|x: usize|
                    progenitors@.contains(x) <==> ((exists|k: int|
                        0 <= k < n && (#[trigger] parents@[k])@.id == x) || (exists|k: int|
                        0 <= k < i && (#[trigger] parents@[k])@.progs.contains(x))),
            decreases n - i,
        {
            let parent = &parents[i];
            let m = parent.progenitors.len();
            let mut j: usize = 0;
            while j < m
                invariant
                    n == parents.len(),
                    i < n,
                    parent == &parents@[i as int],
                    m == parent.progenitors.len(),
                    j <= m,
                    progenitors@.no_duplicates(),
                    forall|x: usize|
                        progenitors@.contains(x) <==> ((exists|k: int|
                            0 <= k < n && (#[trigger] parents@[k])@.id == x) || (exists|k: int|
                            0 <= k < i && (#[trigger] parents@[k])@.progs.contains(x)) || (
                        exists|l: int| 0 <= l < j && #[trigger] parent.progenitors@[l] == x)),
                decreases m - j,
            {
                let ghost before = progenitors@;
                push_unique(&mut progenitors, parent.progenitors[j]);
                proof {
                    let added = parent.progenitors@[j as int];
                    assert forall|x: usize|
                        progenitors@.contains(x) <==> ((exists|k: int|
                            0 <= k < n && (#[trigger] parents@[k])@.id == x) || (exists|k: int|
                            0 <= k < i && (#[trigger] parents@[k])@.progs.contains(x)) || (
                        exists|l: int|
                            0 <= l < j + 1 && #[trigger] parent.progenitors@[l] == x)) by {
                        assert(progenitors@.to_set().contains(x) <==> before.to_set().insert(
                            added,
                        ).contains(x));
                        if exists|l: int| 0 <= l < j + 1 && #[trigger] parent.progenitors@[l] == x {
                            let l = choose|l: int|
                                0 <= l < j + 1 && #[trigger] parent.progenitors@[l] == x;
                            if l < j {
                                assert(0 <= l < j && parent.progenitors@[l] == x);
                            }
                        }
                        if x == added {
                            assert(0 <= j < j + 1 && parent.progenitors@[j as int] == x);
                        }
                    }
                }
                j += 1;
            }
            proof {
                assert forall|x: usize|
                    progenitors@.contains(x) <==> ((exists|k: int|
                        0 <= k < n && (#[trigger] parents@[k])@.id == x) || (exists|k: int|
                        0 <= k < i + 1 && (#[trigger] parents@[k])@.progs.contains(x))) by {
                    if exists|l: int| 0 <= l < m && #[trigger] parent.progenitors@[l] == x {
                        assert(parent.progenitors@.contains(x));
                        assert(parents@[i as int]@.progs.contains(x));
                    }
                    if exists|k: int|
                        0 <= k < i + 1 && (#[trigger] parents@[k])@.progs.contains(x) {
                        let k = choose|k: int|
                            0 <= k < i + 1 && (#[trigger] parents@[k])@.progs.contains(x);
                        if k == i {
                            assert(parent.progenitors@.contains(x));
                            let l = choose|l: int|
                                0 <= l < m && parent.progenitors@[l] == x;
                            assert(0 <= l < m && parent.progenitors@[l] == x);
                        }
                    }
                }
            }
            i += 1;
        }
        proof {
            let ts = trees(parents@);
            assert forall|x: usize| progenitors@.to_set().contains(x) <==> upstream(ts).contains(
                x,
            ) by {
                if progenitors@.contains(x) {
                    if exists|k: int| 0 <= k < n && (#[trigger] parents@[k])@.id == x {
                        let k = choose|k: int| 0 <= k < n && (#[trigger] parents@[k])@.id == x;
                        assert(ts[k].relevant(x));
                    } else {
                        let k = choose|k: int|
                            0 <= k < n && (#[trigger] parents@[k])@.progs.contains(x);
                        assert(ts[k].relevant(x));
                    }
                }
                if upstream(ts).contains(x) {
                    let k = choose|k: int| 0 <= k < ts.len() && #[trigger] ts[k].relevant(x);
                    assert(ts[k] == parents@[k]@);
                    if parents@[k]@.id == x {
                        assert(0 <= k < n && parents@[k]@.id == x);
                    } else {
                        assert(0 <= k < n && parents@[k]@.progs.contains(x));
                    }
                }
            }
            assert(progenitors@.to_set() =~= upstream(ts));
        }
        progenitors
    }

    /// The id of the node.
    pub fn index(&self) -> (i: usize)
        ensures
            i == self@.id,
    {
        self.index
    }

    /// The value computed in the forward pass.
    pub fn value(&self) -> (v: &T)
        ensures
            *v == self@.value,
    {
        &self.value
    }

    /// The evaluated operands, in argument order.
    pub fn parents(&self) -> (ps: &Vec<Node<T, R>>)
        ensures
            trees(ps@) == self@.kids,
            self.tidy() ==> forall|i: int| 0 <= i < ps.len() ==> (#[trigger] ps[i]).tidy(),
    {
        assert(trees(self.parents@) =~= self@.kids);
        &self.parents
    }

    /// The recorded upstream ids.
    pub fn progenitors(&self) -> (ps: &Vec<usize>)
        ensures
            ps@ == self.progenitor_list(),
            ps@.to_set() == self@.progs,
            self.tidy() ==> ps@.no_duplicates(),
    {
        &self.progenitors
    }
}

impl<T, R: VecJacProduct<T>> Node<T, R> {
    /// Applies the backward rule of this node: what flows into `parent`,
    /// taken as the operand at `argnum`, when `g` flows into the node.
    pub fn vjp(&self, g: T, parent: &Node<T, R>, argnum: usize) -> (r: T)
        requires
            self@.pull_req(g, parent@.value, argnum),
        ensures
            r == self@.pull_with(g, parent@.value, argnum),
    {
        match &self.rule {
            None => g,
            Some(rule) => rule.vjp(g, &self.value, &parent.value, argnum),
        }
    }
}

} // verus!
