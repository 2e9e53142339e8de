//! Persistent finger trees: a purely functional sequence with double-ended
//! access, concatenation and measure-guided splitting, annotated at every
//! branch with a cached value drawn from a caller-supplied monoid.

use vstd::prelude::*;

use crate::monoid::monotone;
use crate::monoid::MeasurePred;
use crate::monoid::Monoid;

verus! {

use vstd::pervasive::unreached;

pub use self::Digit::{Four, One, Three, Two};
pub use self::FingerTree::{Deep, Empty, Single};

/// Maps an element to its measure.
pub trait Measurable<V: Monoid>: Sized {
    /// The element's measure, at the specification level.
    spec fn smeasure(self) -> V;

    /// Computes the element's measure.
    fn measure(&self) -> (r: V)
        ensures
            r == self.smeasure(),
    ;
}

/// A buffer of one to four ordered children; the prefix or suffix of a deep
/// tree. The arity bounds are enforced by construction.
#[derive(Clone, Debug, PartialEq, Eq)]
pub enum Digit<A> {
    One(A),
    Two(A, A),
    Three(A, A, A),
    Four(A, A, A, A),
}

/// A branch of exactly two or three children with its measure cached at
/// construction time, or a single element at the bottom of the tree.
#[derive(Debug, PartialEq, Eq)]
pub enum Node<V, A> {
    Leaf(A),
    Node2 { measure: V, left: Box<Node<V, A>>, right: Box<Node<V, A>> },
    Node3 { measure: V, left: Box<Node<V, A>>, middle: Box<Node<V, A>>, right: Box<Node<V, A>> },
}

/// The recursive spine: empty, a single node, or a deep tree with a cached
/// measure, a prefix digit, an inner tree of one-level-deeper nodes and a
/// suffix digit.
#[derive(Debug, PartialEq, Eq)]
pub enum FingerTree<V, A> {
    Empty,
    Single(Node<V, A>),
    Deep {
        measure: V,
        prefix: Digit<Node<V, A>>,
        tree: Box<FingerTree<V, A>>,
        suffix: Digit<Node<V, A>>,
    },
}

/// The outcome of a front or back decomposition: absent, or the removed
/// element together with the remainder tree.
#[derive(Debug, PartialEq, Eq)]
pub enum TreeView<V, A> {
    Absent,
    Elem(A, Box<FingerTree<V, A>>),
}

/// The elements under an optional digit: none stands for no elements.
pub open spec fn opt_elems<V: Monoid, A: Measurable<V>>(o: Option<Digit<Node<V, A>>>) -> Seq<A> {
    match o {
        Option::None => Seq::empty(),
        Option::Some(dg) => dg.elems(),
    }
}

/// An optional digit is well formed when its nodes are.
pub open spec fn opt_wf<V: Monoid, A: Measurable<V>>(
    o: Option<Digit<Node<V, A>>>,
    d: nat,
) -> bool {
    match o {
        Option::None => true,
        Option::Some(dg) => dg.wf(d),
    }
}

/// The left-to-right monoidal combination of the measures of a sequence of
/// elements; the identity on the empty sequence.
pub open spec fn mval<V: Monoid, A: Measurable<V>>(s: Seq<A>) -> V
    decreases s.len(),
{
    if s.len() == 0 {
        V::sid()
    } else {
        s[0].smeasure().sop(mval::<V, A>(s.drop_first()))
    }
}

/// The elements stored under a sequence of nodes, in order.
pub open spec fn flat<V: Monoid, A: Measurable<V>>(s: Seq<Node<V, A>>) -> Seq<A>
    decreases s.len(),
{
    if s.len() == 0 {
        Seq::empty()
    } else {
        s[0].elems() + flat::<V, A>(s.drop_first())
    }
}

impl<A> Digit<A> {
    /// The children, left to right.
    pub open spec fn children(self) -> Seq<A> {
        match self {
            Digit::One(a) => seq![a],
            Digit::Two(a, b) => seq![a, b],
            Digit::Three(a, b, c) => seq![a, b, c],
            Digit::Four(a, b, c, d) => seq![a, b, c, d],
        }
    }

    /// What `fold_map` computes: the left-to-right combination of `g` over
    /// the children.
    pub open spec fn fold_map_spec<M: Monoid>(self, g: spec_fn(A) -> M) -> M {
        match self {
            Digit::One(a) => g(a),
            Digit::Two(a, b) => g(a).sop(g(b)),
            Digit::Three(a, b, c) => g(a).sop(g(b)).sop(g(c)),
            Digit::Four(a, b, c, d) => g(a).sop(g(b)).sop(g(c)).sop(g(d)),
        }
    }

    /// Moves the children onto the end of a vector, in order.
    fn push_children(self, out: &mut Vec<A>)
        ensures
            final(out)@ == old(out)@ + self.children(),
    {
        let ghost start = out@;
        match self {
            Digit::One(a) => {
                out.push(a);
            },
            Digit::Two(a, b) => {
                out.push(a);
                out.push(b);
            },
            Digit::Three(a, b, c) => {
                out.push(a);
                out.push(b);
                out.push(c);
            },
            Digit::Four(a, b, c, d) => {
                out.push(a);
                out.push(b);
                out.push(c);
                out.push(d);
            },
        }
        proof {
            assert(out@ =~= start + self.children());
        }
    }

    /// Applies `f` to every child left to right and reduces the results with
    /// the monoid's combine, preserving order; `g` names the value that `f`
    /// computes.
    fn fold_map<M: Monoid, F: Fn(&A) -> M>(&self, f: F, Ghost(g): Ghost<spec_fn(A) -> M>) -> (r: M)
        requires
            forall|x: &A| #[trigger] f.requires((x,)),
            forall|x: &A, y: M| #[trigger] f.ensures((x,), y) ==> y == g(*x),
        ensures
            r == self.fold_map_spec(g),
    {
        match self {
            Digit::One(a) => f(a),
            Digit::Two(a, b) => f(a).combine(f(b)),
            Digit::Three(a, b, c) => f(a).combine(f(b)).combine(f(c)),
            Digit::Four(a, b, c, d) => f(a).combine(f(b)).combine(f(c)).combine(f(d)),
        }
    }
}

impl<V: Monoid, A: Measurable<V>> Measurable<V> for Digit<A> {
    /// The left-to-right combination of the children's measures.
    open spec fn smeasure(self) -> V {
        match self {
            Digit::One(a) => a.smeasure(),
            Digit::Two(a, b) => a.smeasure().sop(b.smeasure()),
            Digit::Three(a, b, c) => a.smeasure().sop(b.smeasure()).sop(c.smeasure()),
            Digit::Four(a, b, c, d) => a.smeasure().sop(b.smeasure()).sop(c.smeasure()).sop(
                d.smeasure(),
            ),
        }
    }

    fn measure(&self) -> (r: V) {
        let r = self.fold_map(
            (|a: &A| -> (m: V) ensures m == a.smeasure() { a.measure() }),
            Ghost(|a: A| a.smeasure()),
        );
        proof {
            let g = |a: A| a.smeasure();
            assert(self.fold_map_spec(g) == self.smeasure());
        }
        r
    }
}

impl<V: Monoid, A: Measurable<V>> Node<V, A> {
    /// The elements stored under this node, left to right.
    pub open spec fn elems(self) -> Seq<A>
        decreases self,
    {
        match self {
            Node::Leaf(a) => seq![a],
            Node::Node2 { left, right, .. } => left.elems() + right.elems(),
            Node::Node3 { left, middle, right, .. } => left.elems() + middle.elems()
                + right.elems(),
        }
    }

    /// Well-formed at depth `d`: leaves sit at depth zero, a branch at depth
    /// `d` holds children at depth `d - 1`, and every cached measure is the
    /// combination of the measures of the elements below it.
    pub open spec fn wf(self, d: nat) -> bool
        decreases self,
    {
        match self {
            Node::Leaf(_) => d == 0,
            Node::Node2 { measure, left, right } => d > 0 && left.wf((d - 1) as nat) && right.wf(
                (d - 1) as nat,
            ) && measure == mval::<V, A>(self.elems()),
            Node::Node3 { measure, left, middle, right } => d > 0 && left.wf((d - 1) as nat)
                && middle.wf((d - 1) as nat) && right.wf((d - 1) as nat) && measure == mval::<V, A>(
                self.elems(),
            ),
        }
    }
}

impl<V: Monoid, A: Measurable<V>> Measurable<V> for Node<V, A> {
    /// The cached measure, or the element's own measure at a leaf.
    open spec fn smeasure(self) -> V {
        match self {
            Node::Leaf(a) => a.smeasure(),
            Node::Node2 { measure, .. } => measure,
            Node::Node3 { measure, .. } => measure,
        }
    }

    fn measure(&self) -> (r: V) {
        match self {
            Node::Leaf(a) => a.measure(),
            Node::Node2 { measure, .. } => *measure,
            Node::Node3 { measure, .. } => *measure,
        }
    }
}

impl<V: Monoid, A: Measurable<V>> Digit<Node<V, A>> {
    /// The elements stored under the digit's nodes, left to right.
    pub open spec fn elems(self) -> Seq<A> {
        match self {
            Digit::One(a) => a.elems(),
            Digit::Two(a, b) => a.elems() + b.elems(),
            Digit::Three(a, b, c) => a.elems() + b.elems() + c.elems(),
            Digit::Four(a, b, c, d) => a.elems() + b.elems() + c.elems() + d.elems(),
        }
    }

    /// All nodes of the digit are well formed at depth `d`.
    pub open spec fn wf(self, d: nat) -> bool {
        match self {
            Digit::One(a) => a.wf(d),
            Digit::Two(a, b) => a.wf(d) && b.wf(d),
            Digit::Three(a, b, c) => a.wf(d) && b.wf(d) && c.wf(d),
            Digit::Four(a, b, c, d2) => a.wf(d) && b.wf(d) && c.wf(d) && d2.wf(d),
        }
    }
}

impl<V: Monoid, A: Measurable<V>> FingerTree<V, A> {
    /// The logical sequence of elements held by the tree.
    pub open spec fn elems(self) -> Seq<A>
        decreases self,
    {
        match self {
            FingerTree::Empty => Seq::empty(),
            FingerTree::Single(n) => n.elems(),
            FingerTree::Deep { prefix, tree, suffix, .. } => prefix.elems() + tree.elems()
                + suffix.elems(),
        }
    }

    /// Well-formed as a tree whose digits hold nodes of depth `d`: the inner
    /// tree holds nodes one level deeper, and the cached measure of a deep
    /// tree combines the measures of all elements below it.
    pub open spec fn wf_at(self, d: nat) -> bool
        decreases self,
    {
        match self {
            FingerTree::Empty => true,
            FingerTree::Single(n) => n.wf(d),
            FingerTree::Deep { measure, prefix, tree, suffix } => prefix.wf(d) && tree.wf_at(
                d + 1,
            ) && suffix.wf(d) && measure == mval::<V, A>(self.elems()),
        }
    }

    /// Well-formed as a tree of elements.
    pub open spec fn wf(self) -> bool {
        self.wf_at(0)
    }
}

impl<V: Monoid, A: Measurable<V>> Measurable<V> for FingerTree<V, A> {
    /// The identity when empty, the node's measure for a single, the cache
    /// for a deep tree.
    open spec fn smeasure(self) -> V {
        match self {
            FingerTree::Empty => V::sid(),
            FingerTree::Single(n) => n.smeasure(),
            FingerTree::Deep { measure, .. } => measure,
        }
    }

    fn measure(&self) -> (r: V) {
        match self {
            FingerTree::Empty => V::identity(),
            FingerTree::Single(n) => n.measure(),
            FingerTree::Deep { measure, .. } => *measure,
        }
    }
}

/// Combining the measures of a concatenation splits into the combination of
/// the measures of the parts.
pub proof fn lemma_mval_app<V: Monoid, A: Measurable<V>>(s1: Seq<A>, s2: Seq<A>)
    ensures
        mval::<V, A>(s1 + s2) == mval::<V, A>(s1).sop(mval::<V, A>(s2)),
    decreases s1.len(),
{
    if s1.len() == 0 {
        assert(s1 + s2 =~= s2);
        V::lemma_identity(mval::<V, A>(s2));
    } else {
        assert((s1 + s2).drop_first() =~= s1.drop_first() + s2);
        assert((s1 + s2)[0] == s1[0]);
        lemma_mval_app::<V, A>(s1.drop_first(), s2);
        V::lemma_assoc(s1[0].smeasure(), mval::<V, A>(s1.drop_first()), mval::<V, A>(s2));
    }
}

/// The measure of a one-element sequence is the element's measure.
pub proof fn lemma_mval_singleton<V: Monoid, A: Measurable<V>>(x: A)
    ensures
        mval::<V, A>(seq![x]) == x.smeasure(),
{
    let s = seq![x];
    assert(s.drop_first() =~= Seq::<A>::empty());
    assert(s[0] == x);
    assert(mval::<V, A>(Seq::<A>::empty()) == V::sid());
    V::lemma_identity(x.smeasure());
}

/// A well-formed node's measure is the combination of its elements' measures.
pub proof fn lemma_node_measure<V: Monoid, A: Measurable<V>>(n: Node<V, A>, d: nat)
    requires
        n.wf(d),
    ensures
        n.smeasure() == mval::<V, A>(n.elems()),
{
    match n {
        Node::Leaf(a) => {
            lemma_mval_singleton::<V, A>(a);
        },
        _ => {},
    }
}

/// A well-formed digit's measure is the combination of its elements' measures.
pub proof fn lemma_digit_measure<V: Monoid, A: Measurable<V>>(dg: Digit<Node<V, A>>, d: nat)
    requires
        dg.wf(d),
    ensures
        dg.smeasure() == mval::<V, A>(dg.elems()),
{
    match dg {
        Digit::One(a) => {
            lemma_node_measure(a, d);
        },
        Digit::Two(a, b) => {
            lemma_node_measure(a, d);
            lemma_node_measure(b, d);
            lemma_mval_app::<V, A>(a.elems(), b.elems());
        },
        Digit::Three(a, b, c) => {
            lemma_node_measure(a, d);
            lemma_node_measure(b, d);
            lemma_node_measure(c, d);
            lemma_mval_app::<V, A>(a.elems(), b.elems());
            lemma_mval_app::<V, A>(a.elems() + b.elems(), c.elems());
        },
        Digit::Four(a, b, c, d2) => {
            lemma_node_measure(a, d);
            lemma_node_measure(b, d);
            lemma_node_measure(c, d);
            lemma_node_measure(d2, d);
            lemma_mval_app::<V, A>(a.elems(), b.elems());
            lemma_mval_app::<V, A>(a.elems() + b.elems(), c.elems());
            lemma_mval_app::<V, A>(a.elems() + b.elems() + c.elems(), d2.elems());
        },
    }
}

/// A well-formed tree's measure is the combination of its elements' measures.
pub proof fn lemma_tree_measure<V: Monoid, A: Measurable<V>>(t: FingerTree<V, A>, d: nat)
    requires
        t.wf_at(d),
    ensures
        t.smeasure() == mval::<V, A>(t.elems()),
{
    match t {
        FingerTree::Empty => {},
        FingerTree::Single(n) => {
            lemma_node_measure(n, d);
        },
        FingerTree::Deep { .. } => {},
    }
}

/// All nodes of a sequence are well formed at depth `d`.
pub open spec fn nodes_wf<V: Monoid, A: Measurable<V>>(s: Seq<Node<V, A>>, d: nat) -> bool {
    forall|i: int| 0 <= i < s.len() ==> #[trigger] s[i].wf(d)
}

/// Flattening a concatenation splits into the flattenings of the parts.
pub proof fn lemma_flat_app<V: Monoid, A: Measurable<V>>(s1: Seq<Node<V, A>>, s2: Seq<Node<V, A>>)
    ensures
        flat::<V, A>(s1 + s2) == flat::<V, A>(s1) + flat::<V, A>(s2),
    decreases s1.len(),
{
    if s1.len() == 0 {
        assert(s1 + s2 =~= s2);
        assert(flat::<V, A>(s1) + flat::<V, A>(s2) =~= flat::<V, A>(s2));
    } else {
        assert((s1 + s2).drop_first() =~= s1.drop_first() + s2);
        assert((s1 + s2)[0] == s1[0]);
        lemma_flat_app::<V, A>(s1.drop_first(), s2);
        assert(flat::<V, A>(s1 + s2) =~= flat::<V, A>(s1) + flat::<V, A>(s2));
    }
}

/// Flattening a one-node sequence gives the node's elements.
pub proof fn lemma_flat_singleton<V: Monoid, A: Measurable<V>>(n: Node<V, A>)
    ensures
        flat::<V, A>(seq![n]) == n.elems(),
{
    let s = seq![n];
    assert(s.drop_first() =~= Seq::<Node<V, A>>::empty());
    assert(s[0] == n);
    assert(flat::<V, A>(Seq::<Node<V, A>>::empty()) == Seq::<A>::empty());
    assert(flat::<V, A>(s) =~= n.elems());
}

/// Flattening a sequence with a node on the front prepends that node's
/// elements.
pub proof fn lemma_flat_cons<V: Monoid, A: Measurable<V>>(n: Node<V, A>, s: Seq<Node<V, A>>)
    ensures
        flat::<V, A>(seq![n] + s) == n.elems() + flat::<V, A>(s),
{
    lemma_flat_app::<V, A>(seq![n], s);
    lemma_flat_singleton::<V, A>(n);
}

/// A digit's elements are the flattening of its children.
pub proof fn lemma_digit_flat<V: Monoid, A: Measurable<V>>(dg: Digit<Node<V, A>>)
    ensures
        flat::<V, A>(dg.children()) == dg.elems(),
{
    match dg {
        Digit::One(a) => {
            lemma_flat_singleton::<V, A>(a);
        },
        Digit::Two(a, b) => {
            assert(dg.children() =~= seq![a] + seq![b]);
            lemma_flat_cons::<V, A>(a, seq![b]);
            lemma_flat_singleton::<V, A>(b);
        },
        Digit::Three(a, b, c) => {
            assert(dg.children() =~= seq![a] + (seq![b] + seq![c]));
            lemma_flat_cons::<V, A>(a, seq![b] + seq![c]);
            lemma_flat_cons::<V, A>(b, seq![c]);
            lemma_flat_singleton::<V, A>(c);
            assert(a.elems() + (b.elems() + c.elems()) =~= dg.elems());
        },
        Digit::Four(a, b, c, d2) => {
            assert(dg.children() =~= seq![a] + (seq![b] + (seq![c] + seq![d2])));
            lemma_flat_cons::<V, A>(a, seq![b] + (seq![c] + seq![d2]));
            lemma_flat_cons::<V, A>(b, seq![c] + seq![d2]);
            lemma_flat_cons::<V, A>(c, seq![d2]);
            lemma_flat_singleton::<V, A>(d2);
            assert(a.elems() + (b.elems() + (c.elems() + d2.elems())) =~= dg.elems());
        },
    }
}

/// A well-formed digit's children are well-formed nodes.
pub proof fn lemma_digit_children_wf<V: Monoid, A: Measurable<V>>(dg: Digit<Node<V, A>>, d: nat)
    requires
        dg.wf(d),
    ensures
        nodes_wf(dg.children(), d),
{
    assert forall|i: int| 0 <= i < dg.children().len() implies #[trigger] dg.children()[i].wf(
        d,
    ) by {
        match dg {
            Digit::One(a) => {
                assert(dg.children()[i] == a);
            },
            Digit::Two(a, b) => {
                assert(i == 0 || i == 1);
            },
            Digit::Three(a, b, c) => {
                assert(i == 0 || i == 1 || i == 2);
            },
            Digit::Four(a, b, c, d2) => {
                assert(i == 0 || i == 1 || i == 2 || i == 3);
            },
        }
    }
}

/// Every node holds at least one element.
pub proof fn lemma_node_nonempty<V: Monoid, A: Measurable<V>>(n: Node<V, A>)
    ensures
        n.elems().len() >= 1,
    decreases n,
{
    match n {
        Node::Leaf(_) => {},
        Node::Node2 { left, right, .. } => {
            lemma_node_nonempty(*left);
            lemma_node_nonempty(*right);
        },
        Node::Node3 { left, middle, right, .. } => {
            lemma_node_nonempty(*left);
            lemma_node_nonempty(*middle);
            lemma_node_nonempty(*right);
        },
    }
}

/// Every digit holds at least one element.
pub proof fn lemma_digit_nonempty<V: Monoid, A: Measurable<V>>(dg: Digit<Node<V, A>>)
    ensures
        dg.elems().len() >= 1,
{
    match dg {
        Digit::One(a) => lemma_node_nonempty(a),
        Digit::Two(a, _) => lemma_node_nonempty(a),
        Digit::Three(a, _, _) => lemma_node_nonempty(a),
        Digit::Four(a, _, _, _) => lemma_node_nonempty(a),
    }
}

impl<V: Monoid, A: Measurable<V>> Node<V, A> {
    /// Builds a two-child branch, caching the combined measure.
    fn node2(l: Node<V, A>, r: Node<V, A>, Ghost(d): Ghost<nat>) -> (n: Node<V, A>)
        requires
            l.wf(d),
            r.wf(d),
        ensures
            n.wf(d + 1),
            n.elems() == l.elems() + r.elems(),
    {
        let m = l.measure().combine(r.measure());
        proof {
            lemma_node_measure(l, d);
            lemma_node_measure(r, d);
            lemma_mval_app::<V, A>(l.elems(), r.elems());
        }
        Node::Node2 { measure: m, left: Box::new(l), right: Box::new(r) }
    }

    /// Builds a three-child branch, caching the combined measure.
    fn node3(l: Node<V, A>, mid: Node<V, A>, r: Node<V, A>, Ghost(d): Ghost<nat>) -> (n: Node<
        V,
        A,
    >)
        requires
            l.wf(d),
            mid.wf(d),
            r.wf(d),
        ensures
            n.wf(d + 1),
            n.elems() == l.elems() + mid.elems() + r.elems(),
    {
        let m = l.measure().combine(mid.measure()).combine(r.measure());
        proof {
            lemma_node_measure(l, d);
            lemma_node_measure(mid, d);
            lemma_node_measure(r, d);
            lemma_mval_app::<V, A>(l.elems(), mid.elems());
            lemma_mval_app::<V, A>(l.elems() + mid.elems(), r.elems());
        }
        Node::Node3 { measure: m, left: Box::new(l), middle: Box::new(mid), right: Box::new(r) }
    }

    /// Greedily regroups a run of two or more nodes into two- and three-child
    /// branches one level up, preserving the elements.
    #[verifier::rlimit(50)]
    fn regroup(v: Vec<Node<V, A>>, Ghost(d): Ghost<nat>) -> (out: Vec<Node<V, A>>)
        requires
            v@.len() >= 2,
            nodes_wf(v@, d),
        ensures
            nodes_wf(out@, d + 1),
            out@.len() >= 1,
            flat::<V, A>(out@) == flat::<V, A>(v@),
        decreases v@.len(),
    {
        let ghost orig = v@;
        let mut v = v;
        let a = v.remove(0);
        let b = v.remove(0);
        let ghost v2 = v@;
        proof {
            assert(a == orig[0] && a.wf(d));
            assert(b == orig[1] && b.wf(d));
            assert(orig =~= seq![a] + (seq![b] + v2));
            lemma_flat_cons::<V, A>(a, seq![b] + v2);
            lemma_flat_cons::<V, A>(b, v2);
            assert forall|i: int| 0 <= i < v2.len() implies #[trigger] v2[i].wf(d) by {
                assert(v2[i] == orig[i + 2]);
                assert(orig[i + 2].wf(d));
            }
        }
        if v.len() == 0 {
            let n = Node::node2(a, b, Ghost(d));
            let mut out: Vec<Node<V, A>> = Vec::new();
            out.push(n);
            proof {
                assert(v2 =~= Seq::<Node<V, A>>::empty());
                assert(flat::<V, A>(v2) == Seq::<A>::empty());
                assert(out@ =~= seq![n]);
                lemma_flat_singleton::<V, A>(n);
                assert(flat::<V, A>(out@) =~= flat::<V, A>(orig));
                assert forall|i: int| 0 <= i < out@.len() implies #[trigger] out@[i].wf(d + 1) by {
                    assert(out@[i] == n);
                }
            }
            out
        } else if v.len() == 1 {
            let c = v.remove(0);
            let n = Node::node3(a, b, c, Ghost(d));
            let mut out: Vec<Node<V, A>> = Vec::new();
            out.push(n);
            proof {
                assert(c == v2[0] && c.wf(d));
                assert(v2 =~= seq![c]);
                lemma_flat_singleton::<V, A>(c);
                assert(out@ =~= seq![n]);
                lemma_flat_singleton::<V, A>(n);
                assert(flat::<V, A>(out@) =~= flat::<V, A>(orig));
                assert forall|i: int| 0 <= i < out@.len() implies #[trigger] out@[i].wf(d + 1) by {
                    assert(out@[i] == n);
                }
            }
            out
        } else if v.len() == 2 {
            let c = v.remove(0);
            let d2 = v.remove(0);
            let n1 = Node::node2(a, b, Ghost(d));
            let n2 = Node::node2(c, d2, Ghost(d));
            let mut out: Vec<Node<V, A>> = Vec::new();
            out.push(n1);
            out.push(n2);
            proof {
                assert(c == v2[0] && c.wf(d));
                assert(d2 == v2[1] && d2.wf(d));
                assert(v2 =~= seq![c] + seq![d2]);
                lemma_flat_cons::<V, A>(c, seq![d2]);
                lemma_flat_singleton::<V, A>(d2);
                assert(out@ =~= seq![n1] + seq![n2]);
                lemma_flat_cons::<V, A>(n1, seq![n2]);
                lemma_flat_singleton::<V, A>(n2);
                assert(flat::<V, A>(out@) =~= flat::<V, A>(orig));
                assert forall|i: int| 0 <= i < out@.len() implies #[trigger] out@[i].wf(d + 1) by {
                    assert(i == 0 || i == 1);
                }
            }
            out
        } else {
            // five or more in total: take three and regroup the rest
            let c = v.remove(0);
            let ghost v3 = v@;
            proof {
                assert(c == v2[0] && c.wf(d));
                assert(v2 =~= seq![c] + v3);
                lemma_flat_cons::<V, A>(c, v3);
                assert forall|i: int| 0 <= i < v3.len() implies #[trigger] v3[i].wf(d) by {
                    assert(v3[i] == v2[i + 1]);
                    assert(v2[i + 1].wf(d));
                }
            }
            let n = Node::node3(a, b, c, Ghost(d));
            let rest = Self::regroup(v, Ghost(d));
            let ghost rest_view = rest@;
            let mut out = rest;
            out.insert(0, n);
            proof {
                assert(out@ =~= seq![n] + rest_view);
                lemma_flat_cons::<V, A>(n, rest_view);
                assert(flat::<V, A>(out@) =~= flat::<V, A>(orig));
                assert forall|i: int| 0 <= i < out@.len() implies #[trigger] out@[i].wf(d + 1) by {
                    if i == 0 {
                        assert(out@[i] == n);
                    } else {
                        assert(out@[i] == rest_view[i - 1]);
                        assert(rest_view[i - 1].wf(d + 1));
                    }
                }
            }
            out
        }
    }
}

impl<V: Monoid, A: Measurable<V>> Node<V, A> {
    /// Moves the elements under the node onto the end of a vector, in order.
    fn into_vec(self, out: &mut Vec<A>)
        ensures
            final(out)@ == old(out)@ + self.elems(),
        decreases self,
    {
        match self {
            Node::Leaf(a) => {
                out.push(a);
                proof {
                    assert(out@ =~= old(out)@ + seq![a]);
                }
            },
            Node::Node2 { left, right, .. } => {
                let ghost mid = out@;
                (*left).into_vec(out);
                (*right).into_vec(out);
                proof {
                    assert(out@ =~= mid + (left.elems() + right.elems()));
                }
            },
            Node::Node3 { left, middle, right, .. } => {
                let ghost mid = out@;
                (*left).into_vec(out);
                (*middle).into_vec(out);
                (*right).into_vec(out);
                proof {
                    assert(out@ =~= mid + (left.elems() + middle.elems() + right.elems()));
                }
            },
        }
    }
}

impl<V: Monoid, A: Measurable<V>> Digit<Node<V, A>> {
    /// Moves the elements under the digit onto the end of a vector, in order.
    fn into_vec(self, out: &mut Vec<A>)
        ensures
            final(out)@ == old(out)@ + self.elems(),
    {
        let ghost start = out@;
        match self {
            Digit::One(a) => {
                a.into_vec(out);
            },
            Digit::Two(a, b) => {
                a.into_vec(out);
                b.into_vec(out);
            },
            Digit::Three(a, b, c) => {
                a.into_vec(out);
                b.into_vec(out);
                c.into_vec(out);
            },
            Digit::Four(a, b, c, d) => {
                a.into_vec(out);
                b.into_vec(out);
                c.into_vec(out);
                d.into_vec(out);
            },
        }
        proof {
            assert(out@ =~= start + self.elems());
        }
    }
}

impl<V: Monoid, A: Measurable<V>> FingerTree<V, A> {
    /// Moves the tree's elements onto the end of a vector, in order.
    fn into_vec(self, out: &mut Vec<A>)
        ensures
            final(out)@ == old(out)@ + self.elems(),
        decreases self,
    {
        match self {
            FingerTree::Empty => {
                proof {
                    assert(out@ =~= old(out)@ + Seq::<A>::empty());
                }
            },
            FingerTree::Single(n) => {
                n.into_vec(out);
            },
            FingerTree::Deep { prefix, tree, suffix, .. } => {
                let ghost start = out@;
                prefix.into_vec(out);
                (*tree).into_vec(out);
                suffix.into_vec(out);
                proof {
                    assert(out@ =~= start + (prefix.elems() + tree.elems() + suffix.elems()));
                }
            },
        }
    }

    /// Moves the elements into a vector, left to right.
    pub fn to_sequence(self) -> (r: Vec<A>)
        ensures
            r@ == self.elems(),
    {
        let mut out: Vec<A> = Vec::new();
        self.into_vec(&mut out);
        proof {
            assert(Seq::<A>::empty() + self.elems() =~= self.elems());
        }
        out
    }

    /// Builds a tree holding the vector's elements, in order.
    pub fn from_sequence(xs: Vec<A>) -> (r: Self)
        ensures
            r.wf(),
            r.elems() == xs@,
    {
        let ghost all = xs@;
        let mut xs = xs;
        let mut t: FingerTree<V, A> = FingerTree::Empty;
        proof {
            assert(t.elems() + xs@ =~= all);
        }
        while xs.len() > 0
            invariant
                t.wf(),
                t.elems() + xs@ == all,
            decreases xs@.len(),
        {
            let ghost prev_xs = xs@;
            let ghost prev_elems = t.elems();
            let x = xs.remove(0);
            t = t.push_back(x);
            proof {
                assert(prev_xs =~= seq![x] + xs@);
                assert(t.elems() + xs@ =~= prev_elems + prev_xs);
            }
        }
        proof {
            assert(t.elems() =~= all);
        }
        t
    }

    /// Builds a deep tree from well-formed parts, caching the combined
    /// measure.
    fn deep(
        pre: Digit<Node<V, A>>,
        t: FingerTree<V, A>,
        suf: Digit<Node<V, A>>,
        Ghost(d): Ghost<nat>,
    ) -> (r: Self)
        requires
            pre.wf(d),
            t.wf_at(d + 1),
            suf.wf(d),
        ensures
            r.wf_at(d),
            r.elems() == pre.elems() + t.elems() + suf.elems(),
    {
        let m = pre.measure().combine(t.measure()).combine(suf.measure());
        proof {
            lemma_digit_measure(pre, d);
            lemma_tree_measure(t, d + 1);
            lemma_digit_measure(suf, d);
            lemma_mval_app::<V, A>(pre.elems(), t.elems());
            lemma_mval_app::<V, A>(pre.elems() + t.elems(), suf.elems());
        }
        FingerTree::Deep { measure: m, prefix: pre, tree: Box::new(t), suffix: suf }
    }

    /// Pushes a node onto the front, splitting an overfull prefix digit into
    /// a branch pushed one level deeper.
    #[verifier::rlimit(50)]
    fn push_front_node(self, n: Node<V, A>, Ghost(d): Ghost<nat>) -> (r: Self)
        requires
            self.wf_at(d),
            n.wf(d),
        ensures
            r.wf_at(d),
            r.elems() == n.elems() + self.elems(),
        decreases self,
    {
        match self {
            FingerTree::Empty => {
                proof {
                    assert(n.elems() + Seq::<A>::empty() =~= n.elems());
                }
                FingerTree::Single(n)
            },
            FingerTree::Single(m) => {
                let r = Self::deep(Digit::One(n), FingerTree::Empty, Digit::One(m), Ghost(d));
                proof {
                    assert(n.elems() + Seq::<A>::empty() + m.elems() =~= n.elems() + m.elems());
                }
                r
            },
            FingerTree::Deep { prefix, tree, suffix, .. } => {
                match prefix {
                    Digit::One(a) => {
                        let r = Self::deep(Digit::Two(n, a), *tree, suffix, Ghost(d));
                        proof {
                            assert(r.elems() =~= n.elems() + (a.elems() + tree.elems()
                                + suffix.elems()));
                        }
                        r
                    },
                    Digit::Two(a, b) => {
                        let r = Self::deep(Digit::Three(n, a, b), *tree, suffix, Ghost(d));
                        proof {
                            assert(r.elems() =~= n.elems() + (a.elems() + b.elems() + tree.elems()
                                + suffix.elems()));
                        }
                        r
                    },
                    Digit::Three(a, b, c) => {
                        let r = Self::deep(Digit::Four(n, a, b, c), *tree, suffix, Ghost(d));
                        proof {
                            assert(r.elems() =~= n.elems() + (a.elems() + b.elems() + c.elems()
                                + tree.elems() + suffix.elems()));
                        }
                        r
                    },
                    Digit::Four(a, b, c, d2) => {
                        let nd = Node::node3(b, c, d2, Ghost(d));
                        let t2 = (*tree).push_front_node(nd, Ghost(d + 1));
                        let r = Self::deep(Digit::Two(n, a), t2, suffix, Ghost(d));
                        proof {
                            assert(r.elems() =~= n.elems() + (a.elems() + b.elems() + c.elems()
                                + d2.elems() + tree.elems() + suffix.elems()));
                        }
                        r
                    },
                }
            },
        }
    }

    /// Pushes a node onto the back, splitting an overfull suffix digit into
    /// a branch pushed one level deeper.
    #[verifier::rlimit(50)]
    fn push_back_node(self, n: Node<V, A>, Ghost(d): Ghost<nat>) -> (r: Self)
        requires
            self.wf_at(d),
            n.wf(d),
        ensures
            r.wf_at(d),
            r.elems() == self.elems() + n.elems(),
        decreases self,
    {
        match self {
            FingerTree::Empty => {
                proof {
                    assert(Seq::<A>::empty() + n.elems() =~= n.elems());
                }
                FingerTree::Single(n)
            },
            FingerTree::Single(m) => {
                let r = Self::deep(Digit::One(m), FingerTree::Empty, Digit::One(n), Ghost(d));
                proof {
                    assert(m.elems() + Seq::<A>::empty() + n.elems() =~= m.elems() + n.elems());
                }
                r
            },
            FingerTree::Deep { prefix, tree, suffix, .. } => {
                match suffix {
                    Digit::One(a) => {
                        let r = Self::deep(prefix, *tree, Digit::Two(a, n), Ghost(d));
                        proof {
                            assert(r.elems() =~= (prefix.elems() + tree.elems() + a.elems())
                                + n.elems());
                        }
                        r
                    },
                    Digit::Two(a, b) => {
                        let r = Self::deep(prefix, *tree, Digit::Three(a, b, n), Ghost(d));
                        proof {
                            assert(r.elems() =~= (prefix.elems() + tree.elems() + (a.elems()
                                + b.elems())) + n.elems());
                        }
                        r
                    },
                    Digit::Three(a, b, c) => {
                        let r = Self::deep(prefix, *tree, Digit::Four(a, b, c, n), Ghost(d));
                        proof {
                            assert(r.elems() =~= (prefix.elems() + tree.elems() + (a.elems()
                                + b.elems() + c.elems())) + n.elems());
                        }
                        r
                    },
                    Digit::Four(a, b, c, d2) => {
                        let nd = Node::node3(a, b, c, Ghost(d));
                        let t2 = (*tree).push_back_node(nd, Ghost(d + 1));
                        let r = Self::deep(prefix, t2, Digit::Two(d2, n), Ghost(d));
                        proof {
                            assert(r.elems() =~= (prefix.elems() + tree.elems() + (a.elems()
                                + b.elems() + c.elems() + d2.elems())) + n.elems());
                        }
                        r
                    },
                }
            },
        }
    }

    /// Pushes a run of nodes onto the front of a tree, keeping their order.
    fn prepend_nodes(ts: Vec<Node<V, A>>, t: Self, Ghost(d): Ghost<nat>) -> (r: Self)
        requires
            nodes_wf(ts@, d),
            t.wf_at(d),
        ensures
            r.wf_at(d),
            r.elems() == flat::<V, A>(ts@) + t.elems(),
    {
        let ghost goal = flat::<V, A>(ts@) + t.elems();
        let mut ts = ts;
        let mut t = t;
        while ts.len() > 0
            invariant
                nodes_wf(ts@, d),
                t.wf_at(d),
                flat::<V, A>(ts@) + t.elems() == goal,
            decreases ts@.len(),
        {
            let ghost prev = ts@;
            let ghost prev_elems = t.elems();
            let n = ts.pop().unwrap();
            t = t.push_front_node(n, Ghost(d));
            proof {
                assert(n == prev.last() && n.wf(d));
                assert(prev =~= ts@ + seq![n]);
                lemma_flat_app::<V, A>(ts@, seq![n]);
                lemma_flat_singleton::<V, A>(n);
                assert(flat::<V, A>(ts@) + t.elems() =~= flat::<V, A>(prev) + prev_elems);
                assert forall|i: int| 0 <= i < ts@.len() implies #[trigger] ts@[i].wf(d) by {
                    assert(ts@[i] == prev[i]);
                    assert(prev[i].wf(d));
                }
            }
        }
        proof {
            assert(ts@ =~= Seq::<Node<V, A>>::empty());
            assert(flat::<V, A>(ts@) + t.elems() =~= t.elems());
        }
        t
    }

    /// Pushes a run of nodes onto the back of a tree, keeping their order.
    fn append_nodes(t: Self, ts: Vec<Node<V, A>>, Ghost(d): Ghost<nat>) -> (r: Self)
        requires
            t.wf_at(d),
            nodes_wf(ts@, d),
        ensures
            r.wf_at(d),
            r.elems() == t.elems() + flat::<V, A>(ts@),
    {
        let ghost goal = t.elems() + flat::<V, A>(ts@);
        let mut ts = ts;
        let mut t = t;
        while ts.len() > 0
            invariant
                nodes_wf(ts@, d),
                t.wf_at(d),
                t.elems() + flat::<V, A>(ts@) == goal,
            decreases ts@.len(),
        {
            let ghost prev = ts@;
            let ghost prev_elems = t.elems();
            let n = ts.remove(0);
            t = t.push_back_node(n, Ghost(d));
            proof {
                assert(n == prev[0] && n.wf(d));
                assert(prev =~= seq![n] + ts@);
                lemma_flat_cons::<V, A>(n, ts@);
                assert(t.elems() + flat::<V, A>(ts@) =~= prev_elems + flat::<V, A>(prev));
                assert forall|i: int| 0 <= i < ts@.len() implies #[trigger] ts@[i].wf(d) by {
                    assert(ts@[i] == prev[i + 1]);
                    assert(prev[i + 1].wf(d));
                }
            }
        }
        proof {
            assert(ts@ =~= Seq::<Node<V, A>>::empty());
            assert(t.elems() + flat::<V, A>(ts@) =~= t.elems());
        }
        t
    }

    /// Concatenates two trees around a run of loose nodes: the suffix of the
    /// first, the run and the prefix of the second are regrouped into
    /// branches pushed one level deeper.
    #[verifier::rlimit(50)]
    fn app3(self, mid: Vec<Node<V, A>>, other: Self, Ghost(d): Ghost<nat>) -> (r: Self)
        requires
            self.wf_at(d),
            nodes_wf(mid@, d),
            other.wf_at(d),
        ensures
            r.wf_at(d),
            r.elems() == self.elems() + flat::<V, A>(mid@) + other.elems(),
        decreases self,
    {
        match self {
            FingerTree::Empty => {
                let r = Self::prepend_nodes(mid, other, Ghost(d));
                proof {
                    assert(r.elems() =~= Seq::<A>::empty() + flat::<V, A>(mid@) + other.elems());
                }
                r
            },
            FingerTree::Single(n) => {
                let t = Self::prepend_nodes(mid, other, Ghost(d));
                let r = t.push_front_node(n, Ghost(d));
                proof {
                    assert(r.elems() =~= n.elems() + flat::<V, A>(mid@) + other.elems());
                }
                r
            },
            FingerTree::Deep { measure: m1, prefix: pre1, tree: t1, suffix: sf1 } => {
                match other {
                    FingerTree::Empty => {
                        let this = FingerTree::Deep {
                            measure: m1,
                            prefix: pre1,
                            tree: t1,
                            suffix: sf1,
                        };
                        proof {
                            assert(this == self);
                        }
                        let r = Self::append_nodes(this, mid, Ghost(d));
                        proof {
                            assert(r.elems() =~= (pre1.elems() + t1.elems() + sf1.elems())
                                + flat::<V, A>(mid@) + Seq::<A>::empty());
                        }
                        r
                    },
                    FingerTree::Single(y) => {
                        let this = FingerTree::Deep {
                            measure: m1,
                            prefix: pre1,
                            tree: t1,
                            suffix: sf1,
                        };
                        proof {
                            assert(this == self);
                        }
                        let t = Self::append_nodes(this, mid, Ghost(d));
                        let r = t.push_back_node(y, Ghost(d));
                        proof {
                            assert(r.elems() =~= (pre1.elems() + t1.elems() + sf1.elems())
                                + flat::<V, A>(mid@) + y.elems());
                        }
                        r
                    },
                    FingerTree::Deep { prefix: pre2, tree: t2, suffix: sf2, .. } => {
                        let mut m: Vec<Node<V, A>> = Vec::new();
                        sf1.push_children(&mut m);
                        let ghost mid0 = mid@;
                        let mut mid = mid;
                        m.append(&mut mid);
                        pre2.push_children(&mut m);
                        proof {
                            assert(m@ =~= sf1.children() + mid0 + pre2.children());
                            lemma_digit_children_wf(sf1, d);
                            lemma_digit_children_wf(pre2, d);
                            assert(sf1.children().len() >= 1 && pre2.children().len() >= 1);
                            assert forall|i: int| 0 <= i < m@.len() implies #[trigger] m@[i].wf(
                                d,
                            ) by {
                                let k1 = sf1.children().len() as int;
                                let k2 = mid0.len() as int;
                                if i < k1 {
                                    assert(m@[i] == sf1.children()[i]);
                                    assert(sf1.children()[i].wf(d));
                                } else if i < k1 + k2 {
                                    assert(m@[i] == mid0[i - k1]);
                                    assert(mid0[i - k1].wf(d));
                                } else {
                                    assert(m@[i] == pre2.children()[i - k1 - k2]);
                                    assert(pre2.children()[i - k1 - k2].wf(d));
                                }
                            }
                            lemma_flat_app::<V, A>(sf1.children() + mid0, pre2.children());
                            lemma_flat_app::<V, A>(sf1.children(), mid0);
                            lemma_digit_flat(sf1);
                            lemma_digit_flat(pre2);
                        }
                        let nd = Node::regroup(m, Ghost(d));
                        let inner = (*t1).app3(nd, *t2, Ghost(d + 1));
                        let r = Self::deep(pre1, inner, sf2, Ghost(d));
                        proof {
                            assert(r.elems() =~= (pre1.elems() + t1.elems() + sf1.elems())
                                + flat::<V, A>(mid0) + (pre2.elems() + t2.elems() + sf2.elems()));
                        }
                        r
                    },
                }
            },
        }
    }

    /// Concatenates two trees: the result holds the first tree's elements
    /// followed by the second's, and its measure is the combination of the
    /// two trees' measures.
    pub fn concat(self, other: Self) -> (r: Self)
        requires
            self.wf(),
            other.wf(),
        ensures
            r.wf(),
            r.elems() == self.elems() + other.elems(),
            r.smeasure() == self.smeasure().sop(other.smeasure()),
    {
        let r = self.app3(Vec::new(), other, Ghost(0));
        proof {
            assert(flat::<V, A>(Seq::<Node<V, A>>::empty()) == Seq::<A>::empty());
            assert(r.elems() =~= self.elems() + other.elems());
            lemma_tree_measure(r, 0);
            lemma_tree_measure(self, 0);
            lemma_tree_measure(other, 0);
            lemma_mval_app::<V, A>(self.elems(), other.elems());
        }
        r
    }

    /// Turns a branch popped from the inner tree into a digit of its
    /// children, one level up.
    fn node_to_digit(n: Node<V, A>, Ghost(d): Ghost<nat>) -> (r: Digit<Node<V, A>>)
        requires
            n.wf(d + 1),
        ensures
            r.wf(d),
            r.elems() == n.elems(),
    {
        match n {
            Node::Leaf(_) => unreached(),  // a leaf sits at depth zero, never inside the inner tree
            Node::Node2 { left, right, .. } => Digit::Two(*left, *right),
            Node::Node3 { left, middle, right, .. } => Digit::Three(*left, *middle, *right),
        }
    }

    /// Turns a digit into a tree of the same elements.
    fn digit_to_tree(dg: Digit<Node<V, A>>, Ghost(d): Ghost<nat>) -> (r: Self)
        requires
            dg.wf(d),
        ensures
            r.wf_at(d),
            r.elems() == dg.elems(),
    {
        match dg {
            Digit::One(a) => FingerTree::Single(a),
            Digit::Two(a, b) => {
                let r = Self::deep(Digit::One(a), FingerTree::Empty, Digit::One(b), Ghost(d));
                proof {
                    assert(r.elems() =~= a.elems() + b.elems());
                }
                r
            },
            Digit::Three(a, b, c) => {
                let r = Self::deep(Digit::Two(a, b), FingerTree::Empty, Digit::One(c), Ghost(d));
                proof {
                    assert(r.elems() =~= a.elems() + b.elems() + c.elems());
                }
                r
            },
            Digit::Four(a, b, c, d2) => {
                let r = Self::deep(Digit::Two(a, b), FingerTree::Empty, Digit::Two(c, d2), Ghost(d));
                proof {
                    assert(r.elems() =~= a.elems() + b.elems() + c.elems() + d2.elems());
                }
                r
            },
        }
    }

    /// Rebuilds a deep tree whose prefix digit may be missing, pulling a
    /// branch from the inner tree when it is.
    fn deep_left(
        o: Option<Digit<Node<V, A>>>,
        t: FingerTree<V, A>,
        suf: Digit<Node<V, A>>,
        Ghost(d): Ghost<nat>,
    ) -> (r: Self)
        requires
            opt_wf(o, d),
            t.wf_at(d + 1),
            suf.wf(d),
        ensures
            r.wf_at(d),
            r.elems() == opt_elems(o) + t.elems() + suf.elems(),
        decreases t, 1int,
    {
        match o {
            Option::Some(pre) => Self::deep(pre, t, suf, Ghost(d)),
            Option::None => {
                match t.pop_front_node(Ghost(d + 1)) {
                    Option::Some((n, t2)) => {
                        let pre = Self::node_to_digit(n, Ghost(d));
                        let r = Self::deep(pre, t2, suf, Ghost(d));
                        proof {
                            assert(r.elems() =~= Seq::<A>::empty() + (n.elems() + t2.elems())
                                + suf.elems());
                        }
                        r
                    },
                    Option::None => {
                        let r = Self::digit_to_tree(suf, Ghost(d));
                        proof {
                            assert(t.elems() =~= Seq::<A>::empty());
                            assert(Seq::<A>::empty() + t.elems() + suf.elems() =~= suf.elems());
                        }
                        r
                    },
                }
            },
        }
    }

    /// Rebuilds a deep tree whose suffix digit may be missing, pulling a
    /// branch from the inner tree when it is.
    fn deep_right(
        pre: Digit<Node<V, A>>,
        t: FingerTree<V, A>,
        o: Option<Digit<Node<V, A>>>,
        Ghost(d): Ghost<nat>,
    ) -> (r: Self)
        requires
            pre.wf(d),
            t.wf_at(d + 1),
            opt_wf(o, d),
        ensures
            r.wf_at(d),
            r.elems() == pre.elems() + t.elems() + opt_elems(o),
        decreases t, 1int,
    {
        match o {
            Option::Some(suf) => Self::deep(pre, t, suf, Ghost(d)),
            Option::None => {
                match t.pop_back_node(Ghost(d + 1)) {
                    Option::Some((n, t2)) => {
                        let suf = Self::node_to_digit(n, Ghost(d));
                        let r = Self::deep(pre, t2, suf, Ghost(d));
                        proof {
                            assert(r.elems() =~= pre.elems() + (t2.elems() + n.elems())
                                + Seq::<A>::empty());
                        }
                        r
                    },
                    Option::None => {
                        let r = Self::digit_to_tree(pre, Ghost(d));
                        proof {
                            assert(t.elems() =~= Seq::<A>::empty());
                            assert(pre.elems() + t.elems() + Seq::<A>::empty() =~= pre.elems());
                        }
                        r
                    },
                }
            },
        }
    }

    /// Removes the front node, pulling the new prefix from the inner tree
    /// when the old one is exhausted.
    #[verifier::rlimit(50)]
    fn pop_front_node(self, Ghost(d): Ghost<nat>) -> (r: Option<(Node<V, A>, Self)>)
        requires
            self.wf_at(d),
        ensures
            match r {
                Option::None => self.elems().len() == 0,
                Option::Some((n, t)) => n.wf(d) && t.wf_at(d) && self.elems() == n.elems()
                    + t.elems(),
            },
        decreases self, 0int,
    {
        match self {
            FingerTree::Empty => Option::None,
            FingerTree::Single(n) => {
                proof {
                    assert(n.elems() + Seq::<A>::empty() =~= n.elems());
                }
                Option::Some((n, FingerTree::Empty))
            },
            FingerTree::Deep { prefix, tree, suffix, .. } => {
                match prefix {
                    Digit::One(a) => {
                        let rest = Self::deep_left(Option::None, *tree, suffix, Ghost(d));
                        proof {
                            assert(a.elems() + rest.elems() =~= a.elems() + tree.elems()
                                + suffix.elems());
                        }
                        Option::Some((a, rest))
                    },
                    Digit::Two(a, b) => {
                        let rest = Self::deep(Digit::One(b), *tree, suffix, Ghost(d));
                        proof {
                            assert(a.elems() + rest.elems() =~= (a.elems() + b.elems())
                                + tree.elems() + suffix.elems());
                        }
                        Option::Some((a, rest))
                    },
                    Digit::Three(a, b, c) => {
                        let rest = Self::deep(Digit::Two(b, c), *tree, suffix, Ghost(d));
                        proof {
                            assert(a.elems() + rest.elems() =~= (a.elems() + b.elems() + c.elems())
                                + tree.elems() + suffix.elems());
                        }
                        Option::Some((a, rest))
                    },
                    Digit::Four(a, b, c, d2) => {
                        let rest = Self::deep(Digit::Three(b, c, d2), *tree, suffix, Ghost(d));
                        proof {
                            assert(a.elems() + rest.elems() =~= (a.elems() + b.elems() + c.elems()
                                + d2.elems()) + tree.elems() + suffix.elems());
                        }
                        Option::Some((a, rest))
                    },
                }
            },
        }
    }

    /// Removes the back node, pulling the new suffix from the inner tree
    /// when the old one is exhausted.
    #[verifier::rlimit(50)]
    fn pop_back_node(self, Ghost(d): Ghost<nat>) -> (r: Option<(Node<V, A>, Self)>)
        requires
            self.wf_at(d),
        ensures
            match r {
                Option::None => self.elems().len() == 0,
                Option::Some((n, t)) => n.wf(d) && t.wf_at(d) && self.elems() == t.elems()
                    + n.elems(),
            },
        decreases self, 0int,
    {
        match self {
            FingerTree::Empty => Option::None,
            FingerTree::Single(n) => {
                proof {
                    assert(Seq::<A>::empty() + n.elems() =~= n.elems());
                }
                Option::Some((n, FingerTree::Empty))
            },
            FingerTree::Deep { prefix, tree, suffix, .. } => {
                match suffix {
                    Digit::One(a) => {
                        let rest = Self::deep_right(prefix, *tree, Option::None, Ghost(d));
                        proof {
                            assert(rest.elems() + a.elems() =~= prefix.elems() + tree.elems()
                                + a.elems());
                        }
                        Option::Some((a, rest))
                    },
                    Digit::Two(a, b) => {
                        let rest = Self::deep(prefix, *tree, Digit::One(a), Ghost(d));
                        proof {
                            assert(rest.elems() + b.elems() =~= prefix.elems() + tree.elems() + (
                            a.elems() + b.elems()));
                        }
                        Option::Some((b, rest))
                    },
                    Digit::Three(a, b, c) => {
                        let rest = Self::deep(prefix, *tree, Digit::Two(a, b), Ghost(d));
                        proof {
                            assert(rest.elems() + c.elems() =~= prefix.elems() + tree.elems() + (
                            a.elems() + b.elems() + c.elems()));
                        }
                        Option::Some((c, rest))
                    },
                    Digit::Four(a, b, c, d2) => {
                        let rest = Self::deep(prefix, *tree, Digit::Three(a, b, c), Ghost(d));
                        proof {
                            assert(rest.elems() + d2.elems() =~= prefix.elems() + tree.elems() + (
                            a.elems() + b.elems() + c.elems() + d2.elems()));
                        }
                        Option::Some((d2, rest))
                    },
                }
            },
        }
    }

    /// Removes the front element, or reports that the tree is empty.
    pub fn pop_front(self) -> (r: TreeView<V, A>)
        requires
            self.wf(),
        ensures
            match r {
                TreeView::Absent => self.elems().len() == 0,
                TreeView::Elem(x, rest) => self.elems().len() > 0 && x == self.elems()[0]
                    && rest.elems() == self.elems().drop_first() && rest.wf(),
            },
    {
        match self.pop_front_node(Ghost(0)) {
            Option::None => TreeView::Absent,
            Option::Some((n, t)) => {
                match n {
                    Node::Leaf(x) => {
                        proof {
                            assert((seq![x] + t.elems()).drop_first() =~= t.elems());
                        }
                        TreeView::Elem(x, Box::new(t))
                    },
                    _ => unreached(),  // a node at depth zero is a leaf
                }
            },
        }
    }

    /// Removes the back element, or reports that the tree is empty.
    pub fn pop_back(self) -> (r: TreeView<V, A>)
        requires
            self.wf(),
        ensures
            match r {
                TreeView::Absent => self.elems().len() == 0,
                TreeView::Elem(x, rest) => self.elems().len() > 0 && x == self.elems().last()
                    && rest.elems() == self.elems().drop_last() && rest.wf(),
            },
    {
        match self.pop_back_node(Ghost(0)) {
            Option::None => TreeView::Absent,
            Option::Some((n, t)) => {
                match n {
                    Node::Leaf(x) => {
                        proof {
                            assert((t.elems() + seq![x]).drop_last() =~= t.elems());
                        }
                        TreeView::Elem(x, Box::new(t))
                    },
                    _ => unreached(),  // a node at depth zero is a leaf
                }
            },
        }
    }

    /// Turns an optional digit into a tree of the same elements.
    fn opt_digit_to_tree(o: Option<Digit<Node<V, A>>>, Ghost(d): Ghost<nat>) -> (r: Self)
        requires
            opt_wf(o, d),
        ensures
            r.wf_at(d),
            r.elems() == opt_elems(o),
    {
        match o {
            Option::None => FingerTree::Empty,
            Option::Some(dg) => Self::digit_to_tree(dg, Ghost(d)),
        }
    }

    /// Splits a digit at the point where the accumulated measure, starting
    /// from `i`, first satisfies the predicate; the last node is returned as
    /// the match when it never does.
    #[verifier::rlimit(50)]
    fn split_digit<P: MeasurePred<V>>(
        dg: Digit<Node<V, A>>,
        i: V,
        p: &P,
        Ghost(d): Ghost<nat>,
    ) -> (r: (Option<Digit<Node<V, A>>>, Node<V, A>, Option<Digit<Node<V, A>>>))
        requires
            dg.wf(d),
        ensures
            opt_wf(r.0, d),
            r.1.wf(d),
            opt_wf(r.2, d),
            opt_elems(r.0) + r.1.elems() + opt_elems(r.2) == dg.elems(),
            !p.pred(i) ==> !p.pred(i.sop(mval::<V, A>(opt_elems(r.0)))),
            p.pred(i.sop(mval::<V, A>(dg.elems()))) ==> p.pred(
                i.sop(mval::<V, A>(opt_elems(r.0))).sop(mval::<V, A>(r.1.elems())),
            ),
            monotone::<V, P>(*p) && !p.pred(i.sop(mval::<V, A>(dg.elems()))) ==> opt_elems(
                r.2,
            ).len() == 0,
    {
        match dg {
            Digit::One(a) => {
                proof {
                    lemma_node_measure(a, d);
                    V::lemma_identity(i);
                    assert(Seq::<A>::empty() + a.elems() + Seq::<A>::empty() =~= a.elems());
                }
                (Option::None, a, Option::None)
            },
            Digit::Two(a, b) => {
                let ia = i.combine(a.measure());
                proof {
                    lemma_node_measure(a, d);
                    lemma_node_measure(b, d);
                    lemma_mval_app::<V, A>(a.elems(), b.elems());
                    V::lemma_identity(i);
                    V::lemma_assoc(i, a.smeasure(), b.smeasure());
                }
                if p.test(ia) {
                    proof {
                        assert(Seq::<A>::empty() + a.elems() + b.elems() =~= dg.elems());
                        if monotone::<V, P>(*p) && !p.pred(i.sop(mval::<V, A>(dg.elems()))) {
                            assert(p.pred(ia.sop(b.smeasure())));
                            assert(false);
                        }
                    }
                    (Option::None, a, Option::Some(Digit::One(b)))
                } else {
                    proof {
                        assert(a.elems() + b.elems() + Seq::<A>::empty() =~= dg.elems());
                    }
                    (Option::Some(Digit::One(a)), b, Option::None)
                }
            },
            Digit::Three(a, b, c) => {
                let ia = i.combine(a.measure());
                proof {
                    lemma_node_measure(a, d);
                    lemma_node_measure(b, d);
                    lemma_node_measure(c, d);
                    lemma_mval_app::<V, A>(a.elems(), b.elems());
                    lemma_mval_app::<V, A>(a.elems() + b.elems(), c.elems());
                    V::lemma_identity(i);
                    V::lemma_assoc(i, a.smeasure(), b.smeasure());
                    V::lemma_assoc(i, a.smeasure().sop(b.smeasure()), c.smeasure());
                    V::lemma_assoc(ia, b.smeasure(), c.smeasure());
                }
                if p.test(ia) {
                    proof {
                        assert(Seq::<A>::empty() + a.elems() + (b.elems() + c.elems())
                            =~= dg.elems());
                        if monotone::<V, P>(*p) && !p.pred(i.sop(mval::<V, A>(dg.elems()))) {
                            assert(p.pred(ia.sop(b.smeasure().sop(c.smeasure()))));
                            assert(false);
                        }
                    }
                    (Option::None, a, Option::Some(Digit::Two(b, c)))
                } else {
                    let ib = ia.combine(b.measure());
                    if p.test(ib) {
                        proof {
                            assert(a.elems() + b.elems() + c.elems() =~= dg.elems());
                            if monotone::<V, P>(*p) && !p.pred(i.sop(mval::<V, A>(dg.elems()))) {
                                assert(p.pred(ib.sop(c.smeasure())));
                                assert(false);
                            }
                        }
                        (Option::Some(Digit::One(a)), b, Option::Some(Digit::One(c)))
                    } else {
                        proof {
                            assert((a.elems() + b.elems()) + c.elems() + Seq::<A>::empty()
                                =~= dg.elems());
                        }
                        (Option::Some(Digit::Two(a, b)), c, Option::None)
                    }
                }
            },
            Digit::Four(a, b, c, d2) => {
                let ia = i.combine(a.measure());
                proof {
                    lemma_node_measure(a, d);
                    lemma_node_measure(b, d);
                    lemma_node_measure(c, d);
                    lemma_node_measure(d2, d);
                    lemma_mval_app::<V, A>(a.elems(), b.elems());
                    lemma_mval_app::<V, A>(a.elems() + b.elems(), c.elems());
                    lemma_mval_app::<V, A>(a.elems() + b.elems() + c.elems(), d2.elems());
                    lemma_mval_app::<V, A>(b.elems(), c.elems());
                    V::lemma_identity(i);
                    V::lemma_assoc(i, a.smeasure(), b.smeasure());
                    V::lemma_assoc(i, a.smeasure().sop(b.smeasure()), c.smeasure());
                    V::lemma_assoc(
                        i,
                        a.smeasure().sop(b.smeasure()).sop(c.smeasure()),
                        d2.smeasure(),
                    );
                    V::lemma_assoc(ia, b.smeasure(), c.smeasure());
                    V::lemma_assoc(ia.sop(b.smeasure()), c.smeasure(), d2.smeasure());
                    V::lemma_assoc(ia, b.smeasure().sop(c.smeasure()), d2.smeasure());
                }
                if p.test(ia) {
                    proof {
                        assert(Seq::<A>::empty() + a.elems() + (b.elems() + c.elems() + d2.elems())
                            =~= dg.elems());
                        if monotone::<V, P>(*p) && !p.pred(i.sop(mval::<V, A>(dg.elems()))) {
                            assert(p.pred(ia.sop(b.smeasure().sop(c.smeasure()).sop(d2.smeasure()))));
                            assert(false);
                        }
                    }
                    (Option::None, a, Option::Some(Digit::Three(b, c, d2)))
                } else {
                    let ib = ia.combine(b.measure());
                    if p.test(ib) {
                        proof {
                            assert(a.elems() + b.elems() + (c.elems() + d2.elems())
                                =~= dg.elems());
                            if monotone::<V, P>(*p) && !p.pred(i.sop(mval::<V, A>(dg.elems()))) {
                                assert(p.pred(ib.sop(c.smeasure().sop(d2.smeasure()))));
                                assert(false);
                            }
                        }
                        (Option::Some(Digit::One(a)), b, Option::Some(Digit::Two(c, d2)))
                    } else {
                        let ic = ib.combine(c.measure());
                        if p.test(ic) {
                            proof {
                                assert((a.elems() + b.elems()) + c.elems() + d2.elems()
                                    =~= dg.elems());
                                if monotone::<V, P>(*p) && !p.pred(
                                    i.sop(mval::<V, A>(dg.elems())),
                                ) {
                                    assert(p.pred(ic.sop(d2.smeasure())));
                                    assert(false);
                                }
                            }
                            (Option::Some(Digit::Two(a, b)), c, Option::Some(Digit::One(d2)))
                        } else {
                            proof {
                                assert((a.elems() + b.elems() + c.elems()) + d2.elems()
                                    + Seq::<A>::empty() =~= dg.elems());
                            }
                            (Option::Some(Digit::Three(a, b, c)), d2, Option::None)
                        }
                    }
                }
            },
        }
    }

    /// Splits the tree at the point where the accumulated measure, starting
    /// from `i`, first satisfies the predicate; the last element is returned
    /// as the match when it never does.
    #[verifier::rlimit(100)]
    fn split_tree<P: MeasurePred<V>>(self, i: V, p: &P, Ghost(d): Ghost<nat>) -> (r: (
        Self,
        Node<V, A>,
        Self,
    ))
        requires
            self.wf_at(d),
            self.elems().len() > 0,
        ensures
            r.0.wf_at(d),
            r.1.wf(d),
            r.2.wf_at(d),
            r.0.elems() + r.1.elems() + r.2.elems() == self.elems(),
            !p.pred(i) ==> !p.pred(i.sop(mval::<V, A>(r.0.elems()))),
            p.pred(i.sop(mval::<V, A>(self.elems()))) ==> p.pred(
                i.sop(mval::<V, A>(r.0.elems())).sop(mval::<V, A>(r.1.elems())),
            ),
            monotone::<V, P>(*p) && !p.pred(i.sop(mval::<V, A>(self.elems()))) ==> r.2.elems().len()
                == 0,
        decreases self,
    {
        match self {
            FingerTree::Empty => unreached(),  // the tree holds an element
            FingerTree::Single(n) => {
                proof {
                    V::lemma_identity(i);
                    assert(Seq::<A>::empty() + n.elems() + Seq::<A>::empty() =~= n.elems());
                }
                (FingerTree::Empty, n, FingerTree::Empty)
            },
            FingerTree::Deep { prefix, tree, suffix, .. } => {
                let vpr = i.combine(prefix.measure());
                proof {
                    lemma_digit_measure(prefix, d);
                    lemma_tree_measure(*tree, d + 1);
                    lemma_digit_measure(suffix, d);
                }
                if p.test(vpr) {
                    let (l, x, rr) = Self::split_digit(prefix, i, p, Ghost(d));
                    let lt = Self::opt_digit_to_tree(l, Ghost(d));
                    let rt = Self::deep_left(rr, *tree, suffix, Ghost(d));
                    proof {
                        assert(lt.elems() + x.elems() + rt.elems() =~= (opt_elems(l) + x.elems()
                            + opt_elems(rr)) + tree.elems() + suffix.elems());
                        if monotone::<V, P>(*p) && !p.pred(i.sop(mval::<V, A>(self.elems()))) {
                            lemma_mval_app::<V, A>(prefix.elems(), tree.elems());
                            lemma_mval_app::<V, A>(prefix.elems() + tree.elems(), suffix.elems());
                            V::lemma_assoc(i, prefix.smeasure(), tree.smeasure());
                            V::lemma_assoc(
                                i,
                                prefix.smeasure().sop(tree.smeasure()),
                                suffix.smeasure(),
                            );
                            V::lemma_assoc(vpr, tree.smeasure(), suffix.smeasure());
                            assert(p.pred(vpr.sop(tree.smeasure().sop(suffix.smeasure()))));
                            assert(false);
                        }
                    }
                    (lt, x, rt)
                } else {
                    let vm = vpr.combine((*tree).measure());
                    proof {
                        V::lemma_assoc(i, prefix.smeasure(), tree.smeasure());
                    }
                    if p.test(vm) {
                        proof {
                            if tree.elems().len() == 0 {
                                assert(tree.elems() =~= Seq::<A>::empty());
                                V::lemma_identity(vpr);
                                assert(false);
                            }
                        }
                        let (ml, xs, mr) = (*tree).split_tree(vpr, p, Ghost(d + 1));
                        let ixs = vpr.combine(ml.measure());
                        proof {
                            lemma_tree_measure(ml, d + 1);
                        }
                        let dxs = Self::node_to_digit(xs, Ghost(d));
                        let (dl, x, dr) = Self::split_digit(dxs, ixs, p, Ghost(d));
                        let lt = Self::deep_right(prefix, ml, dl, Ghost(d));
                        let rt = Self::deep_left(dr, mr, suffix, Ghost(d));
                        proof {
                            if monotone::<V, P>(*p) && !p.pred(i.sop(mval::<V, A>(self.elems()))) {
                                lemma_mval_app::<V, A>(prefix.elems(), tree.elems());
                                lemma_mval_app::<V, A>(
                                    prefix.elems() + tree.elems(),
                                    suffix.elems(),
                                );
                                V::lemma_assoc(
                                    i,
                                    prefix.smeasure().sop(tree.smeasure()),
                                    suffix.smeasure(),
                                );
                                assert(p.pred(vm.sop(suffix.smeasure())));
                                assert(false);
                            }
                            lemma_mval_app::<V, A>(prefix.elems(), ml.elems());
                            lemma_mval_app::<V, A>(prefix.elems() + ml.elems(), opt_elems(dl));
                            V::lemma_assoc(i, prefix.smeasure(), mval::<V, A>(ml.elems()));
                            V::lemma_assoc(
                                i,
                                prefix.smeasure().sop(mval::<V, A>(ml.elems())),
                                mval::<V, A>(opt_elems(dl)),
                            );
                            assert(lt.elems() + x.elems() + rt.elems() =~= prefix.elems() + (
                            ml.elems() + (opt_elems(dl) + x.elems() + opt_elems(dr)) + mr.elems())
                                + suffix.elems());
                        }
                        (lt, x, rt)
                    } else {
                        let (l, x, rr) = Self::split_digit(suffix, vm, p, Ghost(d));
                        let lt = Self::deep_right(prefix, *tree, l, Ghost(d));
                        let rt = Self::opt_digit_to_tree(rr, Ghost(d));
                        proof {
                            lemma_mval_app::<V, A>(prefix.elems(), tree.elems());
                            lemma_mval_app::<V, A>(prefix.elems() + tree.elems(), opt_elems(l));
                            lemma_mval_app::<V, A>(
                                prefix.elems() + tree.elems(),
                                suffix.elems(),
                            );
                            V::lemma_assoc(
                                i,
                                prefix.smeasure().sop(tree.smeasure()),
                                mval::<V, A>(opt_elems(l)),
                            );
                            V::lemma_assoc(
                                i,
                                prefix.smeasure().sop(tree.smeasure()),
                                mval::<V, A>(suffix.elems()),
                            );
                            assert(lt.elems() + x.elems() + rt.elems() =~= prefix.elems()
                                + tree.elems() + (opt_elems(l) + x.elems() + opt_elems(rr)));
                            if monotone::<V, P>(*p) && !p.pred(i.sop(mval::<V, A>(self.elems()))) {
                                assert(!p.pred(vm.sop(mval::<V, A>(suffix.elems()))));
                                assert(opt_elems(rr).len() == 0);
                            }
                        }
                        (lt, x, rt)
                    }
                }
            },
        }
    }

    /// Splits the tree into the elements before the point where the
    /// accumulated measure first satisfies the predicate, the element at that
    /// point, and the elements after it. When the predicate is false on the
    /// identity and true on the whole tree's measure, the predicate is false
    /// on the left part's measure and becomes true once the matched element
    /// is combined; when it never becomes true, the rightmost element is
    /// matched.
    pub fn split<P: MeasurePred<V>>(self, p: &P) -> (r: (Self, A, Self))
        requires
            self.wf(),
            self.elems().len() > 0,
        ensures
            r.0.wf(),
            r.2.wf(),
            r.0.elems() + seq![r.1] + r.2.elems() == self.elems(),
            !p.pred(V::sid()) && p.pred(mval::<V, A>(self.elems())) ==> !p.pred(
                mval::<V, A>(r.0.elems()),
            ) && p.pred(mval::<V, A>(r.0.elems()).sop(r.1.smeasure())),
            monotone::<V, P>(*p) && !p.pred(mval::<V, A>(self.elems())) ==> r.2.elems().len() == 0
                && r.1 == self.elems().last(),
    {
        let i = V::identity();
        let (lt, n, rt) = self.split_tree(i, p, Ghost(0));
        match n {
            Node::Leaf(x) => {
                proof {
                    V::lemma_identity(mval::<V, A>(lt.elems()));
                    V::lemma_identity(mval::<V, A>(self.elems()));
                    lemma_mval_singleton::<V, A>(x);
                    assert(n.elems() =~= seq![x]);
                    if monotone::<V, P>(*p) && !p.pred(mval::<V, A>(self.elems())) {
                        assert(rt.elems().len() == 0);
                        assert(self.elems() =~= lt.elems() + seq![x]);
                        assert(self.elems().last() == x);
                    }
                }
                (lt, x, rt)
            },
            _ => unreached(),  // a node at depth zero is a leaf
        }
    }

    /// Pushes an element onto the front of the tree, in amortized constant
    /// time.
    pub fn push_front(self, x: A) -> (r: Self)
        requires
            self.wf(),
        ensures
            r.wf(),
            r.elems() == seq![x] + self.elems(),
            r.smeasure() == x.smeasure().sop(self.smeasure()),
    {
        let r = self.push_front_node(Node::Leaf(x), Ghost(0));
        proof {
            lemma_tree_measure(r, 0);
            lemma_tree_measure(self, 0);
            lemma_mval_app::<V, A>(seq![x], self.elems());
            lemma_mval_singleton::<V, A>(x);
        }
        r
    }

    /// Pushes an element onto the back of the tree, in amortized constant
    /// time.
    pub fn push_back(self, x: A) -> (r: Self)
        requires
            self.wf(),
        ensures
            r.wf(),
            r.elems() == self.elems() + seq![x],
            r.smeasure() == self.smeasure().sop(x.smeasure()),
    {
        let r = self.push_back_node(Node::Leaf(x), Ghost(0));
        proof {
            lemma_tree_measure(r, 0);
            lemma_tree_measure(self, 0);
            lemma_mval_app::<V, A>(self.elems(), seq![x]);
            lemma_mval_singleton::<V, A>(x);
        }
        r
    }

    /// The empty tree.
    pub fn empty() -> (r: Self)
        ensures
            r.wf(),
            r.elems() == Seq::<A>::empty(),
            r.smeasure() == V::sid(),
    {
        FingerTree::Empty
    }

    /// A tree holding exactly one element.
    pub fn single(x: A) -> (r: Self)
        ensures
            r.wf(),
            r.elems() == seq![x],
            r.smeasure() == x.smeasure(),
    {
        FingerTree::Single(Node::Leaf(x))
    }

    /// Whether the tree holds no elements.
    pub fn is_empty(&self) -> (r: bool)
        ensures
            r == (self.elems().len() == 0),
    {
        match self {
            FingerTree::Empty => true,
            FingerTree::Single(n) => {
                proof {
                    lemma_node_nonempty(*n);
                }
                false
            },
            FingerTree::Deep { prefix, .. } => {
                proof {
                    lemma_digit_nonempty(*prefix);
                }
                false
            },
        }
    }
}

/// Popping the front of a tree whose sequence is an element followed by
/// another tree's sequence — what pushing that element onto the front
/// produces — returns exactly that element, and a remainder with that other
/// tree's sequence and measure.
pub proof fn lemma_pop_front_after_push_front<V: Monoid, A: Measurable<V>>(
    t: FingerTree<V, A>,
    u: FingerTree<V, A>,
    x: A,
)
    requires
        t.wf(),
        u.wf(),
        u.elems() == seq![x] + t.elems(),
    ensures
        u.elems().len() > 0,
        u.elems()[0] == x,
        u.elems().drop_first() == t.elems(),
        u.smeasure() == x.smeasure().sop(t.smeasure()),
{
    assert((seq![x] + t.elems()).drop_first() =~= t.elems());
    assert(u.elems()[0] == x);
    lemma_tree_measure(u, 0);
    lemma_tree_measure(t, 0);
    lemma_mval_app::<V, A>(seq![x], t.elems());
    lemma_mval_singleton::<V, A>(x);
}

/// A well-formed tree holding another well-formed tree's sequence — whatever
/// shape it takes — has the same measure: the measure depends on the sequence
/// alone.
pub proof fn lemma_same_sequence_same_measure<V: Monoid, A: Measurable<V>>(
    t: FingerTree<V, A>,
    u: FingerTree<V, A>,
)
    requires
        t.wf(),
        u.wf(),
        u.elems() == t.elems(),
    ensures
        u.smeasure() == t.smeasure(),
{
    lemma_tree_measure(t, 0);
    lemma_tree_measure(u, 0);
}

} // verus!
