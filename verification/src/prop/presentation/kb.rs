//! Bounded congruence closure over free-prop terms.
//!
//! Terms are hash-consed into a term graph; seeded equations merge classes in
//! a union-find; congruence propagates through `Compose` and `Tensor` by a
//! signature table keyed on the classes of the two children; and after each
//! round every term is re-read with atom representatives substituted, brought
//! to its string-diagram normal form, and merged with that form. Equality is
//! modulo the seeded equations and the normal form only.
use vstd::prelude::*;
use crate::forest::{forest_ok, lemma_push_keeps_roots, lemma_reparent_keeps_roots, lemma_link_roots, lemma_root_is_root, root_at};
use crate::prop::{PropExpr, PropSignature, expr_eq, gens_are_structural};
use super::smc_nf::{nf, from_string_diagram, NF_FUEL};
use vstd::laws_eq::obeys_concrete_eq;

verus! {

/// Rounds of propagation followed by normal-form refinement.
pub const SAFETY_BOUND: usize = 64;

/// A term-graph node: an atom, or a constructor over two term ids.
#[derive(Clone, Copy, Debug, PartialEq, Eq, Hash)]
pub enum Node<G: PropSignature> {
    /// `id_n`.
    Identity(usize),
    /// `σ_{m,n}`.
    Braid(usize, usize),
    /// A generator.
    Generator(G),
    /// `a ; b` over term ids.
    Compose(usize, usize),
    /// `a ⊗ b` over term ids.
    Tensor(usize, usize),
}

/// The constructor of a function-symbol node.
#[derive(Clone, Copy, Debug, PartialEq, Eq, Structural)]
enum Tag {
    Compose,
    Tensor,
}

/// The children of a node stand before it in the term graph.
spec fn children_before<G: PropSignature>(n: Node<G>, id: int) -> bool {
    match n {
        Node::Compose(a, b) => a < id && b < id,
        Node::Tensor(a, b) => a < id && b < id,
        _ => true,
    }
}

/// Whether two nodes are equal.
fn node_eq<G: PropSignature>(a: &Node<G>, b: &Node<G>) -> (r: bool)
    requires
        gens_are_structural::<G>(),
    ensures
        r == (*a == *b),
{
    match (a, b) {
        (Node::Identity(x), Node::Identity(y)) => *x == *y,
        (Node::Braid(x1, x2), Node::Braid(y1, y2)) => *x1 == *y1 && *x2 == *y2,
        (Node::Generator(g), Node::Generator(h)) => {
            let same = *g == *h;
            proof {
                reveal(obeys_concrete_eq);
            }
            same
        },
        (Node::Compose(x1, x2), Node::Compose(y1, y2)) => *x1 == *y1 && *x2 == *y2,
        (Node::Tensor(x1, x2), Node::Tensor(y1, y2)) => *x1 == *y1 && *x2 == *y2,
        _ => false,
    }
}

/// The expression of an atom node.
pub open spec fn atom_expr<G: PropSignature>(n: Node<G>) -> PropExpr<G> {
    match n {
        Node::Identity(k) => PropExpr::Identity(k),
        Node::Braid(m, k) => PropExpr::Braid(m, k),
        Node::Generator(g) => PropExpr::Generator(g),
        _ => PropExpr::Identity(0),
    }
}

/// The preference rank of a node: identities, braids, generators, then the
/// two function nodes.
pub open spec fn node_kind<G: PropSignature>(n: Node<G>) -> u8 {
    match n {
        Node::Identity(_) => 0,
        Node::Braid(_, _) => 1,
        Node::Generator(_) => 2,
        Node::Compose(_, _) => 3,
        Node::Tensor(_, _) => 4,
    }
}

/// Congruence-closure engine seeded with a fixed set of equations, answering
/// [`CongruenceClosure::are_equal`] queries. Equality is modulo the seeded
/// equations and the string-diagram normal form only.
pub struct CongruenceClosure<G: PropSignature> {
    /// The node of each term id; no node occurs twice.
    reverse: Vec<Node<G>>,
    /// Union-find parents.
    parent: Vec<usize>,
    level: Ghost<Seq<nat>>,
    top: Ghost<nat>,
    /// Per class root: function nodes using the class, as
    /// `(term, other child, constructor)`.
    uses: Vec<Vec<(usize, usize, Tag)>>,
    /// Signature table: `((constructor, class of a, class of b), term)`.
    signatures: Vec<((Tag, usize, usize), usize)>,
    /// Pending `(losing root, winning root)` merges.
    pending: Vec<(usize, usize)>,
}

impl<G: PropSignature> CongruenceClosure<G> {
    /// Sizes agree, parents and children are in range, parents rise in a
    /// ghost level, and every stored id names a term.
    pub closed spec fn wf(&self) -> bool {
        let n = self.reverse@.len();
        &&& self.parent@.len() == n
        &&& self.uses@.len() == n
        &&& self.level@.len() == n
        &&& forall|i: int| 0 <= i < n ==> self.parent@[i] < n
        &&& forall|i: int|
            0 <= i < n && self.parent@[i] != i ==> self.level@[self.parent@[i] as int] > self.level@[i]
        &&& forall|i: int| 0 <= i < n ==> self.level@[i] <= self.top@
        &&& forall|i: int| 0 <= i < n ==> children_before(#[trigger] self.reverse@[i], i)
        &&& forall|i: int, j: int| 0 <= i < j < n ==> #[trigger] self.reverse@[i] != #[trigger] self.reverse@[j]
        &&& forall|i: int, k: int|
            0 <= i < n && 0 <= k < self.uses@[i]@.len() ==> (#[trigger] self.uses@[i]@[k]).0 < n
                && self.uses@[i]@[k].1 < n
        &&& forall|k: int|
            0 <= k < self.signatures@.len() ==> (#[trigger] self.signatures@[k]).1 < n
        &&& forall|k: int|
            0 <= k < self.pending@.len() ==> (#[trigger] self.pending@[k]).0 < n && self.pending@[k].1 < n
    }

    /// Number of terms.
    pub closed spec fn size(&self) -> nat {
        self.reverse@.len()
    }

    /// Term `id` is the hash-consed node tree of `e`.
    pub closed spec fn denotes(&self, id: int, e: PropExpr<G>) -> bool
        decreases e,
    {
        &&& 0 <= id < self.reverse@.len()
        &&& match e {
            PropExpr::Identity(n) => self.reverse@[id] == Node::<G>::Identity(n),
            PropExpr::Braid(m, n) => self.reverse@[id] == Node::<G>::Braid(m, n),
            PropExpr::Generator(g) => self.reverse@[id] == Node::<G>::Generator(g),
            PropExpr::Compose(f, h) => match self.reverse@[id] {
                Node::Compose(x, y) => self.denotes(x as int, *f) && self.denotes(y as int, *h),
                _ => false,
            },
            PropExpr::Tensor(f, h) => match self.reverse@[id] {
                Node::Tensor(x, y) => self.denotes(x as int, *f) && self.denotes(y as int, *h),
                _ => false,
            },
        }
    }

    /// `later` keeps every term of `self` at its id.
    pub closed spec fn keeps_terms(&self, later: Self) -> bool {
        &&& later.reverse@.len() >= self.reverse@.len()
        &&& forall|i: int| 0 <= i < self.reverse@.len() ==> #[trigger] later.reverse@[i] == self.reverse@[i]
    }

    /// A term kept by a later state denotes there what it denoted before.
    proof fn lemma_denotes_kept(&self, later: Self, id: int, e: PropExpr<G>)
        requires
            self.keeps_terms(later),
            self.denotes(id, e),
        ensures
            later.denotes(id, e),
        decreases e,
    {
        assert(later.reverse@[id] == self.reverse@[id]);
        match e {
            PropExpr::Compose(f, h) => {
                if let Node::Compose(x, y) = self.reverse@[id] {
                    self.lemma_denotes_kept(later, x as int, *f);
                    self.lemma_denotes_kept(later, y as int, *h);
                }
            },
            PropExpr::Tensor(f, h) => {
                if let Node::Tensor(x, y) = self.reverse@[id] {
                    self.lemma_denotes_kept(later, x as int, *f);
                    self.lemma_denotes_kept(later, y as int, *h);
                }
            },
            _ => {},
        }
    }

    /// Hash-consing: an expression has at most one term.
    proof fn lemma_denotes_unique(&self, i: int, j: int, e: PropExpr<G>)
        requires
            self.wf(),
            self.denotes(i, e),
            self.denotes(j, e),
        ensures
            i == j,
        decreases e,
    {
        match e {
            PropExpr::Compose(f, h) => {
                if let Node::Compose(x1, y1) = self.reverse@[i] {
                    if let Node::Compose(x2, y2) = self.reverse@[j] {
                        self.lemma_denotes_unique(x1 as int, x2 as int, *f);
                        self.lemma_denotes_unique(y1 as int, y2 as int, *h);
                    }
                }
            },
            PropExpr::Tensor(f, h) => {
                if let Node::Tensor(x1, y1) = self.reverse@[i] {
                    if let Node::Tensor(x2, y2) = self.reverse@[j] {
                        self.lemma_denotes_unique(x1 as int, x2 as int, *f);
                        self.lemma_denotes_unique(y1 as int, y2 as int, *h);
                    }
                }
            },
            _ => {},
        }
        assert(self.reverse@[i] == self.reverse@[j]);
        if i < j {
            assert(self.reverse@[i] != self.reverse@[j]);
        } else if j < i {
            assert(self.reverse@[j] != self.reverse@[i]);
        }
    }

    /// The root of `id`'s class in the union-find forest.
    pub closed spec fn root(&self, id: int) -> int {
        root_at(self.parent@, self.level@, self.top@, id)
    }

    /// `later` keeps every term of `self`, and terms in one class of `self`
    /// stay in one class: classes only grow together.
    pub closed spec fn coarsens(&self, later: Self) -> bool {
        &&& self.keeps_terms(later)
        &&& forall|i: int, j: int|
            #![trigger self.root(i), self.root(j)]
            0 <= i < self.size() && 0 <= j < self.size() && self.root(i) == self.root(j) ==> later.root(i)
                == later.root(j)
    }

    /// `a` and `b` have terms in one class.
    pub closed spec fn equates(&self, a: PropExpr<G>, b: PropExpr<G>) -> bool {
        exists|i: int, j: int| #[trigger] self.denotes(i, a) && #[trigger] self.denotes(j, b) && self.root(i) == self.root(j)
    }

    /// A state whose terms and roots are all kept is coarsened.
    proof fn lemma_coarsens_same_roots(&self, later: Self)
        requires
            self.keeps_terms(later),
            forall|y: int| 0 <= y < self.size() ==> #[trigger] later.root(y) == self.root(y),
        ensures
            self.coarsens(later),
    {
        assert forall|i: int, j: int|
            0 <= i < self.size() && 0 <= j < self.size() && self.root(i) == self.root(j) implies later.root(i)
                == later.root(j) by {
            assert(later.root(i) == self.root(i));
            assert(later.root(j) == self.root(j));
        }
    }

    /// Sending the class of `a` to the root of `b` coarsens.
    proof fn lemma_coarsens_merge(&self, later: Self, a: int, b: int)
        requires
            self.keeps_terms(later),
            forall|y: int|
                0 <= y < self.size() ==> #[trigger] later.root(y) == if self.root(y) == self.root(a) {
                    self.root(b)
                } else {
                    self.root(y)
                },
        ensures
            self.coarsens(later),
    {
        assert forall|i: int, j: int|
            0 <= i < self.size() && 0 <= j < self.size() && self.root(i) == self.root(j) implies later.root(i)
                == later.root(j) by {
            assert(later.root(i) == if self.root(i) == self.root(a) { self.root(b) } else { self.root(i) });
            assert(later.root(j) == if self.root(j) == self.root(a) { self.root(b) } else { self.root(j) });
        }
    }

    /// Terms equated in `self` stay equated in a coarsening.
    proof fn lemma_equates_kept(&self, later: Self, a: PropExpr<G>, b: PropExpr<G>)
        requires
            self.coarsens(later),
            self.equates(a, b),
        ensures
            later.equates(a, b),
    {
        let (i, j) = choose|i: int, j: int|
            #[trigger] self.denotes(i, a) && #[trigger] self.denotes(j, b) && self.root(i) == self.root(j);
        self.lemma_denotes_kept(later, i, a);
        self.lemma_denotes_kept(later, j, b);
        assert(later.root(i) == later.root(j));
    }

    /// Some term denotes `e`.
    pub closed spec fn has_term(&self, e: PropExpr<G>) -> bool {
        exists|i: int| #[trigger] self.denotes(i, e)
    }

    /// Terms `i` and `j` apply one constructor to children of equal classes.
    pub closed spec fn congruent_terms(&self, i: int, j: int) -> bool {
        match (self.reverse@[i], self.reverse@[j]) {
            (Node::Compose(a1, b1), Node::Compose(a2, b2)) => self.root(a1 as int) == self.root(a2 as int)
                && self.root(b1 as int) == self.root(b2 as int),
            (Node::Tensor(a1, b1), Node::Tensor(a2, b2)) => self.root(a1 as int) == self.root(a2 as int)
                && self.root(b1 as int) == self.root(b2 as int),
            _ => false,
        }
    }

    /// The classes are closed under congruence: congruent terms share a class.
    pub closed spec fn congruence_closed(&self) -> bool {
        forall|i: int, j: int|
            0 <= i < self.size() && 0 <= j < self.size() && #[trigger] self.congruent_terms(i, j) ==> #[trigger] self.root(i)
                == #[trigger] self.root(j)
    }

    /// `a` and `b` apply one constructor to sides that are equated in pairs.
    pub open spec fn congruent_exprs(&self, a: PropExpr<G>, b: PropExpr<G>) -> bool {
        match (a, b) {
            (PropExpr::Compose(f1, g1), PropExpr::Compose(f2, g2)) => self.equates(*f1, *f2) && self.equates(*g1, *g2),
            (PropExpr::Tensor(f1, g1), PropExpr::Tensor(f2, g2)) => self.equates(*f1, *f2) && self.equates(*g1, *g2),
            _ => false,
        }
    }

    /// Whether a node is a constructor over two terms.
    spec fn is_function(n: Node<G>) -> bool {
        n is Compose || n is Tensor
    }

    /// The signature-table key of term `t`: its constructor and the roots of
    /// its children.
    spec fn sig_key(&self, t: int) -> (Tag, usize, usize) {
        match self.reverse@[t] {
            Node::Compose(a, b) => (Tag::Compose, self.root(a as int) as usize, self.root(b as int) as usize),
            Node::Tensor(a, b) => (Tag::Tensor, self.root(a as int) as usize, self.root(b as int) as usize),
            _ => (Tag::Compose, 0, 0),
        }
    }

    /// The first table entry under `t`'s key names a term of `t`'s class.
    spec fn filed(&self, t: int) -> bool {
        exists|k: int|
            0 <= k < self.signatures@.len() && (#[trigger] self.signatures@[k]).0 == self.sig_key(t) && (forall|j: int|
                0 <= j < k ==> self.signatures@[j].0 != self.sig_key(t)) && self.root(self.signatures@[k].1 as int)
                == self.root(t)
    }

    /// Number of class roots among the first `k` terms.
    spec fn roots_below(&self, k: int) -> nat
        decreases k,
    {
        if k <= 0 {
            0
        } else {
            self.roots_below(k - 1) + if self.root(k - 1) == k - 1 {
                1nat
            } else {
                0nat
            }
        }
    }

    /// Number of classes.
    spec fn class_count(&self) -> nat {
        self.roots_below(self.size() as int)
    }

    /// A root lies in range and is its own root.
    proof fn lemma_root_facts(&self, x: int)
        requires
            self.wf(),
            0 <= x < self.size(),
        ensures
            0 <= self.root(x) < self.size(),
            self.root(self.root(x)) == self.root(x),
    {
        assert(forest_ok(self.parent@, self.level@, self.top@));
        lemma_root_is_root(self.parent@, self.level@, self.top@, x);
        let r = self.root(x);
        assert(root_at(self.parent@, self.level@, self.top@, r) == r);
    }

    /// States with the same roots have the same number of classes.
    proof fn lemma_roots_below_same(&self, other: Self, k: int)
        requires
            forall|y: int| 0 <= y < k ==> #[trigger] other.root(y) == self.root(y),
        ensures
            other.roots_below(k) == self.roots_below(k),
        decreases k,
    {
        if k > 0 {
            self.lemma_roots_below_same(other, k - 1);
            assert(other.root(k - 1) == self.root(k - 1));
        }
    }

    /// Sending the class of `a` to the root of `b`, another class, removes
    /// one root.
    proof fn lemma_roots_below_merge(&self, later: Self, a: int, b: int, k: int)
        requires
            self.wf(),
            0 <= a < self.size(),
            0 <= b < self.size(),
            0 <= k <= self.size(),
            self.root(a) != self.root(b),
            forall|y: int|
                0 <= y < self.size() ==> #[trigger] later.root(y) == if self.root(y) == self.root(a) {
                    self.root(b)
                } else {
                    self.root(y)
                },
        ensures
            later.roots_below(k) + (if self.root(a) < k {
                1nat
            } else {
                0nat
            }) == self.roots_below(k),
        decreases k,
    {
        self.lemma_root_facts(a);
        self.lemma_root_facts(b);
        if k > 0 {
            self.lemma_roots_below_merge(later, a, b, k - 1);
            let i = k - 1;
            self.lemma_root_facts(i);
            assert(later.root(i) == if self.root(i) == self.root(a) { self.root(b) } else { self.root(i) });
            if self.root(i) == self.root(a) {
                if i == self.root(b) {
                    assert(self.root(i) == self.root(b));
                }
            }
        }
    }

    /// A filed term stays filed while roots stay and the table only grows.
    proof fn lemma_filed_kept(&self, later: Self, t: int)
        requires
            self.wf(),
            0 <= t < self.size(),
            later.reverse@ == self.reverse@,
            forall|y: int| 0 <= y < self.size() ==> #[trigger] later.root(y) == self.root(y),
            later.signatures@.len() >= self.signatures@.len(),
            forall|k: int| 0 <= k < self.signatures@.len() ==> #[trigger] later.signatures@[k] == self.signatures@[k],
            self.filed(t),
        ensures
            later.filed(t),
    {
        assert(children_before(self.reverse@[t], t));
        assert(later.sig_key(t) == self.sig_key(t));
        let k = choose|k: int|
            0 <= k < self.signatures@.len() && (#[trigger] self.signatures@[k]).0 == self.sig_key(t) && (forall|j: int|
                0 <= j < k ==> self.signatures@[j].0 != self.sig_key(t)) && self.root(self.signatures@[k].1 as int)
                == self.root(t);
        assert(later.signatures@[k] == self.signatures@[k]);
        assert forall|j: int| 0 <= j < k implies later.signatures@[j].0 != later.sig_key(t) by {
            assert(later.signatures@[j] == self.signatures@[j]);
        }
    }

    /// When every function term is filed, the classes are closed under
    /// congruence.
    proof fn lemma_all_filed_closed(&self)
        requires
            self.wf(),
            forall|t: int| 0 <= t < self.size() && Self::is_function(self.reverse@[t]) ==> #[trigger] self.filed(t),
        ensures
            self.congruence_closed(),
    {
        assert forall|i: int, j: int|
            0 <= i < self.size() && 0 <= j < self.size() && #[trigger] self.congruent_terms(i, j) implies #[trigger] self.root(i)
                == #[trigger] self.root(j) by {
            assert(self.sig_key(i) == self.sig_key(j));
            assert(self.filed(i));
            assert(self.filed(j));
            let key = self.sig_key(i);
            let ki = choose|k: int|
                0 <= k < self.signatures@.len() && (#[trigger] self.signatures@[k]).0 == key && (forall|x: int|
                    0 <= x < k ==> self.signatures@[x].0 != key) && self.root(self.signatures@[k].1 as int) == self.root(i);
            let kj = choose|k: int|
                0 <= k < self.signatures@.len() && (#[trigger] self.signatures@[k]).0 == key && (forall|x: int|
                    0 <= x < k ==> self.signatures@[x].0 != key) && self.root(self.signatures@[k].1 as int) == self.root(j);
            if ki < kj {
                assert(self.signatures@[ki].0 == key);
            } else if kj < ki {
                assert(self.signatures@[kj].0 == key);
            }
        }
    }

    /// Closure under congruence survives a change that keeps terms and roots.
    proof fn lemma_closed_same_roots(&self, later: Self)
        requires
            self.wf(),
            self.congruence_closed(),
            later.reverse@ == self.reverse@,
            forall|y: int| 0 <= y < self.size() ==> #[trigger] later.root(y) == self.root(y),
        ensures
            later.congruence_closed(),
    {
        assert forall|i: int, j: int|
            0 <= i < later.size() && 0 <= j < later.size() && #[trigger] later.congruent_terms(i, j) implies #[trigger] later.root(i)
                == #[trigger] later.root(j) by {
            assert(children_before(self.reverse@[i], i));
            assert(children_before(self.reverse@[j], j));
            assert(self.congruent_terms(i, j));
            assert(self.root(i) == self.root(j));
        }
    }

    /// The root of `id`'s class, halving the path.
    fn find(&mut self, id: usize) -> (r: usize)
        requires
            old(self).wf(),
            id < old(self).size(),
        ensures
            final(self).wf(),
            final(self).size() == old(self).size(),
            final(self).reverse@ == old(self).reverse@,
            r < final(self).size(),
            final(self).parent@[r as int] == r,
            r == old(self).root(id as int),
            forall|y: int| 0 <= y < old(self).size() ==> #[trigger] final(self).root(y) == old(self).root(y),
            final(self).uses@ == old(self).uses@,
            final(self).signatures@ == old(self).signatures@,
            final(self).pending@ == old(self).pending@,
            old(self).coarsens(*final(self)),
    {
        let mut x = id;
        proof {
            assert(forest_ok(self.parent@, self.level@, self.top@));
        }
        while self.parent[x] != x
            invariant
                self.wf(),
                self.reverse@ == old(self).reverse@,
                self.uses@ == old(self).uses@,
                self.signatures@ == old(self).signatures@,
                self.pending@ == old(self).pending@,
                self.level@ == old(self).level@,
                self.top@ == old(self).top@,
                x < self.size(),
                forest_ok(self.parent@, self.level@, self.top@),
                self.root(x as int) == old(self).root(id as int),
                forall|y: int| 0 <= y < old(self).size() ==> #[trigger] self.root(y) == old(self).root(y),
            decreases self.top@ - self.level@[x as int],
        {
            let next = self.parent[x];
            let grand = self.parent[next];
            let ghost pre = *self;
            proof {
                assert(self.level@[grand as int] > self.level@[x as int]);
                assert(pre.root(x as int) == pre.root(next as int));
                assert(pre.root(next as int) == pre.root(grand as int));
            }
            self.parent.set(x, grand);
            proof {
                assert(self.parent@ == pre.parent@.update(x as int, grand));
                assert forall|y: int| 0 <= y < old(self).size() implies #[trigger] self.root(y) == old(self).root(y) by {
                    lemma_reparent_keeps_roots(pre.parent@, pre.level@, pre.top@, x as int, grand, y);
                    assert(pre.root(y) == old(self).root(y));
                }
                lemma_reparent_keeps_roots(pre.parent@, pre.level@, pre.top@, x as int, grand, next as int);
                assert(self.root(next as int) == pre.root(next as int));
            }
            x = next;
        }
        proof {
            assert(root_at(self.parent@, self.level@, self.top@, x as int) == x);
            old(self).lemma_coarsens_same_roots(*self);
        }
        x
    }

    /// Merge two classes, linking `a`'s root under `b`'s and queueing the
    /// pair for propagation.
    fn merge(&mut self, a: usize, b: usize)
        requires
            old(self).wf(),
            a < old(self).size(),
            b < old(self).size(),
        ensures
            final(self).wf(),
            final(self).size() == old(self).size(),
            final(self).reverse@ == old(self).reverse@,
            final(self).uses@ == old(self).uses@,
            final(self).signatures@ == old(self).signatures@,
            forall|y: int|
                0 <= y < old(self).size() ==> #[trigger] final(self).root(y) == if old(self).root(y) == old(self).root(
                    a as int,
                ) {
                    old(self).root(b as int)
                } else {
                    old(self).root(y)
                },
            old(self).root(a as int) == old(self).root(b as int) ==> final(self).pending@ == old(self).pending@,
            old(self).root(a as int) != old(self).root(b as int) ==> final(self).pending@ == old(self).pending@.push(
                (old(self).root(a as int) as usize, old(self).root(b as int) as usize),
            ),
        old(self).coarsens(*final(self)),
    {
        let ghost before = *self;
        let ra = self.find(a);
        let ghost s1 = *self;
        let rb = self.find(b);
        proof {
            assert(s1.root(b as int) == before.root(b as int));
            assert forall|y: int| 0 <= y < before.size() implies #[trigger] self.root(y) == before.root(y) by {
                assert(self.root(y) == s1.root(y));
                assert(s1.root(y) == before.root(y));
            }
            assert(forest_ok(s1.parent@, s1.level@, s1.top@));
            assert(s1.root(ra as int) == ra);
            assert(self.root(ra as int) == ra);
            assert(forest_ok(self.parent@, self.level@, self.top@));
            lemma_root_is_root(self.parent@, self.level@, self.top@, ra as int);
        }
        if ra == rb {
            proof {
                assert(before.root(a as int) == before.root(b as int));
                assert forall|y: int| 0 <= y < before.size() implies #[trigger] self.root(y) == if before.root(y) == before.root(
                    a as int,
                ) {
                    before.root(b as int)
                } else {
                    before.root(y)
                } by {
                    assert(self.root(y) == before.root(y));
                }
                before.lemma_coarsens_same_roots(*self);
            }
            return;
        }
        if self.parent[ra] != ra || self.parent[rb] != rb {
            proof {
                assert forall|y: int| 0 <= y < before.size() implies #[trigger] self.root(y) == before.root(y) by {}
                before.lemma_coarsens_same_roots(*self);
            }
            return;
        }
        proof {
            assert(forest_ok(self.parent@, self.level@, self.top@));
        }
        let ghost mid = *self;
        self.parent.set(ra, rb);
        proof {
            let lv = if self.level@[rb as int] > self.level@[ra as int] {
                self.level@[rb as int]
            } else {
                self.level@[ra as int] + 1
            };
            assert forall|y: int| 0 <= y < mid.parent@.len() implies root_at(
                mid.parent@.update(ra as int, rb),
                mid.level@.update(rb as int, lv),
                if lv > mid.top@ { lv } else { mid.top@ },
                y,
            ) == if mid.root(y) == ra as int { rb as int } else { mid.root(y) } by {
                lemma_link_roots(mid.parent@, mid.level@, mid.top@, ra as int, rb as int, lv, y);
            }
            self.level@ = self.level@.update(rb as int, lv);
            if lv > self.top@ {
                self.top@ = lv;
            }
            assert(self.parent@ == mid.parent@.update(ra as int, rb));
            assert forall|y: int| 0 <= y < before.size() implies #[trigger] self.root(y) == if before.root(y) == before.root(
                a as int,
            ) {
                before.root(b as int)
            } else {
                before.root(y)
            } by {
                assert(mid.root(y) == before.root(y));
            }
        }
        let ghost linked = *self;
        self.pending.push((ra, rb));
        proof {
            assert forall|y: int| 0 <= y < before.size() implies #[trigger] self.root(y) == if before.root(y) == before.root(
                a as int,
            ) {
                before.root(b as int)
            } else {
                before.root(y)
            } by {
                assert(self.root(y) == linked.root(y));
            }
            before.lemma_coarsens_merge(*self, a as int, b as int);
        }
    }

    /// The term already holding `node`, if any.
    fn lookup(&self, node: &Node<G>) -> (r: Option<usize>)
        requires
            gens_are_structural::<G>(),
        ensures
            r matches Some(id) ==> id < self.reverse@.len() && self.reverse@[id as int] == *node,
            r is None ==> forall|i: int| 0 <= i < self.reverse@.len() ==> self.reverse@[i] != *node,
    {
        let mut i: usize = 0;
        while i < self.reverse.len()
            invariant
                i <= self.reverse@.len(),
                gens_are_structural::<G>(),
                forall|k: int| 0 <= k < i ==> self.reverse@[k] != *node,
            decreases self.reverse@.len() - i,
        {
            if node_eq(&self.reverse[i], node) {
                return Some(i);
            }
            i = i + 1;
        }
        None
    }

    /// The term filed under a signature, if any.
    fn signature_of(&self, key: (Tag, usize, usize)) -> (r: Option<usize>)
        requires
            self.wf(),
        ensures
            r matches Some(t) ==> t < self.size(),
            r matches Some(t) ==> exists|k: int|
                0 <= k < self.signatures@.len() && #[trigger] self.signatures@[k] == (key, t) && forall|j: int|
                    0 <= j < k ==> self.signatures@[j].0 != key,
            r is None ==> forall|k: int| 0 <= k < self.signatures@.len() ==> self.signatures@[k].0 != key,
    {
        let mut k: usize = 0;
        while k < self.signatures.len()
            invariant
                self.wf(),
                k <= self.signatures@.len(),
                forall|j: int| 0 <= j < k ==> self.signatures@[j].0 != key,
            decreases self.signatures@.len() - k,
        {
            let (sk, t) = self.signatures[k];
            if sk.0 == key.0 && sk.1 == key.1 && sk.2 == key.2 {
                proof {
                    assert(self.signatures@[k as int] == (key, t));
                }
                return Some(t);
            }
            k = k + 1;
        }
        None
    }

    /// File `term` under a signature, replacing any earlier entry; the earlier
    /// term, if there was one.
    fn set_signature(&mut self, key: (Tag, usize, usize), term: usize) -> (r: Option<usize>)
        requires
            old(self).wf(),
            term < old(self).size(),
        ensures
            final(self).wf(),
            final(self).size() == old(self).size(),
            final(self).reverse@ == old(self).reverse@,
            r matches Some(t) ==> t < final(self).size(),
            final(self).parent@ == old(self).parent@,
            final(self).level@ == old(self).level@,
            final(self).top@ == old(self).top@,
            final(self).uses@ == old(self).uses@,
            final(self).pending@ == old(self).pending@,
            r matches Some(t) ==> exists|k: int|
                0 <= k < old(self).signatures@.len() && #[trigger] old(self).signatures@[k] == (key, t) && (
                forall|j: int| 0 <= j < k ==> old(self).signatures@[j].0 != key) && final(self).signatures@
                    == old(self).signatures@.update(k, (key, term)),
            r is None ==> (forall|k: int| 0 <= k < old(self).signatures@.len() ==> old(self).signatures@[k].0 != key)
                && final(self).signatures@ == old(self).signatures@.push((key, term)),
        old(self).coarsens(*final(self)),
    {
        let mut k: usize = 0;
        while k < self.signatures.len()
            invariant
                self.wf(),
                self.reverse@ == old(self).reverse@,
                self.parent@ == old(self).parent@,
                self.level@ == old(self).level@,
                self.top@ == old(self).top@,
                self.uses@ == old(self).uses@,
                self.pending@ == old(self).pending@,
                self.signatures@ == old(self).signatures@,
                term < self.size(),
                k <= self.signatures@.len(),
                forall|j: int| 0 <= j < k ==> self.signatures@[j].0 != key,
            decreases self.signatures@.len() - k,
        {
            let (sk, t) = self.signatures[k];
            if sk.0 == key.0 && sk.1 == key.1 && sk.2 == key.2 {
                proof {
                    assert(old(self).signatures@[k as int] == (key, t));
                }
                self.signatures.set(k, (key, term));
                proof {
                    old(self).lemma_coarsens_same_roots(*self);
                }
                return Some(t);
            }
            k = k + 1;
        }
        self.signatures.push((key, term));
        proof {
            old(self).lemma_coarsens_same_roots(*self);
        }
        None
    }

    /// Record a use of class `root` by function node `term`.
    fn add_use(&mut self, root: usize, entry: (usize, usize, Tag))
        requires
            old(self).wf(),
            root < old(self).size(),
            entry.0 < old(self).size(),
            entry.1 < old(self).size(),
        ensures
            final(self).wf(),
            final(self).size() == old(self).size(),
            final(self).reverse@ == old(self).reverse@,
            final(self).parent@ == old(self).parent@,
            final(self).level@ == old(self).level@,
            final(self).top@ == old(self).top@,
            final(self).signatures@ == old(self).signatures@,
            final(self).pending@ == old(self).pending@,
            final(self).uses@.len() == old(self).uses@.len(),
            final(self).uses@[root as int]@ == old(self).uses@[root as int]@.push(entry),
            forall|i: int| 0 <= i < old(self).uses@.len() && i != root ==> #[trigger] final(self).uses@[i] == old(self).uses@[i],
        old(self).coarsens(*final(self)),
    {
        let mut list: Vec<(usize, usize, Tag)> = Vec::new();
        let mut k: usize = 0;
        while k < self.uses[root].len()
            invariant
                self.wf(),
                root < self.size(),
                k <= self.uses@[root as int]@.len(),
                list@.len() == k,
                forall|j: int| 0 <= j < k ==> (#[trigger] list@[j]) == self.uses@[root as int]@[j],
            decreases self.uses@[root as int]@.len() - k,
        {
            list.push(self.uses[root][k]);
            k = k + 1;
        }
        list.push(entry);
        let ghost n = self.size();
        self.uses.set(root, list);
        proof {
            assert forall|i: int, k: int|
                0 <= i < n && 0 <= k < self.uses@[i]@.len() implies (#[trigger] self.uses@[i]@[k]).0 < n
                    && self.uses@[i]@[k].1 < n by {
                if i == root as int {
                    if k < list@.len() - 1 {
                        assert(self.uses@[i]@[k] == old(self).uses@[root as int]@[k]);
                    }
                } else {
                    assert(self.uses@[i] == old(self).uses@[i]);
                }
            }
            old(self).lemma_coarsens_same_roots(*self);
        }
    }

    /// File a fresh function node in its children's use lists and the
    /// signature table, merging on a collision.
    fn install_function_node(&mut self, id: usize, a: usize, b: usize, tag: Tag)
        requires
            old(self).wf(),
            id < old(self).size(),
            a < old(self).size(),
            b < old(self).size(),
        ensures
            final(self).wf(),
            final(self).size() == old(self).size(),
            final(self).reverse@ == old(self).reverse@,
            ({
                let ra = old(self).root(a as int);
                let rb = old(self).root(b as int);
                let key = (tag, ra as usize, rb as usize);
                &&& final(self).uses@.len() == old(self).uses@.len()
                &&& final(self).uses@[ra]@ == old(self).uses@[ra]@.push((id, b, tag))
                &&& ra != rb ==> final(self).uses@[rb]@ == old(self).uses@[rb]@.push((id, a, tag))
                &&& forall|i: int|
                    0 <= i < old(self).uses@.len() && i != ra && i != rb ==> #[trigger] final(self).uses@[i]
                        == old(self).uses@[i]
                &&& (forall|k: int| 0 <= k < old(self).signatures@.len() ==> old(self).signatures@[k].0 != key) ==> {
                    &&& final(self).signatures@ == old(self).signatures@.push((key, id))
                    &&& final(self).pending@ == old(self).pending@
                    &&& forall|y: int| 0 <= y < old(self).size() ==> #[trigger] final(self).root(y) == old(self).root(y)
                }
                &&& forall|k: int|
                    0 <= k < old(self).signatures@.len() && #[trigger] old(self).signatures@[k].0 == key && (forall|j: int|
                        0 <= j < k ==> old(self).signatures@[j].0 != key) ==> forall|y: int|
                        0 <= y < old(self).size() ==> #[trigger] final(self).root(y) == if old(self).root(y) == old(
                            self,
                        ).root(id as int) {
                            old(self).root(old(self).signatures@[k].1 as int)
                        } else {
                            old(self).root(y)
                        }
            }),
            old(self).coarsens(*final(self)),
    {
        let ghost before = *self;
        let ra = self.find(a);
        let ghost s1 = *self;
        let rb = self.find(b);
        let ghost s2 = *self;
        proof {
            assert(s1.root(b as int) == before.root(b as int));
        }
        self.add_use(ra, (id, b, tag));
        let ghost s3 = *self;
        if ra != rb {
            self.add_use(rb, (id, a, tag));
        }
        let ghost s4 = *self;
        proof {
            assert forall|y: int| 0 <= y < before.size() implies #[trigger] s4.root(y) == before.root(y) by {
                assert(s4.root(y) == s2.root(y));
                assert(s2.root(y) == s1.root(y));
                assert(s1.root(y) == before.root(y));
            }
            assert(s2.uses@ == before.uses@);
        }
        match self.set_signature((tag, ra, rb), id) {
            Some(existing) => {
                let ghost s5 = *self;
                proof {
                    assert forall|k: int|
                        0 <= k < before.signatures@.len() && #[trigger] before.signatures@[k].0 == (tag, ra, rb) && (forall|j: int|
                            0 <= j < k ==> before.signatures@[j].0 != (tag, ra, rb)) implies before.signatures@[k].1 == existing by {
                        let k2 = choose|k2: int|
                            0 <= k2 < s4.signatures@.len() && #[trigger] s4.signatures@[k2] == ((tag, ra, rb), existing) && (
                            forall|j: int| 0 <= j < k2 ==> s4.signatures@[j].0 != (tag, ra, rb));
                        if k < k2 {
                        } else if k2 < k {
                        }
                    }
                    assert forall|y: int| 0 <= y < before.size() implies #[trigger] s5.root(y) == before.root(y) by {
                        assert(s5.root(y) == s4.root(y));
                    }
                }
                self.merge(id, existing);
                let ghost s6 = *self;
                let ra_post = self.find(a);
                let ghost s7 = *self;
                let rb_post = self.find(b);
                let ghost s8 = *self;
                let root_post = self.find(existing);
                let ghost s9 = *self;
                let _ = self.set_signature((tag, ra_post, rb_post), root_post);
                proof {
                    assert forall|y: int| 0 <= y < before.size() implies #[trigger] self.root(y) == s6.root(y) by {
                        assert(self.root(y) == s9.root(y));
                        assert(s9.root(y) == s8.root(y));
                        assert(s8.root(y) == s7.root(y));
                        assert(s7.root(y) == s6.root(y));
                    }
                    assert(s5.root(id as int) == before.root(id as int));
                    assert(s5.root(existing as int) == before.root(existing as int));
                    assert forall|y: int| 0 <= y < before.size() implies #[trigger] self.root(y) == if before.root(y)
                        == before.root(id as int) {
                        before.root(existing as int)
                    } else {
                        before.root(y)
                    } by {
                        assert(s5.root(y) == before.root(y));
                    }
                    before.lemma_coarsens_merge(*self, id as int, existing as int);
                }
            },
            None => {
                proof {
                    assert forall|y: int| 0 <= y < before.size() implies #[trigger] self.root(y) == before.root(y) by {
                        assert(self.root(y) == s4.root(y));
                    }
                    before.lemma_coarsens_same_roots(*self);
                }
            },
        }
    }

    /// Hash-cons `expr` into the term graph, returning its id; a congruent
    /// function node already filed merges with it.
    fn add_term(&mut self, expr: &PropExpr<G>) -> (r: usize)
        requires
            old(self).wf(),
            gens_are_structural::<G>(),
        ensures
            final(self).wf(),
            final(self).size() >= old(self).size(),
            r < final(self).size(),
            forall|i: int| 0 <= i < old(self).size() ==> final(self).reverse@[i] == old(self).reverse@[i],
            old(self).keeps_terms(*final(self)),
            old(self).coarsens(*final(self)),
            final(self).denotes(r as int, *expr),
        decreases expr,
    {
        let ghost s0 = *self;
        let node = match expr {
            PropExpr::Identity(n) => Node::Identity(*n),
            PropExpr::Braid(m, n) => Node::Braid(*m, *n),
            PropExpr::Generator(g) => Node::Generator(*g),
            PropExpr::Compose(f, g) => {
                let f_id = self.add_term(f);
                let ghost s1 = *self;
                let g_id = self.add_term(g);
                proof {
                    s1.lemma_denotes_kept(*self, f_id as int, **f);
                    lemma_coarsens_trans(s0, s1, *self);
                }
                Node::Compose(f_id, g_id)
            },
            PropExpr::Tensor(f, g) => {
                let f_id = self.add_term(f);
                let ghost s1 = *self;
                let g_id = self.add_term(g);
                proof {
                    s1.lemma_denotes_kept(*self, f_id as int, **f);
                    lemma_coarsens_trans(s0, s1, *self);
                }
                Node::Tensor(f_id, g_id)
            },
        };
        let ghost s2 = *self;
        proof {
            assert(s0.keeps_terms(s2));
            if s2 == s0 {
                s0.lemma_coarsens_same_roots(s2);
            }
        }
        match self.lookup(&node) {
            Some(id) => {
                proof {
                    assert(self.denotes(id as int, *expr));
                }
                return id;
            },
            None => {},
        }
        let id = self.reverse.len();
        let ghost before = self.reverse@;
        self.parent.push(id);
        self.uses.push(Vec::new());
        self.reverse.push(node);
        proof {
            self.level@ = self.level@.push(0);
            let n = self.reverse@.len();
            assert(children_before(node, id as int));
            assert forall|i: int| 0 <= i < n implies children_before(#[trigger] self.reverse@[i], i) by {
                if i < id {
                    assert(self.reverse@[i] == before[i]);
                }
            }
            assert forall|i: int, k: int|
                0 <= i < n && 0 <= k < self.uses@[i]@.len() implies (#[trigger] self.uses@[i]@[k]).0 < n
                    && self.uses@[i]@[k].1 < n by {}
        }
        let ghost s3 = *self;
        proof {
            assert(s2.keeps_terms(s3));
            assert(forest_ok(s2.parent@, s2.level@, s2.top@));
            assert(s3.parent@ == s2.parent@.push(s2.parent@.len() as usize));
            assert(s3.level@ == s2.level@.push(0));
            assert forall|y: int| 0 <= y < s2.size() implies #[trigger] s3.root(y) == s2.root(y) by {
                lemma_push_keeps_roots(s2.parent@, s2.level@, s2.top@, y);
            }
            s2.lemma_coarsens_same_roots(s3);
            lemma_coarsens_trans(s0, s2, s3);
            match expr {
                PropExpr::Compose(f, g) => {
                    if let Node::Compose(x, y) = node {
                        s2.lemma_denotes_kept(s3, x as int, **f);
                        s2.lemma_denotes_kept(s3, y as int, **g);
                    }
                },
                PropExpr::Tensor(f, g) => {
                    if let Node::Tensor(x, y) = node {
                        s2.lemma_denotes_kept(s3, x as int, **f);
                        s2.lemma_denotes_kept(s3, y as int, **g);
                    }
                },
                _ => {},
            }
            assert(s3.denotes(id as int, *expr));
        }
        match node {
            Node::Compose(a, b) => self.install_function_node(id, a, b, Tag::Compose),
            Node::Tensor(a, b) => self.install_function_node(id, a, b, Tag::Tensor),
            _ => {},
        }
        proof {
            assert(s3.keeps_terms(*self));
            s3.lemma_denotes_kept(*self, id as int, *expr);
            if *self == s3 {
                s3.lemma_coarsens_same_roots(*self);
            }
            lemma_coarsens_trans(s0, s3, *self);
        }
        id
    }

    /// Drain the pending merges: re-probe the signature of every function
    /// node using a losing class, merging on a collision and re-filing the use
    /// under the winning roots. Then re-file every function node until a pass
    /// merges nothing, which leaves the classes closed under congruence.
    fn propagate(&mut self)
        requires
            old(self).wf(),
        ensures
            final(self).wf(),
            final(self).size() == old(self).size(),
            final(self).reverse@ == old(self).reverse@,
            old(self).coarsens(*final(self)),
            final(self).congruence_closed(),
    {
        broadcast use lemma_coarsens_trans;

        proof {
            old(self).lemma_coarsens_same_roots(*old(self));
        }
        let mut fuel: usize = NF_FUEL;
        while fuel > 0
            invariant
                self.wf(),
                self.reverse@ == old(self).reverse@,
                old(self).coarsens(*self),
            decreases fuel,
        {
            fuel = fuel - 1;
            let (losing, _winning) = match self.pending.pop() {
                Some(pair) => pair,
                None => {
                    break;
                },
            };
            let mut losing_uses: Vec<(usize, usize, Tag)> = Vec::new();
            let mut k: usize = 0;
            while k < self.uses[losing].len()
                invariant
                    self.wf(),
                    losing < self.size(),
                    k <= self.uses@[losing as int]@.len(),
                    forall|j: int| 0 <= j < losing_uses@.len() ==> (#[trigger] losing_uses@[j]).0 < self.size(),
                    self.reverse@ == old(self).reverse@,
                    old(self).coarsens(*self),
                decreases self.uses@[losing as int]@.len() - k,
            {
                losing_uses.push(self.uses[losing][k]);
                k = k + 1;
            }
            let ghost pre = *self;
            self.uses.set(losing, Vec::new());
            proof {
                pre.lemma_coarsens_same_roots(*self);
                let n = self.size();
                assert forall|i: int, k: int|
                    0 <= i < n && 0 <= k < self.uses@[i]@.len() implies (#[trigger] self.uses@[i]@[k]).0 < n
                        && self.uses@[i]@[k].1 < n by {}
            }
            let mut u: usize = 0;
            while u < losing_uses.len()
                invariant
                    self.wf(),
                    self.reverse@ == old(self).reverse@,
                    forall|j: int| 0 <= j < losing_uses@.len() ==> (#[trigger] losing_uses@[j]).0 < self.size(),
                    old(self).coarsens(*self),
                decreases losing_uses@.len() - u,
            {
                let (term, _other, tag) = losing_uses[u];
                let (a, b) = match self.reverse[term] {
                    Node::Compose(a, b) => (a, b),
                    Node::Tensor(a, b) => (a, b),
                    _ => {
                        u = u + 1;
                        continue;
                    },
                };
                proof {
                    assert(children_before(self.reverse@[term as int], term as int));
                }
                let ra = self.find(a);
                let rb = self.find(b);
                let key = (tag, ra, rb);
                match self.signature_of(key) {
                    Some(canonical) => {
                        let rc = self.find(canonical);
                        let rt = self.find(term);
                        if rc != rt {
                            self.merge(term, canonical);
                        }
                    },
                    None => {
                        let _ = self.set_signature(key, term);
                    },
                }
                let root_a = self.find(a);
                let root_b = self.find(b);
                self.add_use(root_a, (term, b, tag));
                if root_a != root_b {
                    self.add_use(root_b, (term, a, tag));
                }
                u = u + 1;
            }
        }
        let mut done = false;
        while !done
            invariant
                self.wf(),
                self.reverse@ == old(self).reverse@,
                old(self).coarsens(*self),
                done ==> self.congruence_closed(),
            decreases (if done {
                0
            } else {
                self.class_count() + 1
            }),
        {
            if !self.refile_all() {
                done = true;
            }
        }
    }

    /// Re-file every function node under its current signature, merging it
    /// with the node already filed there when their classes differ; whether
    /// any merge happened. A pass without a merge leaves the classes closed
    /// under congruence; one with a merge leaves fewer classes.
    fn refile_all(&mut self) -> (changed: bool)
        requires
            old(self).wf(),
        ensures
            final(self).wf(),
            final(self).reverse@ == old(self).reverse@,
            old(self).coarsens(*final(self)),
            changed ==> final(self).class_count() < old(self).class_count(),
            !changed ==> final(self).congruence_closed(),
    {
        broadcast use lemma_coarsens_trans;

        proof {
            old(self).lemma_coarsens_same_roots(*old(self));
        }
        let n = self.reverse.len();
        let mut changed = false;
        let mut t: usize = 0;
        while t < n
            invariant
                self.wf(),
                self.reverse@ == old(self).reverse@,
                n == self.size(),
                t <= n,
                old(self).coarsens(*self),
                !changed ==> forall|y: int| 0 <= y < n ==> #[trigger] self.root(y) == old(self).root(y),
                !changed ==> forall|i: int|
                    0 <= i < t && Self::is_function(self.reverse@[i]) ==> #[trigger] self.filed(i),
                changed ==> self.class_count() < old(self).class_count(),
            decreases n - t,
        {
            let (a, b, tag) = match self.reverse[t] {
                Node::Compose(a, b) => (a, b, Tag::Compose),
                Node::Tensor(a, b) => (a, b, Tag::Tensor),
                _ => {
                    t = t + 1;
                    continue;
                },
            };
            let ghost st = *self;
            proof {
                assert(children_before(self.reverse@[t as int], t as int));
            }
            let ra = self.find(a);
            let ghost s1 = *self;
            let rb = self.find(b);
            let ghost s2 = *self;
            proof {
                assert(s1.root(b as int) == st.root(b as int));
                assert(self.sig_key(t as int) == (tag, ra, rb));
            }
            let mut merged = false;
            match self.signature_of((tag, ra, rb)) {
                Some(canonical) => {
                    let rc = self.find(canonical);
                    let ghost s3 = *self;
                    let rt = self.find(t);
                    let ghost s4 = *self;
                    proof {
                        assert(s3.root(t as int) == s2.root(t as int));
                        assert forall|y: int| 0 <= y < n implies #[trigger] s4.root(y) == st.root(y) by {
                            assert(s4.root(y) == s3.root(y));
                            assert(s3.root(y) == s2.root(y));
                            assert(s2.root(y) == s1.root(y));
                            assert(s1.root(y) == st.root(y));
                        }
                        st.lemma_roots_below_same(s4, n as int);
                    }
                    if rc != rt {
                        self.merge(t, canonical);
                        merged = true;
                        proof {
                            s4.lemma_roots_below_merge(*self, t as int, canonical as int, n as int);
                        }
                    } else {
                        proof {
                            assert(self.sig_key(t as int) == (tag, ra, rb));
                            assert(self.filed(t as int));
                        }
                    }
                },
                None => {
                    let ghost s3 = *self;
                    let _ = self.set_signature((tag, ra, rb), t);
                    proof {
                        assert forall|y: int| 0 <= y < n implies #[trigger] self.root(y) == st.root(y) by {
                            assert(self.root(y) == s3.root(y));
                            assert(s2.root(y) == s1.root(y));
                            assert(s1.root(y) == st.root(y));
                        }
                        st.lemma_roots_below_same(*self, n as int);
                        assert(self.sig_key(t as int) == (tag, ra, rb));
                        assert(self.signatures@[s3.signatures@.len() as int] == ((tag, ra, rb), t));
                        assert(s3.signatures@ == st.signatures@);
                        assert(forall|k: int| 0 <= k < st.signatures@.len() ==> #[trigger] self.signatures@[k] == st.signatures@[k]);
                        assert(self.filed(t as int));
                    }
                },
            }
            proof {
                assert(self.class_count() <= st.class_count());
                assert(merged ==> self.class_count() < st.class_count());
                if !changed {
                    old(self).lemma_roots_below_same(st, n as int);
                }
                if !merged && !changed {
                    assert(forall|y: int| 0 <= y < n ==> #[trigger] self.root(y) == st.root(y));
                    assert(self.filed(t as int));
                    assert(self.signatures@.len() >= st.signatures@.len());
                    assert(forall|k: int| 0 <= k < st.signatures@.len() ==> #[trigger] self.signatures@[k] == st.signatures@[k]);
                    assert forall|i: int|
                        0 <= i < t + 1 && Self::is_function(self.reverse@[i]) implies #[trigger] self.filed(i) by {
                        if i < t {
                            st.lemma_filed_kept(*self, i);
                        }
                    }
                }
            }
            if merged {
                changed = true;
            }
            t = t + 1;
        }
        proof {
            if !changed {
                self.lemma_all_filed_closed();
            }
        }
        changed
    }

    /// The preferred atom of `id`'s class: lowest kind (identity, braid,
    /// generator), then smallest id; `None` when the class holds no atom.
    fn atom_canonical(&mut self, id: usize) -> (r: Option<Node<G>>)
        requires
            old(self).wf(),
            id < old(self).size(),
        ensures
            final(self).wf(),
            final(self).size() == old(self).size(),
            final(self).reverse@ == old(self).reverse@,
            r matches Some(n) ==> !(n is Compose) && !(n is Tensor),
            forall|y: int| 0 <= y < old(self).size() ==> #[trigger] final(self).root(y) == old(self).root(y),
            r is None <==> !exists|i: int| #[trigger] old(self).atom_of_class(id as int, i),
            r matches Some(n) ==> exists|i: int| #[trigger] old(self).atom_of_class(id as int, i)
                && n == old(self).reverse@[i] && forall|j: int| #[trigger] old(self).atom_of_class(id as int, j) ==> (
                node_kind(n) < node_kind(old(self).reverse@[j]) || (node_kind(n) == node_kind(old(self).reverse@[j])
                    && i <= j)),
    {
        let ghost s0 = *self;
        let root = self.find(id);
        let mut best: Option<(u8, usize)> = None;
        let mut candidate: usize = 0;
        while candidate < self.reverse.len()
            invariant
                self.wf(),
                self.reverse@ == old(self).reverse@,
                s0 == *old(self),
                root == s0.root(id as int),
                candidate <= self.size(),
                forall|y: int| 0 <= y < s0.size() ==> #[trigger] self.root(y) == s0.root(y),
                best matches Some((_, i)) ==> i < self.size() && !(self.reverse@[i as int] is Compose)
                    && !(self.reverse@[i as int] is Tensor),
                best matches Some((bk, bi)) ==> {
                    &&& bi < candidate
                    &&& s0.atom_of_class(id as int, bi as int)
                    &&& bk == node_kind(s0.reverse@[bi as int])
                    &&& forall|j: int| 0 <= j < candidate && #[trigger] s0.atom_of_class(id as int, j) ==> (bk < node_kind(
                        s0.reverse@[j],
                    ) || (bk == node_kind(s0.reverse@[j]) && bi <= j))
                },
                best is None ==> forall|j: int| 0 <= j < candidate ==> !#[trigger] s0.atom_of_class(id as int, j),
            decreases self.reverse@.len() - candidate,
        {
            let ghost pre = *self;
            let kind: u8 = match self.reverse[candidate] {
                Node::Identity(_) => 0,
                Node::Braid(_, _) => 1,
                Node::Generator(_) => 2,
                Node::Compose(_, _) => 3,
                Node::Tensor(_, _) => 4,
            };
            proof {
                assert(kind == node_kind(s0.reverse@[candidate as int]));
            }
            if kind < 3 {
                let rc = self.find(candidate);
                proof {
                    assert(rc == pre.root(candidate as int));
                    assert(pre.root(candidate as int) == s0.root(candidate as int));
                    assert forall|y: int| 0 <= y < s0.size() implies #[trigger] self.root(y) == s0.root(y) by {
                        assert(self.root(y) == pre.root(y));
                    }
                    assert((rc == root) == s0.atom_of_class(id as int, candidate as int));
                }
                if rc == root {
                    let better = match best {
                        None => true,
                        Some((bk, bi)) => kind < bk || (kind == bk && candidate < bi),
                    };
                    if better {
                        best = Some((kind, candidate));
                    }
                }
            } else {
                proof {
                    assert(!s0.atom_of_class(id as int, candidate as int));
                }
            }
            candidate = candidate + 1;
        }
        match best {
            Some((_, idx)) => Some(self.reverse[idx]),
            None => None,
        }
    }

    /// The node of term `i`.
    pub closed spec fn term_node(&self, i: int) -> Node<G> {
        self.reverse@[i]
    }

    /// Term `i` is the preferred atom of `id`'s class: no atom of the class
    /// has a lower kind, or the same kind and a smaller id.
    closed spec fn preferred_atom(&self, id: int, i: int) -> bool {
        &&& self.atom_of_class(id, i)
        &&& forall|j: int| #[trigger] self.atom_of_class(id, j) ==> (node_kind(self.reverse@[i]) < node_kind(
            self.reverse@[j],
        ) || (node_kind(self.reverse@[i]) == node_kind(self.reverse@[j]) && i <= j))
    }

    /// `id`'s term with its class's preferred atom substituted wherever the
    /// class holds one.
    closed spec fn canonical_expr(&self, id: int) -> PropExpr<G>
        decreases id,
        when self.wf() && 0 <= id < self.size()
    {
        if exists|i: int| self.preferred_atom(id, i) {
            let i = choose|i: int| self.preferred_atom(id, i);
            atom_expr(self.reverse@[i])
        } else {
            match self.reverse@[id] {
                Node::Compose(a, b) => PropExpr::Compose(
                    Box::new(self.canonical_expr(a as int)),
                    Box::new(self.canonical_expr(b as int)),
                ),
                Node::Tensor(a, b) => PropExpr::Tensor(
                    Box::new(self.canonical_expr(a as int)),
                    Box::new(self.canonical_expr(b as int)),
                ),
                n => atom_expr(n),
            }
        }
    }

    /// Two well-formed states with the same terms and the same classes give
    /// every term the same canonical expression.
    proof fn lemma_canonical_expr_stable(&self, other: &Self, id: int)
        requires
            self.wf(),
            other.wf(),
            self.reverse@ == other.reverse@,
            forall|y: int| 0 <= y < self.size() ==> #[trigger] other.root(y) == self.root(y),
            0 <= id < self.size(),
        ensures
            other.canonical_expr(id) == self.canonical_expr(id),
        decreases id,
    {
        assert(other.root(id) == self.root(id));
        assert forall|j: int| #[trigger] other.atom_of_class(id, j) == self.atom_of_class(id, j) by {
            if 0 <= j < self.size() {
                assert(other.root(j) == self.root(j));
            }
        }
        assert forall|i: int| #[trigger] other.preferred_atom(id, i) == self.preferred_atom(id, i) by {
            assert(other.atom_of_class(id, i) == self.atom_of_class(id, i));
            if self.preferred_atom(id, i) {
                assert forall|j: int| #[trigger] other.atom_of_class(id, j) implies (node_kind(other.reverse@[i]) < node_kind(
                    other.reverse@[j],
                ) || (node_kind(other.reverse@[i]) == node_kind(other.reverse@[j]) && i <= j)) by {
                    assert(self.atom_of_class(id, j));
                }
            }
            if other.preferred_atom(id, i) {
                assert forall|j: int| #[trigger] self.atom_of_class(id, j) implies (node_kind(self.reverse@[i]) < node_kind(
                    self.reverse@[j],
                ) || (node_kind(self.reverse@[i]) == node_kind(self.reverse@[j]) && i <= j)) by {
                    assert(other.atom_of_class(id, j));
                }
            }
        }
        if exists|i: int| self.preferred_atom(id, i) {
            let i1 = choose|i: int| other.preferred_atom(id, i);
            let i2 = choose|i: int| self.preferred_atom(id, i);
            assert(other.preferred_atom(id, i2));
            assert(self.preferred_atom(id, i1));
            assert(self.atom_of_class(id, i1) && self.atom_of_class(id, i2));
            assert(i1 == i2);
        }
        assert(children_before(self.reverse@[id], id));
        match self.reverse@[id] {
            Node::Compose(a, b) => {
                self.lemma_canonical_expr_stable(other, a as int);
                self.lemma_canonical_expr_stable(other, b as int);
            },
            Node::Tensor(a, b) => {
                self.lemma_canonical_expr_stable(other, a as int);
                self.lemma_canonical_expr_stable(other, b as int);
            },
            _ => {},
        }
    }

    /// Term `i` is an atom (an identity, braid or generator node) in the class
    /// of term `id`.
    pub closed spec fn atom_of_class(&self, id: int, i: int) -> bool {
        &&& 0 <= i < self.size()
        &&& self.root(i) == self.root(id)
        &&& node_kind(self.reverse@[i]) < 3
    }

    /// Rebuild `id`'s term with an atom representative substituted at every
    /// position whose class holds an atom.
    fn term_to_canonical_expr(&mut self, id: usize) -> (r: PropExpr<G>)
        requires
            old(self).wf(),
            id < old(self).size(),
        ensures
            final(self).wf(),
            final(self).size() == old(self).size(),
            final(self).reverse@ == old(self).reverse@,
            forall|y: int| 0 <= y < old(self).size() ==> #[trigger] final(self).root(y) == old(self).root(y),
            r == old(self).canonical_expr(id as int),
        decreases id,
    {
        let ghost s0 = *self;
        let found = self.atom_canonical(id);
        let ghost s1 = *self;
        proof {
            match found {
                Some(n) => {
                    let w = choose|i: int| #[trigger] s0.atom_of_class(id as int, i) && n == s0.reverse@[i] && forall|j: int|
                        #[trigger] s0.atom_of_class(id as int, j) ==> (node_kind(n) < node_kind(s0.reverse@[j]) || (
                        node_kind(n) == node_kind(s0.reverse@[j]) && i <= j));
                    assert(s0.preferred_atom(id as int, w));
                    let c = choose|i: int| s0.preferred_atom(id as int, i);
                    assert(s0.atom_of_class(id as int, c));
                    assert(s0.atom_of_class(id as int, w));
                    assert(c == w);
                    assert(s0.canonical_expr(id as int) == atom_expr(n));
                },
                None => {
                    assert(!exists|i: int| s0.preferred_atom(id as int, i));
                },
            }
        }
        match found {
            Some(Node::Identity(n)) => {
                return PropExpr::Identity(n);
            },
            Some(Node::Braid(m, n)) => {
                return PropExpr::Braid(m, n);
            },
            Some(Node::Generator(g)) => {
                return PropExpr::Generator(g);
            },
            _ => {},
        }
        proof {
            assert(children_before(self.reverse@[id as int], id as int));
            assert(found is None);
        }
        match self.reverse[id] {
            Node::Identity(n) => PropExpr::Identity(n),
            Node::Braid(m, n) => PropExpr::Braid(m, n),
            Node::Generator(g) => PropExpr::Generator(g),
            Node::Compose(a, b) => {
                let ea = self.term_to_canonical_expr(a);
                let ghost s2 = *self;
                let eb = self.term_to_canonical_expr(b);
                proof {
                    s0.lemma_canonical_expr_stable(&s1, a as int);
                    s0.lemma_canonical_expr_stable(&s2, b as int);
                    assert forall|y: int| 0 <= y < s0.size() implies #[trigger] self.root(y) == s0.root(y) by {
                        assert(self.root(y) == s2.root(y));
                        assert(s2.root(y) == s1.root(y));
                        assert(s1.root(y) == s0.root(y));
                    }
                    assert forall|y: int| 0 <= y < s0.size() implies #[trigger] s2.root(y) == s0.root(y) by {
                        assert(s2.root(y) == s1.root(y));
                        assert(s1.root(y) == s0.root(y));
                    }
                }
                PropExpr::Compose(Box::new(ea), Box::new(eb))
            },
            Node::Tensor(a, b) => {
                let ea = self.term_to_canonical_expr(a);
                let ghost s2 = *self;
                let eb = self.term_to_canonical_expr(b);
                proof {
                    s0.lemma_canonical_expr_stable(&s1, a as int);
                    s0.lemma_canonical_expr_stable(&s2, b as int);
                    assert forall|y: int| 0 <= y < s0.size() implies #[trigger] self.root(y) == s0.root(y) by {
                        assert(self.root(y) == s2.root(y));
                        assert(s2.root(y) == s1.root(y));
                        assert(s1.root(y) == s0.root(y));
                    }
                    assert forall|y: int| 0 <= y < s0.size() implies #[trigger] s2.root(y) == s0.root(y) by {
                        assert(s2.root(y) == s1.root(y));
                        assert(s1.root(y) == s0.root(y));
                    }
                }
                PropExpr::Tensor(Box::new(ea), Box::new(eb))
            },
        }
    }

    /// Merge every term with the normal form of its atom-substituted
    /// reading; whether any new merge happened.
    fn smc_refine(&mut self) -> (progress: bool)
        requires
            old(self).wf(),
            gens_are_structural::<G>(),
        ensures
            final(self).wf(),
            final(self).size() >= old(self).size(),
            old(self).keeps_terms(*final(self)),
            old(self).coarsens(*final(self)),
    {
        broadcast use lemma_coarsens_trans;

        proof {
            old(self).lemma_coarsens_same_roots(*old(self));
        }
        let term_count = self.reverse.len();
        let mut pairs: Vec<(usize, PropExpr<G>)> = Vec::new();
        let mut id: usize = 0;
        while id < term_count
            invariant
                self.wf(),
                self.size() == term_count,
                gens_are_structural::<G>(),
                forall|k: int| 0 <= k < pairs@.len() ==> (#[trigger] pairs@[k]).0 < term_count,
                old(self).keeps_terms(*self),
                old(self).coarsens(*self),
            decreases term_count - id,
        {
            let ghost pre = *self;
            let canon = self.term_to_canonical_expr(id);
            proof {
                pre.lemma_coarsens_same_roots(*self);
            }
            let nf_expr = from_string_diagram(&nf(&canon));
            if !expr_eq(&nf_expr, &canon) {
                pairs.push((id, nf_expr));
            }
            id = id + 1;
        }
        let mut progress = false;
        let mut k: usize = 0;
        while k < pairs.len()
            invariant
                self.wf(),
                self.size() >= term_count,
                gens_are_structural::<G>(),
                forall|k: int| 0 <= k < pairs@.len() ==> (#[trigger] pairs@[k]).0 < term_count,
                old(self).keeps_terms(*self),
                old(self).coarsens(*self),
            decreases pairs@.len() - k,
        {
            let id = pairs[k].0;
            let new_id = self.add_term(&pairs[k].1);
            let r1 = self.find(id);
            let r2 = self.find(new_id);
            if r1 != r2 {
                self.merge(id, new_id);
                progress = true;
            }
            k = k + 1;
        }
        progress
    }

    /// Propagate and refine until a refinement merges nothing, at most
    /// [`SAFETY_BOUND`] rounds; then propagate what the last refinement
    /// added, so the classes end closed under congruence.
    fn propagate_fixpoint(&mut self)
        requires
            old(self).wf(),
            gens_are_structural::<G>(),
        ensures
            final(self).wf(),
            final(self).size() >= old(self).size(),
            old(self).keeps_terms(*final(self)),
            old(self).coarsens(*final(self)),
            final(self).congruence_closed(),
    {
        broadcast use lemma_coarsens_trans;

        proof {
            old(self).lemma_coarsens_same_roots(*old(self));
        }
        let mut round: usize = 0;
        while round < SAFETY_BOUND
            invariant
                self.wf(),
                self.size() >= old(self).size(),
                gens_are_structural::<G>(),
                old(self).keeps_terms(*self),
                old(self).coarsens(*self),
            decreases SAFETY_BOUND - round,
        {
            self.propagate();
            if !self.smc_refine() {
                break;
            }
            round = round + 1;
        }
        self.propagate();
    }

    /// An engine seeded with `equations`: both sides of each are added and
    /// merged, then congruence is propagated to a fixpoint.
    pub fn new(equations: &[(PropExpr<G>, PropExpr<G>)]) -> (r: Self)
        requires
            gens_are_structural::<G>(),
        ensures
            r.wf(),
            forall|k: int| 0 <= k < equations@.len() ==> #[trigger] r.equates(equations@[k].0, equations@[k].1),
            r.congruence_closed(),
    {
        let mut engine = CongruenceClosure {
            reverse: Vec::new(),
            parent: Vec::new(),
            level: Ghost(Seq::empty()),
            top: Ghost(0),
            uses: Vec::new(),
            signatures: Vec::new(),
            pending: Vec::new(),
        };
        let mut seeds: Vec<(usize, usize)> = Vec::new();
        let mut i: usize = 0;
        while i < equations.len()
            invariant
                engine.wf(),
                gens_are_structural::<G>(),
                i <= equations@.len(),
                seeds@.len() == i,
                forall|k: int| 0 <= k < seeds@.len() ==> (#[trigger] seeds@[k]).0 < engine.size() && seeds@[k].1 < engine.size(),
                forall|k: int|
                    0 <= k < seeds@.len() ==> engine.denotes((#[trigger] seeds@[k]).0 as int, equations@[k].0)
                        && engine.denotes(seeds@[k].1 as int, equations@[k].1),
            decreases equations@.len() - i,
        {
            let ghost e0 = engine;
            let l = engine.add_term(&equations[i].0);
            let ghost e1 = engine;
            let r = engine.add_term(&equations[i].1);
            let ghost old_seeds = seeds@;
            seeds.push((l, r));
            proof {
                e1.lemma_denotes_kept(engine, l as int, equations@[i as int].0);
                assert forall|k: int|
                    0 <= k < seeds@.len() implies engine.denotes((#[trigger] seeds@[k]).0 as int, equations@[k].0)
                        && engine.denotes(seeds@[k].1 as int, equations@[k].1) by {
                    if k < old_seeds.len() {
                        assert(seeds@[k] == old_seeds[k]);
                        e0.lemma_denotes_kept(e1, seeds@[k].0 as int, equations@[k].0);
                        e1.lemma_denotes_kept(engine, seeds@[k].0 as int, equations@[k].0);
                        e0.lemma_denotes_kept(e1, seeds@[k].1 as int, equations@[k].1);
                        e1.lemma_denotes_kept(engine, seeds@[k].1 as int, equations@[k].1);
                    }
                }
            }
            i = i + 1;
        }
        let mut k: usize = 0;
        while k < seeds.len()
            invariant
                engine.wf(),
                gens_are_structural::<G>(),
                k <= seeds@.len(),
                seeds@.len() == equations@.len(),
                forall|j: int| 0 <= j < seeds@.len() ==> (#[trigger] seeds@[j]).0 < engine.size() && seeds@[j].1 < engine.size(),
                forall|j: int|
                    0 <= j < seeds@.len() ==> engine.denotes((#[trigger] seeds@[j]).0 as int, equations@[j].0)
                        && engine.denotes(seeds@[j].1 as int, equations@[j].1),
                forall|j: int| 0 <= j < k ==> engine.root((#[trigger] seeds@[j]).0 as int) == engine.root(seeds@[j].1 as int),
            decreases seeds@.len() - k,
        {
            let ghost e0 = engine;
            engine.merge(seeds[k].0, seeds[k].1);
            proof {
                assert forall|j: int|
                    0 <= j < seeds@.len() implies engine.denotes((#[trigger] seeds@[j]).0 as int, equations@[j].0)
                        && engine.denotes(seeds@[j].1 as int, equations@[j].1) by {
                    e0.lemma_denotes_kept(engine, seeds@[j].0 as int, equations@[j].0);
                    e0.lemma_denotes_kept(engine, seeds@[j].1 as int, equations@[j].1);
                }
                assert forall|j: int| 0 <= j < k + 1 implies engine.root((#[trigger] seeds@[j]).0 as int) == engine.root(
                    seeds@[j].1 as int,
                ) by {
                    if j < k {
                        assert(e0.root(seeds@[j].0 as int) == e0.root(seeds@[j].1 as int));
                    }
                }
            }
            k = k + 1;
        }
        let ghost e1 = engine;
        engine.propagate_fixpoint();
        proof {
            assert forall|j: int| 0 <= j < equations@.len() implies #[trigger] engine.equates(
                equations@[j].0,
                equations@[j].1,
            ) by {
                assert(e1.denotes(seeds@[j].0 as int, equations@[j].0));
                assert(e1.denotes(seeds@[j].1 as int, equations@[j].1));
                assert(e1.root(seeds@[j].0 as int) == e1.root(seeds@[j].1 as int));
                assert(e1.equates(equations@[j].0, equations@[j].1));
                e1.lemma_equates_kept(engine, equations@[j].0, equations@[j].1);
            }
        }
        engine
    }

    /// Hash-cons `expr` into the term graph and return its term id. Exposed
    /// for benchmarking; not a stable interface.
    pub fn add_term_for_bench(&mut self, expr: &PropExpr<G>) -> (r: usize)
        requires
            old(self).wf(),
            gens_are_structural::<G>(),
        ensures
            final(self).wf(),
            final(self).size() >= old(self).size(),
            r < final(self).size(),
    {
        self.add_term(expr)
    }

    /// The preferred atom of term `id`'s class, if it has one. Exposed for
    /// benchmarking; not a stable interface.
    pub fn atom_canonical_for_bench(&mut self, id: usize) -> (r: Option<Node<G>>)
        requires
            old(self).wf(),
            id < old(self).size(),
        ensures
            final(self).wf(),
            final(self).size() == old(self).size(),
            r matches Some(n) ==> !(n is Compose) && !(n is Tensor),
            forall|y: int| 0 <= y < old(self).size() ==> #[trigger] final(self).root(y) == old(self).root(y),
            r is None <==> !exists|i: int| #[trigger] old(self).atom_of_class(id as int, i),
            r matches Some(n) ==> exists|i: int| #[trigger] old(self).atom_of_class(id as int, i)
                && n == old(self).term_node(i) && forall|j: int| #[trigger] old(self).atom_of_class(id as int, j) ==> (
                node_kind(n) < node_kind(old(self).term_node(j)) || (node_kind(n) == node_kind(old(self).term_node(j))
                    && i <= j)),
    {
        self.atom_canonical(id)
    }

    /// Whether `a` and `b` are equal modulo the seeded equations; unseen
    /// subterms are added and congruence re-propagated first.
    pub fn are_equal(&mut self, a: &PropExpr<G>, b: &PropExpr<G>) -> (r: bool)
        requires
            old(self).wf(),
            gens_are_structural::<G>(),
        ensures
            final(self).wf(),
            *a == *b ==> r,
            old(self).equates(*a, *b) ==> r,
            r == final(self).equates(*a, *b),
            forall|x: PropExpr<G>, y: PropExpr<G>| #[trigger] old(self).equates(x, y) ==> final(self).equates(x, y),
            final(self).has_term(*a),
            final(self).has_term(*b),
            forall|e: PropExpr<G>| #[trigger] old(self).has_term(e) ==> final(self).has_term(e),
            final(self).congruence_closed(),
            old(self).congruent_exprs(*a, *b) ==> r,
            final(self).congruent_exprs(*a, *b) ==> r,
    {
        broadcast use lemma_coarsens_trans;

        let a_id = self.add_term(a);
        let ghost s1 = *self;
        let b_id = self.add_term(b);
        let ghost s2 = *self;
        self.propagate_fixpoint();
        let ghost s3 = *self;
        proof {
            s1.lemma_denotes_kept(s2, a_id as int, *a);
            s2.lemma_denotes_kept(*self, a_id as int, *a);
            s2.lemma_denotes_kept(*self, b_id as int, *b);
            if *a == *b {
                self.lemma_denotes_unique(a_id as int, b_id as int, *a);
            }
            if old(self).equates(*a, *b) {
                old(self).lemma_equates_kept(s3, *a, *b);
                let (i, j) = choose|i: int, j: int|
                    #[trigger] s3.denotes(i, *a) && #[trigger] s3.denotes(j, *b) && s3.root(i) == s3.root(j);
                s3.lemma_denotes_unique(i, a_id as int, *a);
                s3.lemma_denotes_unique(j, b_id as int, *b);
            }
        }
        let ra = self.find(a_id);
        let ghost s4 = *self;
        let ghost pa = *a;
        let ghost pb = *b;
        let rb = self.find(b_id);
        proof {
            assert(s3.keeps_terms(s4));
            assert(s4.keeps_terms(*self));
            s3.lemma_denotes_kept(s4, a_id as int, *a);
            s4.lemma_denotes_kept(*self, a_id as int, *a);
            s3.lemma_denotes_kept(s4, b_id as int, *b);
            s4.lemma_denotes_kept(*self, b_id as int, *b);
            assert(self.root(a_id as int) == ra);
            assert(self.root(b_id as int) == rb);
            if ra == rb {
                assert(self.denotes(a_id as int, *a) && self.denotes(b_id as int, *b) && self.root(a_id as int)
                    == self.root(b_id as int));
            }
            if self.equates(*a, *b) {
                let (i, j) = choose|i: int, j: int|
                    #[trigger] self.denotes(i, *a) && #[trigger] self.denotes(j, *b) && self.root(i) == self.root(j);
                self.lemma_denotes_unique(i, a_id as int, *a);
                self.lemma_denotes_unique(j, b_id as int, *b);
            }
            assert forall|x: PropExpr<G>, y: PropExpr<G>| #[trigger] old(self).equates(x, y) implies self.equates(
                x,
                y,
            ) by {
                old(self).lemma_equates_kept(*self, x, y);
            }
            assert forall|e: PropExpr<G>| #[trigger] old(self).has_term(e) implies self.has_term(e) by {
                let i = choose|i: int| #[trigger] old(self).denotes(i, e);
                old(self).lemma_denotes_kept(*self, i, e);
            }
            assert(self.has_term(*a));
            assert(self.has_term(*b));
            s3.lemma_closed_same_roots(*self);
            if old(self).congruent_exprs(*a, *b) {
                match (pa, pb) {
                    (PropExpr::Compose(f1, g1), PropExpr::Compose(f2, g2)) => {
                        old(self).lemma_equates_kept(*self, *f1, *f2);
                        old(self).lemma_equates_kept(*self, *g1, *g2);
                    },
                    (PropExpr::Tensor(f1, g1), PropExpr::Tensor(f2, g2)) => {
                        old(self).lemma_equates_kept(*self, *f1, *f2);
                        old(self).lemma_equates_kept(*self, *g1, *g2);
                    },
                    _ => {},
                }
            }
            if self.congruent_exprs(*a, *b) {
                law_congruence(*self, *a, *b);
            }
        }
        ra == rb
    }
}

/// In a state closed under congruence, `equates` is a congruence on the
/// terms held: two constructions held as terms, with the same constructor
/// over sides equated in pairs, are equated.
pub proof fn law_congruence<G: PropSignature>(s: CongruenceClosure<G>, a: PropExpr<G>, b: PropExpr<G>)
    requires
        s.wf(),
        s.congruence_closed(),
        s.has_term(a),
        s.has_term(b),
        s.congruent_exprs(a, b),
    ensures
        s.equates(a, b),
{
    let i = choose|i: int| #[trigger] s.denotes(i, a);
    let j = choose|j: int| #[trigger] s.denotes(j, b);
    match (a, b) {
        (PropExpr::Compose(f1, g1), PropExpr::Compose(f2, g2)) => {
            if let (Node::Compose(x1, y1), Node::Compose(x2, y2)) = (s.reverse@[i], s.reverse@[j]) {
                lemma_held_sides_equated(s, x1 as int, *f1, x2 as int, *f2);
                lemma_held_sides_equated(s, y1 as int, *g1, y2 as int, *g2);
            }
        },
        (PropExpr::Tensor(f1, g1), PropExpr::Tensor(f2, g2)) => {
            if let (Node::Tensor(x1, y1), Node::Tensor(x2, y2)) = (s.reverse@[i], s.reverse@[j]) {
                lemma_held_sides_equated(s, x1 as int, *f1, x2 as int, *f2);
                lemma_held_sides_equated(s, y1 as int, *g1, y2 as int, *g2);
            }
        },
        _ => {},
    }
    assert(s.congruent_terms(i, j));
    assert(s.root(i) == s.root(j));
}

/// The terms of two equated expressions share a class.
proof fn lemma_held_sides_equated<G: PropSignature>(s: CongruenceClosure<G>, x: int, e1: PropExpr<G>, y: int, e2: PropExpr<G>)
    requires
        s.wf(),
        s.denotes(x, e1),
        s.denotes(y, e2),
        s.equates(e1, e2),
    ensures
        s.root(x) == s.root(y),
{
    let (p, q) = choose|p: int, q: int| #[trigger] s.denotes(p, e1) && #[trigger] s.denotes(q, e2) && s.root(p) == s.root(q);
    s.lemma_denotes_unique(p, x, e1);
    s.lemma_denotes_unique(q, y, e2);
}

/// `equates` is an equivalence on the expressions held as terms.
pub proof fn law_equates_equivalence<G: PropSignature>(
    s: CongruenceClosure<G>,
    x: PropExpr<G>,
    y: PropExpr<G>,
    z: PropExpr<G>,
)
    requires
        s.wf(),
    ensures
        s.has_term(x) ==> s.equates(x, x),
        s.equates(x, y) ==> s.has_term(x) && s.has_term(y),
        s.equates(x, y) ==> s.equates(y, x),
        s.equates(x, y) && s.equates(y, z) ==> s.equates(x, z),
{
    if s.has_term(x) {
        let i = choose|i: int| #[trigger] s.denotes(i, x);
        assert(s.denotes(i, x) && s.denotes(i, x) && s.root(i) == s.root(i));
    }
    if s.equates(x, y) {
        let (i, j) = choose|i: int, j: int| #[trigger] s.denotes(i, x) && #[trigger] s.denotes(j, y) && s.root(i) == s.root(j);
        assert(s.has_term(x));
        assert(s.has_term(y));
        assert(s.denotes(j, y) && s.denotes(i, x) && s.root(j) == s.root(i));
        if s.equates(y, z) {
            let (j2, k) = choose|j2: int, k: int| #[trigger] s.denotes(j2, y) && #[trigger] s.denotes(k, z) && s.root(j2) == s.root(k);
            s.lemma_denotes_unique(j, j2, y);
            assert(s.denotes(i, x) && s.denotes(k, z) && s.root(i) == s.root(k));
        }
    }
}

/// Coarsening is transitive.
pub broadcast proof fn lemma_coarsens_trans<G: PropSignature>(
    s: CongruenceClosure<G>,
    m: CongruenceClosure<G>,
    l: CongruenceClosure<G>,
)
    requires
        #[trigger] s.coarsens(m),
        #[trigger] m.coarsens(l),
    ensures
        s.coarsens(l),
{
    assert forall|i: int| 0 <= i < s.reverse@.len() implies #[trigger] l.reverse@[i] == s.reverse@[i] by {
        assert(m.reverse@[i] == s.reverse@[i]);
    }
    assert forall|i: int, j: int|
        0 <= i < s.size() && 0 <= j < s.size() && s.root(i) == s.root(j) implies l.root(i) == l.root(j) by {
        assert(m.root(i) == m.root(j));
    }
}

} // verus!
