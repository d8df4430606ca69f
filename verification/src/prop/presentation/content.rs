//! Abstract content of a free-prop expression, and equality on it.
//!
//! An arity-well-formed expression `e : n → m` is read as a cospan of
//! directed hypergraphs `n → H ← m` whose nodes are wires (typed by the
//! signature's color alphabet), whose hyperedges are generator occurrences
//! with ordered source and target tentacles, and whose two anchor maps embed
//! the boundary words. The content `C(e)` is that cospan up to isomorphism
//! fixing both feet. [`Content`] is its value, [`content_eq`] decides the
//! isomorphism, and [`canonical_key`] is a hashable normal form.
//!
//! The cospans produced by expressions are monogamous (every interior node
//! has exactly one producer and one consumer; a boundary node has none on its
//! anchored side) and acyclic, and [`from_parts`] accepts exactly the raw
//! parts with those properties.
use vstd::prelude::*;
use crate::forest::{forest_ok, lemma_link_roots, lemma_push_keeps_roots, root_at};
use vstd::set_lib::{lemma_len_subset, lemma_int_range, set_int_range};
use crate::error::{CatgraphError, presentation_error};
use crate::prop::{PropExpr, PropSignature, sat_add, lemma_fit_arities_are_exact, gens_are_structural};
use crate::prop::colored::{ColoredExpr, colors_are_structural};
use vstd::laws_eq::obeys_concrete_eq;
use vstd::std_specs::cmp::PartialOrdSpec;
use core::cmp::Ordering;

verus! {

// ---------------------------------------------------------------- the content

/// One hyperedge of a content cospan: a generator occurrence with its ordered
/// source and target tentacles, as indices into the node set.
#[derive(Debug)]
pub struct ContentEdge<G: PropSignature> {
    /// The generator occurring at this hyperedge.
    pub label: G,
    /// Nodes consumed, in source-word order.
    pub sources: Vec<usize>,
    /// Nodes produced, in target-word order.
    pub targets: Vec<usize>,
}

impl<G: PropSignature> Clone for ContentEdge<G> {
    fn clone(&self) -> (r: Self)
        ensures
            r.label == self.label,
            r.sources@ == self.sources@,
            r.targets@ == self.targets@,
    {
        ContentEdge { label: self.label, sources: self.sources.clone(), targets: self.targets.clone() }
    }
}

/// Every tentacle of `edges` names a node below `n`, and each edge carries as
/// many source and target tentacles as its label's words have letters.
pub open spec fn edges_fit<G: PropSignature>(edges: Seq<ContentEdge<G>>, n: nat) -> bool {
    forall|e: int|
        #![trigger edges[e]]
        0 <= e < edges.len() ==> {
            &&& edges[e].sources@.len() == edges[e].label.spec_source_word().len()
            &&& edges[e].targets@.len() == edges[e].label.spec_target_word().len()
            &&& forall|p: int| 0 <= p < edges[e].sources@.len() ==> edges[e].sources@[p] < n
            &&& forall|p: int| 0 <= p < edges[e].targets@.len() ==> edges[e].targets@[p] < n
        }
}

/// Every entry of `s` is below `n`.
pub open spec fn all_below(s: Seq<usize>, n: nat) -> bool {
    forall|i: int| 0 <= i < s.len() ==> s[i] < n
}

/// Node `x` is the `p`-th source tentacle of edge `e`.
pub open spec fn consumes<G: PropSignature>(edges: Seq<ContentEdge<G>>, x: usize, e: int, p: int) -> bool {
    0 <= e < edges.len() && 0 <= p < edges[e].sources@.len() && edges[e].sources@[p] == x
}

/// Node `x` is the `p`-th target tentacle of edge `e`.
pub open spec fn produces<G: PropSignature>(edges: Seq<ContentEdge<G>>, x: usize, e: int, p: int) -> bool {
    0 <= e < edges.len() && 0 <= p < edges[e].targets@.len() && edges[e].targets@[p] == x
}

/// Node `x` has a producer in `edges`.
pub open spec fn has_producer<G: PropSignature>(edges: Seq<ContentEdge<G>>, x: usize) -> bool {
    exists|e: int, p: int| produces(edges, x, e, p)
}

/// Node `x` has a consumer in `edges`.
pub open spec fn has_consumer<G: PropSignature>(edges: Seq<ContentEdge<G>>, x: usize) -> bool {
    exists|e: int, p: int| consumes(edges, x, e, p)
}

/// Each node is typed by an incident tentacle: by a producer's target letter
/// when it has a producer, else by a consumer's source letter, and untyped
/// when no tentacle touches it.
pub open spec fn typed_by_tentacles<G: PropSignature>(
    colors: Seq<Option<G::Color>>,
    edges: Seq<ContentEdge<G>>,
) -> bool {
    forall|x: usize|
        #![trigger colors[x as int]]
        x < colors.len() ==> {
            &&& has_producer(edges, x) ==> exists|e: int, p: int|
                produces(edges, x, e, p) && colors[x as int] == Some(
                    edges[e].label.spec_target_word()[p],
                )
            &&& (!has_producer(edges, x) && has_consumer(edges, x)) ==> exists|e: int, p: int|
                consumes(edges, x, e, p) && colors[x as int] == Some(
                    edges[e].label.spec_source_word()[p],
                )
            &&& (!has_producer(edges, x) && !has_consumer(edges, x)) ==> colors[x as int] is None
        }
}

/// The content `C(e)`: the anchored cospan `n → H ← m`.
///
/// Nodes are `0..node_count`; `input` and `output` list the node at each
/// boundary coordinate. Node indices carry no meaning across contents:
/// [`content_eq`] compares up to isomorphism, and [`canonical_key`] renumbers
/// invariantly. Every index stored is in range, and every edge carries as many
/// tentacles as its label declares.
#[derive(Debug)]
pub struct Content<G: PropSignature> {
    node_count: usize,
    node_colors: Vec<Option<G::Color>>,
    edges: Vec<ContentEdge<G>>,
    input: Vec<usize>,
    output: Vec<usize>,
}

impl<G: PropSignature> Content<G> {
    /// Number of nodes.
    pub closed spec fn spec_node_count(&self) -> nat {
        self.node_count as nat
    }

    /// The typing of each node.
    pub closed spec fn spec_node_colors(&self) -> Seq<Option<G::Color>> {
        self.node_colors@
    }

    /// The hyperedges.
    pub closed spec fn spec_edges(&self) -> Seq<ContentEdge<G>> {
        self.edges@
    }

    /// The input anchor.
    pub closed spec fn spec_input(&self) -> Seq<usize> {
        self.input@
    }

    /// The output anchor.
    pub closed spec fn spec_output(&self) -> Seq<usize> {
        self.output@
    }

    /// Indices are in range and tentacle counts match the labels.
    #[verifier::type_invariant]
    spec fn inv(&self) -> bool {
        &&& self.node_colors@.len() == self.node_count
        &&& edges_fit(self.edges@, self.node_count as nat)
        &&& all_below(self.input@, self.node_count as nat)
        &&& all_below(self.output@, self.node_count as nat)
    }

    /// The invariant, in terms of the public views.
    pub open spec fn well_indexed(&self) -> bool {
        &&& self.spec_node_colors().len() == self.spec_node_count()
        &&& edges_fit(self.spec_edges(), self.spec_node_count())
        &&& all_below(self.spec_input(), self.spec_node_count())
        &&& all_below(self.spec_output(), self.spec_node_count())
    }

    /// Number of nodes (wires).
    pub fn node_count(&self) -> (r: usize)
        ensures
            r == self.spec_node_count(),
            self.well_indexed(),
    {
        proof {
            use_type_invariant(self);
        }
        self.node_count
    }

    /// The typing of each node, indexed by node; `None` marks a wire no
    /// generator touches.
    pub fn node_colors(&self) -> (r: &[Option<G::Color>])
        ensures
            r@ == self.spec_node_colors(),
            self.well_indexed(),
    {
        proof {
            use_type_invariant(self);
        }
        self.node_colors.as_slice()
    }

    /// The hyperedges: one per generator occurrence.
    pub fn edges(&self) -> (r: &[ContentEdge<G>])
        ensures
            r@ == self.spec_edges(),
            self.well_indexed(),
    {
        proof {
            use_type_invariant(self);
        }
        self.edges.as_slice()
    }

    /// The input anchor: the node at each source coordinate.
    pub fn input(&self) -> (r: &[usize])
        ensures
            r@ == self.spec_input(),
            self.well_indexed(),
    {
        proof {
            use_type_invariant(self);
        }
        self.input.as_slice()
    }

    /// The output anchor: the node at each target coordinate.
    pub fn output(&self) -> (r: &[usize])
        ensures
            r@ == self.spec_output(),
            self.well_indexed(),
    {
        proof {
            use_type_invariant(self);
        }
        self.output.as_slice()
    }
}

impl<G: PropSignature> Clone for Content<G> {
    fn clone(&self) -> (r: Self)
        ensures
            r.spec_node_count() == self.spec_node_count(),
            r.spec_node_colors() == self.spec_node_colors(),
            r.spec_input() == self.spec_input(),
            r.spec_output() == self.spec_output(),
            r.spec_edges().len() == self.spec_edges().len(),
            forall|e: int|
                #![trigger r.spec_edges()[e]]
                0 <= e < self.spec_edges().len() ==> r.spec_edges()[e].label == self.spec_edges()[e].label
                    && r.spec_edges()[e].sources@ == self.spec_edges()[e].sources@
                    && r.spec_edges()[e].targets@ == self.spec_edges()[e].targets@,
    {
        proof {
            use_type_invariant(self);
        }
        let mut edges: Vec<ContentEdge<G>> = Vec::new();
        let mut i: usize = 0;
        while i < self.edges.len()
            invariant
                i <= self.edges@.len(),
                edges@.len() == i,
                forall|e: int|
                    #![trigger edges@[e]]
                    0 <= e < i ==> edges@[e].label == self.edges@[e].label
                        && edges@[e].sources@ == self.edges@[e].sources@
                        && edges@[e].targets@ == self.edges@[e].targets@,
            decreases self.edges@.len() - i,
        {
            edges.push(self.edges[i].clone());
            i = i + 1;
        }
        let r = Content {
            node_count: self.node_count,
            node_colors: copy_colors::<G::Color>(&self.node_colors),
            edges,
            input: self.input.clone(),
            output: self.output.clone(),
        };
        proof {
            assert(r.edges@ =~= r.edges@);
            assert forall|e: int| 0 <= e < r.edges@.len() implies #[trigger] r.edges@[e] == r.edges@[e] by {}
            assert(edges_fit(r.edges@, r.node_count as nat)) by {
                assert forall|e: int| 0 <= e < r.edges@.len() implies {
                    &&& (#[trigger] r.edges@[e]).sources@.len() == r.edges@[e].label.spec_source_word().len()
                    &&& r.edges@[e].targets@.len() == r.edges@[e].label.spec_target_word().len()
                    &&& forall|p: int| 0 <= p < r.edges@[e].sources@.len() ==> r.edges@[e].sources@[p] < r.node_count
                    &&& forall|p: int| 0 <= p < r.edges@[e].targets@.len() ==> r.edges@[e].targets@[p] < r.node_count
                } by {
                    assert(self.edges@[e] == self.edges@[e]);
                }
            }
        }
        r
    }
}

/// An owned copy of a color vector.
fn copy_colors<C: Copy>(v: &Vec<Option<C>>) -> (r: Vec<Option<C>>)
    ensures
        r@ == v@,
{
    let mut r: Vec<Option<C>> = Vec::new();
    let mut i: usize = 0;
    while i < v.len()
        invariant
            i <= v@.len(),
            r@ == v@.take(i as int),
        decreases v@.len() - i,
    {
        r.push(v[i]);
        i = i + 1;
        proof {
            assert(r@ =~= v@.take(i as int));
        }
    }
    proof {
        assert(v@.take(v@.len() as int) =~= v@);
    }
    r
}

// ---------------------------------------------------------------- domain check

/// Every `Compose` joins a target arity to a matching source arity.
pub open spec fn spec_composes<G: PropSignature>(e: PropExpr<G>) -> bool
    decreases e,
{
    match e {
        PropExpr::Compose(f, g) => f.spec_target() == g.spec_source() && spec_composes(*f)
            && spec_composes(*g),
        PropExpr::Tensor(f, g) => spec_composes(*f) && spec_composes(*g),
        _ => true,
    }
}

/// The domain of [`content_of`]: every width fits in `usize` and every
/// `Compose` is composable.
pub open spec fn spec_arity_well_formed<G: PropSignature>(e: PropExpr<G>) -> bool {
    e.spec_arities_fit() && spec_composes(e)
}

/// The generator occurrences of `e`, left to right.
pub open spec fn generators_of<G: PropSignature>(e: PropExpr<G>) -> Seq<G>
    decreases e,
{
    match e {
        PropExpr::Generator(g) => seq![g],
        PropExpr::Compose(f, h) => generators_of(*f) + generators_of(*h),
        PropExpr::Tensor(f, h) => generators_of(*f) + generators_of(*h),
        _ => Seq::empty(),
    }
}

/// Whether every `Compose` in `expr` joins a target arity to a matching source
/// arity and no `Braid` or `Tensor` width overflows `usize`: exactly the
/// domain of [`content_of`]. Terms built through
/// [`Free`](crate::prop::Free) always pass; a hand-built tree may not.
pub fn is_arity_well_formed<G: PropSignature>(expr: &PropExpr<G>) -> (r: bool)
    ensures
        r == spec_arity_well_formed(*expr),
{
    expr.arities_fit() && composes(expr)
}

/// The composability half of [`is_arity_well_formed`].
fn composes<G: PropSignature>(expr: &PropExpr<G>) -> (r: bool)
    ensures
        r == spec_composes(*expr),
    decreases expr,
{
    match expr {
        PropExpr::Identity(_) | PropExpr::Braid(_, _) | PropExpr::Generator(_) => true,
        PropExpr::Compose(f, g) => f.target() == g.source() && composes(f) && composes(g),
        PropExpr::Tensor(f, g) => composes(f) && composes(g),
    }
}

// ---------------------------------------------------------------- construction

/// A larger node bound keeps every tentacle in range.
proof fn lemma_edges_fit_grow<G: PropSignature>(edges: Seq<ContentEdge<G>>, n: nat, m: nat)
    requires
        edges_fit(edges, n),
        n <= m,
    ensures
        edges_fit(edges, m),
{
    assert forall|e: int| 0 <= e < edges.len() implies {
        &&& (#[trigger] edges[e]).sources@.len() == edges[e].label.spec_source_word().len()
        &&& edges[e].targets@.len() == edges[e].label.spec_target_word().len()
        &&& forall|p: int| 0 <= p < edges[e].sources@.len() ==> edges[e].sources@[p] < m
        &&& forall|p: int| 0 <= p < edges[e].targets@.len() ==> edges[e].targets@[p] < m
    } by {
        assert(edges[e] == edges[e]);
    }
}

/// A larger bound keeps every entry below it.
proof fn lemma_all_below_grow(s: Seq<usize>, n: nat, m: nat)
    requires
        all_below(s, n),
        n <= m,
    ensures
        all_below(s, m),
{
}

/// Union-find over wires, accumulating hyperedges as the expression is walked.
struct Builder<G: PropSignature> {
    parent: Vec<usize>,
    level: Ghost<Seq<nat>>,
    top: Ghost<nat>,
    edges: Vec<ContentEdge<G>>,
}

/// A sub-expression's two open boundaries, as node indices.
struct Piece {
    input: Vec<usize>,
    output: Vec<usize>,
}

/// The wires `s, s + 1, …, s + n - 1`.
pub open spec fn wire_range(s: nat, n: nat) -> Seq<usize> {
    Seq::new(n, |i: int| (s + i) as usize)
}

/// The pairs `(a[i], b[i])`.
pub open spec fn pairs_of(a: Seq<usize>, b: Seq<usize>) -> Seq<(usize, usize)> {
    Seq::new(a.len(), |i: int| (a[i], b[i]))
}

/// The cospan [`build`] makes of `e` from wire `s` on: its input and output
/// anchors, the wire count after it, and the wire pairs it glues. Identities
/// and braids are fresh discrete wires (the braid's output the input with
/// its blocks swapped), a generator fresh source then target wires, `;`
/// glues the first output to the second input coordinate for coordinate,
/// and `⊗` puts the anchors side by side.
pub open spec fn spec_piece<G: PropSignature>(e: PropExpr<G>, s: nat) -> (Seq<usize>, Seq<usize>, nat, Seq<(usize, usize)>)
    decreases e,
{
    match e {
        PropExpr::Identity(n) => (wire_range(s, n as nat), wire_range(s, n as nat), s + (n as nat), Seq::empty()),
        PropExpr::Braid(m, n) => {
            let w = wire_range(s, (m + n) as nat);
            (w, w.subrange(m as int, m + n) + w.subrange(0, m as int), s + (m as nat) + (n as nat), Seq::empty())
        },
        PropExpr::Generator(g) => {
            let a = g.spec_source_word().len();
            let t = g.spec_target_word().len();
            (wire_range(s, a), wire_range(s + a, t), s + a + t, Seq::empty())
        },
        PropExpr::Compose(x, y) => {
            let px = spec_piece(*x, s);
            let py = spec_piece(*y, px.2);
            (px.0, py.1, py.2, px.3 + py.3 + pairs_of(px.1, py.0))
        },
        PropExpr::Tensor(x, y) => {
            let px = spec_piece(*x, s);
            let py = spec_piece(*y, px.2);
            (px.0 + py.0, px.1 + py.1, py.2, px.3 + py.3)
        },
    }
}

/// `input` and `output` are the anchors of the cospan `q` (as [`spec_piece`]
/// gives it) with each wire `x` sent to `f[x]`, and `f` sends every glued
/// pair of `q` to one node.
pub open spec fn quotient_of(
    f: Seq<usize>,
    q: (Seq<usize>, Seq<usize>, nat, Seq<(usize, usize)>),
    input: Seq<usize>,
    output: Seq<usize>,
) -> bool {
    &&& f.len() == q.2
    &&& input.len() == q.0.len()
    &&& output.len() == q.1.len()
    &&& forall|i: int| 0 <= i < input.len() ==> #[trigger] input[i] == f[q.0[i] as int]
    &&& forall|i: int| 0 <= i < output.len() ==> #[trigger] output[i] == f[q.1[i] as int]
    &&& forall|k: int| 0 <= k < q.3.len() ==> f[(#[trigger] q.3[k]).0 as int] == f[q.3[k].1 as int]
}

/// The hyperedges [`build`] makes of `e` from wire `s` on, in generator
/// order: each generator's label with its source and target wires.
pub open spec fn spec_edges_of<G: PropSignature>(e: PropExpr<G>, s: nat) -> Seq<(G, Seq<usize>, Seq<usize>)>
    decreases e,
{
    match e {
        PropExpr::Generator(g) => {
            let a = g.spec_source_word().len();
            let t = g.spec_target_word().len();
            seq![(g, wire_range(s, a), wire_range(s + a, t))]
        },
        PropExpr::Compose(x, y) => spec_edges_of(*x, s) + spec_edges_of(*y, spec_piece(*x, s).2),
        PropExpr::Tensor(x, y) => spec_edges_of(*x, s) + spec_edges_of(*y, spec_piece(*x, s).2),
        _ => Seq::empty(),
    }
}

/// One hyperedge per generator occurrence.
proof fn lemma_spec_edges_len<G: PropSignature>(e: PropExpr<G>, s: nat)
    ensures
        spec_edges_of(e, s).len() == generators_of(e).len(),
        forall|k: int| 0 <= k < generators_of(e).len() ==> (#[trigger] spec_edges_of(e, s)[k]).0 == generators_of(e)[k],
    decreases e,
{
    match e {
        PropExpr::Compose(x, y) => {
            lemma_spec_edges_len(*x, s);
            lemma_spec_edges_len(*y, spec_piece(*x, s).2);
            let ex = spec_edges_of(*x, s);
            let ey = spec_edges_of(*y, spec_piece(*x, s).2);
            assert forall|k: int| 0 <= k < generators_of(e).len() implies (#[trigger] spec_edges_of(e, s)[k]).0
                == generators_of(e)[k] by {
                if k < ex.len() {
                    assert(spec_edges_of(e, s)[k] == ex[k]);
                } else {
                    assert(spec_edges_of(e, s)[k] == ey[k - ex.len()]);
                }
            }
        },
        PropExpr::Tensor(x, y) => {
            lemma_spec_edges_len(*x, s);
            lemma_spec_edges_len(*y, spec_piece(*x, s).2);
            let ex = spec_edges_of(*x, s);
            let ey = spec_edges_of(*y, spec_piece(*x, s).2);
            assert forall|k: int| 0 <= k < generators_of(e).len() implies (#[trigger] spec_edges_of(e, s)[k]).0
                == generators_of(e)[k] by {
                if k < ex.len() {
                    assert(spec_edges_of(e, s)[k] == ex[k]);
                } else {
                    assert(spec_edges_of(e, s)[k] == ey[k - ex.len()]);
                }
            }
        },
        _ => {},
    }
}

/// The nodes `f` sends the wires `ws` to.
pub open spec fn wires_under(f: Seq<usize>, ws: Seq<usize>) -> Seq<usize> {
    Seq::new(ws.len(), |i: int| f[ws[i] as int])
}

/// Each hyperedge of `edges` is the one of `spec` at its index, its wires
/// sent through `f`.
pub open spec fn edges_under<G: PropSignature>(
    f: Seq<usize>,
    spec: Seq<(G, Seq<usize>, Seq<usize>)>,
    edges: Seq<ContentEdge<G>>,
) -> bool {
    &&& edges.len() == spec.len()
    &&& forall|k: int|
        0 <= k < edges.len() ==> (#[trigger] edges[k]).label == spec[k].0 && edges[k].sources@ == wires_under(
            f,
            spec[k].1,
        ) && edges[k].targets@ == wires_under(f, spec[k].2)
}

/// Every wire named in `ps` is below `n`.
pub open spec fn pairs_below(ps: Seq<(usize, usize)>, n: nat) -> bool {
    forall|k: int| 0 <= k < ps.len() ==> (#[trigger] ps[k]).0 < n && ps[k].1 < n
}

impl<G: PropSignature> Builder<G> {
    /// Parents are in range and rise strictly in a ghost level bounded by
    /// `top`; recorded tentacles name allocated wires.
    spec fn wf(&self) -> bool {
        &&& self.level@.len() == self.parent@.len()
        &&& forall|i: int| 0 <= i < self.parent@.len() ==> self.parent@[i] < self.parent@.len()
        &&& forall|i: int|
            0 <= i < self.parent@.len() && self.parent@[i] != i ==> self.level@[self.parent@[i] as int]
                > self.level@[i]
        &&& forall|i: int| 0 <= i < self.parent@.len() ==> self.level@[i] <= self.top@
        &&& edges_fit(self.edges@, self.parent@.len())
    }

    spec fn size(&self) -> nat {
        self.parent@.len()
    }

    /// `later` has at least `self`'s wires, and wires of one class of `self`
    /// stay in one class.
    spec fn keeps_classes(&self, later: Self) -> bool {
        &&& later.size() >= self.size()
        &&& forall|y: int, z: int|
            #![trigger self.root(y), self.root(z)]
            0 <= y < self.size() && 0 <= z < self.size() && self.root(y) == self.root(z) ==> later.root(y)
                == later.root(z)
    }

    /// Every pair of `ps` lies in one class.
    spec fn glues(&self, ps: Seq<(usize, usize)>) -> bool {
        forall|k: int| 0 <= k < ps.len() ==> self.root((#[trigger] ps[k]).0 as int) == self.root(ps[k].1 as int)
    }

    proof fn lemma_keeps_trans(&self, mid: Self, later: Self)
        requires
            self.keeps_classes(mid),
            mid.keeps_classes(later),
        ensures
            self.keeps_classes(later),
    {
        assert forall|y: int, z: int|
            0 <= y < self.size() && 0 <= z < self.size() && self.root(y) == self.root(z) implies later.root(y)
                == later.root(z) by {
            assert(mid.root(y) == mid.root(z));
        }
    }

    proof fn lemma_glues_kept(&self, later: Self, ps: Seq<(usize, usize)>)
        requires
            self.keeps_classes(later),
            self.glues(ps),
            pairs_below(ps, self.size()),
        ensures
            later.glues(ps),
    {
        assert forall|k: int| 0 <= k < ps.len() implies later.root((#[trigger] ps[k]).0 as int) == later.root(
            ps[k].1 as int,
        ) by {
            assert(self.root(ps[k].0 as int) == self.root(ps[k].1 as int));
        }
    }

    proof fn lemma_keeps_refl(&self)
        ensures
            self.keeps_classes(*self),
    {
    }

    proof fn lemma_keeps_same_forest(&self, later: Self)
        requires
            later.parent@ == self.parent@,
            later.level@ == self.level@,
            later.top@ == self.top@,
        ensures
            self.keeps_classes(later),
    {
    }

    fn new() -> (r: Self)
        ensures
            r.wf(),
            r.size() == 0,
            r.edges@.len() == 0,
    {
        Builder { parent: Vec::new(), level: Ghost(Seq::empty()), top: Ghost(0), edges: Vec::new() }
    }

    /// A fresh wire in a class of its own.
    fn fresh(&mut self) -> (v: usize)
        requires
            old(self).wf(),
        ensures
            final(self).wf(),
            v == old(self).size(),
            final(self).size() == old(self).size() + 1,
            final(self).edges@ == old(self).edges@,
            final(self).parent@ == old(self).parent@.push(v),
            old(self).keeps_classes(*final(self)),
    {
        let v = self.parent.len();
        self.parent.push(v);
        let _ = self.parent.len();
        proof {
            self.level@ = self.level@.push(0);
            lemma_edges_fit_grow(self.edges@, v as nat, self.parent@.len());
            assert(forest_ok(old(self).parent@, old(self).level@, old(self).top@));
            assert forall|y: int| 0 <= y < old(self).size() implies #[trigger] self.root(y) == old(self).root(y) by {
                lemma_push_keeps_roots(old(self).parent@, old(self).level@, old(self).top@, y);
            }
            assert forall|y: int, z: int|
                0 <= y < old(self).size() && 0 <= z < old(self).size() && old(self).root(y) == old(self).root(z) implies self.root(y)
                    == self.root(z) by {
                assert(self.root(y) == old(self).root(y));
                assert(self.root(z) == old(self).root(z));
            }
        }
        v
    }

    /// `n` fresh wires, in allocation order.
    fn fresh_nodes(&mut self, n: usize) -> (r: Vec<usize>)
        requires
            old(self).wf(),
        ensures
            final(self).wf(),
            final(self).size() == old(self).size() + n,
            final(self).edges@ == old(self).edges@,
            r@.len() == n,
            all_below(r@, final(self).size()),
            forall|j: int| 0 <= j < n ==> #[trigger] r@[j] == old(self).size() + j,
            forall|j: int| 0 <= j < n ==> #[trigger] final(self).parent@[old(self).size() + j] == old(self).size() + j,
            forall|j: int| 0 <= j < old(self).size() ==> #[trigger] final(self).parent@[j] == old(self).parent@[j],
            old(self).keeps_classes(*final(self)),
            r@ == wire_range(old(self).size(), n as nat),
    {
        proof {
            old(self).lemma_keeps_refl();
        }
        let mut r: Vec<usize> = Vec::new();
        let mut i: usize = 0;
        while i < n
            invariant
                self.wf(),
                i <= n,
                self.size() == old(self).size() + i,
                self.edges@ == old(self).edges@,
                r@.len() == i,
                all_below(r@, self.size()),
                forall|j: int| 0 <= j < i ==> #[trigger] r@[j] == old(self).size() + j,
                forall|j: int| 0 <= j < i ==> #[trigger] self.parent@[old(self).size() + j] == old(self).size() + j,
                forall|j: int| 0 <= j < old(self).size() ==> #[trigger] self.parent@[j] == old(self).parent@[j],
                old(self).keeps_classes(*self),
            decreases n - i,
        {
            let ghost pre = *self;
            let v = self.fresh();
            proof {
                old(self).lemma_keeps_trans(pre, *self);
            }
            r.push(v);
            i = i + 1;
        }
        r
    }

    /// The root of wire `x`'s class.
    spec fn root(&self, x: int) -> int {
        root_at(self.parent@, self.level@, self.top@, x)
    }

    /// The root of `x`'s class.
    fn find(&self, x: usize) -> (r: usize)
        requires
            self.wf(),
            x < self.size(),
        ensures
            r < self.size(),
            self.parent@[r as int] == r,
            r == self.root(x as int),
    {
        let mut cur = x;
        while self.parent[cur] != cur
            invariant
                self.wf(),
                cur < self.size(),
                self.root(cur as int) == self.root(x as int),
            decreases self.top@ - self.level@[cur as int],
        {
            proof {
                assert(self.root(cur as int) == self.root(self.parent@[cur as int] as int));
            }
            cur = self.parent[cur];
        }
        cur
    }

    /// Glue two wires.
    fn union(&mut self, a: usize, b: usize)
        requires
            old(self).wf(),
            a < old(self).size(),
            b < old(self).size(),
        ensures
            final(self).wf(),
            final(self).size() == old(self).size(),
            final(self).edges@ == old(self).edges@,
            forall|y: int|
                0 <= y < old(self).size() ==> #[trigger] final(self).root(y) == if old(self).root(y) == old(
                    self,
                ).root(a as int) {
                    old(self).root(b as int)
                } else {
                    old(self).root(y)
                },
            old(self).keeps_classes(*final(self)),
            final(self).root(a as int) == final(self).root(b as int),
    {
        let ghost before = *self;
        let ra = self.find(a);
        let rb = self.find(b);
        if ra != rb {
            self.parent.set(ra, rb);
            proof {
                let lv = if self.level@[rb as int] > self.level@[ra as int] {
                    self.level@[rb as int]
                } else {
                    self.level@[ra as int] + 1
                };
                assert forall|y: int| 0 <= y < before.parent@.len() implies root_at(
                    before.parent@.update(ra as int, rb),
                    before.level@.update(rb as int, lv),
                    if lv > before.top@ { lv } else { before.top@ },
                    y,
                ) == if before.root(y) == ra as int { rb as int } else { before.root(y) } by {
                    lemma_link_roots(before.parent@, before.level@, before.top@, ra as int, rb as int, lv, y);
                }
                self.level@ = self.level@.update(rb as int, lv);
                if lv > self.top@ {
                    self.top@ = lv;
                }
                assert(self.parent@ == before.parent@.update(ra as int, rb));
                assert forall|y: int| 0 <= y < before.parent@.len() implies #[trigger] self.root(y) == if before.root(y)
                    == before.root(a as int) {
                    before.root(b as int)
                } else {
                    before.root(y)
                } by {}
            }
        }
        proof {
            assert forall|y: int, z: int|
                0 <= y < before.size() && 0 <= z < before.size() && before.root(y) == before.root(z) implies self.root(y)
                    == self.root(z) by {
                assert(self.root(y) == if before.root(y) == before.root(a as int) {
                    before.root(b as int)
                } else {
                    before.root(y)
                });
                assert(self.root(z) == if before.root(z) == before.root(a as int) {
                    before.root(b as int)
                } else {
                    before.root(z)
                });
            }
            assert(self.root(a as int) == before.root(b as int));
            assert(self.root(b as int) == if before.root(b as int) == before.root(a as int) {
                before.root(b as int)
            } else {
                before.root(b as int)
            });
        }
    }
}

/// `s ++ t` as a fresh vector.
fn concat(s: &Vec<usize>, t: &Vec<usize>) -> (r: Vec<usize>)
    ensures
        r@ == s@ + t@,
{
    let mut r: Vec<usize> = Vec::new();
    let mut i: usize = 0;
    while i < s.len()
        invariant
            i <= s@.len(),
            r@ == s@.take(i as int),
        decreases s@.len() - i,
    {
        r.push(s[i]);
        i = i + 1;
        proof {
            assert(r@ =~= s@.take(i as int));
        }
    }
    let mut j: usize = 0;
    while j < t.len()
        invariant
            i == s@.len(),
            j <= t@.len(),
            r@ == s@ + t@.take(j as int),
        decreases t@.len() - j,
    {
        r.push(t[j]);
        j = j + 1;
        proof {
            assert(r@ =~= s@ + t@.take(j as int));
        }
    }
    proof {
        assert(t@.take(t@.len() as int) =~= t@);
    }
    r
}

/// The slice `s[lo..hi]` as a fresh vector.
fn slice_of(s: &Vec<usize>, lo: usize, hi: usize) -> (r: Vec<usize>)
    requires
        lo <= hi <= s@.len(),
    ensures
        r@ == s@.subrange(lo as int, hi as int),
{
    let mut r: Vec<usize> = Vec::new();
    let mut i: usize = lo;
    while i < hi
        invariant
            lo <= i <= hi,
            hi <= s@.len(),
            r@ == s@.subrange(lo as int, i as int),
        decreases hi - i,
    {
        r.push(s[i]);
        i = i + 1;
        proof {
            assert(r@ =~= s@.subrange(lo as int, i as int));
        }
    }
    r
}

/// The interpretation by structural recursion: generators become
/// single-hyperedge cospans, identities and braids discrete cospans (the
/// braid with the block-swapped anchor), `;` glues over the shared foot, and
/// `⊗` is disjoint union with concatenated anchors. Hyperedges are recorded in
/// generator-occurrence order.
#[verifier::rlimit(30)]
fn build<G: PropSignature>(e: &PropExpr<G>, b: &mut Builder<G>) -> (p: Piece)
    requires
        old(b).wf(),
        spec_arity_well_formed(*e),
    ensures
        final(b).wf(),
        final(b).size() >= old(b).size(),
        final(b).edges@.len() == old(b).edges@.len() + generators_of(*e).len(),
        final(b).edges@.subrange(0, old(b).edges@.len() as int) == old(b).edges@,
        forall|k: int|
            0 <= k < generators_of(*e).len() ==> (#[trigger] final(b).edges@[old(b).edges@.len() + k]).label
                == generators_of(*e)[k],
        p.input@.len() == e.spec_source(),
        p.output@.len() == e.spec_target(),
        all_below(p.input@, final(b).size()),
        all_below(p.output@, final(b).size()),
        (*e is Identity || *e is Braid) ==> (forall|j: int|
            0 <= j < p.input@.len() ==> #[trigger] p.input@[j] == old(b).size() + j && final(b).parent@[old(b).size()
                + j] == old(b).size() + j),
        *e matches PropExpr::Identity(_) ==> p.output@ == p.input@,
        *e matches PropExpr::Braid(m, n) ==> p.output@ == p.input@.subrange(m as int, m + n) + p.input@.subrange(
            0,
            m as int,
        ),
        *e matches PropExpr::Generator(_) ==> final(b).edges@.last().sources@ == p.input@
            && final(b).edges@.last().targets@ == p.output@,
        forall|k: int|
            0 <= k < generators_of(*e).len() ==> (#[trigger] final(b).edges@[old(b).edges@.len() + k]).sources@
                == spec_edges_of(*e, old(b).size())[k].1 && final(b).edges@[old(b).edges@.len() + k].targets@
                == spec_edges_of(*e, old(b).size())[k].2,
        p.input@ == spec_piece(*e, old(b).size()).0,
        p.output@ == spec_piece(*e, old(b).size()).1,
        final(b).size() == spec_piece(*e, old(b).size()).2,
        old(b).keeps_classes(*final(b)),
        final(b).glues(spec_piece(*e, old(b).size()).3),
        pairs_below(spec_piece(*e, old(b).size()).3, final(b).size()),
    decreases e,
{
    proof {
        lemma_fit_arities_are_exact(*e);
    }
    match e {
        PropExpr::Identity(n) => {
            let nodes = b.fresh_nodes(*n);
            let input = concat(&nodes, &Vec::new());
            proof {
                assert(b.edges@.subrange(0, old(b).edges@.len() as int) =~= old(b).edges@);
                assert(nodes@ + Seq::<usize>::empty() =~= nodes@);
                assert(spec_piece(*e, old(b).size()).3 =~= Seq::<(usize, usize)>::empty());
            }
            Piece { input, output: nodes }
        },
        PropExpr::Braid(m, n) => {
            let width = *m + *n;
            let nodes = b.fresh_nodes(width);
            let high = slice_of(&nodes, *m, width);
            let low = slice_of(&nodes, 0, *m);
            let output = concat(&high, &low);
            proof {
                assert forall|i: int| 0 <= i < output@.len() implies output@[i] < b.size() by {
                    if i < high@.len() {
                        assert(output@[i] == nodes@[*m + i]);
                    } else {
                        assert(output@[i] == nodes@[i - high@.len()]);
                    }
                }
                assert(b.edges@.subrange(0, old(b).edges@.len() as int) =~= old(b).edges@);
                assert(spec_piece(*e, old(b).size()).3 =~= Seq::<(usize, usize)>::empty());
            }
            Piece { input: nodes, output }
        },
        PropExpr::Generator(g) => {
            let sw = g.source_word();
            let tw = g.target_word();
            let ghost g0 = *b;
            let sources = b.fresh_nodes(sw.len());
            let ghost g1 = *b;
            let targets = b.fresh_nodes(tw.len());
            let ghost g2 = *b;
            let s_copy = concat(&sources, &Vec::new());
            let t_copy = concat(&targets, &Vec::new());
            proof {
                assert(sources@ + Seq::<usize>::empty() =~= sources@);
                assert(targets@ + Seq::<usize>::empty() =~= targets@);
            }
            let ghost before = b.edges@;
            b.edges.push(ContentEdge { label: *g, sources: s_copy, targets: t_copy });
            proof {
                let n = b.parent@.len();
                assert forall|i: int| 0 <= i < b.edges@.len() implies {
                    &&& (#[trigger] b.edges@[i]).sources@.len() == b.edges@[i].label.spec_source_word().len()
                    &&& b.edges@[i].targets@.len() == b.edges@[i].label.spec_target_word().len()
                    &&& forall|q: int| 0 <= q < b.edges@[i].sources@.len() ==> b.edges@[i].sources@[q] < n
                    &&& forall|q: int| 0 <= q < b.edges@[i].targets@.len() ==> b.edges@[i].targets@[q] < n
                } by {
                    if i < before.len() {
                        assert(b.edges@[i] == before[i]);
                        assert(before[i] == before[i]);
                    }
                }
                assert(b.edges@.subrange(0, old(b).edges@.len() as int) =~= old(b).edges@);
                assert(generators_of(*e) =~= seq![*g]);
                assert(b.edges@[old(b).edges@.len() as int] == b.edges@.last());
                g0.lemma_keeps_trans(g1, g2);
                g2.lemma_keeps_same_forest(*b);
                g0.lemma_keeps_trans(g2, *b);
                assert(spec_piece(*e, old(b).size()).3 =~= Seq::<(usize, usize)>::empty());
            }
            Piece { input: sources, output: targets }
        },
        PropExpr::Compose(x, y) => {
            let ghost s0 = *b;
            let px = build(x, b);
            let ghost s1 = *b;
            let ghost mid = b.edges@;
            let ghost mid_size = b.size();
            let py = build(y, b);
            let ghost s2 = *b;
            proof {
                s2.lemma_keeps_refl();
                assert(pairs_of(px.output@, py.input@).take(0) =~= Seq::<(usize, usize)>::empty());
            }
            proof {
                lemma_all_below_grow(px.input@, mid_size, b.size());
                lemma_all_below_grow(px.output@, mid_size, b.size());
            }
            let mut i: usize = 0;
            while i < px.output.len()
                invariant
                    b.wf(),
                    b.size() >= old(b).size(),
                    b.edges@ == b.edges@,
                    px.output@.len() == py.input@.len(),
                    all_below(px.output@, b.size()),
                    all_below(py.input@, b.size()),
                    all_below(px.input@, b.size()),
                    all_below(py.output@, b.size()),
                    i <= px.output@.len(),
                    b.edges@.len() == mid.len() + generators_of(**y).len(),
                    b.edges@.subrange(0, mid.len() as int) == mid,
                    forall|k: int|
                        0 <= k < generators_of(**y).len() ==> (#[trigger] b.edges@[mid.len() + k]).label
                            == generators_of(**y)[k],
                    s2.keeps_classes(*b),
                    b.size() == s2.size(),
                    b.edges@ == s2.edges@,
                    b.glues(pairs_of(px.output@, py.input@).take(i as int)),
                decreases px.output@.len() - i,
            {
                let ghost pre = *b;
                b.union(px.output[i], py.input[i]);
                proof {
                    let ps = pairs_of(px.output@, py.input@);
                    s2.lemma_keeps_trans(pre, *b);
                    assert(pairs_below(ps.take(i as int), pre.size()));
                    pre.lemma_glues_kept(*b, ps.take(i as int));
                    assert(ps.take(i + 1) =~= ps.take(i as int).push(ps[i as int]));
                    assert(b.glues(ps.take(i + 1))) by {
                        assert forall|k: int| 0 <= k < ps.take(i + 1).len() implies b.root(
                            (#[trigger] ps.take(i + 1)[k]).0 as int,
                        ) == b.root(ps.take(i + 1)[k].1 as int) by {
                            if k < i {
                                assert(ps.take(i + 1)[k] == ps.take(i as int)[k]);
                            }
                        }
                    }
                }
                i = i + 1;
            }
            proof {
                let ps = pairs_of(px.output@, py.input@);
                let qx = spec_piece(**x, s0.size());
                let qy = spec_piece(**y, s1.size());
                assert(ps.take(ps.len() as int) =~= ps);
                s0.lemma_keeps_trans(s1, s2);
                s0.lemma_keeps_trans(s2, *b);
                s1.lemma_keeps_trans(s2, *b);
                s1.lemma_glues_kept(*b, qx.3);
                s2.lemma_glues_kept(*b, qy.3);
                let all = qx.3 + qy.3 + ps;
                assert(b.glues(all)) by {
                    assert forall|k: int| 0 <= k < all.len() implies b.root((#[trigger] all[k]).0 as int) == b.root(
                        all[k].1 as int,
                    ) by {
                        if k < qx.3.len() {
                            assert(all[k] == qx.3[k]);
                        } else if k < qx.3.len() + qy.3.len() {
                            assert(all[k] == qy.3[k - qx.3.len()]);
                        } else {
                            assert(all[k] == ps[k - qx.3.len() - qy.3.len()]);
                        }
                    }
                }
                assert(pairs_below(all, b.size())) by {
                    assert forall|k: int| 0 <= k < all.len() implies (#[trigger] all[k]).0 < b.size() && all[k].1
                        < b.size() by {
                        if k < qx.3.len() {
                            assert(all[k] == qx.3[k]);
                        } else if k < qx.3.len() + qy.3.len() {
                            assert(all[k] == qy.3[k - qx.3.len()]);
                        } else {
                            assert(all[k] == ps[k - qx.3.len() - qy.3.len()]);
                        }
                    }
                }
            }
            proof {
                let gx = generators_of(**x);
                let gy = generators_of(**y);
                assert(generators_of(*e) == gx + gy);
                assert(mid.subrange(0, old(b).edges@.len() as int) == old(b).edges@);
                assert(b.edges@.subrange(0, old(b).edges@.len() as int) =~= old(b).edges@) by {
                    assert forall|k: int| 0 <= k < old(b).edges@.len() implies b.edges@[k] == old(b).edges@[k] by {
                        assert(b.edges@.subrange(0, mid.len() as int)[k] == mid[k]);
                        assert(mid.subrange(0, old(b).edges@.len() as int)[k] == old(b).edges@[k]);
                    }
                }
                assert forall|k: int| 0 <= k < (gx + gy).len() implies (#[trigger] b.edges@[old(b).edges@.len() + k]).label
                    == (gx + gy)[k] by {
                    if k < gx.len() {
                        assert(b.edges@.subrange(0, mid.len() as int)[old(b).edges@.len() + k] == mid[old(b).edges@.len() + k]);
                    } else {
                        let j = k - gx.len();
                        assert(b.edges@[mid.len() + j].label == gy[j]);
                    }
                }
                lemma_spec_edges_len(**x, s0.size());
                lemma_spec_edges_len(**y, s1.size());
                assert forall|k: int| 0 <= k < (gx + gy).len() implies (#[trigger] b.edges@[old(b).edges@.len() + k]).sources@
                    == spec_edges_of(*e, old(b).size())[k].1 && b.edges@[old(b).edges@.len() + k].targets@
                    == spec_edges_of(*e, old(b).size())[k].2 by {
                    if k < gx.len() {
                        assert(b.edges@.subrange(0, mid.len() as int)[old(b).edges@.len() + k] == mid[old(b).edges@.len() + k]);
                        assert(spec_edges_of(*e, old(b).size())[k] == spec_edges_of(**x, s0.size())[k]);
                    } else {
                        let j = k - gx.len();
                        assert(spec_edges_of(*e, old(b).size())[k] == spec_edges_of(**y, s1.size())[j]);
                        assert(old(b).edges@.len() + k == mid.len() + j);
                        assert(b.edges@[mid.len() + j].sources@ == spec_edges_of(**y, s1.size())[j].1);
                        assert(b.edges@[mid.len() + j].targets@ == spec_edges_of(**y, s1.size())[j].2);
                    }
                }
                lemma_edges_fit_grow(b.edges@, b.size(), b.size());
                lemma_all_below_grow(px.input@, b.size(), b.size());
            }
            Piece { input: px.input, output: py.output }
        },
        PropExpr::Tensor(x, y) => {
            let ghost s0 = *b;
            let px = build(x, b);
            let ghost s1 = *b;
            let ghost mid = b.edges@;
            let ghost mid_size = b.size();
            let py = build(y, b);
            proof {
                let qx = spec_piece(**x, s0.size());
                let qy = spec_piece(**y, s1.size());
                s0.lemma_keeps_trans(s1, *b);
                s1.lemma_glues_kept(*b, qx.3);
                let all = qx.3 + qy.3;
                assert(b.glues(all)) by {
                    assert forall|k: int| 0 <= k < all.len() implies b.root((#[trigger] all[k]).0 as int) == b.root(
                        all[k].1 as int,
                    ) by {
                        if k < qx.3.len() {
                            assert(all[k] == qx.3[k]);
                        } else {
                            assert(all[k] == qy.3[k - qx.3.len()]);
                        }
                    }
                }
                assert(pairs_below(all, b.size())) by {
                    assert forall|k: int| 0 <= k < all.len() implies (#[trigger] all[k]).0 < b.size() && all[k].1
                        < b.size() by {
                        if k < qx.3.len() {
                            assert(all[k] == qx.3[k]);
                        } else {
                            assert(all[k] == qy.3[k - qx.3.len()]);
                        }
                    }
                }
            }
            proof {
                lemma_all_below_grow(px.input@, mid_size, b.size());
                lemma_all_below_grow(px.output@, mid_size, b.size());
            }
            let input = concat(&px.input, &py.input);
            let output = concat(&px.output, &py.output);
            proof {
                let gx = generators_of(**x);
                let gy = generators_of(**y);
                assert(generators_of(*e) == gx + gy);
                lemma_fit_arities_are_exact(**x);
                lemma_fit_arities_are_exact(**y);
                assert(b.edges@.subrange(0, old(b).edges@.len() as int) =~= old(b).edges@) by {
                    assert forall|k: int| 0 <= k < old(b).edges@.len() implies b.edges@[k] == old(b).edges@[k] by {
                        assert(b.edges@.subrange(0, mid.len() as int)[k] == mid[k]);
                        assert(mid.subrange(0, old(b).edges@.len() as int)[k] == old(b).edges@[k]);
                    }
                }
                assert forall|k: int| 0 <= k < (gx + gy).len() implies (#[trigger] b.edges@[old(b).edges@.len() + k]).label
                    == (gx + gy)[k] by {
                    if k < gx.len() {
                        assert(b.edges@.subrange(0, mid.len() as int)[old(b).edges@.len() + k] == mid[old(b).edges@.len() + k]);
                    } else {
                        let j = k - gx.len();
                        assert(b.edges@[mid.len() + j].label == gy[j]);
                    }
                }
                lemma_spec_edges_len(**x, s0.size());
                lemma_spec_edges_len(**y, s1.size());
                assert forall|k: int| 0 <= k < (gx + gy).len() implies (#[trigger] b.edges@[old(b).edges@.len() + k]).sources@
                    == spec_edges_of(*e, old(b).size())[k].1 && b.edges@[old(b).edges@.len() + k].targets@
                    == spec_edges_of(*e, old(b).size())[k].2 by {
                    if k < gx.len() {
                        assert(b.edges@.subrange(0, mid.len() as int)[old(b).edges@.len() + k] == mid[old(b).edges@.len() + k]);
                        assert(spec_edges_of(*e, old(b).size())[k] == spec_edges_of(**x, s0.size())[k]);
                    } else {
                        let j = k - gx.len();
                        assert(spec_edges_of(*e, old(b).size())[k] == spec_edges_of(**y, s1.size())[j]);
                        assert(old(b).edges@.len() + k == mid.len() + j);
                        assert(b.edges@[mid.len() + j].sources@ == spec_edges_of(**y, s1.size())[j].1);
                        assert(b.edges@[mid.len() + j].targets@ == spec_edges_of(**y, s1.size())[j].2);
                    }
                }
                assert(all_below(input@, b.size())) by {
                    assert forall|i: int| 0 <= i < input@.len() implies input@[i] < b.size() by {
                        if i < px.input@.len() {
                            assert(input@[i] == px.input@[i]);
                        } else {
                            assert(input@[i] == py.input@[i - px.input@.len()]);
                        }
                    }
                }
                assert(all_below(output@, b.size())) by {
                    assert forall|i: int| 0 <= i < output@.len() implies output@[i] < b.size() by {
                        if i < px.output@.len() {
                            assert(output@[i] == px.output@[i]);
                        } else {
                            assert(output@[i] == py.output@[i - px.output@.len()]);
                        }
                    }
                }
            }
            Piece { input, output }
        },
    }
}

/// Dense renumbering of union-find roots in first-touch order.
struct Renumber {
    dense: Vec<usize>,
    next: usize,
    assigned: Ghost<Set<int>>,
}

impl Renumber {
    /// `assigned` holds exactly the roots already numbered, each below `next`.
    spec fn wf(&self) -> bool {
        &&& self.assigned@.finite()
        &&& self.assigned@.len() == self.next
        &&& forall|r: int| self.assigned@.contains(r) ==> 0 <= r < self.dense@.len()
        &&& forall|r: int|
            0 <= r < self.dense@.len() ==> (self.dense@[r] == usize::MAX <==> !self.assigned@.contains(r))
        &&& forall|r: int|
            0 <= r < self.dense@.len() && self.dense@[r] != usize::MAX ==> self.dense@[r] < self.next
    }

    fn new(n: usize) -> (r: Self)
        ensures
            r.wf(),
            r.dense@.len() == n,
            r.next == 0,
            forall|j: int| 0 <= j < n ==> #[trigger] r.dense@[j] == usize::MAX,
    {
        let mut dense: Vec<usize> = Vec::new();
        let mut i: usize = 0;
        while i < n
            invariant
                i <= n,
                dense@.len() == i,
                forall|r: int| 0 <= r < i ==> dense@[r] == usize::MAX,
            decreases n - i,
        {
            dense.push(usize::MAX);
            i = i + 1;
        }
        Renumber { dense, next: 0, assigned: Ghost(Set::empty()) }
    }

    /// The dense number of `x`'s class, allocating the next one on first touch.
    fn get(&mut self, root_of: &Vec<usize>, x: usize) -> (r: usize)
        requires
            old(self).wf(),
            x < root_of@.len(),
            all_below(root_of@, old(self).dense@.len()),
        ensures
            final(self).wf(),
            final(self).dense@.len() == old(self).dense@.len(),
            final(self).next >= old(self).next,
            r < final(self).next,
            r == final(self).dense@[root_of@[x as int] as int],
            forall|j: int|
                0 <= j < old(self).dense@.len() && old(self).dense@[j] != usize::MAX ==> #[trigger] final(self).dense@[j]
                    == old(self).dense@[j],
            old(self).dense@[root_of@[x as int] as int] == usize::MAX ==> r == old(self).next && final(self).next
                == old(self).next + 1 && final(self).dense@ == old(self).dense@.update(
                root_of@[x as int] as int,
                old(self).next,
            ),
            old(self).dense@[root_of@[x as int] as int] != usize::MAX ==> final(self).next == old(self).next
                && final(self).dense@ == old(self).dense@,
    {
        let root = root_of[x];
        let _n = self.dense.len();
        if self.dense[root] == usize::MAX {
            proof {
                let n = self.dense@.len() as int;
                let range = set_int_range(0, n).remove(root as int);
                lemma_int_range(0, n);
                assert(self.assigned@.subset_of(range));
                lemma_len_subset(self.assigned@, range);
                assert(self.next < n);
            }
            let ghost old_next = self.next;
            self.dense.set(root, self.next);
            self.next = self.next + 1;
            proof {
                self.assigned@ = self.assigned@.insert(root as int);
            }
        }
        self.dense[root]
    }

    /// Renumber every entry of `xs`.
    fn remap(&mut self, root_of: &Vec<usize>, xs: &Vec<usize>) -> (r: Vec<usize>)
        requires
            old(self).wf(),
            all_below(xs@, root_of@.len()),
            all_below(root_of@, old(self).dense@.len()),
        ensures
            final(self).wf(),
            final(self).dense@.len() == old(self).dense@.len(),
            final(self).next >= old(self).next,
            r@.len() == xs@.len(),
            all_below(r@, final(self).next as nat),
            forall|i: int| 0 <= i < xs@.len() ==> #[trigger] r@[i] == final(self).dense@[root_of@[xs@[i] as int] as int],
            forall|j: int|
                0 <= j < old(self).dense@.len() && old(self).dense@[j] != usize::MAX ==> #[trigger] final(self).dense@[j]
                    == old(self).dense@[j],
            (forall|i: int| 0 <= i < xs@.len() ==> #[trigger] old(self).dense@[root_of@[xs@[i] as int] as int] != usize::MAX)
                ==> final(self).next == old(self).next && final(self).dense@ == old(self).dense@,
            (forall|i: int| 0 <= i < xs@.len() ==> #[trigger] old(self).dense@[root_of@[xs@[i] as int] as int] == usize::MAX)
                && (forall|i: int, j: int| 0 <= i < j < xs@.len() ==> root_of@[xs@[i] as int] != root_of@[xs@[j] as int])
                ==> final(self).next == old(self).next + xs@.len() && forall|i: int|
                0 <= i < xs@.len() ==> r@[i] == old(self).next + i,
    {
        let ghost all_set = forall|i: int|
            0 <= i < xs@.len() ==> #[trigger] old(self).dense@[root_of@[xs@[i] as int] as int] != usize::MAX;
        let ghost all_new = (forall|i: int|
            0 <= i < xs@.len() ==> #[trigger] old(self).dense@[root_of@[xs@[i] as int] as int] == usize::MAX) && (
        forall|i: int, j: int| 0 <= i < j < xs@.len() ==> root_of@[xs@[i] as int] != root_of@[xs@[j] as int]);
        let mut r: Vec<usize> = Vec::new();
        let mut i: usize = 0;
        while i < xs.len()
            invariant
                self.wf(),
                self.dense@.len() == old(self).dense@.len(),
                self.next >= old(self).next,
                all_below(xs@, root_of@.len()),
                all_below(root_of@, self.dense@.len()),
                i <= xs@.len(),
                r@.len() == i,
                all_below(r@, self.next as nat),
                forall|k: int| 0 <= k < i ==> #[trigger] r@[k] == self.dense@[root_of@[xs@[k] as int] as int],
                forall|j: int|
                    0 <= j < old(self).dense@.len() && old(self).dense@[j] != usize::MAX ==> #[trigger] self.dense@[j]
                        == old(self).dense@[j],
                all_set == (forall|i: int|
                    0 <= i < xs@.len() ==> #[trigger] old(self).dense@[root_of@[xs@[i] as int] as int] != usize::MAX),
                all_set ==> self.next == old(self).next && self.dense@ == old(self).dense@,
                all_new == ((forall|i: int|
                    0 <= i < xs@.len() ==> #[trigger] old(self).dense@[root_of@[xs@[i] as int] as int] == usize::MAX) && (
                forall|i: int, j: int| 0 <= i < j < xs@.len() ==> root_of@[xs@[i] as int] != root_of@[xs@[j] as int])),
                all_new ==> self.next == old(self).next + i && (forall|k: int| 0 <= k < i ==> r@[k] == old(self).next + k)
                    && (forall|k: int| i <= k < xs@.len() ==> self.dense@[root_of@[xs@[k] as int] as int] == usize::MAX),
            decreases xs@.len() - i,
        {
            let ghost pre = self.dense@;
            let v = self.get(root_of, xs[i]);
            proof {
                assert forall|k: int| 0 <= k < i implies #[trigger] r@[k] == self.dense@[root_of@[xs@[k] as int] as int] by {
                    let j = root_of@[xs@[k] as int] as int;
                    assert(pre[j] == r@[k]);
                    assert(r@[k] < self.next);
                }
            }
            r.push(v);
            i = i + 1;
        }
        r
    }
}

/// Tentacle `(e, q)` precedes the cursor `(i, p)` in edge-major order.
spec fn before(e: int, q: int, i: int, p: int) -> bool {
    e < i || (e == i && q < p)
}

/// Type every consumed node by its consumer's source letter.
fn paint_sources<G: PropSignature>(colors: &mut Vec<Option<G::Color>>, edges: &Vec<ContentEdge<G>>)
    requires
        edges_fit(edges@, old(colors)@.len()),
        forall|x: int| 0 <= x < old(colors)@.len() ==> old(colors)@[x] is None,
    ensures
        final(colors)@.len() == old(colors)@.len(),
        forall|x: usize|
            #![trigger final(colors)@[x as int]]
            x < final(colors)@.len() ==> {
                &&& final(colors)@[x as int] is Some ==> exists|e: int, q: int|
                    consumes(edges@, x, e, q) && final(colors)@[x as int] == Some(
                        edges@[e].label.spec_source_word()[q],
                    )
                &&& final(colors)@[x as int] is None ==> !has_consumer(edges@, x)
            },
{
    let ghost n = colors@.len();
    let mut i: usize = 0;
    while i < edges.len()
        invariant
            colors@.len() == n,
            edges_fit(edges@, n),
            i <= edges@.len(),
            forall|x: usize|
                #![trigger colors@[x as int]]
                x < n ==> {
                    &&& colors@[x as int] is Some ==> exists|e: int, q: int|
                        consumes(edges@, x, e, q) && colors@[x as int] == Some(
                            edges@[e].label.spec_source_word()[q],
                        )
                    &&& colors@[x as int] is None ==> forall|e: int, q: int|
                        consumes(edges@, x, e, q) ==> !before(e, q, i as int, 0)
                },
        decreases edges@.len() - i,
    {
        let sw = edges[i].label.source_word();
        let mut p: usize = 0;
        proof {
            assert(edges@[i as int] == edges@[i as int]);
        }
        while p < edges[i].sources.len()
            invariant
                colors@.len() == n,
                edges_fit(edges@, n),
                i < edges@.len(),
                sw@ == edges@[i as int].label.spec_source_word(),
                p <= edges@[i as int].sources@.len(),
                forall|x: usize|
                    #![trigger colors@[x as int]]
                    x < n ==> {
                        &&& colors@[x as int] is Some ==> exists|e: int, q: int|
                            consumes(edges@, x, e, q) && colors@[x as int] == Some(
                                edges@[e].label.spec_source_word()[q],
                            )
                        &&& colors@[x as int] is None ==> forall|e: int, q: int|
                            consumes(edges@, x, e, q) ==> !before(e, q, i as int, p as int)
                    },
            decreases edges@[i as int].sources@.len() - p,
        {
            let x = edges[i].sources[p];
            proof {
                assert(edges@[i as int] == edges@[i as int]);
            }
            let ghost prev = colors@;
            colors.set(x, Some(sw[p]));
            proof {
                assert(consumes(edges@, x, i as int, p as int));
                assert(colors@[x as int] == Some(edges@[i as int].label.spec_source_word()[p as int]));
                assert forall|y: usize| y < n implies {
                    &&& #[trigger] colors@[y as int] is Some ==> exists|e: int, q: int|
                        consumes(edges@, y, e, q) && colors@[y as int] == Some(
                            edges@[e].label.spec_source_word()[q],
                        )
                    &&& colors@[y as int] is None ==> forall|e: int, q: int|
                        consumes(edges@, y, e, q) ==> !before(e, q, i as int, p + 1)
                } by {
                    if y == x {
                        assert(consumes(edges@, y, i as int, p as int));
                    } else {
                        assert(colors@[y as int] == prev[y as int]);
                        if colors@[y as int] is Some {
                            let (e, q) = choose|e: int, q: int|
                                consumes(edges@, y, e, q) && prev[y as int] == Some(
                                    edges@[e].label.spec_source_word()[q],
                                );
                            assert(consumes(edges@, y, e, q));
                        } else {
                            assert forall|e: int, q: int| consumes(edges@, y, e, q) implies !before(e, q, i as int, p + 1) by {
                                assert(!before(e, q, i as int, p as int));
                                if e == i && q == p {
                                    assert(edges@[e].sources@[q] == x);
                                }
                            }
                        }
                    }
                }
            }
            p = p + 1;
        }
        proof {
            assert forall|y: usize| y < n implies {
                &&& #[trigger] colors@[y as int] is Some ==> exists|e: int, q: int|
                    consumes(edges@, y, e, q) && colors@[y as int] == Some(
                        edges@[e].label.spec_source_word()[q],
                    )
                &&& colors@[y as int] is None ==> forall|e: int, q: int|
                    consumes(edges@, y, e, q) ==> !before(e, q, i + 1, 0)
            } by {
                if colors@[y as int] is None {
                    assert forall|e: int, q: int| consumes(edges@, y, e, q) implies !before(e, q, i + 1, 0) by {
                        assert(!before(e, q, i as int, p as int));
                    }
                }
            }
        }
        i = i + 1;
    }
    proof {
        assert forall|y: usize| y < n && (#[trigger] colors@[y as int]) is None implies !has_consumer(edges@, y) by {
            if has_consumer(edges@, y) {
                let (e, q) = choose|e: int, q: int| consumes(edges@, y, e, q);
                assert(!before(e, q, edges@.len() as int, 0));
            }
        }
    }
}

/// Type every produced node by its producer's target letter, over a typing
/// by consumers.
fn paint_targets<G: PropSignature>(colors: &mut Vec<Option<G::Color>>, edges: &Vec<ContentEdge<G>>)
    requires
        edges_fit(edges@, old(colors)@.len()),
        forall|x: usize|
            #![trigger old(colors)@[x as int]]
            x < old(colors)@.len() ==> {
                &&& old(colors)@[x as int] is Some ==> exists|e: int, q: int|
                    consumes(edges@, x, e, q) && old(colors)@[x as int] == Some(
                        edges@[e].label.spec_source_word()[q],
                    )
                &&& old(colors)@[x as int] is None ==> !has_consumer(edges@, x)
            },
    ensures
        final(colors)@.len() == old(colors)@.len(),
        typed_by_tentacles(final(colors)@, edges@),
{
    let ghost n = colors@.len();
    let ghost first = colors@;
    let mut i: usize = 0;
    while i < edges.len()
        invariant
            colors@.len() == n,
            first.len() == n,
            edges_fit(edges@, n),
            i <= edges@.len(),
            forall|x: usize|
                #![trigger colors@[x as int]]
                x < n ==> {
                    &&& colors@[x as int] != first[x as int] ==> exists|e: int, q: int|
                        produces(edges@, x, e, q) && before(e, q, i as int, 0) && colors@[x as int] == Some(
                            edges@[e].label.spec_target_word()[q],
                        )
                    &&& (exists|e: int, q: int| produces(edges@, x, e, q) && before(e, q, i as int, 0)) ==> exists|e: int, q: int|
                        produces(edges@, x, e, q) && colors@[x as int] == Some(
                            edges@[e].label.spec_target_word()[q],
                        )
                },
        decreases edges@.len() - i,
    {
        let tw = edges[i].label.target_word();
        let mut p: usize = 0;
        proof {
            assert(edges@[i as int] == edges@[i as int]);
        }
        while p < edges[i].targets.len()
            invariant
                colors@.len() == n,
                first.len() == n,
                edges_fit(edges@, n),
                i < edges@.len(),
                tw@ == edges@[i as int].label.spec_target_word(),
                p <= edges@[i as int].targets@.len(),
                forall|x: usize|
                    #![trigger colors@[x as int]]
                    x < n ==> {
                        &&& colors@[x as int] != first[x as int] ==> exists|e: int, q: int|
                            produces(edges@, x, e, q) && before(e, q, i as int, p as int) && colors@[x as int] == Some(
                                edges@[e].label.spec_target_word()[q],
                            )
                        &&& (exists|e: int, q: int|
                            produces(edges@, x, e, q) && before(e, q, i as int, p as int)) ==> exists|e: int, q: int|
                            produces(edges@, x, e, q) && colors@[x as int] == Some(
                                edges@[e].label.spec_target_word()[q],
                            )
                    },
            decreases edges@[i as int].targets@.len() - p,
        {
            let x = edges[i].targets[p];
            proof {
                assert(edges@[i as int] == edges@[i as int]);
            }
            let ghost prev = colors@;
            colors.set(x, Some(tw[p]));
            proof {
                assert(produces(edges@, x, i as int, p as int));
                assert(colors@[x as int] == Some(edges@[i as int].label.spec_target_word()[p as int]));
                assert forall|y: usize| y < n implies {
                    &&& #[trigger] colors@[y as int] != first[y as int] ==> exists|e: int, q: int|
                        produces(edges@, y, e, q) && before(e, q, i as int, p + 1) && colors@[y as int] == Some(
                            edges@[e].label.spec_target_word()[q],
                        )
                    &&& (exists|e: int, q: int|
                        produces(edges@, y, e, q) && before(e, q, i as int, p + 1)) ==> exists|e: int, q: int|
                        produces(edges@, y, e, q) && colors@[y as int] == Some(
                            edges@[e].label.spec_target_word()[q],
                        )
                } by {
                    if y == x {
                        assert(produces(edges@, y, i as int, p as int) && before(i as int, p as int, i as int, p + 1));
                    } else {
                        assert(colors@[y as int] == prev[y as int]);
                        if colors@[y as int] != first[y as int] {
                            let (e, q) = choose|e: int, q: int|
                                produces(edges@, y, e, q) && before(e, q, i as int, p as int) && prev[y as int] == Some(
                                    edges@[e].label.spec_target_word()[q],
                                );
                            assert(produces(edges@, y, e, q) && before(e, q, i as int, p + 1));
                        }
                        if exists|e: int, q: int| produces(edges@, y, e, q) && before(e, q, i as int, p + 1) {
                            let (e, q) = choose|e: int, q: int| produces(edges@, y, e, q) && before(e, q, i as int, p + 1);
                            if e == i && q == p {
                                assert(edges@[e].targets@[q] == x);
                            }
                            assert(produces(edges@, y, e, q) && before(e, q, i as int, p as int));
                        }
                    }
                }
            }
            p = p + 1;
        }
        proof {
            assert forall|y: usize| y < n implies {
                &&& #[trigger] colors@[y as int] != first[y as int] ==> exists|e: int, q: int|
                    produces(edges@, y, e, q) && before(e, q, i + 1, 0) && colors@[y as int] == Some(
                        edges@[e].label.spec_target_word()[q],
                    )
                &&& (exists|e: int, q: int| produces(edges@, y, e, q) && before(e, q, i + 1, 0)) ==> exists|e: int, q: int|
                    produces(edges@, y, e, q) && colors@[y as int] == Some(
                        edges@[e].label.spec_target_word()[q],
                    )
            } by {
                if colors@[y as int] != first[y as int] {
                    let (e, q) = choose|e: int, q: int|
                        produces(edges@, y, e, q) && before(e, q, i as int, p as int) && colors@[y as int] == Some(
                            edges@[e].label.spec_target_word()[q],
                        );
                    assert(produces(edges@, y, e, q) && before(e, q, i + 1, 0));
                }
                if exists|e: int, q: int| produces(edges@, y, e, q) && before(e, q, i + 1, 0) {
                    let (e, q) = choose|e: int, q: int| produces(edges@, y, e, q) && before(e, q, i + 1, 0);
                    assert(produces(edges@, y, e, q) && before(e, q, i as int, p as int));
                }
            }
        }
        i = i + 1;
    }
    proof {
        assert forall|x: usize| x < colors@.len() implies {
            &&& has_producer(edges@, x) ==> exists|e: int, p: int|
                produces(edges@, x, e, p) && #[trigger] colors@[x as int] == Some(
                    edges@[e].label.spec_target_word()[p],
                )
            &&& (!has_producer(edges@, x) && has_consumer(edges@, x)) ==> exists|e: int, p: int|
                consumes(edges@, x, e, p) && colors@[x as int] == Some(
                    edges@[e].label.spec_source_word()[p],
                )
            &&& (!has_producer(edges@, x) && !has_consumer(edges@, x)) ==> colors@[x as int] is None
        } by {
            if has_producer(edges@, x) {
                let (e, q) = choose|e: int, q: int| produces(edges@, x, e, q);
                assert(produces(edges@, x, e, q) && before(e, q, edges@.len() as int, 0));
            } else {
                if colors@[x as int] != first[x as int] {
                    let (e, q) = choose|e: int, q: int|
                        produces(edges@, x, e, q) && before(e, q, edges@.len() as int, 0) && colors@[x as int] == Some(
                            edges@[e].label.spec_target_word()[q],
                        );
                    assert(has_producer(edges@, x));
                }
                assert(first[x as int] == first[x as int]);
            }
        }
    }
}

/// Compute the content `C(e)`.
///
/// Nodes are numbered in first-touch order: the input anchor, then the edges
/// in generator-occurrence order (sources, then targets), then the output
/// anchor. A node is typed by its producer's target letter, or, with no
/// producer, by its consumer's source letter; a wire no generator touches is
/// left untyped, and [`content_of_colored`] pins those.
///
/// `expr` must be arity-well-formed ([`is_arity_well_formed`]); terms built
/// through [`Free`](crate::prop::Free) always are.
pub fn content_of<G: PropSignature>(expr: &PropExpr<G>) -> (c: Content<G>)
    requires
        spec_arity_well_formed(*expr),
    ensures
        c.spec_input().len() == expr.spec_source(),
        c.spec_output().len() == expr.spec_target(),
        c.spec_edges().len() == generators_of(*expr).len(),
        forall|k: int|
            0 <= k < generators_of(*expr).len() ==> (#[trigger] c.spec_edges()[k]).label == generators_of(
                *expr,
            )[k],
        typed_by_tentacles(c.spec_node_colors(), c.spec_edges()),
        c.well_indexed(),
        *expr matches PropExpr::Identity(_) ==> c.spec_output() == c.spec_input(),
        *expr matches PropExpr::Braid(m, n) ==> c.spec_output() == c.spec_input().subrange(m as int, m + n)
            + c.spec_input().subrange(0, m as int),
        (*expr is Identity || *expr is Braid) ==> c.spec_node_count() == expr.spec_source() && forall|j: int|
            0 <= j < c.spec_input().len() ==> #[trigger] c.spec_input()[j] == j,
        exists|f: Seq<usize>| #[trigger] quotient_of(f, spec_piece(*expr, 0), c.spec_input(), c.spec_output())
            && edges_under(f, spec_edges_of(*expr, 0), c.spec_edges()),
{
    let mut b: Builder<G> = Builder::new();
    let piece = build(expr, &mut b);
    proof {
        assert(b.edges@.subrange(0, 0) =~= Seq::<ContentEdge<G>>::empty());
    }
    let n = b.parent.len();
    let mut root_of: Vec<usize> = Vec::new();
    let mut i: usize = 0;
    while i < n
        invariant
            b.wf(),
            n == b.size(),
            i <= n,
            root_of@.len() == i,
            all_below(root_of@, n as nat),
            forall|j: int| 0 <= j < i ==> #[trigger] root_of@[j] == b.root(j),
        decreases n - i,
    {
        let r = b.find(i);
        root_of.push(r);
        i = i + 1;
    }
    let mut rn = Renumber::new(n);
    proof {
        if *expr is Identity || *expr is Braid {
            assert(forest_ok(b.parent@, b.level@, b.top@));
            assert forall|j: int| 0 <= j < piece.input@.len() implies #[trigger] root_of@[piece.input@[j] as int] == j by {
                assert(piece.input@[j] == j);
                assert(b.parent@[j] == j);
                assert(b.root(j) == j);
            }
        }
    }
    let ghost d0 = rn.dense@;
    let input = rn.remap(&root_of, &piece.input);
    let ghost after_input = rn.next;
    let ghost d1 = rn.dense@;
    proof {
        if *expr is Identity || *expr is Braid {
            let pi = piece.input@;
            assert(forall|i: int| 0 <= i < pi.len() ==> #[trigger] d0[root_of@[pi[i] as int] as int] == usize::MAX);
            assert(forall|i: int, j: int| 0 <= i < j < pi.len() ==> root_of@[pi[i] as int] != root_of@[pi[j] as int]);
            assert(after_input == pi.len());
            assert(forall|i: int| 0 <= i < pi.len() ==> input@[i] == i);
            assert(forall|i: int| 0 <= i < pi.len() ==> #[trigger] d1[i] == i) by {
                assert forall|i: int| 0 <= i < pi.len() implies #[trigger] d1[i] == i by {
                    assert(root_of@[pi[i] as int] == i);
                    assert(input@[i] == d1[root_of@[pi[i] as int] as int]);
                }
            }
        }
    }
    let mut edges: Vec<ContentEdge<G>> = Vec::new();
    let mut k: usize = 0;
    while k < b.edges.len()
        invariant
            rn.wf(),
            rn.dense@.len() == n,
            root_of@.len() == n,
            all_below(root_of@, n as nat),
            edges_fit(b.edges@, n as nat),
            k <= b.edges@.len(),
            edges@.len() == k,
            edges_fit(edges@, rn.next as nat),
            rn.next >= after_input,
            forall|j: int| 0 <= j < k ==> (#[trigger] edges@[j]).label == b.edges@[j].label,
            d1.len() == n,
            forall|j: int| 0 <= j < n && d1[j] != usize::MAX ==> #[trigger] rn.dense@[j] == d1[j],
            k == 0 ==> rn.next == after_input && rn.dense@ == d1,
            forall|j: int, q: int|
                0 <= j < k && 0 <= q < edges@[j].sources@.len() ==> (#[trigger] edges@[j].sources@[q]) == rn.dense@[root_of@[b.edges@[j].sources@[q] as int] as int],
            forall|j: int, q: int|
                0 <= j < k && 0 <= q < edges@[j].targets@.len() ==> (#[trigger] edges@[j].targets@[q]) == rn.dense@[root_of@[b.edges@[j].targets@[q] as int] as int],
            forall|j: int| 0 <= j < k ==> (#[trigger] edges@[j]).sources@.len() == b.edges@[j].sources@.len()
                && edges@[j].targets@.len() == b.edges@[j].targets@.len(),
        decreases b.edges@.len() - k,
    {
        proof {
            assert(b.edges@[k as int] == b.edges@[k as int]);
        }
        let ghost pre_dense = rn.dense@;
        let sources = rn.remap(&root_of, &b.edges[k].sources);
        let ghost mid_dense = rn.dense@;
        let targets = rn.remap(&root_of, &b.edges[k].targets);
        let ghost before_push = edges@;
        edges.push(ContentEdge { label: b.edges[k].label, sources, targets });
        proof {
            lemma_edges_fit_grow(before_push, rn.next as nat, rn.next as nat);
            assert forall|e: int| 0 <= e < edges@.len() implies {
                &&& (#[trigger] edges@[e]).sources@.len() == edges@[e].label.spec_source_word().len()
                &&& edges@[e].targets@.len() == edges@[e].label.spec_target_word().len()
                &&& forall|q: int| 0 <= q < edges@[e].sources@.len() ==> edges@[e].sources@[q] < rn.next
                &&& forall|q: int| 0 <= q < edges@[e].targets@.len() ==> edges@[e].targets@[q] < rn.next
            } by {
                if e < before_push.len() {
                    assert(edges@[e] == before_push[e]);
                    assert(before_push[e] == before_push[e]);
                }
            }
            assert forall|j: int, q: int|
                0 <= j < k + 1 && 0 <= q < edges@[j].sources@.len() implies (#[trigger] edges@[j].sources@[q]) == rn.dense@[root_of@[b.edges@[j].sources@[q] as int] as int] by {
                let x = root_of@[b.edges@[j].sources@[q] as int] as int;
                if j < k {
                    assert(edges@[j] == before_push[j]);
                    assert(edges@[j].sources@[q] < rn.next);
                    assert(pre_dense[x] == edges@[j].sources@[q]);
                } else {
                    assert(edges@[j].sources@ == sources@);
                    assert(mid_dense[x] == sources@[q]);
                    assert(sources@[q] < rn.next);
                }
            }
            assert forall|j: int, q: int|
                0 <= j < k + 1 && 0 <= q < edges@[j].targets@.len() implies (#[trigger] edges@[j].targets@[q]) == rn.dense@[root_of@[b.edges@[j].targets@[q] as int] as int] by {
                let x = root_of@[b.edges@[j].targets@[q] as int] as int;
                if j < k {
                    assert(edges@[j] == before_push[j]);
                    assert(edges@[j].targets@[q] < rn.next);
                    assert(pre_dense[x] == edges@[j].targets@[q]);
                } else {
                    assert(edges@[j].targets@ == targets@);
                }
            }
            assert forall|j: int| 0 <= j < k + 1 implies (#[trigger] edges@[j]).sources@.len() == b.edges@[j].sources@.len()
                && edges@[j].targets@.len() == b.edges@[j].targets@.len() by {
                if j < k {
                    assert(edges@[j] == before_push[j]);
                }
            }
        }
        k = k + 1;
    }
    let ghost after_edges = rn.next;
    let ghost d2 = rn.dense@;
    let ghost next2 = rn.next;
    proof {
        if *expr is Identity || *expr is Braid {
            assert(b.edges@.len() == 0);
            assert(next2 == after_input && d2 == d1);
            let pi = piece.input@;
            let po = piece.output@;
            assert forall|i: int| 0 <= i < po.len() implies #[trigger] d2[root_of@[po[i] as int] as int] != usize::MAX by {
                match *expr {
                    PropExpr::Identity(_) => {
                        assert(po[i] == pi[i]);
                        assert(root_of@[pi[i] as int] == i);
                    },
                    PropExpr::Braid(m, nn) => {
                        if i < nn {
                            assert(po[i] == pi[m + i]);
                            assert(root_of@[pi[m + i] as int] == m + i);
                        } else {
                            assert(po[i] == pi[i - nn]);
                            assert(root_of@[pi[i - nn] as int] == i - nn);
                        }
                    },
                    _ => {},
                }
            }
        }
    }
    let output = rn.remap(&root_of, &piece.output);
    let ghost fw = Seq::new(n as nat, |x: int| rn.dense@[root_of@[x] as int]);
    proof {
        let f = fw;
        let q = spec_piece(*expr, 0);
        assert forall|i: int| 0 <= i < piece.input@.len() implies #[trigger] input@[i] == f[piece.input@[i] as int] by {
            let j = root_of@[piece.input@[i] as int] as int;
            assert(input@[i] == d1[j]);
            assert(input@[i] < after_input);
            assert(d2[j] == d1[j]);
        }
        assert forall|k: int| 0 <= k < q.3.len() implies f[(#[trigger] q.3[k]).0 as int] == f[q.3[k].1 as int] by {
            assert(b.root(q.3[k].0 as int) == b.root(q.3[k].1 as int));
            assert(root_of@[q.3[k].0 as int] == b.root(q.3[k].0 as int));
            assert(root_of@[q.3[k].1 as int] == b.root(q.3[k].1 as int));
        }
        assert(quotient_of(f, q, input@, output@));
    }
    proof {
        let pi = piece.input@;
        let po = piece.output@;
        assert forall|i: int| 0 <= i < pi.len() implies #[trigger] input@[i] == rn.dense@[root_of@[pi[i] as int] as int] by {
            let j = root_of@[pi[i] as int] as int;
            assert(input@[i] == d1[j]);
            assert(input@[i] < after_input);
            assert(d2[j] == d1[j]);
        }
        match *expr {
            PropExpr::Identity(_) => {
                assert(output@ =~= input@);
            },
            PropExpr::Braid(m, nn) => {
                assert(output@ =~= input@.subrange(m as int, m + nn) + input@.subrange(0, m as int));
            },
            _ => {},
        }
    }
    let node_count = rn.next;
    let mut node_colors: Vec<Option<G::Color>> = Vec::new();
    let mut j: usize = 0;
    while j < node_count
        invariant
            j <= node_count,
            node_colors@.len() == j,
            forall|x: int| 0 <= x < j ==> node_colors@[x] is None,
        decreases node_count - j,
    {
        node_colors.push(None);
        j = j + 1;
    }
    proof {
        lemma_edges_fit_grow(edges@, after_edges as nat, node_count as nat);
        lemma_all_below_grow(input@, after_input as nat, node_count as nat);
        assert forall|q: int| 0 <= q < generators_of(*expr).len() implies (#[trigger] edges@[q]).label
            == generators_of(*expr)[q] by {
            assert(b.edges@[0 + q].label == generators_of(*expr)[q]);
        }
    }
    paint_sources::<G>(&mut node_colors, &edges);
    paint_targets::<G>(&mut node_colors, &edges);
    let c = Content { node_count, node_colors, edges, input, output };
    proof {
        assert(quotient_of(fw, spec_piece(*expr, 0), c.spec_input(), c.spec_output()));
        lemma_spec_edges_len(*expr, 0);
        let es = spec_edges_of(*expr, 0);
        assert forall|k: int| 0 <= k < c.spec_edges().len() implies (#[trigger] c.spec_edges()[k]).label == es[k].0
            && c.spec_edges()[k].sources@ == wires_under(fw, es[k].1) && c.spec_edges()[k].targets@ == wires_under(
            fw,
            es[k].2,
        ) by {
            assert(b.edges@[0 + k].sources@ == es[k].1);
            assert(b.edges@[0 + k].targets@ == es[k].2);
            assert(c.spec_edges()[k] == edges@[k]);
            assert forall|q: int| 0 <= q < edges@[k].sources@.len() implies #[trigger] edges@[k].sources@[q] == fw[es[k].1[q] as int] by {
                let x = root_of@[b.edges@[k].sources@[q] as int] as int;
                assert(edges@[k].sources@[q] == d2[x]);
                assert(d2[x] < after_edges);
            }
            assert forall|q: int| 0 <= q < edges@[k].targets@.len() implies #[trigger] edges@[k].targets@[q] == fw[es[k].2[q] as int] by {
                let x = root_of@[b.edges@[k].targets@[q] as int] as int;
                assert(edges@[k].targets@[q] == d2[x]);
                assert(d2[x] < after_edges);
            }
            assert(c.spec_edges()[k].sources@ =~= wires_under(fw, es[k].1));
            assert(c.spec_edges()[k].targets@ =~= wires_under(fw, es[k].2));
        }
        assert(edges_under(fw, es, c.spec_edges()));
    }
    c
}

/// Compute the content of a colored morphism, typing every node whose color
/// the expression alone leaves open (a wire no generator touches) by the
/// source word's letter at its first input coordinate within the word.
#[verifier::rlimit(50)]
pub fn content_of_colored<G: PropSignature>(expr: &ColoredExpr<G>) -> (c: Content<G>)
    requires
        spec_arity_well_formed(expr.spec_expr()),
    ensures
        c.spec_input().len() == expr.spec_expr().spec_source(),
        c.spec_output().len() == expr.spec_expr().spec_target(),
        c.spec_edges().len() == generators_of(expr.spec_expr()).len(),
        forall|k: int|
            0 <= k < generators_of(expr.spec_expr()).len() ==> (#[trigger] c.spec_edges()[k]).label
                == generators_of(expr.spec_expr())[k],
        c.well_indexed(),
        exists|f: Seq<usize>| #[trigger] quotient_of(f, spec_piece(expr.spec_expr(), 0), c.spec_input(), c.spec_output())
            && edges_under(f, spec_edges_of(expr.spec_expr(), 0), c.spec_edges()),
        forall|x: usize|
            #![trigger c.spec_node_colors()[x as int]]
            x < c.spec_node_count() ==> {
                &&& has_producer(c.spec_edges(), x) ==> exists|e: int, p: int|
                    produces(c.spec_edges(), x, e, p) && c.spec_node_colors()[x as int] == Some(
                        c.spec_edges()[e].label.spec_target_word()[p],
                    )
                &&& (!has_producer(c.spec_edges(), x) && has_consumer(c.spec_edges(), x))
                    ==> exists|e: int, p: int|
                    consumes(c.spec_edges(), x, e, p) && c.spec_node_colors()[x as int] == Some(
                        c.spec_edges()[e].label.spec_source_word()[p],
                    )
                &&& (!has_producer(c.spec_edges(), x) && !has_consumer(c.spec_edges(), x)) ==> {
                    &&& (exists|i: int|
                        0 <= i < c.spec_input().len() && i < expr.spec_source_word().len()
                            && c.spec_input()[i] == x) ==> exists|i: int|
                        0 <= i < c.spec_input().len() && i < expr.spec_source_word().len()
                            && c.spec_input()[i] == x && c.spec_node_colors()[x as int] == Some(
                            expr.spec_source_word()[i],
                        )
                    &&& (forall|i: int|
                        0 <= i < c.spec_input().len() && i < expr.spec_source_word().len()
                            ==> c.spec_input()[i] != x) ==> c.spec_node_colors()[x as int] is None
                }
            },
{
    let base = content_of(expr.expr());
    let ghost fw = choose|f: Seq<usize>| #[trigger] quotient_of(
        f,
        spec_piece(expr.spec_expr(), 0),
        base.spec_input(),
        base.spec_output(),
    ) && edges_under(f, spec_edges_of(expr.spec_expr(), 0), base.spec_edges());
    proof {
        use_type_invariant(&base);
    }
    let word = expr.source_word();
    let Content { node_count, node_colors, edges, input, output } = base;
    let mut colors = node_colors;
    let ghost first = colors@;
    let mut i: usize = 0;
    while i < input.len()
        invariant
            colors@.len() == node_count,
            first.len() == node_count,
            all_below(input@, node_count as nat),
            word@ == expr.spec_source_word(),
            i <= input@.len(),
            forall|x: usize|
                #![trigger colors@[x as int]]
                x < node_count ==> {
                    &&& first[x as int] is Some ==> colors@[x as int] == first[x as int]
                    &&& first[x as int] is None ==> {
                        &&& (exists|j: int| 0 <= j < i && j < word@.len() && input@[j] == x)
                            ==> exists|j: int|
                            0 <= j < i && j < word@.len() && input@[j] == x && colors@[x as int]
                                == Some(word@[j])
                        &&& (forall|j: int| 0 <= j < i && j < word@.len() ==> input@[j] != x)
                            ==> colors@[x as int] is None
                    }
                },
        decreases input@.len() - i,
    {
        let node = input[i];
        if colors[node].is_none() && i < word.len() {
            let ghost prev = colors@;
            colors.set(node, Some(word[i]));
            proof {
                assert forall|x: usize| x < node_count implies {
                    &&& first[x as int] is Some ==> #[trigger] colors@[x as int] == first[x as int]
                    &&& first[x as int] is None ==> {
                        &&& (exists|j: int| 0 <= j < i + 1 && j < word@.len() && input@[j] == x)
                            ==> exists|j: int|
                            0 <= j < i + 1 && j < word@.len() && input@[j] == x && colors@[x as int]
                                == Some(word@[j])
                        &&& (forall|j: int| 0 <= j < i + 1 && j < word@.len() ==> input@[j] != x)
                            ==> colors@[x as int] is None
                    }
                } by {
                    if x == node {
                        assert(prev[x as int] is None);
                        if first[x as int] is Some {
                            assert(prev[x as int] == first[x as int]);
                        }
                        assert(0 <= i < i + 1 && i < word@.len() && input@[i as int] == x);
                    } else {
                        assert(colors@[x as int] == prev[x as int]);
                        if first[x as int] is None {
                            if exists|j: int| 0 <= j < i + 1 && j < word@.len() && input@[j] == x {
                                let j = choose|j: int| 0 <= j < i + 1 && j < word@.len() && input@[j] == x;
                                assert(j != i);
                                assert(0 <= j < i && j < word@.len() && input@[j] == x);
                                let k = choose|k: int|
                                    0 <= k < i && k < word@.len() && input@[k] == x && prev[x as int] == Some(word@[k]);
                                assert(0 <= k < i + 1 && k < word@.len() && input@[k] == x);
                            }
                        }
                    }
                }
            }
        } else {
            proof {
                assert forall|x: usize| x < node_count implies {
                    &&& first[x as int] is Some ==> #[trigger] colors@[x as int] == first[x as int]
                    &&& first[x as int] is None ==> {
                        &&& (exists|j: int| 0 <= j < i + 1 && j < word@.len() && input@[j] == x)
                            ==> exists|j: int|
                            0 <= j < i + 1 && j < word@.len() && input@[j] == x && colors@[x as int]
                                == Some(word@[j])
                        &&& (forall|j: int| 0 <= j < i + 1 && j < word@.len() ==> input@[j] != x)
                            ==> colors@[x as int] is None
                    }
                } by {
                    if first[x as int] is None {
                        if exists|j: int| 0 <= j < i + 1 && j < word@.len() && input@[j] == x {
                            let j = choose|j: int| 0 <= j < i + 1 && j < word@.len() && input@[j] == x;
                            if j == i {
                                assert(x == node);
                                assert(colors@[x as int] is Some);
                                if forall|k: int| 0 <= k < i && k < word@.len() ==> input@[k] != x {
                                    assert(false);
                                }
                                let k = choose|k: int| !(0 <= k < i && k < word@.len() ==> input@[k] != x);
                                assert(0 <= k < i && k < word@.len() && input@[k] == x);
                            } else {
                                assert(0 <= j < i && j < word@.len() && input@[j] == x);
                            }
                            let k = choose|k: int|
                                0 <= k < i && k < word@.len() && input@[k] == x && colors@[x as int] == Some(word@[k]);
                            assert(0 <= k < i + 1 && k < word@.len() && input@[k] == x);
                        }
                    }
                }
            }
        }
        i = i + 1;
    }
    proof {
        assert(typed_by_tentacles(first, edges@));
        assert forall|x: usize| x < node_count implies {
            &&& has_producer(edges@, x) ==> exists|e: int, p: int|
                produces(edges@, x, e, p) && #[trigger] colors@[x as int] == Some(
                    edges@[e].label.spec_target_word()[p],
                )
            &&& (!has_producer(edges@, x) && has_consumer(edges@, x))
                ==> exists|e: int, p: int|
                consumes(edges@, x, e, p) && colors@[x as int] == Some(
                    edges@[e].label.spec_source_word()[p],
                )
            &&& (!has_producer(edges@, x) && !has_consumer(edges@, x)) ==> {
                &&& (exists|j: int|
                    0 <= j < input@.len() && j < word@.len()
                        && input@[j] == x) ==> exists|j: int|
                    0 <= j < input@.len() && j < word@.len()
                        && input@[j] == x && colors@[x as int] == Some(
                        word@[j],
                    )
                &&& (forall|j: int|
                    0 <= j < input@.len() && j < word@.len()
                        ==> input@[j] != x) ==> colors@[x as int] is None
            }
        } by {
            assert(first[x as int] == first[x as int]);
            if has_producer(edges@, x) || has_consumer(edges@, x) {
                assert(first[x as int] is Some);
                assert(colors@[x as int] == first[x as int]);
            } else {
                assert(first[x as int] is None);
            }
        }
    }
    let c = Content { node_count, node_colors: colors, edges, input, output };
    proof {
        assert(c.spec_node_colors() == colors@ && c.spec_edges() == edges@ && c.spec_input() == input@);
        assert forall|x: usize| x < c.spec_node_count() implies {
                &&& has_producer(c.spec_edges(), x) ==> exists|e: int, p: int|
                    produces(c.spec_edges(), x, e, p) && #[trigger] c.spec_node_colors()[x as int] == Some(
                        c.spec_edges()[e].label.spec_target_word()[p],
                    )
                &&& (!has_producer(c.spec_edges(), x) && has_consumer(c.spec_edges(), x))
                    ==> exists|e: int, p: int|
                    consumes(c.spec_edges(), x, e, p) && c.spec_node_colors()[x as int] == Some(
                        c.spec_edges()[e].label.spec_source_word()[p],
                    )
                &&& (!has_producer(c.spec_edges(), x) && !has_consumer(c.spec_edges(), x)) ==> {
                    &&& (exists|i: int|
                        0 <= i < c.spec_input().len() && i < expr.spec_source_word().len()
                            && c.spec_input()[i] == x) ==> exists|i: int|
                        0 <= i < c.spec_input().len() && i < expr.spec_source_word().len()
                            && c.spec_input()[i] == x && c.spec_node_colors()[x as int] == Some(
                            expr.spec_source_word()[i],
                        )
                    &&& (forall|i: int|
                        0 <= i < c.spec_input().len() && i < expr.spec_source_word().len()
                            ==> c.spec_input()[i] != x) ==> c.spec_node_colors()[x as int] is None
                }
        } by {
            assert(colors@[x as int] == colors@[x as int]);
        }
        assert(quotient_of(fw, spec_piece(expr.spec_expr(), 0), c.spec_input(), c.spec_output()));
        assert(edges_under(fw, spec_edges_of(expr.spec_expr(), 0), c.spec_edges()));
    }
    c
}

// ------------------------------------------------------- construction by parts

/// Each tentacle's node carries the letter its label's word declares there.
pub open spec fn tentacles_typed<G: PropSignature>(
    colors: Seq<Option<G::Color>>,
    edges: Seq<ContentEdge<G>>,
) -> bool {
    &&& forall|x: usize, e: int, p: int|
        #![trigger consumes(edges, x, e, p)]
        consumes(edges, x, e, p) ==> colors[x as int] == Some(edges[e].label.spec_source_word()[p])
    &&& forall|x: usize, e: int, p: int|
        #![trigger produces(edges, x, e, p)]
        produces(edges, x, e, p) ==> colors[x as int] == Some(edges[e].label.spec_target_word()[p])
}

/// No node has two consumers and none has two producers.
pub open spec fn monogamous<G: PropSignature>(edges: Seq<ContentEdge<G>>) -> bool {
    &&& forall|x: usize, e1: int, p1: int, e2: int, p2: int|
        #![trigger consumes(edges, x, e1, p1), consumes(edges, x, e2, p2)]
        consumes(edges, x, e1, p1) && consumes(edges, x, e2, p2) ==> e1 == e2 && p1 == p2
    &&& forall|x: usize, e1: int, p1: int, e2: int, p2: int|
        #![trigger produces(edges, x, e1, p1), produces(edges, x, e2, p2)]
        produces(edges, x, e1, p1) && produces(edges, x, e2, p2) ==> e1 == e2 && p1 == p2
}

/// No node repeats in `s`.
pub open spec fn distinct(s: Seq<usize>) -> bool {
    forall|i: int, j: int| 0 <= i < j < s.len() ==> s[i] != s[j]
}

/// A ranking of the edges along which every producer comes strictly before
/// the consumers of its targets: the hypergraph has no directed cycle.
pub open spec fn ranks_edges<G: PropSignature>(edges: Seq<ContentEdge<G>>, rank: Seq<nat>) -> bool {
    &&& rank.len() == edges.len()
    &&& forall|x: usize, e: int, p: int, f: int, q: int|
        #![trigger consumes(edges, x, e, p), produces(edges, x, f, q)]
        consumes(edges, x, e, p) && produces(edges, x, f, q) ==> rank[f] < rank[e]
}

/// The hyperedges admit a ranking: there is no directed cycle.
pub open spec fn acyclic<G: PropSignature>(edges: Seq<ContentEdge<G>>) -> bool {
    exists|rank: Seq<nat>| ranks_edges(edges, rank)
}

/// The raw parts describe a cospan in the image of the interpretation: every
/// index in range and every tentacle typed as its label declares; monogamous,
/// with mono anchor legs; a node is producerless iff input-anchored and
/// consumerless iff output-anchored; and acyclic.
pub open spec fn parts_valid<G: PropSignature>(
    node_count: nat,
    colors: Seq<Option<G::Color>>,
    edges: Seq<ContentEdge<G>>,
    input: Seq<usize>,
    output: Seq<usize>,
) -> bool {
    &&& colors.len() == node_count
    &&& edges_fit(edges, node_count)
    &&& tentacles_typed(colors, edges)
    &&& monogamous(edges)
    &&& all_below(input, node_count) && distinct(input)
    &&& all_below(output, node_count) && distinct(output)
    &&& forall|x: usize|
        #![trigger input.contains(x)]
        x < node_count ==> (!has_producer(edges, x) <==> input.contains(x))
    &&& forall|x: usize|
        #![trigger output.contains(x)]
        x < node_count ==> (!has_consumer(edges, x) <==> output.contains(x))
    &&& acyclic(edges)
}

/// Consumer and producer tables for the tentacles read so far: sources up to
/// the cursor `(is, ps)`, targets up to the cursor `(it, pt)`.
spec fn tables_agree<G: PropSignature>(
    edges: Seq<ContentEdge<G>>,
    consumer: Seq<Option<usize>>,
    producer: Seq<Option<usize>>,
    si: int,
    sp: int,
    ti: int,
    tp: int,
) -> bool {
    &&& forall|x: usize|
        #![trigger consumer[x as int]]
        x < consumer.len() ==> consumer_ok(edges, consumer[x as int], x, si, sp)
    &&& forall|x: usize|
        #![trigger producer[x as int]]
        x < producer.len() ==> producer_ok(edges, producer[x as int], x, ti, tp)
}

/// A consumer-table entry for `x` names the edge of a source tentacle read
/// before the cursor, or si empty when no such tentacle si `x`.
spec fn consumer_ok<G: PropSignature>(edges: Seq<ContentEdge<G>>, entry: Option<usize>, x: usize, si: int, sp: int) -> bool {
    match entry {
        Some(e) => exists|q: int| #[trigger] consumes(edges, x, e as int, q) && before(e as int, q, si, sp),
        None => forall|e: int, q: int| consumes(edges, x, e, q) ==> !before(e, q, si, sp),
    }
}

/// A producer-table entry for `x`, as [`consumer_ok`] for target tentacles.
spec fn producer_ok<G: PropSignature>(edges: Seq<ContentEdge<G>>, entry: Option<usize>, x: usize, ti: int, tp: int) -> bool {
    match entry {
        Some(e) => exists|q: int| #[trigger] produces(edges, x, e as int, q) && before(e as int, q, ti, tp),
        None => forall|e: int, q: int| produces(edges, x, e, q) ==> !before(e, q, ti, tp),
    }
}

/// Monogamy, typing and ranges over the tentacles read so far, and tentacle
/// counts over the edges below `counted`.
spec fn prefix_ok<G: PropSignature>(
    n: nat,
    colors: Seq<Option<G::Color>>,
    edges: Seq<ContentEdge<G>>,
    si: int,
    sp: int,
    ti: int,
    tp: int,
    counted: int,
) -> bool {
    &&& forall|x: usize, e1: int, p1: int, e2: int, p2: int|
        #![trigger consumes(edges, x, e1, p1), consumes(edges, x, e2, p2)]
        consumes(edges, x, e1, p1) && consumes(edges, x, e2, p2) && before(e1, p1, si, sp) && before(
            e2,
            p2,
            si,
            sp,
        ) ==> e1 == e2 && p1 == p2
    &&& forall|x: usize, e1: int, p1: int, e2: int, p2: int|
        #![trigger produces(edges, x, e1, p1), produces(edges, x, e2, p2)]
        produces(edges, x, e1, p1) && produces(edges, x, e2, p2) && before(e1, p1, ti, tp) && before(
            e2,
            p2,
            ti,
            tp,
        ) ==> e1 == e2 && p1 == p2
    &&& forall|x: usize, e: int, p: int|
        #![trigger consumes(edges, x, e, p)]
        consumes(edges, x, e, p) && before(e, p, si, sp) ==> x < n && colors[x as int] == Some(
            edges[e].label.spec_source_word()[p],
        )
    &&& forall|x: usize, e: int, p: int|
        #![trigger produces(edges, x, e, p)]
        produces(edges, x, e, p) && before(e, p, ti, tp) ==> x < n && colors[x as int] == Some(
            edges[e].label.spec_target_word()[p],
        )
    &&& forall|e: int|
        #![trigger edges[e]]
        0 <= e < counted && e < edges.len() ==> edges[e].sources@.len()
            == edges[e].label.spec_source_word().len() && edges[e].targets@.len()
            == edges[e].label.spec_target_word().len()
}

/// A vector of `n` copies of `v`.
pub(crate) fn filled<T: Copy>(v: T, n: usize) -> (r: Vec<T>)
    ensures
        r@.len() == n,
        forall|i: int| 0 <= i < n ==> r@[i] == v,
{
    let mut r: Vec<T> = Vec::new();
    let mut i: usize = 0;
    while i < n
        invariant
            i <= n,
            r@.len() == i,
            forall|j: int| 0 <= j < i ==> r@[j] == v,
        decreases n - i,
    {
        r.push(v);
        i = i + 1;
    }
    r
}

/// Whether a node's typing is exactly the letter `c`.
fn opt_color_eq<G: PropSignature>(a: &Option<G::Color>, c: &G::Color) -> (r: bool)
    requires
        colors_are_structural::<G>(),
    ensures
        r == (*a == Some(*c)),
{
    match a {
        Some(found) => {
            let same = *found == *c;
            proof {
                reveal(obeys_concrete_eq);
            }
            same
        },
        None => false,
    }
}

/// Read the tentacle tables, checking counts, ranges, typing and monogamy.
#[verifier::rlimit(80)]
fn read_tentacles<G: PropSignature>(
    node_count: usize,
    node_colors: &Vec<Option<G::Color>>,
    edges: &Vec<ContentEdge<G>>,
) -> (r: Result<(Vec<Option<usize>>, Vec<Option<usize>>), CatgraphError>)
    requires
        node_colors@.len() == node_count,
        colors_are_structural::<G>(),
    ensures
        r is Ok <==> (edges_fit(edges@, node_count as nat) && tentacles_typed(node_colors@, edges@)
            && monogamous(edges@)),
        r matches Err(err) ==> err is Presentation,
        r matches Ok((consumer, producer)) ==> {
            &&& consumer@.len() == node_count
            &&& producer@.len() == node_count
            &&& tables_agree(edges@, consumer@, producer@, edges@.len() as int, 0, edges@.len() as int, 0)
        },
{
    let mut consumer: Vec<Option<usize>> = filled(None, node_count);
    let mut producer: Vec<Option<usize>> = filled(None, node_count);
    let ghost n = node_count as nat;
    let mut i: usize = 0;
    while i < edges.len()
        invariant
            node_colors@.len() == n,
            n == node_count,
            consumer@.len() == n,
            producer@.len() == n,
            i <= edges@.len(),
            colors_are_structural::<G>(),
            tables_agree(edges@, consumer@, producer@, i as int, 0, i as int, 0),
            prefix_ok(n, node_colors@, edges@, i as int, 0, i as int, 0, i as int),
            forall|e: int, q: int|
                0 <= e < i && 0 <= q < edges@[e].sources@.len() ==> #[trigger] edges@[e].sources@[q] < n,
            forall|e: int, q: int|
                0 <= e < i && 0 <= q < edges@[e].targets@.len() ==> #[trigger] edges@[e].targets@[q] < n,
        decreases edges@.len() - i,
    {
        let sw = edges[i].label.source_word();
        let tw = edges[i].label.target_word();
        proof {
            assert(edges@[i as int] == edges@[i as int]);
        }
        if edges[i].sources.len() != sw.len() || edges[i].targets.len() != tw.len() {
            proof {
                assert(!edges_fit(edges@, n)) by {
                    assert(edges@[i as int] == edges@[i as int]);
                }
            }
            return Err(presentation_error("content parts: an edge carries a number of tentacles its label does not declare"));
        }
        let mut p: usize = 0;
        while p < edges[i].sources.len()
            invariant
                node_colors@.len() == n,
                n == node_count,
                consumer@.len() == n,
                producer@.len() == n,
                i < edges@.len(),
                sw@ == edges@[i as int].label.spec_source_word(),
                edges@[i as int].sources@.len() == sw@.len(),
                edges@[i as int].targets@.len() == edges@[i as int].label.spec_target_word().len(),
                p <= sw@.len(),
                colors_are_structural::<G>(),
                tables_agree(edges@, consumer@, producer@, i as int, p as int, i as int, 0),
                prefix_ok(n, node_colors@, edges@, i as int, p as int, i as int, 0, i + 1),
                forall|e: int, q: int|
                    0 <= e < i && 0 <= q < edges@[e].sources@.len() ==> #[trigger] edges@[e].sources@[q] < n,
                forall|e: int, q: int|
                    0 <= e < i && 0 <= q < edges@[e].targets@.len() ==> #[trigger] edges@[e].targets@[q] < n,
                forall|q: int| 0 <= q < p ==> #[trigger] edges@[i as int].sources@[q] < n,
            decreases sw@.len() - p,
        {
            let x = edges[i].sources[p];
            proof {
                assert(edges@[i as int] == edges@[i as int]);
                assert(consumes(edges@, x, i as int, p as int));
            }
            if x >= node_count {
                proof {
                    assert(!edges_fit(edges@, n)) by {
                        assert(edges@[i as int] == edges@[i as int]);
                    }
                }
                return Err(presentation_error("content parts: an edge sources node out of range"));
            }
            if consumer[x].is_some() {
                proof {
                    let e = consumer@[x as int]->0;
                    let q = choose|q: int| consumes(edges@, x, e as int, q) && before(e as int, q, i as int, p as int);
                    assert(consumes(edges@, x, e as int, q) && consumes(edges@, x, i as int, p as int));
                    assert(!monogamous(edges@));
                }
                return Err(presentation_error("content parts: monogamy — a node has two consumers"));
            }
            let same = opt_color_eq::<G>(&node_colors[x], &sw[p]);
            if !same {
                proof {
                    assert(consumes(edges@, x, i as int, p as int));
                    assert(!tentacles_typed(node_colors@, edges@));
                }
                return Err(presentation_error("content parts: a node carries a color other than the one its edge declares"));
            }
            proof {
                assert(forall|e: int, q: int| consumes(edges@, x, e, q) ==> !before(e, q, i as int, p as int));
            }
            let ghost prev = consumer@;
            consumer.set(x, Some(i));
            proof {
                assert forall|y: usize| y < consumer@.len() implies consumer_ok(edges@, #[trigger] consumer@[y as int], y, i as int, p + 1) by {
                    if y == x {
                        let o = consumer@[y as int];
                        assert(o matches Some(e) && e == i);
                        assert(consumer_ok(edges@, o, y, i as int, p + 1) == (exists|q: int| consumes(edges@, y, i as int, q) && before(i as int, q, i as int, p + 1)));
                        assert(consumes(edges@, y, i as int, p as int) && before(i as int, p as int, i as int, p + 1));
                        assert(exists|q: int| consumes(edges@, y, i as int, q) && before(i as int, q, i as int, p + 1));
                    } else {
                        assert(prev[y as int] == consumer@[y as int]);
                        assert(consumer_ok(edges@, prev[y as int], y, i as int, p as int));
                        match prev[y as int] {
                            Some(e) => {
                                let o = prev[y as int];
                                assert(consumer_ok(edges@, o, y, i as int, p as int) == (exists|q: int| consumes(edges@, y, e as int, q) && before(e as int, q, i as int, p as int)));
                                let q = choose|q: int| consumes(edges@, y, e as int, q) && before(e as int, q, i as int, p as int);
                                assert(consumes(edges@, y, e as int, q) && before(e as int, q, i as int, p + 1));
                                assert(consumer_ok(edges@, o, y, i as int, p + 1) == (exists|q: int| consumes(edges@, y, e as int, q) && before(e as int, q, i as int, p + 1)));
                            },
                            None => {
                                assert(forall|e: int, q: int| consumes(edges@, y, e, q) ==> !before(e, q, i as int, p as int));
                                assert forall|e: int, q: int| consumes(edges@, y, e, q) implies !before(e, q, i as int, p + 1) by {
                                    assert(!before(e, q, i as int, p as int));
                                    if e == i && q == p {
                                        assert(edges@[e].sources@[q] == x);
                                    }
                                }
                            },
                        }
                    }
                }
                assert forall|y: usize, e1: int, p1: int, e2: int, p2: int|
                    consumes(edges@, y, e1, p1) && consumes(edges@, y, e2, p2) && before(e1, p1, i as int, p + 1)
                        && before(e2, p2, i as int, p + 1) implies e1 == e2 && p1 == p2 by {
                    if !before(e1, p1, i as int, p as int) {
                        assert(e1 == i && p1 == p);
                        assert(y == x);
                    }
                    if !before(e2, p2, i as int, p as int) {
                        assert(e2 == i && p2 == p);
                        assert(y == x);
                    }
                }
                assert forall|y: usize, e: int, q: int|
                    consumes(edges@, y, e, q) && before(e, q, i as int, p + 1) implies y < n && node_colors@[y as int] == Some(
                        edges@[e].label.spec_source_word()[q]) by {
                    if !before(e, q, i as int, p as int) {
                        assert(e == i && q == p);
                    }
                }
            }
            p = p + 1;
        }
        proof {
            let t = sw@.len() as int;
            assert forall|y: usize| y < consumer@.len() implies consumer_ok(edges@, #[trigger] consumer@[y as int], y, i + 1, 0) by {
                match consumer@[y as int] {
                    Some(e) => {
                        let q = choose|q: int| consumes(edges@, y, e as int, q) && before(e as int, q, i as int, t);
                        assert(consumes(edges@, y, e as int, q) && before(e as int, q, i + 1, 0));
                    },
                    None => {
                        assert forall|e: int, q: int| consumes(edges@, y, e, q) implies !before(e, q, i + 1, 0) by {
                            assert(!before(e, q, i as int, t));
                        }
                    },
                }
            }
            assert forall|y: usize, e1: int, p1: int, e2: int, p2: int|
                consumes(edges@, y, e1, p1) && consumes(edges@, y, e2, p2) && before(e1, p1, i + 1, 0)
                    && before(e2, p2, i + 1, 0) implies e1 == e2 && p1 == p2 by {
                assert(before(e1, p1, i as int, t) && before(e2, p2, i as int, t));
            }
            assert forall|y: usize, e: int, q: int|
                consumes(edges@, y, e, q) && before(e, q, i + 1, 0) implies y < n && node_colors@[y as int] == Some(
                    edges@[e].label.spec_source_word()[q]) by {
                assert(before(e, q, i as int, t));
            }
            assert forall|e: int, q: int|
                0 <= e <= i && 0 <= q < edges@[e].sources@.len() implies #[trigger] edges@[e].sources@[q] < n by {
                if e == i {
                    assert(edges@[i as int].sources@[q] < n);
                }
            }
        }
        let mut p: usize = 0;
        while p < edges[i].targets.len()
            invariant
                node_colors@.len() == n,
                n == node_count,
                consumer@.len() == n,
                producer@.len() == n,
                i < edges@.len(),
                tw@ == edges@[i as int].label.spec_target_word(),
                edges@[i as int].targets@.len() == tw@.len(),
                edges@[i as int].sources@.len() == edges@[i as int].label.spec_source_word().len(),
                p <= tw@.len(),
                colors_are_structural::<G>(),
                tables_agree(edges@, consumer@, producer@, i + 1, 0, i as int, p as int),
                prefix_ok(n, node_colors@, edges@, i + 1, 0, i as int, p as int, i + 1),
                forall|e: int, q: int|
                    0 <= e <= i && 0 <= q < edges@[e].sources@.len() ==> #[trigger] edges@[e].sources@[q] < n,
                forall|e: int, q: int|
                    0 <= e < i && 0 <= q < edges@[e].targets@.len() ==> #[trigger] edges@[e].targets@[q] < n,
                forall|q: int| 0 <= q < p ==> #[trigger] edges@[i as int].targets@[q] < n,
            decreases tw@.len() - p,
        {
            let x = edges[i].targets[p];
            proof {
                assert(edges@[i as int] == edges@[i as int]);
                assert(produces(edges@, x, i as int, p as int));
            }
            if x >= node_count {
                proof {
                    assert(!edges_fit(edges@, n)) by {
                        assert(edges@[i as int] == edges@[i as int]);
                    }
                }
                return Err(presentation_error("content parts: an edge targets node out of range"));
            }
            if producer[x].is_some() {
                proof {
                    let e = producer@[x as int]->0;
                    let q = choose|q: int| produces(edges@, x, e as int, q) && before(e as int, q, i as int, p as int);
                    assert(produces(edges@, x, e as int, q) && produces(edges@, x, i as int, p as int));
                    assert(!monogamous(edges@));
                }
                return Err(presentation_error("content parts: monogamy — a node has two producers"));
            }
            let same = opt_color_eq::<G>(&node_colors[x], &tw[p]);
            if !same {
                proof {
                    assert(produces(edges@, x, i as int, p as int));
                    assert(!tentacles_typed(node_colors@, edges@));
                }
                return Err(presentation_error("content parts: a node carries a color other than the one its edge declares"));
            }
            proof {
                assert(forall|e: int, q: int| produces(edges@, x, e, q) ==> !before(e, q, i as int, p as int));
            }
            let ghost prev = producer@;
            producer.set(x, Some(i));
            proof {
                assert forall|y: usize| y < producer@.len() implies producer_ok(edges@, #[trigger] producer@[y as int], y, i as int, p + 1) by {
                    if y == x {
                        let o = producer@[y as int];
                        assert(o matches Some(e) && e == i);
                        assert(producer_ok(edges@, o, y, i as int, p + 1) == (exists|q: int| produces(edges@, y, i as int, q) && before(i as int, q, i as int, p + 1)));
                        assert(produces(edges@, y, i as int, p as int) && before(i as int, p as int, i as int, p + 1));
                        assert(exists|q: int| produces(edges@, y, i as int, q) && before(i as int, q, i as int, p + 1));
                    } else {
                        assert(prev[y as int] == producer@[y as int]);
                        match prev[y as int] {
                            Some(e) => {
                                let o = prev[y as int];
                                assert(producer_ok(edges@, o, y, i as int, p as int) == (exists|q: int| produces(edges@, y, e as int, q) && before(e as int, q, i as int, p as int)));
                                let q = choose|q: int| produces(edges@, y, e as int, q) && before(e as int, q, i as int, p as int);
                                assert(produces(edges@, y, e as int, q) && before(e as int, q, i as int, p + 1));
                                assert(producer_ok(edges@, o, y, i as int, p + 1) == (exists|q: int| produces(edges@, y, e as int, q) && before(e as int, q, i as int, p + 1)));
                            },
                            None => {
                                assert(forall|e: int, q: int| produces(edges@, y, e, q) ==> !before(e, q, i as int, p as int));
                                assert forall|e: int, q: int| produces(edges@, y, e, q) implies !before(e, q, i as int, p + 1) by {
                                    assert(!before(e, q, i as int, p as int));
                                    if e == i && q == p {
                                        assert(edges@[e].targets@[q] == x);
                                    }
                                }
                            },
                        }
                    }
                }
                assert forall|y: usize, e1: int, p1: int, e2: int, p2: int|
                    produces(edges@, y, e1, p1) && produces(edges@, y, e2, p2) && before(e1, p1, i as int, p + 1)
                        && before(e2, p2, i as int, p + 1) implies e1 == e2 && p1 == p2 by {
                    if !before(e1, p1, i as int, p as int) {
                        assert(e1 == i && p1 == p);
                        assert(y == x);
                    }
                    if !before(e2, p2, i as int, p as int) {
                        assert(e2 == i && p2 == p);
                        assert(y == x);
                    }
                }
                assert forall|y: usize, e: int, q: int|
                    produces(edges@, y, e, q) && before(e, q, i as int, p + 1) implies y < n && node_colors@[y as int] == Some(
                        edges@[e].label.spec_target_word()[q]) by {
                    if !before(e, q, i as int, p as int) {
                        assert(e == i && q == p);
                    }
                }
            }
            p = p + 1;
        }
        proof {
            let t = tw@.len() as int;
            assert forall|y: usize| y < producer@.len() implies producer_ok(edges@, #[trigger] producer@[y as int], y, i + 1, 0) by {
                match producer@[y as int] {
                    Some(e) => {
                        let q = choose|q: int| produces(edges@, y, e as int, q) && before(e as int, q, i as int, t);
                        assert(produces(edges@, y, e as int, q) && before(e as int, q, i + 1, 0));
                    },
                    None => {
                        assert forall|e: int, q: int| produces(edges@, y, e, q) implies !before(e, q, i + 1, 0) by {
                            assert(!before(e, q, i as int, t));
                        }
                    },
                }
            }
            assert forall|y: usize, e1: int, p1: int, e2: int, p2: int|
                produces(edges@, y, e1, p1) && produces(edges@, y, e2, p2) && before(e1, p1, i + 1, 0)
                    && before(e2, p2, i + 1, 0) implies e1 == e2 && p1 == p2 by {
                assert(before(e1, p1, i as int, t) && before(e2, p2, i as int, t));
            }
            assert forall|y: usize, e: int, q: int|
                produces(edges@, y, e, q) && before(e, q, i + 1, 0) implies y < n && node_colors@[y as int] == Some(
                    edges@[e].label.spec_target_word()[q]) by {
                assert(before(e, q, i as int, t));
            }
            assert forall|e: int, q: int|
                0 <= e < i + 1 && 0 <= q < edges@[e].targets@.len() implies #[trigger] edges@[e].targets@[q] < n by {
                if e == i {
                    assert(edges@[i as int].targets@[q] < n);
                }
            }
        }
        i = i + 1;
    }
    proof {
        let m = edges@.len() as int;
        assert(edges_fit(edges@, n)) by {
            assert forall|e: int| 0 <= e < edges@.len() implies {
                &&& (#[trigger] edges@[e]).sources@.len() == edges@[e].label.spec_source_word().len()
                &&& edges@[e].targets@.len() == edges@[e].label.spec_target_word().len()
                &&& forall|q: int| 0 <= q < edges@[e].sources@.len() ==> edges@[e].sources@[q] < n
                &&& forall|q: int| 0 <= q < edges@[e].targets@.len() ==> edges@[e].targets@[q] < n
            } by {
                assert forall|q: int| 0 <= q < edges@[e].sources@.len() implies edges@[e].sources@[q] < n by {
                    assert(edges@[e].sources@[q] < n);
                }
            }
        }
        assert forall|x: usize, e1: int, p1: int, e2: int, p2: int|
            consumes(edges@, x, e1, p1) && consumes(edges@, x, e2, p2) implies e1 == e2 && p1 == p2 by {
            assert(before(e1, p1, m, 0) && before(e2, p2, m, 0));
        }
        assert forall|x: usize, e1: int, p1: int, e2: int, p2: int|
            produces(edges@, x, e1, p1) && produces(edges@, x, e2, p2) implies e1 == e2 && p1 == p2 by {
            assert(before(e1, p1, m, 0) && before(e2, p2, m, 0));
        }
        assert forall|x: usize, e: int, p: int| consumes(edges@, x, e, p) implies node_colors@[x as int] == Some(
            edges@[e].label.spec_source_word()[p]) by {
            assert(before(e, p, m, 0));
        }
        assert forall|x: usize, e: int, p: int| produces(edges@, x, e, p) implies node_colors@[x as int] == Some(
            edges@[e].label.spec_target_word()[p]) by {
            assert(before(e, p, m, 0));
        }
    }
    Ok((consumer, producer))
}

/// Mark the nodes an anchor occupies, refusing an out-of-range or repeated
/// node.
fn anchor_marks(node_count: usize, anchor: &Vec<usize>, on_input: bool) -> (r: Result<Vec<bool>, CatgraphError>)
    ensures
        r is Ok <==> (all_below(anchor@, node_count as nat) && distinct(anchor@)),
        r matches Err(err) ==> err is Presentation,
        all_below(anchor@, node_count as nat) && !distinct(anchor@) ==> (r matches Err(
            CatgraphError::Presentation { message },
        ) && message@ == if on_input {
            "content parts: monogamy — a node occupies two input coordinates, so the input anchor is not mono"@
        } else {
            "content parts: monogamy — a node occupies two output coordinates, so the output anchor is not mono"@
        }),
        r matches Ok(m) ==> m@.len() == node_count && forall|x: usize|
            #![trigger m@[x as int]]
            x < node_count ==> (m@[x as int] <==> anchor@.contains(x)),
{
    let mut marks: Vec<bool> = filled(false, node_count);
    let mut j: usize = 0;
    while j < anchor.len()
        invariant
            marks@.len() == node_count,
            j <= anchor@.len(),
            all_below(anchor@.take(j as int), node_count as nat),
            distinct(anchor@.take(j as int)),
            forall|x: usize|
                #![trigger marks@[x as int]]
                x < node_count ==> (marks@[x as int] <==> anchor@.take(j as int).contains(x)),
        decreases anchor@.len() - j,
    {
        let x = anchor[j];
        if x >= node_count {
            proof {
                assert(!all_below(anchor@, node_count as nat));
            }
            if on_input {
                return Err(presentation_error("content parts: input anchors node out of range"));
            } else {
                return Err(presentation_error("content parts: output anchors node out of range"));
            }
        }
        if marks[x] {
            proof {
                assert(anchor@.take(j as int).contains(x));
                let k = choose|k: int| 0 <= k < j && anchor@.take(j as int)[k] == x;
                assert(anchor@[k] == anchor@[j as int]);
                assert(!distinct(anchor@));
            }
            if on_input {
                return Err(presentation_error("content parts: monogamy — a node occupies two input coordinates, so the input anchor is not mono"));
            } else {
                return Err(presentation_error("content parts: monogamy — a node occupies two output coordinates, so the output anchor is not mono"));
            }
        }
        let ghost prev = marks@;
        marks.set(x, true);
        proof {
            let t = anchor@.take(j + 1);
            assert(t =~= anchor@.take(j as int).push(x));
            assert forall|y: usize| y < node_count implies (#[trigger] marks@[y as int] <==> t.contains(y)) by {
                if y == x {
                    assert(t[j as int] == x);
                } else {
                    assert(marks@[y as int] == prev[y as int]);
                    if t.contains(y) {
                        let k = choose|k: int| 0 <= k < t.len() && t[k] == y;
                        assert(anchor@.take(j as int)[k] == y);
                    }
                    if anchor@.take(j as int).contains(y) {
                        let k = choose|k: int| 0 <= k < j && anchor@.take(j as int)[k] == y;
                        assert(t[k] == y);
                    }
                }
            }
            assert forall|a: int, b: int| 0 <= a < b < t.len() implies t[a] != t[b] by {
                if b == j {
                    assert(!marks@[x as int] || prev[x as int] == false);
                    assert(!anchor@.take(j as int).contains(x));
                    assert(anchor@.take(j as int)[a] == t[a]);
                } else {
                    assert(anchor@.take(j as int)[a] == t[a] && anchor@.take(j as int)[b] == t[b]);
                }
            }
        }
        j = j + 1;
    }
    proof {
        assert(anchor@.take(anchor@.len() as int) =~= anchor@);
    }
    Ok(marks)
}

/// Some source of edge `e` is produced by an edge not yet settled.
spec fn blocked<G: PropSignature>(
    edges: Seq<ContentEdge<G>>,
    producer: Seq<Option<usize>>,
    settled: Seq<bool>,
    e: int,
) -> bool {
    exists|p: int|
        #![trigger edges[e].sources@[p]]
        0 <= p < edges[e].sources@.len() && waits(producer, settled, edges[e].sources@[p])
}

/// Node `x` is producerless or produced by an edge settled below `e`.
spec fn below_settled(producer: Seq<Option<usize>>, settled: Seq<bool>, rank: Seq<nat>, x: usize, e: int) -> bool {
    match producer[x as int] {
        Some(f) => settled[f as int] && rank[f as int] < rank[e],
        None => true,
    }
}

/// Node `x` is produced by an edge not yet settled.
spec fn waits(producer: Seq<Option<usize>>, settled: Seq<bool>, x: usize) -> bool {
    match producer[x as int] {
        Some(f) => !settled[f as int],
        None => false,
    }
}

/// The producer table names, for each node, the unique edge producing it.
spec fn producer_table<G: PropSignature>(edges: Seq<ContentEdge<G>>, producer: Seq<Option<usize>>) -> bool {
    forall|x: usize|
        #![trigger producer[x as int]]
        x < producer.len() ==> match producer[x as int] {
            Some(f) => exists|q: int| #[trigger] produces(edges, x, f as int, q),
            None => !has_producer(edges, x),
        }
}

/// An unsettled edge, when every unsettled edge is blocked by an unsettled
/// producer, lies above an infinite descent: no ranking exists.
proof fn lemma_blocked_descends<G: PropSignature>(
    edges: Seq<ContentEdge<G>>,
    producer: Seq<Option<usize>>,
    settled: Seq<bool>,
    rank: Seq<nat>,
    n: nat,
    e: int,
)
    requires
        edges_fit(edges, n),
        producer.len() == n,
        settled.len() == edges.len(),
        producer_table(edges, producer),
        forall|f: int| 0 <= f < edges.len() && !settled[f] ==> #[trigger] blocked(edges, producer, settled, f),
        0 <= e < edges.len(),
        !settled[e],
    ensures
        !ranks_edges(edges, rank),
    decreases rank[e],
{
    if ranks_edges(edges, rank) {
        assert(blocked(edges, producer, settled, e));
        let p = choose|p: int|
            #![trigger edges[e].sources@[p]]
            0 <= p < edges[e].sources@.len() && waits(producer, settled, edges[e].sources@[p]);
        assert(edges[e] == edges[e]);
        let x = edges[e].sources@[p];
        assert(x < n);
        let f = producer[x as int]->0;
        assert(exists|q: int| #[trigger] produces(edges, x, f as int, q));
        let q = choose|q: int| #[trigger] produces(edges, x, f as int, q);
        assert(consumes(edges, x, e, p));
        assert(rank[f as int] < rank[e]);
        lemma_blocked_descends(edges, producer, settled, rank, n, f as int);
    }
}

/// Whether every source of edge `e` is producerless or produced by a settled
/// edge.
fn ready<G: PropSignature>(edges: &Vec<ContentEdge<G>>, producer: &Vec<Option<usize>>, settled: &Vec<bool>, e: usize) -> (r: bool)
    requires
        e < edges@.len(),
        all_below(edges@[e as int].sources@, producer@.len()),
        forall|x: int| 0 <= x < producer@.len() ==> (#[trigger] producer@[x] matches Some(f) ==> f < settled@.len()),
    ensures
        r == !blocked(edges@, producer@, settled@, e as int),
{
    let mut p: usize = 0;
    while p < edges[e].sources.len()
        invariant
            e < edges@.len(),
            all_below(edges@[e as int].sources@, producer@.len()),
            forall|x: int| 0 <= x < producer@.len() ==> (#[trigger] producer@[x] matches Some(f) ==> f < settled@.len()),
            p <= edges@[e as int].sources@.len(),
            forall|k: int|
                #![trigger edges@[e as int].sources@[k]]
                0 <= k < p ==> !waits(producer@, settled@, edges@[e as int].sources@[k]),
        decreases edges@[e as int].sources@.len() - p,
    {
        let x = edges[e].sources[p];
        match producer[x] {
            Some(f) => {
                if !settled[f] {
                    proof {
                        assert(0 <= p < edges@[e as int].sources@.len() && waits(producer@, settled@, edges@[e as int].sources@[p as int]));
                    }
                    return false;
                }
            },
            None => {},
        }
        p = p + 1;
    }
    true
}

/// Whether the hyperedges are acyclic, by repeatedly settling an edge whose
/// producers are all settled.
#[verifier::rlimit(40)]
fn settles_all<G: PropSignature>(edges: &Vec<ContentEdge<G>>, producer: &Vec<Option<usize>>) -> (r: bool)
    requires
        edges_fit(edges@, producer@.len()),
        producer_table(edges@, producer@),
        monogamous(edges@),
    ensures
        r == acyclic(edges@),
{
    let m = edges.len();
    let _np = producer.len();
    let mut settled: Vec<bool> = filled(false, m);
    let mut count: usize = 0;
    let ghost mut rank: Seq<nat> = Seq::new(m as nat, |i: int| 0nat);
    let ghost mut done: Set<int> = Set::empty();
    proof {
        assert forall|x: int| 0 <= x < producer@.len() implies (#[trigger] producer@[x] matches Some(f) ==> f < settled@.len()) by {
            let y = x as usize;
            assert(producer@[y as int] == producer@[x]);
            if producer@[x] is Some {
                let f = producer@[x]->0;
                let q = choose|q: int| #[trigger] produces(edges@, y, f as int, q);
            }
        }
    }
    loop
        invariant
            settled@.len() == m,
            m == edges@.len(),
            rank.len() == m,
            edges_fit(edges@, producer@.len()),
            producer_table(edges@, producer@),
            monogamous(edges@),
            forall|x: int| 0 <= x < producer@.len() ==> (#[trigger] producer@[x] matches Some(f) ==> f < m),
            done.finite(),
            done.len() == count,
            count <= m,
            forall|e: int| 0 <= e < m ==> (settled@[e] <==> #[trigger] done.contains(e)),
            forall|e: int| done.contains(e) ==> 0 <= e < m,
            forall|e: int|
                #![trigger settled@[e]]
                0 <= e < m && settled@[e] ==> rank[e] < count && forall|p: int|
                    0 <= p < edges@[e].sources@.len() ==> below_settled(producer@, settled@, rank, #[trigger] edges@[e].sources@[p], e),
        ensures
            forall|e: int| 0 <= e < m && !settled@[e] ==> #[trigger] blocked(edges@, producer@, settled@, e),
            settled@.len() == m,
            done.len() == count,
            forall|e: int| 0 <= e < m ==> (settled@[e] <==> #[trigger] done.contains(e)),
            forall|e: int|
                #![trigger settled@[e]]
                0 <= e < m && settled@[e] ==> rank[e] < count && forall|p: int|
                    0 <= p < edges@[e].sources@.len() ==> below_settled(producer@, settled@, rank, #[trigger] edges@[e].sources@[p], e),
            rank.len() == m,
        decreases m - count,
    {
        let ghost start = count;
        let mut progress = false;
        let mut e: usize = 0;
        while e < m
            invariant
                settled@.len() == m,
                m == edges@.len(),
                rank.len() == m,
                edges_fit(edges@, producer@.len()),
                producer_table(edges@, producer@),
                forall|x: int| 0 <= x < producer@.len() ==> (#[trigger] producer@[x] matches Some(f) ==> f < m),
                done.finite(),
                done.len() == count,
                count <= m,
                count >= start,
                progress ==> count > start,
                forall|e: int| 0 <= e < m ==> (settled@[e] <==> #[trigger] done.contains(e)),
                forall|e: int| done.contains(e) ==> 0 <= e < m,
                forall|e: int|
                    #![trigger settled@[e]]
                    0 <= e < m && settled@[e] ==> rank[e] < count && forall|p: int|
                        0 <= p < edges@[e].sources@.len() ==> below_settled(producer@, settled@, rank, #[trigger] edges@[e].sources@[p], e),
                e <= m,
                !progress ==> forall|k: int| 0 <= k < e && !settled@[k] ==> #[trigger] blocked(edges@, producer@, settled@, k),
            decreases m - e,
        {
            proof {
                assert(edges@[e as int] == edges@[e as int]);
            }
            if !settled[e] && ready(edges, producer, &settled, e) {
                proof {
                    let range = set_int_range(0, m as int).remove(e as int);
                    lemma_int_range(0, m as int);
                    assert(done.subset_of(range));
                    lemma_len_subset(done, range);
                }
                let ghost prev = settled@;
                let ghost prev_rank = rank;
                settled.set(e, true);
                proof {
                    rank = rank.update(e as int, count as nat);
                    done = done.insert(e as int);
                    assert forall|k: int| 0 <= k < m && settled@[k] implies rank[k] < count + 1 && forall|p: int|
                        0 <= p < edges@[k].sources@.len() ==> below_settled(producer@, settled@, rank, #[trigger] edges@[k].sources@[p], k) by {
                        if k == e {
                            assert forall|p: int| 0 <= p < edges@[k].sources@.len() implies below_settled(producer@, settled@, rank, #[trigger] edges@[k].sources@[p], k) by {
                                if producer@[edges@[k].sources@[p] as int] is Some {
                                    let f = producer@[edges@[k].sources@[p] as int]->0;
                                    assert(!waits(producer@, prev, edges@[e as int].sources@[p]));
                                    assert(prev[f as int]);
                                    assert(f != e);
                                }
                            }
                        } else {
                            assert(prev[k]);
                        }
                    }
                }
                count = count + 1;
                progress = true;
            } else {
                proof {
                    if !progress && !settled@[e as int] {
                        assert(blocked(edges@, producer@, settled@, e as int));
                    }
                }
            }
            e = e + 1;
        }
        if !progress {
            break;
        }
    }
    let all = count == m;
    proof {
        if all {
            assert forall|e: int| 0 <= e < m implies settled@[e] by {
                if !settled@[e] {
                    let range = set_int_range(0, m as int).remove(e);
                    lemma_int_range(0, m as int);
                    assert(done.subset_of(range));
                    lemma_len_subset(done, range);
                }
            }
            assert(ranks_edges(edges@, rank)) by {
                assert forall|x: usize, e: int, p: int, f: int, q: int|
                    consumes(edges@, x, e, p) && produces(edges@, x, f, q) implies rank[f] < rank[e] by {
                    assert(settled@[e]);
                    assert(edges@[e] == edges@[e]);
                    assert(x < producer@.len());
                    match producer@[x as int] {
                        Some(g) => {
                            let q2 = choose|q2: int| #[trigger] produces(edges@, x, g as int, q2);
                            assert(g as int == f);
                        },
                        None => {
                            assert(has_producer(edges@, x));
                        },
                    }
                }
            }
        } else {
            if acyclic(edges@) {
                let r = choose|r: Seq<nat>| ranks_edges(edges@, r);
                if exists|e: int| 0 <= e < m && !settled@[e] {
                    let e = choose|e: int| 0 <= e < m && !settled@[e];
                    lemma_blocked_descends(edges@, producer@, settled@, r, producer@.len() as nat, e);
                } else {
                    assert forall|e: int| 0 <= e < m implies done.contains(e) by {
                        assert(settled@[e]);
                    }
                    assert(done =~= set_int_range(0, m as int)) by {
                        assert forall|e: int| done.contains(e) <==> set_int_range(0, m as int).contains(e) by {}
                    }
                    lemma_int_range(0, m as int);
                }
            }
        }
    }
    all
}

/// Rebuild a [`Content`] from raw parts, validating that they describe a
/// cospan in the image of the interpretation ([`parts_valid`]): one color per
/// node and every index in range; tentacle counts and colors as each label
/// declares; monogamy with mono anchor legs, a node producerless iff
/// input-anchored and consumerless iff output-anchored; and acyclicity.
///
/// Refused parts give [`CatgraphError::Presentation`], naming the first
/// violated clause.
pub fn from_parts<G: PropSignature>(
    node_count: usize,
    node_colors: Vec<Option<G::Color>>,
    edges: Vec<ContentEdge<G>>,
    input: Vec<usize>,
    output: Vec<usize>,
) -> (r: Result<Content<G>, CatgraphError>)
    requires
        colors_are_structural::<G>(),
    ensures
        r is Ok <==> parts_valid(node_count as nat, node_colors@, edges@, input@, output@),
        r matches Err(err) ==> err is Presentation,
        node_colors@.len() == node_count && edges_fit(edges@, node_count as nat) && tentacles_typed(
            node_colors@,
            edges@,
        ) && monogamous(edges@) && all_below(input@, node_count as nat) && !distinct(input@) ==> (r matches Err(
            CatgraphError::Presentation { message },
        ) && message@
            == "content parts: monogamy — a node occupies two input coordinates, so the input anchor is not mono"@),
        r matches Ok(c) ==> {
            &&& c.spec_node_count() == node_count
            &&& c.spec_node_colors() == node_colors@
            &&& c.spec_edges() == edges@
            &&& c.spec_input() == input@
            &&& c.spec_output() == output@
        },
{
    if node_colors.len() != node_count {
        return Err(presentation_error("content parts: wrong number of colors for the node count"));
    }
    let (consumer, producer) = match read_tentacles(node_count, &node_colors, &edges) {
        Ok(tables) => tables,
        Err(err) => return Err(err),
    };
    let in_marks = match anchor_marks(node_count, &input, true) {
        Ok(m) => m,
        Err(err) => return Err(err),
    };
    let out_marks = match anchor_marks(node_count, &output, false) {
        Ok(m) => m,
        Err(err) => return Err(err),
    };
    let ghost m = edges@.len() as int;
    proof {
        assert forall|x: usize| x < node_count implies (#[trigger] producer@[x as int] is None <==> !has_producer(edges@, x))
            && (consumer@[x as int] is None <==> !has_consumer(edges@, x)) by {
            assert(producer_ok(edges@, producer@[x as int], x, m, 0));
            assert(consumer_ok(edges@, consumer@[x as int], x, m, 0));
            if has_producer(edges@, x) {
                let (e, q) = choose|e: int, q: int| produces(edges@, x, e, q);
                assert(before(e, q, m, 0));
            }
            if has_consumer(edges@, x) {
                let (e, q) = choose|e: int, q: int| consumes(edges@, x, e, q);
                assert(before(e, q, m, 0));
            }
        }
    }
    let mut x: usize = 0;
    while x < node_count
        invariant
            producer@.len() == node_count,
            consumer@.len() == node_count,
            in_marks@.len() == node_count,
            out_marks@.len() == node_count,
            x <= node_count,
            distinct(input@),
            forall|y: usize| y < node_count ==> (#[trigger] producer@[y as int] is None <==> !has_producer(edges@, y))
                && (consumer@[y as int] is None <==> !has_consumer(edges@, y)),
            forall|y: usize|
                #![trigger in_marks@[y as int]]
                y < node_count ==> (in_marks@[y as int] <==> input@.contains(y)),
            forall|y: usize|
                #![trigger out_marks@[y as int]]
                y < node_count ==> (out_marks@[y as int] <==> output@.contains(y)),
            forall|y: usize|
                #![trigger input@.contains(y)]
                y < x ==> (!has_producer(edges@, y) <==> input@.contains(y)),
            forall|y: usize|
                #![trigger output@.contains(y)]
                y < x ==> (!has_consumer(edges@, y) <==> output@.contains(y)),
        decreases node_count - x,
    {
        proof {
            assert(producer@[x as int] == producer@[x as int]);
            assert(in_marks@[x as int] == in_marks@[x as int]);
            assert(out_marks@[x as int] == out_marks@[x as int]);
        }
        if producer[x].is_none() != in_marks[x] {
            return Err(presentation_error("content parts: monogamy — a node is producerless but not input-anchored, or the reverse"));
        }
        if consumer[x].is_none() != out_marks[x] {
            return Err(presentation_error("content parts: monogamy — a node is consumerless but not output-anchored, or the reverse"));
        }
        x = x + 1;
    }
    proof {
        assert forall|y: usize| y < producer@.len() implies match #[trigger] producer@[y as int] {
            Some(f) => exists|q: int| #[trigger] produces(edges@, y, f as int, q),
            None => !has_producer(edges@, y),
        } by {
            assert(producer_ok(edges@, producer@[y as int], y, m, 0));
            if producer@[y as int] is Some {
                let f = producer@[y as int]->0;
                assert(producer_ok(edges@, producer@[y as int], y, m, 0) == (exists|q: int| #[trigger] produces(edges@, y, f as int, q) && before(f as int, q, m, 0)));
                let q = choose|q: int| #[trigger] produces(edges@, y, f as int, q) && before(f as int, q, m, 0);
                assert(produces(edges@, y, f as int, q));
            }
        }
        assert(producer_table(edges@, producer@));
    }
    if !settles_all(&edges, &producer) {
        return Err(presentation_error("content parts: acyclicity — some hyperedges lie on a directed cycle"));
    }
    Ok(Content { node_count, node_colors, edges, input, output })
}

// ---------------------------------------------------------------- incidence

/// Per-node incidence, read once and shared by both algorithms: the
/// `(edge, tentacle position)` producing and consuming each node, and the
/// node's coordinates in each anchor.
struct Profile {
    producer: Vec<Option<(usize, usize)>>,
    consumer: Vec<Option<(usize, usize)>>,
    in_anchor: Vec<Vec<usize>>,
    out_anchor: Vec<Vec<usize>>,
}

impl Profile {
    /// One entry per node, and every recorded incidence names an edge.
    spec fn fits(&self, n: nat, m: nat) -> bool {
        &&& self.producer@.len() == n
        &&& self.consumer@.len() == n
        &&& self.in_anchor@.len() == n
        &&& self.out_anchor@.len() == n
        &&& forall|x: int| 0 <= x < n ==> (#[trigger] self.producer@[x] matches Some((e, _)) ==> e < m)
        &&& forall|x: int| 0 <= x < n ==> (#[trigger] self.consumer@[x] matches Some((e, _)) ==> e < m)
    }
}

/// The positions at which `x` occurs in `anchor`.
fn positions_of(anchor: &Vec<usize>, x: usize) -> (r: Vec<usize>)
    ensures
        forall|k: int| 0 <= k < r@.len() ==> #[trigger] r@[k] < anchor@.len() && anchor@[r@[k] as int] == x,
        forall|k: int, l: int| 0 <= k < l < r@.len() ==> r@[k] < r@[l],
        forall|i: int| 0 <= i < anchor@.len() && anchor@[i] == x ==> r@.contains(i as usize),
{
    let mut r: Vec<usize> = Vec::new();
    let mut i: usize = 0;
    while i < anchor.len()
        invariant
            i <= anchor@.len(),
            forall|k: int| 0 <= k < r@.len() ==> #[trigger] r@[k] < i && anchor@[r@[k] as int] == x,
            forall|k: int, l: int| 0 <= k < l < r@.len() ==> r@[k] < r@[l],
            forall|j: int| 0 <= j < i && anchor@[j] == x ==> r@.contains(j as usize),
        decreases anchor@.len() - i,
    {
        if anchor[i] == x {
            let ghost before = r@;
            r.push(i);
            proof {
                assert(r@[r@.len() - 1] == i);
                assert forall|j: int| 0 <= j < i + 1 && anchor@[j] == x implies r@.contains(j as usize) by {
                    if j < i {
                        let k = choose|k: int| 0 <= k < before.len() && before[k] == j as usize;
                        assert(r@[k] == j);
                    }
                }
            }
        }
        i = i + 1;
    }
    r
}

/// Read the incidence of every node of `c`.
fn profile<G: PropSignature>(c: &Content<G>) -> (p: Profile)
    ensures
        p.fits(c.spec_node_count(), c.spec_edges().len()),
{
    proof {
        use_type_invariant(c);
    }
    let n = c.node_count;
    let mut producer: Vec<Option<(usize, usize)>> = filled(None, n);
    let mut consumer: Vec<Option<(usize, usize)>> = filled(None, n);
    let mut index: usize = 0;
    while index < c.edges.len()
        invariant
            c.inv(),
            n == c.node_count,
            producer@.len() == n,
            consumer@.len() == n,
            index <= c.edges@.len(),
            forall|x: int| 0 <= x < n ==> (#[trigger] producer@[x] matches Some((e, _)) ==> e < index),
            forall|x: int| 0 <= x < n ==> (#[trigger] consumer@[x] matches Some((e, _)) ==> e < index),
        decreases c.edges@.len() - index,
    {
        proof {
            assert(c.edges@[index as int] == c.edges@[index as int]);
        }
        let mut position: usize = 0;
        while position < c.edges[index].sources.len()
            invariant
                c.inv(),
                n == c.node_count,
                index < c.edges@.len(),
                consumer@.len() == n,
                forall|x: int| 0 <= x < n ==> (#[trigger] consumer@[x] matches Some((e, _)) ==> e <= index),
            decreases c.edges@[index as int].sources@.len() - position,
        {
            proof {
                assert(c.edges@[index as int] == c.edges@[index as int]);
            }
            let x = c.edges[index].sources[position];
            consumer.set(x, Some((index, position)));
            position = position + 1;
        }
        let mut position: usize = 0;
        while position < c.edges[index].targets.len()
            invariant
                c.inv(),
                n == c.node_count,
                index < c.edges@.len(),
                producer@.len() == n,
                forall|x: int| 0 <= x < n ==> (#[trigger] producer@[x] matches Some((e, _)) ==> e <= index),
            decreases c.edges@[index as int].targets@.len() - position,
        {
            proof {
                assert(c.edges@[index as int] == c.edges@[index as int]);
            }
            let x = c.edges[index].targets[position];
            producer.set(x, Some((index, position)));
            position = position + 1;
        }
        index = index + 1;
    }
    let mut in_anchor: Vec<Vec<usize>> = Vec::new();
    let mut out_anchor: Vec<Vec<usize>> = Vec::new();
    let mut x: usize = 0;
    while x < n
        invariant
            x <= n,
            in_anchor@.len() == x,
            out_anchor@.len() == x,
        decreases n - x,
    {
        in_anchor.push(positions_of(&c.input, x));
        out_anchor.push(positions_of(&c.output, x));
        x = x + 1;
    }
    Profile { producer, consumer, in_anchor, out_anchor }
}

/// Whether two index vectors are equal.
pub(crate) fn usizes_eq(a: &Vec<usize>, b: &Vec<usize>) -> (r: bool)
    ensures
        r == (a@ == b@),
{
    if a.len() != b.len() {
        return false;
    }
    let mut i: usize = 0;
    while i < a.len()
        invariant
            a@.len() == b@.len(),
            i <= a@.len(),
            forall|k: int| 0 <= k < i ==> a@[k] == b@[k],
        decreases a@.len() - i,
    {
        if a[i] != b[i] {
            return false;
        }
        i = i + 1;
    }
    proof {
        assert(a@ =~= b@);
    }
    true
}

// ---------------------------------------------------------------- equality

/// A partial isomorphism being extended by forced propagation.
struct Matcher {
    node_map: Vec<Option<usize>>,
    node_rev: Vec<Option<usize>>,
    edge_map: Vec<Option<usize>>,
    edge_rev: Vec<Option<usize>>,
    mapped: Ghost<Set<int>>,
}

impl Matcher {
    /// Table sizes, and `mapped` records exactly the mapped nodes.
    spec fn wf(&self, na: nat, nb: nat, ma: nat, mb: nat) -> bool {
        &&& self.node_map@.len() == na
        &&& self.node_rev@.len() == nb
        &&& self.edge_map@.len() == ma
        &&& self.edge_rev@.len() == mb
        &&& forall|x: int| 0 <= x < na ==> (#[trigger] self.node_map@[x] matches Some(y) ==> y < nb)
        &&& forall|e: int| 0 <= e < ma ==> (#[trigger] self.edge_map@[e] matches Some(f) ==> f < mb)
        &&& forall|f: int| 0 <= f < mb ==> (#[trigger] self.edge_rev@[f] matches Some(e) ==> e < ma)
        &&& self.mapped@.finite()
        &&& forall|x: int| self.mapped@.contains(x) ==> 0 <= x < na
        &&& forall|x: int| 0 <= x < na ==> (#[trigger] self.node_map@[x] is Some <==> self.mapped@.contains(x))
    }
}

/// Queued node pairs are in range.
spec fn queue_fits(queue: Seq<(usize, usize)>, na: nat, nb: nat) -> bool {
    forall|k: int| 0 <= k < queue.len() ==> (#[trigger] queue[k]).0 < na && queue[k].1 < nb
}

/// Force `x ↦ y`, queueing it when new; `false` on any conflict.
fn force_node<G: PropSignature>(
    m: &mut Matcher,
    a: &Content<G>,
    b: &Content<G>,
    x: usize,
    y: usize,
    queue: &mut Vec<(usize, usize)>,
) -> (ok: bool)
    requires
        old(m).wf(a.spec_node_count(), b.spec_node_count(), a.spec_edges().len(), b.spec_edges().len()),
        x < a.spec_node_count(),
        y < b.spec_node_count(),
        queue_fits(old(queue)@, a.spec_node_count(), b.spec_node_count()),
        colors_are_structural::<G>(),
    ensures
        final(m).wf(a.spec_node_count(), b.spec_node_count(), a.spec_edges().len(), b.spec_edges().len()),
        queue_fits(final(queue)@, a.spec_node_count(), b.spec_node_count()),
        old(m).mapped@.subset_of(final(m).mapped@),
        final(queue)@.len() == old(queue)@.len() + final(m).mapped@.len() - old(m).mapped@.len(),
        final(m).edge_map@ == old(m).edge_map@,
        final(m).edge_rev@ == old(m).edge_rev@,
        ok == match old(m).node_map@[x as int] {
            Some(z) => z == y,
            None => old(m).node_rev@[y as int] is None && a.node_colors@[x as int] == b.node_colors@[y as int],
        },
        old(m).node_map@[x as int] is None && ok ==> {
            &&& final(m).node_map@ == old(m).node_map@.update(x as int, Some(y))
            &&& final(m).node_rev@ == old(m).node_rev@.update(y as int, Some(x))
            &&& final(queue)@ == old(queue)@.push((x, y))
        },
        !(old(m).node_map@[x as int] is None && ok) ==> {
            &&& final(m).node_map@ == old(m).node_map@
            &&& final(m).node_rev@ == old(m).node_rev@
            &&& final(queue)@ == old(queue)@
        },
{
    proof {
        use_type_invariant(a);
        use_type_invariant(b);
    }
    if let Some(mapped) = m.node_map[x] {
        return mapped == y;
    }
    if m.node_rev[y].is_some() {
        return false;
    }
    let same = opt_colors_eq::<G>(&a.node_colors[x], &b.node_colors[y]);
    if !same {
        return false;
    }
    let ghost prev = m.mapped@;
    m.node_map.set(x, Some(y));
    m.node_rev.set(y, Some(x));
    proof {
        m.mapped@ = m.mapped@.insert(x as int);
        assert(!prev.contains(x as int));
        assert(m.mapped@.len() == prev.len() + 1);
    }
    queue.push((x, y));
    true
}

/// Whether two typings agree.
pub(crate) fn opt_colors_eq<G: PropSignature>(a: &Option<G::Color>, b: &Option<G::Color>) -> (r: bool)
    requires
        colors_are_structural::<G>(),
    ensures
        r == (*a == *b),
{
    match (a, b) {
        (Some(x), Some(y)) => {
            let same = *x == *y;
            proof {
                reveal(obeys_concrete_eq);
            }
            same
        },
        (None, None) => true,
        _ => false,
    }
}

/// Whether two generators are equal.
pub(crate) fn label_eq<G: PropSignature>(a: &G, b: &G) -> (r: bool)
    requires
        gens_are_structural::<G>(),
    ensures
        r == (*a == *b),
{
    let same = *a == *b;
    proof {
        reveal(obeys_concrete_eq);
    }
    same
}

/// Force `e ↦ f` and, with it, every tentacle node pair; `false` on conflict.
fn force_edge<G: PropSignature>(
    m: &mut Matcher,
    a: &Content<G>,
    b: &Content<G>,
    e: usize,
    f: usize,
    queue: &mut Vec<(usize, usize)>,
) -> (ok: bool)
    requires
        old(m).wf(a.spec_node_count(), b.spec_node_count(), a.spec_edges().len(), b.spec_edges().len()),
        e < a.spec_edges().len(),
        f < b.spec_edges().len(),
        queue_fits(old(queue)@, a.spec_node_count(), b.spec_node_count()),
        colors_are_structural::<G>(),
        gens_are_structural::<G>(),
    ensures
        final(m).wf(a.spec_node_count(), b.spec_node_count(), a.spec_edges().len(), b.spec_edges().len()),
        queue_fits(final(queue)@, a.spec_node_count(), b.spec_node_count()),
        old(m).mapped@.subset_of(final(m).mapped@),
        final(queue)@.len() == old(queue)@.len() + final(m).mapped@.len() - old(m).mapped@.len(),
        old(m).edge_map@[e as int] matches Some(g) ==> ok == (g == f) && final(m).node_map@ == old(m).node_map@
            && final(m).edge_map@ == old(m).edge_map@ && final(queue)@ == old(queue)@,
        old(m).edge_map@[e as int] is None && old(m).edge_rev@[f as int] is Some ==> !ok,
        ({
            let ea = a.edges@[e as int];
            let fb = b.edges@[f as int];
            old(m).edge_map@[e as int] is None && !(ea.label == fb.label && ea.sources@.len() == fb.sources@.len()
                && ea.targets@.len() == fb.targets@.len()) ==> !ok
        }),
        ({
            let ea = a.edges@[e as int];
            let fb = b.edges@[f as int];
            old(m).edge_map@[e as int] is None && ok ==> {
                &&& ea.label == fb.label
                &&& final(m).edge_map@ == old(m).edge_map@.update(e as int, Some(f))
                &&& final(m).edge_rev@ == old(m).edge_rev@.update(f as int, Some(e))
                &&& pairs_bound(final(m).node_map@, ea.sources@, fb.sources@)
                &&& pairs_bound(final(m).node_map@, ea.targets@, fb.targets@)
            }
        }),
{
    proof {
        use_type_invariant(a);
        use_type_invariant(b);
        assert(a.edges@[e as int] == a.edges@[e as int]);
        assert(b.edges@[f as int] == b.edges@[f as int]);
    }
    if let Some(mapped) = m.edge_map[e] {
        return mapped == f;
    }
    if m.edge_rev[f].is_some() {
        return false;
    }
    let ea = &a.edges[e];
    let fb = &b.edges[f];
    if !label_eq(&ea.label, &fb.label) || ea.sources.len() != fb.sources.len() || ea.targets.len()
        != fb.targets.len() {
        return false;
    }
    proof {
        assert(ea.label == fb.label);
    }
    m.edge_map.set(e, Some(f));
    m.edge_rev.set(f, Some(e));
    let ghost start_len = queue@.len();
    let ghost start_mapped = m.mapped@;
    let ghost em = m.edge_map@;
    let ghost er = m.edge_rev@;
    let mut k: usize = 0;
    while k < ea.sources.len()
        invariant
            m.wf(a.spec_node_count(), b.spec_node_count(), a.spec_edges().len(), b.spec_edges().len()),
            queue_fits(queue@, a.spec_node_count(), b.spec_node_count()),
            old(m).mapped@ == start_mapped,
            start_mapped.subset_of(m.mapped@),
            queue@.len() == start_len + m.mapped@.len() - start_mapped.len(),
            start_len == old(queue)@.len(),
            a.inv(),
            b.inv(),
            e < a.spec_edges().len(),
            f < b.spec_edges().len(),
            *ea == a.edges@[e as int],
            *fb == b.edges@[f as int],
            ea.sources@.len() == fb.sources@.len(),
            k <= ea.sources@.len(),
            colors_are_structural::<G>(),
            em == old(m).edge_map@.update(e as int, Some(f)),
            er == old(m).edge_rev@.update(f as int, Some(e)),
            m.edge_map@ == em,
            m.edge_rev@ == er,
            old(m).edge_map@[e as int] is None,
            forall|j: int| 0 <= j < k ==> m.node_map@[#[trigger] ea.sources@[j] as int] == Some(fb.sources@[j]),
        decreases ea.sources@.len() - k,
    {
        proof {
            assert(a.edges@[e as int] == a.edges@[e as int]);
            assert(b.edges@[f as int] == b.edges@[f as int]);
            assert(ea.sources@[k as int] < a.spec_node_count());
            assert(fb.sources@[k as int] < b.spec_node_count());
        }
        let ghost before = m.node_map@;
        if !force_node(m, a, b, ea.sources[k], fb.sources[k], queue) {
            return false;
        }
        proof {
            assert forall|j: int| 0 <= j < k + 1 implies m.node_map@[#[trigger] ea.sources@[j] as int] == Some(fb.sources@[j]) by {
                if j < k {
                    assert(before[ea.sources@[j] as int] == Some(fb.sources@[j]));
                }
            }
        }
        k = k + 1;
    }
    proof {
        assert(pairs_bound(m.node_map@, ea.sources@, fb.sources@));
    }
    let mut k: usize = 0;
    while k < ea.targets.len()
        invariant
            m.wf(a.spec_node_count(), b.spec_node_count(), a.spec_edges().len(), b.spec_edges().len()),
            queue_fits(queue@, a.spec_node_count(), b.spec_node_count()),
            old(m).mapped@ == start_mapped,
            start_mapped.subset_of(m.mapped@),
            queue@.len() == start_len + m.mapped@.len() - start_mapped.len(),
            start_len == old(queue)@.len(),
            a.inv(),
            b.inv(),
            e < a.spec_edges().len(),
            f < b.spec_edges().len(),
            *ea == a.edges@[e as int],
            *fb == b.edges@[f as int],
            ea.targets@.len() == fb.targets@.len(),
            k <= ea.targets@.len(),
            colors_are_structural::<G>(),
            m.edge_map@ == em,
            m.edge_rev@ == er,
            em == old(m).edge_map@.update(e as int, Some(f)),
            er == old(m).edge_rev@.update(f as int, Some(e)),
            old(m).edge_map@[e as int] is None,
            all_below(ea.sources@, a.spec_node_count()),
            pairs_bound(m.node_map@, ea.sources@, fb.sources@),
            forall|j: int| 0 <= j < k ==> m.node_map@[#[trigger] ea.targets@[j] as int] == Some(fb.targets@[j]),
        decreases ea.targets@.len() - k,
    {
        proof {
            assert(a.edges@[e as int] == a.edges@[e as int]);
            assert(b.edges@[f as int] == b.edges@[f as int]);
            assert(ea.targets@[k as int] < a.spec_node_count());
            assert(fb.targets@[k as int] < b.spec_node_count());
        }
        let ghost before = m.node_map@;
        if !force_node(m, a, b, ea.targets[k], fb.targets[k], queue) {
            return false;
        }
        proof {
            assert forall|j: int| 0 <= j < k + 1 implies m.node_map@[#[trigger] ea.targets@[j] as int] == Some(fb.targets@[j]) by {
                if j < k {
                    assert(before[ea.targets@[j] as int] == Some(fb.targets@[j]));
                }
            }
            assert forall|j: int| 0 <= j < ea.sources@.len() && j < fb.sources@.len()
                implies m.node_map@[#[trigger] ea.sources@[j] as int] == Some(fb.sources@[j]) by {
                assert(before[ea.sources@[j] as int] == Some(fb.sources@[j]));
            }
        }
        k = k + 1;
    }
    true
}

/// Each node of `ls` that has a partner in `ts` at the same position is
/// mapped to it.
spec fn pairs_bound(node_map: Seq<Option<usize>>, ls: Seq<usize>, ts: Seq<usize>) -> bool {
    forall|j: int| 0 <= j < ls.len() && j < ts.len() ==> node_map[#[trigger] ls[j] as int] == Some(ts[j])
}

/// Close the queued node pairs under their forced consequences: a forced node
/// pair forces its producer and consumer edge pairs (unique by monogamy), and
/// both nodes must occupy the same boundary coordinates.
#[verifier::rlimit(40)]
fn propagate<G: PropSignature>(
    m: &mut Matcher,
    a: &Content<G>,
    b: &Content<G>,
    pa: &Profile,
    pb: &Profile,
    queue: &mut Vec<(usize, usize)>,
) -> (ok: bool)
    requires
        old(m).wf(a.spec_node_count(), b.spec_node_count(), a.spec_edges().len(), b.spec_edges().len()),
        queue_fits(old(queue)@, a.spec_node_count(), b.spec_node_count()),
        pa.fits(a.spec_node_count(), a.spec_edges().len()),
        pb.fits(b.spec_node_count(), b.spec_edges().len()),
        colors_are_structural::<G>(),
        gens_are_structural::<G>(),
    ensures
        final(m).wf(a.spec_node_count(), b.spec_node_count(), a.spec_edges().len(), b.spec_edges().len()),
{
    let ghost na = a.spec_node_count();
    loop
        invariant
            m.wf(na, b.spec_node_count(), a.spec_edges().len(), b.spec_edges().len()),
            na == a.spec_node_count(),
            queue_fits(queue@, na, b.spec_node_count()),
            pa.fits(na, a.spec_edges().len()),
            pb.fits(b.spec_node_count(), b.spec_edges().len()),
            colors_are_structural::<G>(),
            gens_are_structural::<G>(),
        decreases na - m.mapped@.len(), queue@.len(),
    {
        proof {
            lemma_int_range(0, na as int);
            assert(m.mapped@.subset_of(set_int_range(0, na as int)));
            lemma_len_subset(m.mapped@, set_int_range(0, na as int));
        }
        let (x, y) = match queue.pop() {
            Some(pair) => pair,
            None => break,
        };
        let ghost popped_len = queue@.len();
        let ghost popped_mapped = m.mapped@;
        if !usizes_eq(&pa.in_anchor[x], &pb.in_anchor[y]) || !usizes_eq(&pa.out_anchor[x], &pb.out_anchor[y]) {
            return false;
        }
        let left = [pa.consumer[x], pa.producer[x]];
        let right = [pb.consumer[y], pb.producer[y]];
        let mut side: usize = 0;
        while side < 2
            invariant
                m.wf(na, b.spec_node_count(), a.spec_edges().len(), b.spec_edges().len()),
                na == a.spec_node_count(),
                queue_fits(queue@, na, b.spec_node_count()),
                popped_mapped.subset_of(m.mapped@),
                m.mapped@.finite(),
                queue@.len() == popped_len + m.mapped@.len() - popped_mapped.len(),
                side <= 2,
                left@.len() == 2,
                right@.len() == 2,
                forall|k: int| 0 <= k < 2 ==> (#[trigger] left@[k] matches Some((e, _)) ==> e < a.spec_edges().len()),
                forall|k: int| 0 <= k < 2 ==> (#[trigger] right@[k] matches Some((f, _)) ==> f < b.spec_edges().len()),
                colors_are_structural::<G>(),
                gens_are_structural::<G>(),
            decreases 2 - side,
        {
            match (left[side], right[side]) {
                (None, None) => {},
                (Some((e, pe)), Some((f, pf))) => {
                    if pe != pf || !force_edge(m, a, b, e, f, queue) {
                        return false;
                    }
                },
                _ => {
                    return false;
                },
            }
            side = side + 1;
        }
        proof {
            lemma_int_range(0, na as int);
            assert(m.mapped@.subset_of(set_int_range(0, na as int)));
            lemma_len_subset(m.mapped@, set_int_range(0, na as int));
            lemma_len_subset(popped_mapped, m.mapped@);
        }
    }
    true
}

// ------------------------------------------- closed components, canonically

/// One hyperedge under a canonical numbering.
#[derive(Clone, Debug, PartialEq, Eq, Hash)]
struct EdgeRecord<G: PropSignature> {
    label: G,
    sources: Vec<usize>,
    targets: Vec<usize>,
}

impl<G: PropSignature> EdgeRecord<G> {
    fn duplicate(&self) -> (r: Self)
        ensures
            r.label == self.label,
            r.sources@ == self.sources@,
            r.targets@ == self.targets@,
    {
        EdgeRecord { label: self.label, sources: self.sources.clone(), targets: self.targets.clone() }
    }
}

/// Every record's tentacles name a node below `n` and match its label's
/// word lengths.
spec fn records_fit<G: PropSignature>(records: Seq<EdgeRecord<G>>, n: nat) -> bool {
    forall|e: int|
        #![trigger records[e]]
        0 <= e < records.len() ==> {
            &&& records[e].sources@.len() == records[e].label.spec_source_word().len()
            &&& records[e].targets@.len() == records[e].label.spec_target_word().len()
            &&& all_below(records[e].sources@, n)
            &&& all_below(records[e].targets@, n)
        }
}

/// A closed component's canonical serialization: the least over its choices
/// of seed edge, a complete isomorphism invariant of the component.
#[derive(Clone, Debug, PartialEq, Eq, Hash)]
struct ClosedBlock<G: PropSignature> {
    node_count: usize,
    edges: Vec<EdgeRecord<G>>,
}

/// Copy a list of records.
fn copy_records<G: PropSignature>(v: &Vec<EdgeRecord<G>>) -> (r: Vec<EdgeRecord<G>>)
    ensures
        r@.len() == v@.len(),
        forall|e: int|
            #![trigger r@[e]]
            0 <= e < v@.len() ==> r@[e].label == v@[e].label && r@[e].sources@ == v@[e].sources@
                && r@[e].targets@ == v@[e].targets@,
{
    let mut r: Vec<EdgeRecord<G>> = Vec::new();
    let mut i: usize = 0;
    while i < v.len()
        invariant
            i <= v@.len(),
            r@.len() == i,
            forall|e: int|
                #![trigger r@[e]]
                0 <= e < i ==> r@[e].label == v@[e].label && r@[e].sources@ == v@[e].sources@
                    && r@[e].targets@ == v@[e].targets@,
        decreases v@.len() - i,
    {
        r.push(v[i].duplicate());
        i = i + 1;
    }
    r
}

impl<G: PropSignature> ClosedBlock<G> {
    fn duplicate(&self) -> (r: Self)
        ensures
            r.node_count == self.node_count,
            r.edges@.len() == self.edges@.len(),
            forall|e: int|
                #![trigger r.edges@[e]]
                0 <= e < self.edges@.len() ==> r.edges@[e].label == self.edges@[e].label
                    && r.edges@[e].sources@ == self.edges@[e].sources@ && r.edges@[e].targets@
                    == self.edges@[e].targets@,
    {
        ClosedBlock { node_count: self.node_count, edges: copy_records(&self.edges) }
    }
}

/// `a` comes before `b` in the signature's order on labels.
pub open spec fn label_before<G: PropSignature>(a: G, b: G) -> bool {
    a.partial_cmp_spec(&b) == Some(Ordering::Less)
}

/// The signature's `<` on labels follows its specification.
pub open spec fn labels_follow_spec<G: PropSignature>() -> bool {
    G::obeys_partial_cmp_spec()
}

/// The signature's `<` on labels follows its specification, and of two
/// distinct labels exactly one comes first.
pub open spec fn labels_ordered<G: PropSignature>() -> bool {
    &&& labels_follow_spec::<G>()
    &&& forall|a: G, b: G| a != b ==> (#[trigger] label_before(a, b) <==> !label_before(b, a))
}

/// The order on labels: `-1`, `0` or `1`.
pub open spec fn label_order<G: PropSignature>(a: G, b: G) -> int {
    if a == b {
        0
    } else if label_before(a, b) {
        -1
    } else {
        1
    }
}

/// Lexicographic order on index sequences, a proper prefix first.
pub open spec fn usizes_order(a: Seq<usize>, b: Seq<usize>) -> int
    decreases a.len(),
{
    if a.len() == 0 {
        if b.len() == 0 { 0 } else { -1 }
    } else if b.len() == 0 {
        1
    } else if a[0] < b[0] {
        -1
    } else if a[0] > b[0] {
        1
    } else {
        usizes_order(a.drop_first(), b.drop_first())
    }
}

/// Order on records: label, then sources, then targets.
spec fn record_order<G: PropSignature>(a: EdgeRecord<G>, b: EdgeRecord<G>) -> int {
    if label_order(a.label, b.label) != 0 {
        label_order(a.label, b.label)
    } else if usizes_order(a.sources@, b.sources@) != 0 {
        usizes_order(a.sources@, b.sources@)
    } else {
        usizes_order(a.targets@, b.targets@)
    }
}

/// Lexicographic order on record lists, a proper prefix first.
spec fn records_order<G: PropSignature>(a: Seq<EdgeRecord<G>>, b: Seq<EdgeRecord<G>>) -> int
    decreases a.len(),
{
    if a.len() == 0 {
        if b.len() == 0 { 0 } else { -1 }
    } else if b.len() == 0 {
        1
    } else if record_order(a[0], b[0]) != 0 {
        record_order(a[0], b[0])
    } else {
        records_order(a.drop_first(), b.drop_first())
    }
}

/// Order on closed blocks: node count, then records.
spec fn block_order<G: PropSignature>(a: ClosedBlock<G>, b: ClosedBlock<G>) -> int {
    if a.node_count < b.node_count {
        -1
    } else if a.node_count > b.node_count {
        1
    } else {
        records_order(a.edges@, b.edges@)
    }
}

/// Equal prefixes do not decide the index order.
proof fn lemma_usizes_order_skip(a: Seq<usize>, b: Seq<usize>, i: int)
    requires
        0 <= i <= a.len(),
        i <= b.len(),
        forall|k: int| 0 <= k < i ==> a[k] == b[k],
    ensures
        usizes_order(a, b) == usizes_order(a.skip(i), b.skip(i)),
    decreases i,
{
    if i > 0 {
        lemma_usizes_order_skip(a.drop_first(), b.drop_first(), i - 1);
        assert(a.drop_first().skip(i - 1) =~= a.skip(i));
        assert(b.drop_first().skip(i - 1) =~= b.skip(i));
    } else {
        assert(a.skip(0) =~= a);
        assert(b.skip(0) =~= b);
    }
}

/// Equal prefixes do not decide the record-list order.
proof fn lemma_records_order_skip<G: PropSignature>(a: Seq<EdgeRecord<G>>, b: Seq<EdgeRecord<G>>, i: int)
    requires
        0 <= i <= a.len(),
        i <= b.len(),
        forall|k: int| 0 <= k < i ==> record_order(a[k], b[k]) == 0,
    ensures
        records_order(a, b) == records_order(a.skip(i), b.skip(i)),
    decreases i,
{
    if i > 0 {
        lemma_records_order_skip(a.drop_first(), b.drop_first(), i - 1);
        assert(a.drop_first().skip(i - 1) =~= a.skip(i));
        assert(b.drop_first().skip(i - 1) =~= b.skip(i));
    } else {
        assert(a.skip(0) =~= a);
        assert(b.skip(0) =~= b);
    }
}

/// The index order is antisymmetric.
proof fn lemma_usizes_order_antisym(a: Seq<usize>, b: Seq<usize>)
    ensures
        usizes_order(a, b) == -usizes_order(b, a),
    decreases a.len(),
{
    if a.len() > 0 && b.len() > 0 && a[0] == b[0] {
        lemma_usizes_order_antisym(a.drop_first(), b.drop_first());
    }
}

/// Under an ordered signature the block order is antisymmetric.
proof fn lemma_block_order_antisym<G: PropSignature>(a: ClosedBlock<G>, b: ClosedBlock<G>)
    requires
        labels_ordered::<G>(),
    ensures
        block_order(a, b) == -block_order(b, a),
{
    lemma_records_order_antisym(a.edges@, b.edges@);
}

proof fn lemma_record_order_antisym<G: PropSignature>(a: EdgeRecord<G>, b: EdgeRecord<G>)
    requires
        labels_ordered::<G>(),
    ensures
        record_order(a, b) == -record_order(b, a),
{
    if a.label != b.label {
        assert(label_before(a.label, b.label) <==> !label_before(b.label, a.label));
    }
    lemma_usizes_order_antisym(a.sources@, b.sources@);
    lemma_usizes_order_antisym(a.targets@, b.targets@);
}

proof fn lemma_records_order_antisym<G: PropSignature>(a: Seq<EdgeRecord<G>>, b: Seq<EdgeRecord<G>>)
    requires
        labels_ordered::<G>(),
    ensures
        records_order(a, b) == -records_order(b, a),
    decreases a.len(),
{
    if a.len() > 0 && b.len() > 0 {
        lemma_record_order_antisym(a[0], b[0]);
        lemma_records_order_antisym(a.drop_first(), b.drop_first());
    }
}

/// Lexicographic order on index vectors: `-1`, `0` or `1`.
fn order_usizes(a: &Vec<usize>, b: &Vec<usize>) -> (r: i8)
    ensures
        r == 0 <==> a@ == b@,
        r == usizes_order(a@, b@),
{
    let mut i: usize = 0;
    while i < a.len() && i < b.len()
        invariant
            i <= a@.len(),
            i <= b@.len(),
            forall|k: int| 0 <= k < i ==> a@[k] == b@[k],
        decreases a@.len() - i,
    {
        proof {
            lemma_usizes_order_skip(a@, b@, i as int);
            assert(a@.skip(i as int)[0] == a@[i as int]);
            assert(b@.skip(i as int)[0] == b@[i as int]);
        }
        if a[i] < b[i] {
            return -1;
        }
        if a[i] > b[i] {
            return 1;
        }
        i = i + 1;
    }
    proof {
        lemma_usizes_order_skip(a@, b@, i as int);
    }
    if a.len() < b.len() {
        -1
    } else if a.len() > b.len() {
        1
    } else {
        proof {
            assert(a@ =~= b@);
        }
        0
    }
}

/// The signature's order on labels: `-1`, `0` or `1`.
fn order_labels<G: PropSignature>(a: &G, b: &G) -> (r: i8)
    requires
        gens_are_structural::<G>(),
    ensures
        r == 0 <==> *a == *b,
        labels_follow_spec::<G>() ==> r == label_order(*a, *b),
{
    if label_eq(a, b) {
        0
    } else if *a < *b {
        -1
    } else {
        1
    }
}

/// Order on records: label, then sources, then targets.
fn order_records<G: PropSignature>(a: &EdgeRecord<G>, b: &EdgeRecord<G>) -> (r: i8)
    requires
        gens_are_structural::<G>(),
    ensures
        r == 0 <==> (a.label == b.label && a.sources@ == b.sources@ && a.targets@ == b.targets@),
        labels_follow_spec::<G>() ==> r == record_order(*a, *b),
{
    let l = order_labels(&a.label, &b.label);
    if l != 0 {
        return l;
    }
    let s = order_usizes(&a.sources, &b.sources);
    if s != 0 {
        return s;
    }
    order_usizes(&a.targets, &b.targets)
}

/// Two record lists agree entry by entry.
spec fn same_records<G: PropSignature>(a: Seq<EdgeRecord<G>>, b: Seq<EdgeRecord<G>>) -> bool {
    a.len() == b.len() && forall|e: int|
        #![trigger a[e], b[e]]
        0 <= e < a.len() ==> a[e].label == b[e].label && a[e].sources@ == b[e].sources@
            && a[e].targets@ == b[e].targets@
}

/// Order on closed blocks: node count, then records lexicographically.
fn order_blocks<G: PropSignature>(a: &ClosedBlock<G>, b: &ClosedBlock<G>) -> (r: i8)
    requires
        gens_are_structural::<G>(),
    ensures
        r == 0 <==> (a.node_count == b.node_count && same_records(a.edges@, b.edges@)),
        labels_follow_spec::<G>() ==> r == block_order(*a, *b),
{
    if a.node_count < b.node_count {
        return -1;
    }
    if a.node_count > b.node_count {
        return 1;
    }
    let mut i: usize = 0;
    while i < a.edges.len() && i < b.edges.len()
        invariant
            i <= a.edges@.len(),
            i <= b.edges@.len(),
            gens_are_structural::<G>(),
            forall|e: int|
                #![trigger a.edges@[e], b.edges@[e]]
                0 <= e < i ==> a.edges@[e].label == b.edges@[e].label && a.edges@[e].sources@
                    == b.edges@[e].sources@ && a.edges@[e].targets@ == b.edges@[e].targets@,
            a.node_count == b.node_count,
        decreases a.edges@.len() - i,
    {
        proof {
            assert forall|k: int| 0 <= k < i implies record_order(a.edges@[k], b.edges@[k]) == 0 by {
                assert(a.edges@[k].label == b.edges@[k].label);
                assert(a.edges@[k].sources@ =~= b.edges@[k].sources@);
                assert(a.edges@[k].targets@ =~= b.edges@[k].targets@);
                lemma_usizes_order_antisym(a.edges@[k].sources@, a.edges@[k].sources@);
                lemma_usizes_order_antisym(a.edges@[k].targets@, a.edges@[k].targets@);
            }
            lemma_records_order_skip(a.edges@, b.edges@, i as int);
            assert(a.edges@.skip(i as int)[0] == a.edges@[i as int]);
            assert(b.edges@.skip(i as int)[0] == b.edges@[i as int]);
        }
        let o = order_records(&a.edges[i], &b.edges[i]);
        if o != 0 {
            return o;
        }
        i = i + 1;
    }
    proof {
        assert forall|k: int| 0 <= k < i implies record_order(a.edges@[k], b.edges@[k]) == 0 by {
            assert(a.edges@[k].label == b.edges@[k].label);
            lemma_usizes_order_antisym(a.edges@[k].sources@, a.edges@[k].sources@);
            lemma_usizes_order_antisym(a.edges@[k].targets@, a.edges@[k].targets@);
        }
        lemma_records_order_skip(a.edges@, b.edges@, i as int);
    }
    if a.edges.len() < b.edges.len() {
        -1
    } else if a.edges.len() > b.edges.len() {
        1
    } else {
        0
    }
}

/// A canonical numbering under construction: nodes and edges in discovery
/// order, with the breadth-first queue of nodes still to expand.
struct Numbering {
    node: Vec<Option<usize>>,
    edge: Vec<Option<usize>>,
    next_node: usize,
    order: Vec<usize>,
    queue: Vec<usize>,
    head: usize,
    numbered: Ghost<Set<int>>,
}

impl Numbering {
    /// Sizes, ranges, and `numbered` holds exactly the numbered nodes; every
    /// queued node is numbered.
    spec fn wf(&self, n: nat, m: nat) -> bool {
        &&& self.node@.len() == n
        &&& self.edge@.len() == m
        &&& self.numbered@.finite()
        &&& self.numbered@.len() == self.next_node
        &&& forall|x: int| self.numbered@.contains(x) ==> 0 <= x < n
        &&& forall|x: int| 0 <= x < n ==> (#[trigger] self.node@[x] is Some <==> self.numbered@.contains(x))
        &&& forall|x: int| 0 <= x < n ==> (#[trigger] self.node@[x] matches Some(i) ==> i < self.next_node)
        &&& all_below(self.order@, m)
        &&& all_below(self.queue@, n)
        &&& self.head <= self.queue@.len()
        &&& self.queue@.len() == self.next_node
    }

    /// Every ordered edge has all its tentacles numbered.
    spec fn covers<G: PropSignature>(&self, edges: Seq<ContentEdge<G>>) -> bool {
        forall|k: int|
            #![trigger self.order@[k]]
            0 <= k < self.order@.len() ==> {
                &&& forall|p: int|
                    0 <= p < edges[self.order@[k] as int].sources@.len() ==> #[trigger] self.node@[edges[self.order@[k] as int].sources@[p] as int] is Some
                &&& forall|p: int|
                    0 <= p < edges[self.order@[k] as int].targets@.len() ==> #[trigger] self.node@[edges[self.order@[k] as int].targets@[p] as int] is Some
            }
    }

    fn new(nodes: usize, edges: usize) -> (r: Self)
        ensures
            r.wf(nodes as nat, edges as nat),
            r.next_node == 0,
            r.order@.len() == 0,
            forall|e: int| 0 <= e < edges ==> r.edge@[e] is None,
    {
        Numbering {
            node: filled(None, nodes),
            edge: filled(None, edges),
            next_node: 0,
            order: Vec::new(),
            queue: Vec::new(),
            head: 0,
            numbered: Ghost(Set::empty()),
        }
    }

    /// Number `node` if new, and queue it for expansion.
    fn visit_node(&mut self, node: usize, Ghost(n): Ghost<nat>, Ghost(m): Ghost<nat>)
        requires
            old(self).wf(n, m),
            node < n,
        ensures
            final(self).wf(n, m),
            final(self).node@[node as int] is Some,
            forall|x: int| 0 <= x < n && old(self).node@[x] is Some ==> final(self).node@[x] == old(self).node@[x],
            final(self).order@ == old(self).order@,
            final(self).edge@ == old(self).edge@,
            final(self).head == old(self).head,
            final(self).next_node >= old(self).next_node,
    {
        let _len = self.node.len();
        if self.node[node].is_none() {
            proof {
                let range = set_int_range(0, n as int).remove(node as int);
                lemma_int_range(0, n as int);
                assert(self.numbered@.subset_of(range));
                lemma_len_subset(self.numbered@, range);
            }
            self.node.set(node, Some(self.next_node));
            self.next_node = self.next_node + 1;
            self.queue.push(node);
            proof {
                self.numbered@ = self.numbered@.insert(node as int);
            }
        }
    }

    /// Number `edge` if new, and its tentacle nodes in tentacle order.
    fn visit_edge<G: PropSignature>(&mut self, c: &Content<G>, edge: usize)
        requires
            old(self).wf(c.spec_node_count(), c.spec_edges().len()),
            old(self).covers(c.spec_edges()),
            edge < c.spec_edges().len(),
        ensures
            final(self).wf(c.spec_node_count(), c.spec_edges().len()),
            final(self).covers(c.spec_edges()),
            final(self).edge@[edge as int] is Some,
            forall|x: int|
                0 <= x < c.spec_node_count() && old(self).node@[x] is Some ==> final(self).node@[x] == old(
                    self,
                ).node@[x],
            forall|e: int|
                0 <= e < c.spec_edges().len() && old(self).edge@[e] is Some ==> final(self).edge@[e] == old(
                    self,
                ).edge@[e],
            final(self).head == old(self).head,
            final(self).next_node >= old(self).next_node,
    {
        proof {
            use_type_invariant(c);
            assert(c.edges@[edge as int] == c.edges@[edge as int]);
        }
        if self.edge[edge].is_some() {
            return;
        }
        let ghost n = c.node_count as nat;
        let ghost m = c.edges@.len();
        self.edge.set(edge, Some(self.order.len()));
        self.order.push(edge);
        let e = &c.edges[edge];
        let ghost start = self.node@;
        let mut k: usize = 0;
        while k < e.sources.len()
            invariant
                self.wf(n, m),
                c.inv(),
                n == c.node_count,
                m == c.edges@.len(),
                edge < m,
                *e == c.edges@[edge as int],
                k <= e.sources@.len(),
                self.order@.len() >= 1,
                self.order@.last() == edge,
                forall|j: int| 0 <= j < k ==> self.node@[#[trigger] e.sources@[j] as int] is Some,
                forall|x: int| 0 <= x < n && start[x] is Some ==> self.node@[x] == start[x],
                forall|j: int|
                    #![trigger self.order@[j]]
                    0 <= j < self.order@.len() - 1 ==> {
                        &&& forall|p: int|
                            0 <= p < c.edges@[self.order@[j] as int].sources@.len() ==> #[trigger] self.node@[c.edges@[self.order@[j] as int].sources@[p] as int] is Some
                        &&& forall|p: int|
                            0 <= p < c.edges@[self.order@[j] as int].targets@.len() ==> #[trigger] self.node@[c.edges@[self.order@[j] as int].targets@[p] as int] is Some
                    },
                self.edge@[edge as int] is Some,
                forall|f: int| 0 <= f < m && old(self).edge@[f] is Some ==> self.edge@[f] == old(self).edge@[f],
                self.head == old(self).head,
                self.next_node >= old(self).next_node,
            decreases e.sources@.len() - k,
        {
            proof {
                assert(c.edges@[edge as int] == c.edges@[edge as int]);
            }
            self.visit_node(e.sources[k], Ghost(n), Ghost(m));
            k = k + 1;
        }
        let mut k: usize = 0;
        while k < e.targets.len()
            invariant
                self.wf(n, m),
                c.inv(),
                n == c.node_count,
                m == c.edges@.len(),
                edge < m,
                *e == c.edges@[edge as int],
                k <= e.targets@.len(),
                self.order@.len() >= 1,
                self.order@.last() == edge,
                forall|j: int| 0 <= j < e.sources@.len() ==> self.node@[#[trigger] e.sources@[j] as int] is Some,
                forall|j: int| 0 <= j < k ==> self.node@[#[trigger] e.targets@[j] as int] is Some,
                forall|x: int| 0 <= x < n && start[x] is Some ==> self.node@[x] == start[x],
                forall|j: int|
                    #![trigger self.order@[j]]
                    0 <= j < self.order@.len() - 1 ==> {
                        &&& forall|p: int|
                            0 <= p < c.edges@[self.order@[j] as int].sources@.len() ==> #[trigger] self.node@[c.edges@[self.order@[j] as int].sources@[p] as int] is Some
                        &&& forall|p: int|
                            0 <= p < c.edges@[self.order@[j] as int].targets@.len() ==> #[trigger] self.node@[c.edges@[self.order@[j] as int].targets@[p] as int] is Some
                    },
                self.edge@[edge as int] is Some,
                forall|f: int| 0 <= f < m && old(self).edge@[f] is Some ==> self.edge@[f] == old(self).edge@[f],
                self.head == old(self).head,
                self.next_node >= old(self).next_node,
            decreases e.targets@.len() - k,
        {
            proof {
                assert(c.edges@[edge as int] == c.edges@[edge as int]);
            }
            self.visit_node(e.targets[k], Ghost(n), Ghost(m));
            k = k + 1;
        }
    }
}

impl Numbering {
    /// Expand the queue: every incident edge of every queued node, in the
    /// fixed `[consumer, producer]` order.
    fn run<G: PropSignature>(&mut self, c: &Content<G>, p: &Profile)
        requires
            old(self).wf(c.spec_node_count(), c.spec_edges().len()),
            old(self).covers(c.spec_edges()),
            p.fits(c.spec_node_count(), c.spec_edges().len()),
        ensures
            final(self).wf(c.spec_node_count(), c.spec_edges().len()),
            final(self).covers(c.spec_edges()),
            forall|x: int|
                0 <= x < c.spec_node_count() && old(self).node@[x] is Some ==> final(self).node@[x] == old(
                    self,
                ).node@[x],
    {
        let ghost n = c.spec_node_count();
        let ghost m = c.spec_edges().len();
        let ghost start = self.node@;
        while self.head < self.queue.len()
            invariant
                self.wf(n, m),
                self.covers(c.spec_edges()),
                p.fits(n, m),
                n == c.spec_node_count(),
                m == c.spec_edges().len(),
                forall|x: int| 0 <= x < n && start[x] is Some ==> self.node@[x] == start[x],
            decreases n - self.next_node, self.queue@.len() - self.head,
        {
            proof {
                lemma_int_range(0, n as int);
                assert(self.numbered@.subset_of(set_int_range(0, n as int)));
                lemma_len_subset(self.numbered@, set_int_range(0, n as int));
            }
            let x = self.queue[self.head];
            self.head = self.head + 1;
            let ghost before_next = self.next_node;
            match p.consumer[x] {
                Some((e, _)) => self.visit_edge(c, e),
                None => {},
            }
            match p.producer[x] {
                Some((e, _)) => self.visit_edge(c, e),
                None => {},
            }
            proof {
                lemma_int_range(0, n as int);
                assert(self.numbered@.subset_of(set_int_range(0, n as int)));
                lemma_len_subset(self.numbered@, set_int_range(0, n as int));
            }
        }
    }

    /// The canonical index of a numbered node.
    fn node_id(&self, node: usize, Ghost(n): Ghost<nat>, Ghost(m): Ghost<nat>) -> (r: usize)
        requires
            self.wf(n, m),
            node < n,
            self.node@[node as int] is Some,
        ensures
            r < self.next_node,
            self.node@[node as int] == Some(r),
    {
        match self.node[node] {
            Some(i) => i,
            None => 0,
        }
    }

    /// Renumber every index of `xs`, all of them numbered.
    fn ids(&self, xs: &Vec<usize>, Ghost(n): Ghost<nat>, Ghost(m): Ghost<nat>) -> (r: Vec<usize>)
        requires
            self.wf(n, m),
            all_below(xs@, n),
            forall|k: int| 0 <= k < xs@.len() ==> self.node@[#[trigger] xs@[k] as int] is Some,
        ensures
            r@.len() == xs@.len(),
            all_below(r@, self.next_node as nat),
    {
        let mut r: Vec<usize> = Vec::new();
        let mut k: usize = 0;
        while k < xs.len()
            invariant
                self.wf(n, m),
                all_below(xs@, n),
                forall|j: int| 0 <= j < xs@.len() ==> self.node@[#[trigger] xs@[j] as int] is Some,
                k <= xs@.len(),
                r@.len() == k,
                all_below(r@, self.next_node as nat),
            decreases xs@.len() - k,
        {
            let id = self.node_id(xs[k], Ghost(n), Ghost(m));
            r.push(id);
            k = k + 1;
        }
        r
    }

    /// The ordered edges, relabeled onto the numbering.
    fn records<G: PropSignature>(&self, c: &Content<G>) -> (r: Vec<EdgeRecord<G>>)
        requires
            self.wf(c.spec_node_count(), c.spec_edges().len()),
            self.covers(c.spec_edges()),
        ensures
            r@.len() == self.order@.len(),
            records_fit(r@, self.next_node as nat),
    {
        proof {
            use_type_invariant(c);
        }
        let ghost n = c.spec_node_count();
        let ghost m = c.spec_edges().len();
        let mut r: Vec<EdgeRecord<G>> = Vec::new();
        let mut k: usize = 0;
        while k < self.order.len()
            invariant
                self.wf(n, m),
                self.covers(c.spec_edges()),
                c.inv(),
                n == c.spec_node_count(),
                m == c.spec_edges().len(),
                k <= self.order@.len(),
                r@.len() == k,
                records_fit(r@, self.next_node as nat),
            decreases self.order@.len() - k,
        {
            let e = self.order[k];
            proof {
                assert(self.order@[k as int] == e);
                assert(c.edges@[e as int] == c.edges@[e as int]);
            }
            let edge = &c.edges[e];
            let sources = self.ids(&edge.sources, Ghost(n), Ghost(m));
            let targets = self.ids(&edge.targets, Ghost(n), Ghost(m));
            let ghost before = r@;
            r.push(EdgeRecord { label: edge.label, sources, targets });
            proof {
                assert forall|j: int| 0 <= j < r@.len() implies {
                    &&& (#[trigger] r@[j]).sources@.len() == r@[j].label.spec_source_word().len()
                    &&& r@[j].targets@.len() == r@[j].label.spec_target_word().len()
                    &&& all_below(r@[j].sources@, self.next_node as nat)
                    &&& all_below(r@[j].targets@, self.next_node as nat)
                } by {
                    if j < before.len() {
                        assert(r@[j] == before[j]);
                        assert(before[j] == before[j]);
                    }
                }
            }
            k = k + 1;
        }
        r
    }
}

/// Mark and stack the unmarked edges incident to node `x`.
fn mark_incident(
    p: &Profile,
    x: usize,
    component: &mut Vec<usize>,
    stack: &mut Vec<usize>,
    id: usize,
    Ghost(marked): Ghost<Set<int>>,
    Ghost(m): Ghost<nat>,
) -> (r: Ghost<Set<int>>)
    requires
        x < p.consumer@.len(),
        p.fits(p.consumer@.len(), m),
        old(component)@.len() == m,
        marked.finite(),
        forall|e: int| marked.contains(e) ==> 0 <= e < m,
        forall|e: int| 0 <= e < m ==> (#[trigger] old(component)@[e] != usize::MAX <==> marked.contains(e)),
        all_below(old(stack)@, m),
    ensures
        final(component)@.len() == m,
        r@.finite(),
        marked.subset_of(r@),
        final(stack)@.len() == old(stack)@.len() + r@.len() - marked.len(),
        forall|e: int| r@.contains(e) ==> 0 <= e < m,
        forall|e: int| 0 <= e < m ==> (#[trigger] final(component)@[e] != usize::MAX <==> r@.contains(e)),
        all_below(final(stack)@, m),
{
    let inc = [p.consumer[x], p.producer[x]];
    let ghost mut mk = marked;
    let mut side: usize = 0;
    while side < 2
        invariant
            component@.len() == m,
            mk.finite(),
            marked.subset_of(mk),
            stack@.len() == old(stack)@.len() + mk.len() - marked.len(),
            forall|e: int| mk.contains(e) ==> 0 <= e < m,
            forall|e: int| 0 <= e < m ==> (#[trigger] component@[e] != usize::MAX <==> mk.contains(e)),
            all_below(stack@, m),
            inc@.len() == 2,
            forall|j: int| 0 <= j < 2 ==> (#[trigger] inc@[j] matches Some((f, _)) ==> f < m),
            side <= 2,
        decreases 2 - side,
    {
        match inc[side] {
            Some((f, _)) => {
                if component[f] == usize::MAX {
                    let ghost pm = mk;
                    component.set(f, if id == usize::MAX { 0 } else { id });
                    proof {
                        mk = mk.insert(f as int);
                        assert(!pm.contains(f as int));
                        lemma_len_subset(marked, pm);
                    }
                    stack.push(f);
                }
            },
            None => {},
        }
        side = side + 1;
    }
    Ghost(mk)
}

/// Group the edges `matched` does not cover into their connected components:
/// the closed components, which no anchor reaches.
fn closed_components<G: PropSignature>(c: &Content<G>, p: &Profile, matched: &Vec<Option<usize>>) -> (r: Vec<Vec<usize>>)
    requires
        p.fits(c.spec_node_count(), c.spec_edges().len()),
        matched@.len() == c.spec_edges().len(),
    ensures
        forall|k: int| 0 <= k < r@.len() ==> all_below(#[trigger] r@[k]@, c.spec_edges().len()),
{
    proof {
        use_type_invariant(c);
    }
    let m = c.edges.len();
    let mut component: Vec<usize> = filled(usize::MAX, m);
    let mut components: Vec<Vec<usize>> = Vec::new();
    let ghost mut marked: Set<int> = Set::empty();
    let mut start: usize = 0;
    while start < m
        invariant
            c.inv(),
            p.fits(c.spec_node_count(), m as nat),
            m == c.edges@.len(),
            matched@.len() == m,
            component@.len() == m,
            start <= m,
            marked.finite(),
            forall|e: int| marked.contains(e) ==> 0 <= e < m,
            forall|e: int| 0 <= e < m ==> (#[trigger] component@[e] != usize::MAX <==> marked.contains(e)),
            forall|k: int| 0 <= k < components@.len() ==> all_below(#[trigger] components@[k]@, m as nat),
        decreases m - start,
    {
        if matched[start].is_some() || component[start] != usize::MAX {
            start = start + 1;
            continue;
        }
        let id = components.len();
        let ghost before_marked = marked;
        proof {
            assert(!marked.contains(start as int));
        }
        component.set(start, if id == usize::MAX { 0 } else { id });
        proof {
            marked = marked.insert(start as int);
        }
        let mut stack: Vec<usize> = Vec::new();
        stack.push(start);
        let mut members: Vec<usize> = Vec::new();
        while stack.len() > 0
            invariant
                c.inv(),
                p.fits(c.spec_node_count(), m as nat),
                m == c.edges@.len(),
                component@.len() == m,
                marked.finite(),
                forall|e: int| marked.contains(e) ==> 0 <= e < m,
                forall|e: int| 0 <= e < m ==> (#[trigger] component@[e] != usize::MAX <==> marked.contains(e)),
                all_below(stack@, m as nat),
                all_below(members@, m as nat),
            decreases m - marked.len(), stack@.len(),
        {
            proof {
                lemma_int_range(0, m as int);
                assert(marked.subset_of(set_int_range(0, m as int)));
                lemma_len_subset(marked, set_int_range(0, m as int));
            }
            let e = match stack.pop() {
                Some(e) => e,
                None => break,
            };
            let ghost popped_len = stack@.len();
            let ghost popped_marked = marked;
            members.push(e);
            proof {
                assert(c.edges@[e as int] == c.edges@[e as int]);
            }
            let edge = &c.edges[e];
            let mut k: usize = 0;
            while k < edge.sources.len()
                invariant
                    c.inv(),
                    p.fits(c.spec_node_count(), m as nat),
                    m == c.edges@.len(),
                    e < m,
                    *edge == c.edges@[e as int],
                    component@.len() == m,
                    marked.finite(),
                    popped_marked.subset_of(marked),
                    stack@.len() == popped_len + marked.len() - popped_marked.len(),
                    forall|e: int| marked.contains(e) ==> 0 <= e < m,
                    forall|e: int| 0 <= e < m ==> (#[trigger] component@[e] != usize::MAX <==> marked.contains(e)),
                    all_below(stack@, m as nat),
                decreases edge.sources@.len() - k,
            {
                proof {
                    assert(c.edges@[e as int] == c.edges@[e as int]);
                }
                let ghost pm = marked;
                let Ghost(nm) = mark_incident(p, edge.sources[k], &mut component, &mut stack, id, Ghost(marked), Ghost(m as nat));
                proof {
                    marked = nm;
                }
                k = k + 1;
            }
            let mut k: usize = 0;
            while k < edge.targets.len()
                invariant
                    c.inv(),
                    p.fits(c.spec_node_count(), m as nat),
                    m == c.edges@.len(),
                    e < m,
                    *edge == c.edges@[e as int],
                    component@.len() == m,
                    marked.finite(),
                    popped_marked.subset_of(marked),
                    stack@.len() == popped_len + marked.len() - popped_marked.len(),
                    forall|e: int| marked.contains(e) ==> 0 <= e < m,
                    forall|e: int| 0 <= e < m ==> (#[trigger] component@[e] != usize::MAX <==> marked.contains(e)),
                    all_below(stack@, m as nat),
                decreases edge.targets@.len() - k,
            {
                proof {
                    assert(c.edges@[e as int] == c.edges@[e as int]);
                }
                let Ghost(nm) = mark_incident(p, edge.targets[k], &mut component, &mut stack, id, Ghost(marked), Ghost(m as nat));
                proof {
                    marked = nm;
                }
                k = k + 1;
            }
            proof {
                lemma_int_range(0, m as int);
                assert(marked.subset_of(set_int_range(0, m as int)));
                lemma_len_subset(marked, set_int_range(0, m as int));
                lemma_len_subset(popped_marked, marked);
            }
        }
        components.push(members);
        start = start + 1;
    }
    components
}

/// The least serialization of one closed component over its choices of seed
/// edge: seeding fixes one edge as number 0 and the propagation numbers the
/// rest, so the least over seeds depends only on the component's class.
fn minimal_block<G: PropSignature>(c: &Content<G>, p: &Profile, component: &Vec<usize>) -> (r: ClosedBlock<G>)
    requires
        p.fits(c.spec_node_count(), c.spec_edges().len()),
        all_below(component@, c.spec_edges().len()),
        gens_are_structural::<G>(),
    ensures
        records_fit(r.edges@, r.node_count as nat),
{
    let mut best: Option<ClosedBlock<G>> = None;
    let mut k: usize = 0;
    while k < component.len()
        invariant
            p.fits(c.spec_node_count(), c.spec_edges().len()),
            all_below(component@, c.spec_edges().len()),
            gens_are_structural::<G>(),
            k <= component@.len(),
            best matches Some(b) ==> records_fit(b.edges@, b.node_count as nat),
        decreases component@.len() - k,
    {
        let mut numbering = Numbering::new(c.node_count(), c.edges().len());
        numbering.visit_edge(c, component[k]);
        numbering.run(c, p);
        let edges = numbering.records(c);
        let candidate = ClosedBlock { node_count: numbering.next_node, edges };
        let better = match &best {
            Some(b) => order_blocks(&candidate, b) < 0,
            None => true,
        };
        if better {
            best = Some(candidate);
        }
        k = k + 1;
    }
    match best {
        Some(b) => b,
        None => ClosedBlock { node_count: 0, edges: Vec::new() },
    }
}

/// Every closed component of `c`, canonically serialized and sorted: the
/// complete invariant of the closed part.
fn closed_blocks<G: PropSignature>(c: &Content<G>, p: &Profile, matched: &Vec<Option<usize>>) -> (r: Vec<ClosedBlock<G>>)
    requires
        p.fits(c.spec_node_count(), c.spec_edges().len()),
        matched@.len() == c.spec_edges().len(),
        gens_are_structural::<G>(),
    ensures
        forall|k: int| 0 <= k < r@.len() ==> records_fit((#[trigger] r@[k]).edges@, r@[k].node_count as nat),
        labels_ordered::<G>() ==> forall|i: int| 0 <= i < r@.len() - 1 ==> block_order(#[trigger] r@[i], r@[i + 1]) <= 0,
{
    let components = closed_components(c, p, matched);
    let mut sorted: Vec<ClosedBlock<G>> = Vec::new();
    let mut k: usize = 0;
    while k < components.len()
        invariant
            p.fits(c.spec_node_count(), c.spec_edges().len()),
            gens_are_structural::<G>(),
            forall|j: int| 0 <= j < components@.len() ==> all_below(#[trigger] components@[j]@, c.spec_edges().len()),
            k <= components@.len(),
            forall|j: int| 0 <= j < sorted@.len() ==> records_fit((#[trigger] sorted@[j]).edges@, sorted@[j].node_count as nat),
            labels_ordered::<G>() ==> forall|i: int|
                0 <= i < sorted@.len() - 1 ==> block_order(#[trigger] sorted@[i], sorted@[i + 1]) <= 0,
        decreases components@.len() - k,
    {
        let block = minimal_block(c, p, &components[k]);
        let mut pos: usize = 0;
        while pos < sorted.len() && order_blocks(&sorted[pos], &block) <= 0
            invariant
                pos <= sorted@.len(),
                gens_are_structural::<G>(),
                labels_ordered::<G>() && pos > 0 ==> block_order(sorted@[pos - 1], block) <= 0,
            decreases sorted@.len() - pos,
        {
            pos = pos + 1;
        }
        proof {
            if labels_ordered::<G>() && pos < sorted@.len() {
                lemma_block_order_antisym(sorted@[pos as int], block);
            }
        }
        let ghost before = sorted@;
        sorted.insert(pos, block);
        proof {
            assert forall|j: int| 0 <= j < sorted@.len() implies records_fit((#[trigger] sorted@[j]).edges@, sorted@[j].node_count as nat) by {
                if j < pos {
                    assert(sorted@[j] == before[j]);
                } else if j > pos {
                    assert(sorted@[j] == before[j - 1]);
                }
            }
            if labels_ordered::<G>() {
                assert forall|i: int| 0 <= i < sorted@.len() - 1 implies block_order(#[trigger] sorted@[i], sorted@[i + 1])
                    <= 0 by {
                    if i + 1 < pos {
                        assert(sorted@[i] == before[i] && sorted@[i + 1] == before[i + 1]);
                    } else if i + 1 == pos {
                        assert(sorted@[i] == before[i] && sorted@[i + 1] == block);
                    } else if i == pos {
                        assert(sorted@[i] == block && sorted@[i + 1] == before[i]);
                    } else {
                        assert(sorted@[i] == before[i - 1] && sorted@[i + 1] == before[i]);
                    }
                }
            }
        }
        k = k + 1;
    }
    sorted
}

/// Whether two sorted block lists are equal.
fn blocks_eq<G: PropSignature>(a: &Vec<ClosedBlock<G>>, b: &Vec<ClosedBlock<G>>) -> (r: bool)
    requires
        gens_are_structural::<G>(),
    ensures
        r == (a@.len() == b@.len() && forall|k: int|
            0 <= k < a@.len() ==> (#[trigger] a@[k]).node_count == b@[k].node_count && same_records(
                a@[k].edges@,
                b@[k].edges@,
            )),
{
    if a.len() != b.len() {
        return false;
    }
    let mut k: usize = 0;
    while k < a.len()
        invariant
            a@.len() == b@.len(),
            k <= a@.len(),
            gens_are_structural::<G>(),
            forall|j: int|
                0 <= j < k ==> (#[trigger] a@[j]).node_count == b@[j].node_count && same_records(
                    a@[j].edges@,
                    b@[j].edges@,
                ),
        decreases a@.len() - k,
    {
        if order_blocks(&a[k], &b[k]) != 0 {
            return false;
        }
        k = k + 1;
    }
    true
}

/// Decide `C(a) = C(b)`: cospan isomorphism fixing both feet.
///
/// The anchors force node images pointwise; a forced node pair forces its
/// producer and consumer edge pairs, and a forced edge pair every tentacle
/// pair, refuting on any conflict of label, arity, color, boundary coordinate
/// or an image already taken. What no anchor reaches is closed, and the closed
/// parts are compared by their sorted canonical serializations. No search and
/// no backtracking.
///
/// Colors are compared, so compare contents built through the same entry
/// point ([`content_of`] or [`content_of_colored`]).
pub fn content_eq<G: PropSignature>(a: &Content<G>, b: &Content<G>) -> (r: bool)
    requires
        colors_are_structural::<G>(),
        gens_are_structural::<G>(),
    ensures
        r ==> a.spec_node_count() == b.spec_node_count() && a.spec_edges().len() == b.spec_edges().len()
            && a.spec_input().len() == b.spec_input().len() && a.spec_output().len() == b.spec_output().len(),
{
    proof {
        use_type_invariant(a);
        use_type_invariant(b);
    }
    if a.node_count != b.node_count || a.edges.len() != b.edges.len() || a.input.len() != b.input.len()
        || a.output.len() != b.output.len() {
        return false;
    }
    let pa = profile(a);
    let pb = profile(b);
    let mut m = Matcher {
        node_map: filled(None, a.node_count),
        node_rev: filled(None, b.node_count),
        edge_map: filled(None, a.edges.len()),
        edge_rev: filled(None, b.edges.len()),
        mapped: Ghost(Set::empty()),
    };
    let mut queue: Vec<(usize, usize)> = Vec::new();
    let mut i: usize = 0;
    while i < a.input.len()
        invariant
            a.inv(),
            b.inv(),
            a.input@.len() == b.input@.len(),
            m.wf(a.spec_node_count(), b.spec_node_count(), a.spec_edges().len(), b.spec_edges().len()),
            queue_fits(queue@, a.spec_node_count(), b.spec_node_count()),
            i <= a.input@.len(),
            colors_are_structural::<G>(),
        decreases a.input@.len() - i,
    {
        if !force_node(&mut m, a, b, a.input[i], b.input[i], &mut queue) {
            return false;
        }
        i = i + 1;
    }
    let mut i: usize = 0;
    while i < a.output.len()
        invariant
            a.inv(),
            b.inv(),
            a.output@.len() == b.output@.len(),
            m.wf(a.spec_node_count(), b.spec_node_count(), a.spec_edges().len(), b.spec_edges().len()),
            queue_fits(queue@, a.spec_node_count(), b.spec_node_count()),
            i <= a.output@.len(),
            colors_are_structural::<G>(),
        decreases a.output@.len() - i,
    {
        if !force_node(&mut m, a, b, a.output[i], b.output[i], &mut queue) {
            return false;
        }
        i = i + 1;
    }
    if !propagate(&mut m, a, b, &pa, &pb, &mut queue) {
        return false;
    }
    let left = closed_blocks(a, &pa, &m.edge_map);
    let right = closed_blocks(b, &pb, &m.edge_rev);
    blocks_eq(&left, &right)
}

// ---------------------------------------------------------------- canonical key

/// A hashable canonical form of a [`Content`], equal for two contents exactly
/// when [`content_eq`] holds of them: the anchor-reachable part under the
/// anchored propagation's numbering, with its colors, and the closed
/// components' canonical serializations, sorted.
#[derive(Debug, PartialEq, Eq, Hash)]
pub struct ContentKey<G: PropSignature> {
    node_count: usize,
    colors: Vec<Option<G::Color>>,
    edges: Vec<EdgeRecord<G>>,
    input: Vec<usize>,
    output: Vec<usize>,
    closed: Vec<ClosedBlock<G>>,
}

impl<G: PropSignature> ContentKey<G> {
    /// Indices are in range and tentacle counts match the labels.
    #[verifier::type_invariant]
    spec fn inv(&self) -> bool {
        &&& self.colors@.len() == self.node_count
        &&& records_fit(self.edges@, self.node_count as nat)
        &&& all_below(self.input@, self.node_count as nat)
        &&& all_below(self.output@, self.node_count as nat)
        &&& forall|k: int|
            0 <= k < self.closed@.len() ==> records_fit((#[trigger] self.closed@[k]).edges@, self.closed@[k].node_count as nat)
    }

    /// Number of nodes of the anchor-reachable part.
    pub closed spec fn spec_node_count(&self) -> nat {
        self.node_count as nat
    }

    /// The input anchor under the canonical numbering.
    pub closed spec fn spec_input(&self) -> Seq<usize> {
        self.input@
    }

    /// The output anchor under the canonical numbering.
    pub closed spec fn spec_output(&self) -> Seq<usize> {
        self.output@
    }

    /// Number of edges of the anchor-reachable part.
    pub closed spec fn spec_edge_count(&self) -> nat {
        self.edges@.len()
    }

    /// Number of closed components.
    pub closed spec fn spec_closed_count(&self) -> nat {
        self.closed@.len()
    }

    /// The two keys are the same: node counts, colors, edge records,
    /// boundaries and closed blocks all agree.
    pub closed spec fn same_key(&self, other: Self) -> bool {
        &&& self.node_count == other.node_count
        &&& self.colors@ == other.colors@
        &&& same_records(self.edges@, other.edges@)
        &&& self.input@ == other.input@
        &&& self.output@ == other.output@
        &&& self.closed@.len() == other.closed@.len()
        &&& forall|k: int|
            0 <= k < self.closed@.len() ==> (#[trigger] self.closed@[k]).node_count == other.closed@[k].node_count
                && same_records(self.closed@[k].edges@, other.closed@[k].edges@)
    }
}

/// Compute the canonical key of a content.
///
/// The anchor-reachable part is numbered by the anchored propagation: nodes
/// are discovered from the input anchor in coordinate order, then the output
/// anchor, then breadth-first through incident edges in the fixed
/// `[consumer, producer]` order, each edge numbering its tentacles in order.
/// The closed part is each component's least serialization over seeds,
/// sorted.
pub fn canonical_key<G: PropSignature>(c: &Content<G>) -> (k: ContentKey<G>)
    requires
        gens_are_structural::<G>(),
    ensures
        k.spec_input().len() == c.spec_input().len(),
        k.spec_output().len() == c.spec_output().len(),
        k.spec_node_count() <= c.spec_node_count(),
{
    proof {
        use_type_invariant(c);
    }
    let p = profile(c);
    let ghost n = c.node_count as nat;
    let ghost m = c.edges@.len();
    let mut anchored = Numbering::new(c.node_count, c.edges.len());
    let mut i: usize = 0;
    while i < c.input.len()
        invariant
            c.inv(),
            n == c.node_count,
            m == c.edges@.len(),
            anchored.wf(n, m),
            anchored.order@.len() == 0,
            i <= c.input@.len(),
            forall|j: int| 0 <= j < i ==> anchored.node@[#[trigger] c.input@[j] as int] is Some,
        decreases c.input@.len() - i,
    {
        anchored.visit_node(c.input[i], Ghost(n), Ghost(m));
        i = i + 1;
    }
    let mut i: usize = 0;
    while i < c.output.len()
        invariant
            c.inv(),
            n == c.node_count,
            m == c.edges@.len(),
            anchored.wf(n, m),
            anchored.order@.len() == 0,
            i <= c.output@.len(),
            forall|j: int| 0 <= j < c.input@.len() ==> anchored.node@[#[trigger] c.input@[j] as int] is Some,
            forall|j: int| 0 <= j < i ==> anchored.node@[#[trigger] c.output@[j] as int] is Some,
        decreases c.output@.len() - i,
    {
        anchored.visit_node(c.output[i], Ghost(n), Ghost(m));
        i = i + 1;
    }
    anchored.run(c, &p);
    let closed = closed_blocks(c, &p, &anchored.edge);
    let mut colors: Vec<Option<G::Color>> = filled(None, anchored.next_node);
    let mut x: usize = 0;
    while x < c.node_count
        invariant
            c.inv(),
            n == c.node_count,
            anchored.wf(n, m),
            colors@.len() == anchored.next_node,
            x <= n,
        decreases n - x,
    {
        match anchored.node[x] {
            Some(id) => {
                colors.set(id, c.node_colors[x]);
            },
            None => {},
        }
        x = x + 1;
    }
    let edges = anchored.records(c);
    let input = anchored.ids(&c.input, Ghost(n), Ghost(m));
    let output = anchored.ids(&c.output, Ghost(n), Ghost(m));
    proof {
        lemma_int_range(0, n as int);
        assert(anchored.numbered@.subset_of(set_int_range(0, n as int)));
        lemma_len_subset(anchored.numbered@, set_int_range(0, n as int));
    }
    ContentKey { node_count: anchored.next_node, colors, edges, input, output, closed }
}

/// Copy a record list with every index shifted by `base`.
fn shifted<G: PropSignature>(records: &Vec<EdgeRecord<G>>, base: usize, width: usize) -> (r: Vec<ContentEdge<G>>)
    requires
        records_fit(records@, width as nat),
        base + width <= usize::MAX,
    ensures
        r@.len() == records@.len(),
        edges_fit(r@, (base + width) as nat),
        forall|e: int| 0 <= e < r@.len() ==> (#[trigger] r@[e]).label == records@[e].label,
{
    let mut r: Vec<ContentEdge<G>> = Vec::new();
    let mut k: usize = 0;
    while k < records.len()
        invariant
            records_fit(records@, width as nat),
            base + width <= usize::MAX,
            k <= records@.len(),
            r@.len() == k,
            edges_fit(r@, (base + width) as nat),
            forall|e: int| 0 <= e < k ==> (#[trigger] r@[e]).label == records@[e].label,
        decreases records@.len() - k,
    {
        proof {
            assert(records@[k as int] == records@[k as int]);
        }
        let rec = &records[k];
        let mut sources: Vec<usize> = Vec::new();
        let mut j: usize = 0;
        while j < rec.sources.len()
            invariant
                *rec == records@[k as int],
                all_below(rec.sources@, width as nat),
                base + width <= usize::MAX,
                j <= rec.sources@.len(),
                sources@.len() == j,
                all_below(sources@, (base + width) as nat),
            decreases rec.sources@.len() - j,
        {
            sources.push(rec.sources[j] + base);
            j = j + 1;
        }
        let mut targets: Vec<usize> = Vec::new();
        let mut j: usize = 0;
        while j < rec.targets.len()
            invariant
                *rec == records@[k as int],
                all_below(rec.targets@, width as nat),
                base + width <= usize::MAX,
                j <= rec.targets@.len(),
                targets@.len() == j,
                all_below(targets@, (base + width) as nat),
            decreases rec.targets@.len() - j,
        {
            targets.push(rec.targets[j] + base);
            j = j + 1;
        }
        let ghost before = r@;
        r.push(ContentEdge { label: rec.label, sources, targets });
        proof {
            assert forall|e: int| 0 <= e < r@.len() implies {
                &&& (#[trigger] r@[e]).sources@.len() == r@[e].label.spec_source_word().len()
                &&& r@[e].targets@.len() == r@[e].label.spec_target_word().len()
                &&& forall|q: int| 0 <= q < r@[e].sources@.len() ==> r@[e].sources@[q] < base + width
                &&& forall|q: int| 0 <= q < r@[e].targets@.len() ==> r@[e].targets@[q] < base + width
            } by {
                if e < before.len() {
                    assert(r@[e] == before[e]);
                    assert(before[e] == before[e]);
                }
            }
        }
        k = k + 1;
    }
    r
}

/// Rebuild a content from its canonical key: the anchored part under the
/// key's numbering, then one closed component per block, node-disjointly
/// offset in the key's sorted block order. Closed nodes take their
/// producer's declared letter.
fn content_of_key<G: PropSignature>(key: &ContentKey<G>) -> (c: Content<G>)
    ensures
        c.spec_input() == key.spec_input(),
        c.spec_output() == key.spec_output(),
{
    proof {
        use_type_invariant(key);
    }
    let mut node_count = key.node_count;
    let mut node_colors = copy_colors::<G::Color>(&key.colors);
    let mut edges = shifted(&key.edges, 0, key.node_count);
    let mut b: usize = 0;
    while b < key.closed.len()
        invariant
            key.inv(),
            b <= key.closed@.len(),
            node_colors@.len() == node_count,
            node_count >= key.node_count,
            edges_fit(edges@, node_count as nat),
        decreases key.closed@.len() - b,
    {
        proof {
            assert(key.closed@[b as int] == key.closed@[b as int]);
        }
        let block = &key.closed[b];
        match node_count.checked_add(block.node_count) {
            None => {
                b = b + 1;
            },
            Some(total) => {
                let base = node_count;
                let mut more = shifted(&block.edges, base, block.node_count);
                let mut j: usize = base;
                while j < total
                    invariant
                        base <= j <= total,
                        node_colors@.len() == j,
                    decreases total - j,
                {
                    node_colors.push(None);
                    j = j + 1;
                }
                let mut k: usize = 0;
                while k < more.len()
                    invariant
                        node_colors@.len() == total,
                        edges_fit(more@, total as nat),
                        k <= more@.len(),
                    decreases more@.len() - k,
                {
                    proof {
                        assert(more@[k as int] == more@[k as int]);
                    }
                    let tw = more[k].label.target_word();
                    let mut q: usize = 0;
                    while q < more[k].targets.len()
                        invariant
                            node_colors@.len() == total,
                            edges_fit(more@, total as nat),
                            k < more@.len(),
                            tw@ == more@[k as int].label.spec_target_word(),
                            q <= more@[k as int].targets@.len(),
                        decreases more@[k as int].targets@.len() - q,
                    {
                        proof {
                            assert(more@[k as int] == more@[k as int]);
                        }
                        let x = more[k].targets[q];
                        node_colors.set(x, Some(tw[q]));
                        q = q + 1;
                    }
                    k = k + 1;
                }
                proof {
                    lemma_edges_fit_grow(edges@, node_count as nat, total as nat);
                }
                let ghost before = edges@;
                let ghost more_v = more@;
                edges.append(&mut more);
                proof {
                    assert forall|e: int| 0 <= e < edges@.len() implies {
                        &&& (#[trigger] edges@[e]).sources@.len() == edges@[e].label.spec_source_word().len()
                        &&& edges@[e].targets@.len() == edges@[e].label.spec_target_word().len()
                        &&& forall|q: int| 0 <= q < edges@[e].sources@.len() ==> edges@[e].sources@[q] < total
                        &&& forall|q: int| 0 <= q < edges@[e].targets@.len() ==> edges@[e].targets@[q] < total
                    } by {
                        if e < before.len() {
                            assert(edges@[e] == before[e]);
                            assert(before[e] == before[e]);
                        } else {
                            assert(edges@[e] == more_v[e - before.len()]);
                        }
                    }
                }
                node_count = total;
                b = b + 1;
            },
        }
    }
    let input = concat(&key.input, &Vec::new());
    let output = concat(&key.output, &Vec::new());
    proof {
        assert(key.input@ + Seq::<usize>::empty() =~= key.input@);
        assert(key.output@ + Seq::<usize>::empty() =~= key.output@);
        lemma_all_below_grow(input@, key.node_count as nat, node_count as nat);
        lemma_all_below_grow(output@, key.node_count as nat, node_count as nat);
    }
    Content { node_count, node_colors, edges, input, output }
}

/// The canonical representative of `c`'s isomorphism class: the same cospan,
/// relabeled onto [`canonical_key`]'s numbering, with the closed components
/// laid out in the key's sorted order.
pub fn canonical_content<G: PropSignature>(c: &Content<G>) -> (r: Content<G>)
    requires
        gens_are_structural::<G>(),
    ensures
        r.spec_input().len() == c.spec_input().len(),
        r.spec_output().len() == c.spec_output().len(),
{
    content_of_key(&canonical_key(c))
}

/// Whether two canonical keys are equal.
pub fn key_eq<G: PropSignature>(a: &ContentKey<G>, b: &ContentKey<G>) -> (r: bool)
    requires
        colors_are_structural::<G>(),
        gens_are_structural::<G>(),
    ensures
        r ==> a.spec_node_count() == b.spec_node_count() && a.spec_input() == b.spec_input()
            && a.spec_output() == b.spec_output() && a.spec_edge_count() == b.spec_edge_count()
            && a.spec_closed_count() == b.spec_closed_count(),
        r == a.same_key(*b),
{
    if a.node_count != b.node_count || a.colors.len() != b.colors.len() || a.edges.len() != b.edges.len()
        || !usizes_eq(&a.input, &b.input) || !usizes_eq(&a.output, &b.output) {
        return false;
    }
    let mut i: usize = 0;
    while i < a.colors.len()
        invariant
            a.colors@.len() == b.colors@.len(),
            i <= a.colors@.len(),
            colors_are_structural::<G>(),
            forall|k: int| 0 <= k < i ==> a.colors@[k] == b.colors@[k],
        decreases a.colors@.len() - i,
    {
        if !opt_colors_eq::<G>(&a.colors[i], &b.colors[i]) {
            return false;
        }
        i = i + 1;
    }
    proof {
        assert(a.colors@ =~= b.colors@);
    }
    let mut i: usize = 0;
    while i < a.edges.len()
        invariant
            a.edges@.len() == b.edges@.len(),
            i <= a.edges@.len(),
            gens_are_structural::<G>(),
            forall|e: int|
                #![trigger a.edges@[e], b.edges@[e]]
                0 <= e < i ==> a.edges@[e].label == b.edges@[e].label && a.edges@[e].sources@ == b.edges@[e].sources@
                    && a.edges@[e].targets@ == b.edges@[e].targets@,
        decreases a.edges@.len() - i,
    {
        if order_records(&a.edges[i], &b.edges[i]) != 0 {
            return false;
        }
        i = i + 1;
    }
    blocks_eq(&a.closed, &b.closed)
}

} // verus!
