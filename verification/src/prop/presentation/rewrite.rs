//! A process cost functional and bounded convex double-pushout rewriting
//! over abstract content.
//!
//! Everything here searches for a cheaper writing of the same process; it is
//! an optimizer, not a decision procedure. [`cost_of`] prices a content by its
//! generator occurrences. A [`RewriteRule`] is an oriented equation compiled
//! to a content-level span; [`optimize`] applies every convex match of every
//! rule to the cheapest frontier state, best first, spending at most `fuel`
//! applications, and reports the cheapest state reached together with a
//! trace that [`replay`] re-derives.
//!
//! Nothing here claims termination beyond the fuel bound, confluence, or a
//! normal form: [`RewriteOutcome::best`] is the best found under fuel.
use vstd::prelude::*;
use vstd::slice::slice_to_vec;
use crate::forest::{forest_ok, lemma_link_roots, lemma_reparent_keeps_roots, lemma_root_is_root, root_at};
use crate::error::{CatgraphError, presentation_error};
use crate::prop::{PropSignature, gens_are_structural};
use crate::prop::colored::{
    ColoredExpr, CheckOutcome, check, clamp, colors_are_structural, lemma_check_lengths,
    lemma_lengths_give_arities, spec_check, words_equal,
};
use super::content::{
    Content, ContentEdge, ContentKey, all_below, canonical_key, content_eq, content_of_colored, filled,
    from_parts, generators_of, is_arity_well_formed, key_eq, label_eq, opt_colors_eq,
    spec_arity_well_formed,
};
use super::display::expr_of_content;

verus! {

// ---------------------------------------------------------------- cost

/// The labels of `edges`, in order.
pub open spec fn edge_labels<G: PropSignature>(edges: Seq<ContentEdge<G>>) -> Seq<G> {
    edges.map_values(|e: ContentEdge<G>| e.label)
}

/// The sum of `w`, saturating at `u64::MAX`.
pub open spec fn saturating_total(w: Seq<u64>) -> u64
    decreases w.len(),
{
    if w.len() == 0 {
        0
    } else {
        let t = saturating_total(w.drop_last());
        if t + w.last() > u64::MAX {
            u64::MAX
        } else {
            (t + w.last()) as u64
        }
    }
}

/// `w` holds, for each label of `labels`, a weight `per_gen` returns on it.
pub open spec fn weighs<G: PropSignature, F: Fn(&G) -> u64>(per_gen: F, labels: Seq<G>, w: Seq<u64>) -> bool {
    &&& w.len() == labels.len()
    &&& forall|i: int| 0 <= i < w.len() ==> per_gen.ensures((&labels[i],), #[trigger] w[i])
}

/// Unit weights count: when every weight is `1`, the saturating total is the
/// number of weights, capped at `u64::MAX`. So [`cost_of`] with `|_| 1`
/// counts generator occurrences.
pub proof fn lemma_unit_weights_count(w: Seq<u64>)
    requires
        forall|i: int| 0 <= i < w.len() ==> w[i] == 1,
    ensures
        saturating_total(w) == if w.len() <= u64::MAX { w.len() } else { u64::MAX as nat },
    decreases w.len(),
{
    if w.len() > 0 {
        lemma_unit_weights_count(w.drop_last());
    }
}

/// The cost of a process: `per_gen` summed over the content's hyperedges,
/// saturating at `u64::MAX`. With `|_| 1` it counts generator occurrences.
pub fn cost_of<G: PropSignature, F: Fn(&G) -> u64>(content: &Content<G>, per_gen: F) -> (r: u64)
    requires
        forall|g: &G| #[trigger] per_gen.requires((g,)),
    ensures
        exists|w: Seq<u64>| weighs(per_gen, edge_labels(content.spec_edges()), w) && r == saturating_total(w),
{
    weigh(content, &per_gen)
}

/// [`cost_of`] with the weighting borrowed.
fn weigh<G: PropSignature, F: Fn(&G) -> u64>(content: &Content<G>, per_gen: &F) -> (r: u64)
    requires
        forall|g: &G| #[trigger] per_gen.requires((g,)),
    ensures
        exists|w: Seq<u64>| weighs(*per_gen, edge_labels(content.spec_edges()), w) && r == saturating_total(w),
{
    let edges = content.edges();
    let ghost labels = edge_labels(content.spec_edges());
    let mut total: u64 = 0;
    let ghost mut w: Seq<u64> = Seq::empty();
    let mut i: usize = 0;
    while i < edges.len()
        invariant
            edges@ == content.spec_edges(),
            labels == edge_labels(content.spec_edges()),
            forall|g: &G| #[trigger] per_gen.requires((g,)),
            i <= edges@.len(),
            w.len() == i,
            forall|k: int| 0 <= k < i ==> per_gen.ensures((&labels[k],), #[trigger] w[k]),
            total == saturating_total(w),
        decreases edges@.len() - i,
    {
        let x = per_gen(&edges[i].label);
        proof {
            assert(labels[i as int] == edges@[i as int].label);
            assert(w.push(x).drop_last() =~= w);
            w = w.push(x);
        }
        total = total.saturating_add(x);
        i = i + 1;
    }
    proof {
        assert(weighs(*per_gen, labels, w));
    }
    total
}

// ---------------------------------------------------------------- screens

/// A colored morphism whose expression is arity-well-formed and whose stored
/// target word is the one its source word yields.
pub open spec fn sound_colored<G: PropSignature>(e: ColoredExpr<G>) -> bool {
    &&& spec_arity_well_formed(e.spec_expr())
    &&& spec_check(e.spec_expr(), e.spec_source_word()) == CheckOutcome::Word(e.spec_target_word())
}

/// Re-derive `expr`'s well-formedness from scratch: arity first, then the
/// target word threaded from the declared source word. Each failure is a
/// `Presentation` error carrying the matching message.
fn revalidate<G: PropSignature>(expr: &ColoredExpr<G>, not_arity: &str, not_words: &str) -> (r: Result<
    (),
    CatgraphError,
>)
    requires
        colors_are_structural::<G>(),
    ensures
        r is Ok <==> sound_colored(*expr),
        r matches Err(err) ==> err is Presentation,
{
    if !is_arity_well_formed(expr.expr()) {
        return Err(presentation_error(not_arity));
    }
    match check(expr.expr(), expr.source_word()) {
        Ok(derived) => {
            if words_equal(derived.as_slice(), expr.target_word()) {
                Ok(())
            } else {
                Err(presentation_error(not_words))
            }
        },
        Err(_) => Err(presentation_error(not_words)),
    }
}

/// A sound colored morphism's arities are its words' lengths.
proof fn lemma_sound_arities<G: PropSignature>(e: ColoredExpr<G>)
    requires
        sound_colored(e),
    ensures
        e.spec_expr().spec_source() == clamp(e.spec_source_word().len()),
        e.spec_expr().spec_target() == clamp(e.spec_target_word().len()),
{
    lemma_check_lengths(e.spec_expr(), e.spec_source_word());
    lemma_lengths_give_arities(e.spec_expr(), e.spec_source_word().len());
}

// ---------------------------------------------------------------- rules

/// No node occurs twice in `input ++ output`.
pub open spec fn mono_interface(input: Seq<usize>, output: Seq<usize>) -> bool {
    forall|i: int, j: int| 0 <= i < j < (input + output).len() ==> (input + output)[i] != (input
        + output)[j]
}

/// An oriented rule `lhs ⇒ rhs`, compiled to a content-level span.
///
/// Every value is applicable: the left-hand side has a generator occurrence
/// and a mono interface, and the two sides have interfaces of equal widths.
#[derive(Debug)]
pub struct RewriteRule<G: PropSignature> {
    lhs: Content<G>,
    rhs: Content<G>,
    /// Which `lhs` nodes are interior: deleted by a step rather than kept as
    /// the interface the replacement is glued along.
    interior: Vec<bool>,
    /// `lhs` hyperedges in a connectivity-first order, so the matcher
    /// propagates node bindings instead of guessing independently.
    order: Vec<usize>,
}

impl<G: PropSignature> RewriteRule<G> {
    /// The left-hand side's content.
    pub closed spec fn spec_lhs(&self) -> Content<G> {
        self.lhs
    }

    /// The right-hand side's content.
    pub closed spec fn spec_rhs(&self) -> Content<G> {
        self.rhs
    }

    #[verifier::type_invariant]
    spec fn inv(&self) -> bool {
        let lhs = self.lhs;
        &&& lhs.well_indexed()
        &&& self.rhs.well_indexed()
        &&& lhs.spec_edges().len() > 0
        &&& mono_interface(lhs.spec_input(), lhs.spec_output())
        &&& self.rhs.spec_input().len() == lhs.spec_input().len()
        &&& self.rhs.spec_output().len() == lhs.spec_output().len()
        &&& self.interior@.len() == lhs.spec_node_count()
        &&& forall|x: int|
            0 <= x < lhs.spec_node_count() ==> (#[trigger] self.interior@[x] <==> !(lhs.spec_input()
                + lhs.spec_output()).contains(x as usize))
        &&& all_below(self.order@, lhs.spec_edges().len())
    }

    /// Compile `lhs ⇒ rhs` into a content-level span.
    ///
    /// Refused with [`CatgraphError::Presentation`]: sides declaring different
    /// source or target words; a side that is not arity-well-formed or whose
    /// stored target word is not the derived one; a left-hand side with no
    /// generator occurrence (it would match everywhere); a left-hand side
    /// whose interface repeats a node (a wire straight through, or a repeated
    /// coordinate), where the pushout complement is not unique.
    pub fn new(lhs: ColoredExpr<G>, rhs: ColoredExpr<G>) -> (r: Result<Self, CatgraphError>)
        requires
            colors_are_structural::<G>(),
        ensures
            lhs.spec_source_word() != rhs.spec_source_word() ==> r is Err,
            lhs.spec_target_word() != rhs.spec_target_word() ==> r is Err,
            !sound_colored(lhs) ==> r is Err,
            !sound_colored(rhs) ==> r is Err,
            generators_of(lhs.spec_expr()).len() == 0 ==> r is Err,
            r matches Err(err) ==> err is Presentation,
            lhs.spec_source_word() == rhs.spec_source_word() && lhs.spec_target_word() == rhs.spec_target_word()
                && sound_colored(lhs) && sound_colored(rhs) && generators_of(lhs.spec_expr()).len() == 0
                ==> (r matches Err(CatgraphError::Presentation { message }) && message@
                == "rewrite rule: the lhs has no generator occurrence, so it matches everywhere"@),
            lhs.spec_source_word() == rhs.spec_source_word() && lhs.spec_target_word() == rhs.spec_target_word()
                && sound_colored(lhs) && sound_colored(rhs) && generators_of(lhs.spec_expr()).len() > 0 ==> (r is Ok
                || (r matches Err(CatgraphError::Presentation { message }) && message@
                == "rewrite rule: the lhs interface is not mono, so the pushout complement is not unique"@)),
            r matches Ok(rule) ==> {
                &&& lhs.spec_source_word() == rhs.spec_source_word()
                &&& lhs.spec_target_word() == rhs.spec_target_word()
                &&& sound_colored(lhs)
                &&& sound_colored(rhs)
                &&& edge_labels(rule.spec_lhs().spec_edges()) == generators_of(lhs.spec_expr())
                &&& edge_labels(rule.spec_rhs().spec_edges()) == generators_of(rhs.spec_expr())
                &&& rule.spec_lhs().spec_input().len() == lhs.spec_expr().spec_source()
                &&& rule.spec_lhs().spec_output().len() == lhs.spec_expr().spec_target()
                &&& mono_interface(rule.spec_lhs().spec_input(), rule.spec_lhs().spec_output())
            },
    {
        if !words_equal(lhs.source_word(), rhs.source_word()) {
            return Err(presentation_error("rewrite rule: the two sides declare different source words"));
        }
        if !words_equal(lhs.target_word(), rhs.target_word()) {
            return Err(presentation_error("rewrite rule: the two sides declare different target words"));
        }
        match revalidate(
            &lhs,
            "rewrite rule: the lhs is not arity-well-formed",
            "rewrite rule: the lhs is not word-well-formed",
        ) {
            Ok(()) => {},
            Err(err) => {
                return Err(err);
            },
        }
        match revalidate(
            &rhs,
            "rewrite rule: the rhs is not arity-well-formed",
            "rewrite rule: the rhs is not word-well-formed",
        ) {
            Ok(()) => {},
            Err(err) => {
                return Err(err);
            },
        }
        proof {
            lemma_sound_arities(lhs);
            lemma_sound_arities(rhs);
        }
        let lhs_c = content_of_colored(&lhs);
        let rhs_c = content_of_colored(&rhs);
        let edges = lhs_c.edges();
        if edges.len() == 0 {
            return Err(
                presentation_error("rewrite rule: the lhs has no generator occurrence, so it matches everywhere"),
            );
        }
        proof {
            assert(edge_labels(lhs_c.spec_edges()).len() == edges@.len());
            assert(generators_of(lhs.spec_expr()).len() > 0);
        }
        let n = lhs_c.node_count();
        let input = lhs_c.input();
        let output = lhs_c.output();
        let mut on_boundary: Vec<bool> = filled(false, n);
        let ghost both = input@ + output@;
        let mut i: usize = 0;
        while i < input.len()
            invariant
                lhs_c.well_indexed(),
                input@ == lhs_c.spec_input(),
                output@ == lhs_c.spec_output(),
                both == input@ + output@,
                generators_of(lhs.spec_expr()).len() > 0,
                n == lhs_c.spec_node_count(),
                on_boundary@.len() == n,
                i <= input@.len(),
                forall|a: int, b: int| 0 <= a < b < i ==> both[a] != both[b],
                forall|x: int|
                    0 <= x < n ==> (#[trigger] on_boundary@[x] <==> exists|k: int|
                        0 <= k < i && #[trigger] both[k] == x),
            decreases input@.len() - i,
        {
            let x = input[i];
            proof {
                assert(both[i as int] == x);
            }
            if on_boundary[x] {
                return Err(
                    presentation_error("rewrite rule: the lhs interface is not mono, so the pushout complement is not unique"),
                );
            }
            on_boundary.set(x, true);
            proof {
                assert forall|y: int|
                    0 <= y < n implies (#[trigger] on_boundary@[y] <==> exists|k: int|
                        0 <= k < i + 1 && #[trigger] both[k] == y) by {
                    if y == x {
                        assert(both[i as int] == y);
                    }
                }
            }
            i = i + 1;
        }
        let mut i: usize = 0;
        while i < output.len()
            invariant
                lhs_c.well_indexed(),
                input@ == lhs_c.spec_input(),
                output@ == lhs_c.spec_output(),
                both == input@ + output@,
                generators_of(lhs.spec_expr()).len() > 0,
                n == lhs_c.spec_node_count(),
                on_boundary@.len() == n,
                i <= output@.len(),
                forall|a: int, b: int| 0 <= a < b < input@.len() + i ==> both[a] != both[b],
                forall|x: int|
                    0 <= x < n ==> (#[trigger] on_boundary@[x] <==> exists|k: int|
                        0 <= k < input@.len() + i && #[trigger] both[k] == x),
            decreases output@.len() - i,
        {
            let x = output[i];
            let ghost j = input@.len() + i;
            proof {
                assert(both[j] == x);
            }
            if on_boundary[x] {
                return Err(
                    presentation_error("rewrite rule: the lhs interface is not mono, so the pushout complement is not unique"),
                );
            }
            on_boundary.set(x, true);
            proof {
                assert forall|y: int|
                    0 <= y < n implies (#[trigger] on_boundary@[y] <==> exists|k: int|
                        0 <= k < j + 1 && #[trigger] both[k] == y) by {
                    if y == x {
                        assert(both[j] == y);
                    }
                }
            }
            i = i + 1;
        }
        proof {
            assert forall|x: int| 0 <= x < n implies (on_boundary@[x] <==> both.contains(x as usize)) by {
                if on_boundary@[x] {
                    let k = choose|k: int| 0 <= k < both.len() && #[trigger] both[k] == x;
                    assert(both[k] == x as usize);
                }
                if both.contains(x as usize) {
                    let k = choose|k: int| 0 <= k < both.len() && #[trigger] both[k] == x as usize;
                    assert(on_boundary@[x]);
                }
            }
        }
        let mut interior: Vec<bool> = Vec::new();
        let mut x: usize = 0;
        while x < n
            invariant
                on_boundary@.len() == n,
                x <= n,
                interior@.len() == x,
                forall|y: int| 0 <= y < x ==> (#[trigger] interior@[y] <==> !on_boundary@[y]),
            decreases n - x,
        {
            interior.push(!on_boundary[x]);
            x = x + 1;
        }
        let order = connectivity_order(&lhs_c);
        proof {
            assert(edge_labels(lhs_c.spec_edges()) =~= generators_of(lhs.spec_expr()));
            assert(edge_labels(rhs_c.spec_edges()) =~= generators_of(rhs.spec_expr()));
        }
        Ok(RewriteRule { lhs: lhs_c, rhs: rhs_c, interior, order })
    }
}

/// Per-node producing and consuming edge of `content` (the last writer wins;
/// monogamy makes each single-valued).
fn incidence<G: PropSignature>(content: &Content<G>) -> (r: (Vec<Option<usize>>, Vec<Option<usize>>))
    ensures
        r.0@.len() == content.spec_node_count(),
        r.1@.len() == content.spec_node_count(),
        forall|x: int| 0 <= x < r.0@.len() ==> (#[trigger] r.0@[x] matches Some(e) ==> e < content.spec_edges().len()),
        forall|x: int| 0 <= x < r.1@.len() ==> (#[trigger] r.1@[x] matches Some(e) ==> e < content.spec_edges().len()),
{
    let n = content.node_count();
    let edges = content.edges();
    let mut producer: Vec<Option<usize>> = filled(None, n);
    let mut consumer: Vec<Option<usize>> = filled(None, n);
    let mut index: usize = 0;
    while index < edges.len()
        invariant
            content.well_indexed(),
            edges@ == content.spec_edges(),
            n == content.spec_node_count(),
            producer@.len() == n,
            consumer@.len() == n,
            index <= edges@.len(),
            forall|x: int| 0 <= x < n ==> (#[trigger] producer@[x] matches Some(e) ==> e < edges@.len()),
            forall|x: int| 0 <= x < n ==> (#[trigger] consumer@[x] matches Some(e) ==> e < edges@.len()),
        decreases edges@.len() - index,
    {
        proof {
            assert(edges@[index as int] == edges@[index as int]);
        }
        let edge = &edges[index];
        let mut k: usize = 0;
        while k < edge.sources.len()
            invariant
                content.well_indexed(),
                edges@ == content.spec_edges(),
                n == content.spec_node_count(),
                index < edges@.len(),
                *edge == edges@[index as int],
                consumer@.len() == n,
                forall|x: int| 0 <= x < n ==> (#[trigger] consumer@[x] matches Some(e) ==> e < edges@.len()),
            decreases edge.sources@.len() - k,
        {
            consumer.set(edge.sources[k], Some(index));
            k = k + 1;
        }
        let mut k: usize = 0;
        while k < edge.targets.len()
            invariant
                content.well_indexed(),
                edges@ == content.spec_edges(),
                n == content.spec_node_count(),
                index < edges@.len(),
                *edge == edges@[index as int],
                producer@.len() == n,
                forall|x: int| 0 <= x < n ==> (#[trigger] producer@[x] matches Some(e) ==> e < edges@.len()),
            decreases edge.targets@.len() - k,
        {
            producer.set(edge.targets[k], Some(index));
            k = k + 1;
        }
        index = index + 1;
    }
    (producer, consumer)
}

/// `content`'s hyperedges ordered so that each one after the first shares a
/// node with an earlier one wherever connectivity allows: a breadth-first
/// sweep from each unvisited edge in index order.
fn connectivity_order<G: PropSignature>(content: &Content<G>) -> (r: Vec<usize>)
    ensures
        all_below(r@, content.spec_edges().len()),
{
    let (producer, consumer) = incidence(content);
    let n = content.node_count();
    let edges = content.edges();
    let m = edges.len();
    let mut seen: Vec<bool> = filled(false, m);
    let mut order: Vec<usize> = Vec::new();
    let mut seed: usize = 0;
    while seed < m
        invariant
            content.well_indexed(),
            edges@ == content.spec_edges(),
            n == content.spec_node_count(),
            m == edges@.len(),
            producer@.len() == n,
            consumer@.len() == n,
            forall|x: int| 0 <= x < n ==> (#[trigger] producer@[x] matches Some(e) ==> e < m),
            forall|x: int| 0 <= x < n ==> (#[trigger] consumer@[x] matches Some(e) ==> e < m),
            seen@.len() == m,
            all_below(order@, m as nat),
        decreases m - seed,
    {
        if !seen[seed] {
            seen.set(seed, true);
            let mut queue: Vec<usize> = Vec::new();
            queue.push(seed);
            let mut head: usize = 0;
            // Every edge enters a queue at most once, so `m` rounds drain it.
            let mut fuel: usize = m;
            while head < queue.len() && fuel > 0
                invariant
                    content.well_indexed(),
                    edges@ == content.spec_edges(),
                    n == content.spec_node_count(),
                    m == edges@.len(),
                    producer@.len() == n,
                    consumer@.len() == n,
                    forall|x: int| 0 <= x < n ==> (#[trigger] producer@[x] matches Some(e) ==> e < m),
                    forall|x: int| 0 <= x < n ==> (#[trigger] consumer@[x] matches Some(e) ==> e < m),
                    seen@.len() == m,
                    all_below(order@, m as nat),
                    all_below(queue@, m as nat),
                decreases fuel,
            {
                fuel = fuel - 1;
                let e = queue[head];
                head = head + 1;
                order.push(e);
                proof {
                    assert(edges@[e as int] == edges@[e as int]);
                }
                let edge = &edges[e];
                let mut side: usize = 0;
                while side < 2
                    invariant
                        content.well_indexed(),
                        edges@ == content.spec_edges(),
                        n == content.spec_node_count(),
                        m == edges@.len(),
                        e < m,
                        *edge == edges@[e as int],
                        producer@.len() == n,
                        consumer@.len() == n,
                        forall|x: int| 0 <= x < n ==> (#[trigger] producer@[x] matches Some(e) ==> e < m),
                        forall|x: int| 0 <= x < n ==> (#[trigger] consumer@[x] matches Some(e) ==> e < m),
                        seen@.len() == m,
                        all_below(queue@, m as nat),
                    decreases 2 - side,
                {
                    let ends = if side == 0 { &edge.sources } else { &edge.targets };
                    proof {
                        assert(all_below(ends@, n as nat));
                    }
                    let mut k: usize = 0;
                    while k < ends.len()
                        invariant
                            all_below(ends@, n as nat),
                            producer@.len() == n,
                            consumer@.len() == n,
                            forall|x: int| 0 <= x < n ==> (#[trigger] producer@[x] matches Some(e) ==> e < m),
                            forall|x: int| 0 <= x < n ==> (#[trigger] consumer@[x] matches Some(e) ==> e < m),
                            seen@.len() == m,
                            all_below(queue@, m as nat),
                        decreases ends@.len() - k,
                    {
                        let x = ends[k];
                        proof {
                            assert(producer@[x as int] == producer@[x as int]);
                            assert(consumer@[x as int] == consumer@[x as int]);
                        }
                        match producer[x] {
                            Some(f) => {
                                if !seen[f] {
                                    seen.set(f, true);
                                    queue.push(f);
                                }
                            },
                            None => {},
                        }
                        match consumer[x] {
                            Some(f) => {
                                if !seen[f] {
                                    seen.set(f, true);
                                    queue.push(f);
                                }
                            },
                            None => {},
                        }
                        k = k + 1;
                    }
                    side = side + 1;
                }
            }
        }
        seed = seed + 1;
    }
    order
}

// ---------------------------------------------------------------- matching

/// One match: the target node and edge each `lhs` node and edge maps to.
struct Match {
    nodes: Vec<usize>,
    edges: Vec<usize>,
}

impl Match {
    /// One target node per `lhs` node and one target edge per `lhs` edge,
    /// all in range.
    spec fn fits<G: PropSignature>(&self, lhs: Content<G>, target: Content<G>) -> bool {
        &&& self.nodes@.len() == lhs.spec_node_count()
        &&& all_below(self.nodes@, target.spec_node_count())
        &&& self.edges@.len() == lhs.spec_edges().len()
        &&& all_below(self.edges@, target.spec_edges().len())
    }
}

/// Whether the hyperedges `image` span a convex sub-hypergraph of `target`:
/// no directed path leaves the image and comes back. The sweep seeds with the
/// image's successors outside it, relaxes forward, and rejects the moment an
/// image edge is reached again.
fn is_convex<G: PropSignature>(target: &Content<G>, consumer: &Vec<Option<usize>>, image: &Vec<usize>) -> bool
    requires
        consumer@.len() == target.spec_node_count(),
        forall|x: int| 0 <= x < consumer@.len() ==> (#[trigger] consumer@[x] matches Some(e) ==> e < target.spec_edges().len()),
        all_below(image@, target.spec_edges().len()),
{
    let n = target.node_count();
    let edges = target.edges();
    let m = edges.len();
    let mut inside: Vec<bool> = filled(false, m);
    let mut i: usize = 0;
    while i < image.len()
        invariant
            inside@.len() == m,
            all_below(image@, m as nat),
        decreases image@.len() - i,
    {
        inside.set(image[i], true);
        i = i + 1;
    }
    let mut seen: Vec<bool> = filled(false, m);
    let mut queue: Vec<usize> = Vec::new();
    let mut i: usize = 0;
    while i < image.len()
        invariant
            target.well_indexed(),
            edges@ == target.spec_edges(),
            n == target.spec_node_count(),
            m == edges@.len(),
            consumer@.len() == n,
            forall|x: int| 0 <= x < n ==> (#[trigger] consumer@[x] matches Some(e) ==> e < m),
            all_below(image@, m as nat),
            inside@.len() == m,
            seen@.len() == m,
            all_below(queue@, m as nat),
        decreases image@.len() - i,
    {
        let e = image[i];
        proof {
            assert(edges@[e as int] == edges@[e as int]);
        }
        let targets = &edges[e].targets;
        let mut k: usize = 0;
        while k < targets.len()
            invariant
                all_below(targets@, n as nat),
                consumer@.len() == n,
                forall|x: int| 0 <= x < n ==> (#[trigger] consumer@[x] matches Some(e) ==> e < m),
                inside@.len() == m,
                seen@.len() == m,
                all_below(queue@, m as nat),
            decreases targets@.len() - k,
        {
            let x = targets[k];
            proof {
                assert(consumer@[x as int] == consumer@[x as int]);
            }
            match consumer[x] {
                Some(f) => {
                    if !inside[f] && !seen[f] {
                        seen.set(f, true);
                        queue.push(f);
                    }
                },
                None => {},
            }
            k = k + 1;
        }
        i = i + 1;
    }
    let mut head: usize = 0;
    // Every edge enters the queue at most once, so `m` rounds drain it.
    let mut fuel: usize = m;
    while head < queue.len() && fuel > 0
        invariant
            target.well_indexed(),
            edges@ == target.spec_edges(),
            n == target.spec_node_count(),
            m == edges@.len(),
            consumer@.len() == n,
            forall|x: int| 0 <= x < n ==> (#[trigger] consumer@[x] matches Some(e) ==> e < m),
            inside@.len() == m,
            seen@.len() == m,
            all_below(queue@, m as nat),
        decreases fuel,
    {
        fuel = fuel - 1;
        let g = queue[head];
        head = head + 1;
        proof {
            assert(edges@[g as int] == edges@[g as int]);
        }
        let targets = &edges[g].targets;
        let mut k: usize = 0;
        while k < targets.len()
            invariant
                all_below(targets@, n as nat),
                consumer@.len() == n,
                forall|x: int| 0 <= x < n ==> (#[trigger] consumer@[x] matches Some(e) ==> e < m),
                inside@.len() == m,
                seen@.len() == m,
                all_below(queue@, m as nat),
            decreases targets@.len() - k,
        {
            let x = targets[k];
            proof {
                assert(consumer@[x as int] == consumer@[x as int]);
            }
            match consumer[x] {
                Some(f) => {
                    if inside[f] {
                        return false;
                    }
                    if !seen[f] {
                        seen.set(f, true);
                        queue.push(f);
                    }
                },
                None => {},
            }
            k = k + 1;
        }
    }
    true
}

/// Each lhs node of `ls` that has a partner in `ts` at the same position is
/// bound to it.
spec fn tentacles_bound(node_map: Seq<Option<usize>>, ls: Seq<usize>, ts: Seq<usize>) -> bool {
    forall|j: int| 0 <= j < ls.len() && j < ts.len() ==> node_map[#[trigger] ls[j] as int] == Some(ts[j])
}

/// A partial match being extended by backtracking.
struct Matcher {
    /// Target nodes on either anchor.
    anchored: Vec<bool>,
    /// The target's consuming edge per node.
    consumer: Vec<Option<usize>>,
    node_map: Vec<Option<usize>>,
    node_used: Vec<bool>,
    edge_map: Vec<Option<usize>>,
    edge_used: Vec<bool>,
}

impl Matcher {
    /// Table sizes follow the two contents, and every entry is in range.
    spec fn wf<G: PropSignature>(&self, lhs: Content<G>, target: Content<G>) -> bool {
        let tn = target.spec_node_count();
        let te = target.spec_edges().len();
        &&& self.anchored@.len() == tn
        &&& self.consumer@.len() == tn
        &&& forall|x: int| 0 <= x < tn ==> (#[trigger] self.consumer@[x] matches Some(e) ==> e < te)
        &&& self.node_map@.len() == lhs.spec_node_count()
        &&& forall|v: int| 0 <= v < self.node_map@.len() ==> (#[trigger] self.node_map@[v] matches Some(w) ==> w < tn)
        &&& self.node_used@.len() == tn
        &&& self.edge_map@.len() == lhs.spec_edges().len()
        &&& forall|l: int| 0 <= l < self.edge_map@.len() ==> (#[trigger] self.edge_map@[l] matches Some(t) ==> t < te)
        &&& self.edge_used@.len() == te
    }

    fn new<G: PropSignature>(target: &Content<G>, lhs: &Content<G>) -> (r: Self)
        ensures
            r.wf(*lhs, *target),
    {
        let (_, consumer) = incidence(target);
        let tn = target.node_count();
        let mut anchored: Vec<bool> = filled(false, tn);
        let input = target.input();
        let output = target.output();
        let mut i: usize = 0;
        while i < input.len()
            invariant
                target.well_indexed(),
                input@ == target.spec_input(),
                tn == target.spec_node_count(),
                anchored@.len() == tn,
            decreases input@.len() - i,
        {
            anchored.set(input[i], true);
            i = i + 1;
        }
        let mut i: usize = 0;
        while i < output.len()
            invariant
                target.well_indexed(),
                output@ == target.spec_output(),
                tn == target.spec_node_count(),
                anchored@.len() == tn,
            decreases output@.len() - i,
        {
            anchored.set(output[i], true);
            i = i + 1;
        }
        let te = target.edges().len();
        Matcher {
            anchored,
            consumer,
            node_map: filled(None, lhs.node_count()),
            node_used: filled(false, tn),
            edge_map: filled(None, lhs.edges().len()),
            edge_used: filled(false, te),
        }
    }

    /// Bind `v ↦ w`, recording a new binding in `undo`. Colors must agree and
    /// the map stays injective.
    fn bind_node<G: PropSignature>(
        &mut self,
        lhs: &Content<G>,
        target: &Content<G>,
        v: usize,
        w: usize,
        undo: &mut Vec<usize>,
    ) -> (r: bool)
        requires
            colors_are_structural::<G>(),
            old(self).wf(*lhs, *target),
            v < lhs.spec_node_count(),
            w < target.spec_node_count(),
            all_below(old(undo)@, lhs.spec_node_count()),
        ensures
            final(self).wf(*lhs, *target),
            all_below(final(undo)@, lhs.spec_node_count()),
            final(self).anchored@ == old(self).anchored@,
            final(self).consumer@ == old(self).consumer@,
            final(self).edge_map@ == old(self).edge_map@,
            final(self).edge_used@ == old(self).edge_used@,
            old(self).node_map@[v as int] matches Some(a) ==> r == (a == w) && *final(self) == *old(self)
                && final(undo)@ == old(undo)@,
            old(self).node_map@[v as int] is None ==> r == (!old(self).node_used@[w as int]
                && lhs.spec_node_colors()[v as int] == target.spec_node_colors()[w as int]),
            old(self).node_map@[v as int] is None && r ==> final(self).node_map@ == old(self).node_map@.update(
                v as int,
                Some(w),
            ) && final(self).node_used@ == old(self).node_used@.update(w as int, true) && final(undo)@
                == old(undo)@.push(v),
            !r ==> final(self).node_map@ == old(self).node_map@ && final(self).node_used@
                == old(self).node_used@ && final(undo)@ == old(undo)@,
    {
        match self.node_map[v] {
            Some(already) => already == w,
            None => {
                let lc = lhs.node_colors();
                let tc = target.node_colors();
                if self.node_used[w] || !opt_colors_eq::<G>(&lc[v], &tc[w]) {
                    return false;
                }
                self.node_map.set(v, Some(w));
                self.node_used.set(w, true);
                undo.push(v);
                true
            },
        }
    }

    /// Bind every tentacle of `le ↦ te`, position by position.
    fn bind_tentacles<G: PropSignature>(
        &mut self,
        lhs: &Content<G>,
        target: &Content<G>,
        le: usize,
        te: usize,
        undo: &mut Vec<usize>,
    ) -> (r: bool)
        requires
            colors_are_structural::<G>(),
            old(self).wf(*lhs, *target),
            le < lhs.spec_edges().len(),
            te < target.spec_edges().len(),
            all_below(old(undo)@, lhs.spec_node_count()),
        ensures
            final(self).wf(*lhs, *target),
            all_below(final(undo)@, lhs.spec_node_count()),
            final(self).anchored@ == old(self).anchored@,
            final(self).consumer@ == old(self).consumer@,
            final(self).edge_map@ == old(self).edge_map@,
            final(self).edge_used@ == old(self).edge_used@,
            final(undo)@.len() >= old(undo)@.len(),
            final(undo)@.take(old(undo)@.len() as int) == old(undo)@,
            r ==> tentacles_bound(final(self).node_map@, lhs.spec_edges()[le as int].sources@, target.spec_edges()[te as int].sources@),
            r ==> tentacles_bound(final(self).node_map@, lhs.spec_edges()[le as int].targets@, target.spec_edges()[te as int].targets@),
    {
        let ghost undo0 = undo@;
        let l_edges = lhs.edges();
        let t_edges = target.edges();
        proof {
            assert(l_edges@[le as int] == l_edges@[le as int]);
            assert(t_edges@[te as int] == t_edges@[te as int]);
        }
        let l_edge = &l_edges[le];
        let t_edge = &t_edges[te];
        let mut side: usize = 0;
        while side < 2
            invariant
                colors_are_structural::<G>(),
                self.wf(*lhs, *target),
                lhs.well_indexed(),
                target.well_indexed(),
                all_below(l_edge.sources@, lhs.spec_node_count()),
                all_below(l_edge.targets@, lhs.spec_node_count()),
                all_below(t_edge.sources@, target.spec_node_count()),
                all_below(t_edge.targets@, target.spec_node_count()),
                all_below(undo@, lhs.spec_node_count()),
                *l_edge == lhs.spec_edges()[le as int],
                *t_edge == target.spec_edges()[te as int],
                self.anchored@ == old(self).anchored@,
                self.consumer@ == old(self).consumer@,
                self.edge_map@ == old(self).edge_map@,
                self.edge_used@ == old(self).edge_used@,
                undo0 == old(undo)@,
                undo@.len() >= undo0.len(),
                undo@.take(undo0.len() as int) == undo0,
                side <= 2,
                side >= 1 ==> tentacles_bound(self.node_map@, l_edge.sources@, t_edge.sources@),
                side >= 2 ==> tentacles_bound(self.node_map@, l_edge.targets@, t_edge.targets@),
            decreases 2 - side,
        {
            let (ls, ts) = if side == 0 {
                (&l_edge.sources, &t_edge.sources)
            } else {
                (&l_edge.targets, &t_edge.targets)
            };
            let mut k: usize = 0;
            while k < ls.len() && k < ts.len()
                invariant
                    colors_are_structural::<G>(),
                    self.wf(*lhs, *target),
                    all_below(ls@, lhs.spec_node_count()),
                    all_below(ts@, target.spec_node_count()),
                    all_below(undo@, lhs.spec_node_count()),
                    *l_edge == lhs.spec_edges()[le as int],
                    *t_edge == target.spec_edges()[te as int],
                    side < 2,
                    *ls == if side == 0 { l_edge.sources } else { l_edge.targets },
                    *ts == if side == 0 { t_edge.sources } else { t_edge.targets },
                    self.anchored@ == old(self).anchored@,
                    self.consumer@ == old(self).consumer@,
                    self.edge_map@ == old(self).edge_map@,
                    self.edge_used@ == old(self).edge_used@,
                    undo0 == old(undo)@,
                undo@.len() >= undo0.len(),
                    undo@.take(undo0.len() as int) == undo0,
                    side >= 1 ==> tentacles_bound(self.node_map@, l_edge.sources@, t_edge.sources@),
                    all_below(l_edge.sources@, lhs.spec_node_count()),
                    forall|j: int| 0 <= j < k && j < ls@.len() && j < ts@.len() ==> self.node_map@[#[trigger] ls@[j] as int] == Some(ts@[j]),
                decreases ls@.len() - k,
            {
                let ghost before = self.node_map@;
                let ghost undo_before = undo@;
                if !self.bind_node(lhs, target, ls[k], ts[k], undo) {
                    proof {
                        assert(undo@ == undo_before);
                        assert(undo@.take(undo0.len() as int) == undo0);
                    }
                    return false;
                }
                proof {
                    assert forall|x: int| 0 <= x < before.len() && before[x] is Some implies #[trigger] self.node_map@[x] == before[x] by {
                        if before[ls@[k as int] as int] is None {
                            assert(x != ls@[k as int] as int);
                        }
                    }
                    assert(undo@.take(undo0.len() as int) =~= undo_before.take(undo0.len() as int));
                    if side >= 1 {
                        assert forall|j: int| 0 <= j < l_edge.sources@.len() && j < t_edge.sources@.len()
                            implies self.node_map@[#[trigger] l_edge.sources@[j] as int] == Some(t_edge.sources@[j]) by {
                            assert(before[l_edge.sources@[j] as int] == Some(t_edge.sources@[j]));
                        }
                    }
                    assert forall|j: int| 0 <= j < k + 1 && j < ls@.len() && j < ts@.len()
                        implies self.node_map@[#[trigger] ls@[j] as int] == Some(ts@[j]) by {
                        if j < k {
                            assert(before[ls@[j] as int] == Some(ts@[j]));
                        }
                    }
                }
                k = k + 1;
            }
            proof {
                assert forall|j: int| 0 <= j < ls@.len() && j < ts@.len()
                    implies self.node_map@[#[trigger] ls@[j] as int] == Some(ts@[j]) by {
                    assert(j < k);
                }
            }
            side = side + 1;
        }
        true
    }

    /// Undo the bindings recorded in `undo` and release `le ↦ te`.
    fn unbind<G: PropSignature>(&mut self, lhs: &Content<G>, target: &Content<G>, le: usize, te: usize, undo: Vec<usize>)
        requires
            old(self).wf(*lhs, *target),
            le < lhs.spec_edges().len(),
            te < target.spec_edges().len(),
            all_below(undo@, lhs.spec_node_count()),
        ensures
            final(self).wf(*lhs, *target),
            final(self).anchored@ == old(self).anchored@,
            final(self).consumer@ == old(self).consumer@,
            final(self).edge_map@ == old(self).edge_map@.update(le as int, None),
            final(self).edge_used@ == old(self).edge_used@.update(te as int, false),
            forall|k: int| 0 <= k < undo@.len() ==> final(self).node_map@[#[trigger] undo@[k] as int] is None,
            forall|v: usize|
                v < old(self).node_map@.len() && !undo@.contains(v)
                    ==> #[trigger] final(self).node_map@[v as int] == old(self).node_map@[v as int],
    {
        let mut i: usize = 0;
        while i < undo.len()
            invariant
                self.wf(*lhs, *target),
                all_below(undo@, lhs.spec_node_count()),
                i <= undo@.len(),
                self.anchored@ == old(self).anchored@,
                self.consumer@ == old(self).consumer@,
                self.edge_map@ == old(self).edge_map@,
                self.edge_used@ == old(self).edge_used@,
                self.node_map@.len() == old(self).node_map@.len(),
                forall|k: int| 0 <= k < i ==> self.node_map@[#[trigger] undo@[k] as int] is None,
                forall|v: usize|
                    v < old(self).node_map@.len() && !undo@.subrange(0, i as int).contains(v)
                        ==> #[trigger] self.node_map@[v as int] == old(self).node_map@[v as int],
            decreases undo@.len() - i,
        {
            let v = undo[i];
            let ghost before = self.node_map@;
            proof {
                assert(undo@.subrange(0, i + 1)[i as int] == undo@[i as int]);
            }
            match self.node_map[v] {
                Some(w) => {
                    self.node_map.set(v, None);
                    self.node_used.set(w, false);
                    assert(self.node_map@ == before.update(v as int, None));
                },
                None => {
                    assert(self.node_map@ == before);
                },
            }
            proof {
                assert forall|x: usize|
                    x < old(self).node_map@.len() && !undo@.subrange(0, i + 1).contains(x)
                        implies #[trigger] self.node_map@[x as int] == old(self).node_map@[x as int] by {
                    assert(undo@.subrange(0, i + 1)[i as int] == v);
                    if undo@.subrange(0, i as int).contains(x) {
                        let t = choose|t: int| 0 <= t < i && undo@.subrange(0, i as int)[t] == x;
                        assert(undo@.subrange(0, i + 1)[t] == x);
                        assert(undo@.subrange(0, i + 1).contains(x));
                    }
                    assert(before[x as int] == old(self).node_map@[x as int]);
                }
            }
            i = i + 1;
        }
        proof {
            assert(undo@.subrange(0, undo@.len() as int) =~= undo@);
        }
        self.edge_map.set(le, None);
        self.edge_used.set(te, false);
    }

    /// Turn a total binding into a match, or reject it: a deleted node must
    /// not be anchored in the target, and the image must be convex.
    fn finish<G: PropSignature>(&self, lhs: &Content<G>, target: &Content<G>, interior: &Vec<bool>) -> (r: Option<Match>)
        requires
            self.wf(*lhs, *target),
            interior@.len() == lhs.spec_node_count(),
        ensures
            r matches Some(found) ==> found.fits(*lhs, *target),
    {
        let tn = target.node_count();
        let te = target.edges().len();
        let mut nodes: Vec<usize> = Vec::new();
        let mut v: usize = 0;
        while v < self.node_map.len()
            invariant
                self.wf(*lhs, *target),
                tn == target.spec_node_count(),
                v <= self.node_map@.len(),
                nodes@.len() == v,
                all_below(nodes@, tn as nat),
            decreases self.node_map@.len() - v,
        {
            proof {
                assert(self.node_map@[v as int] == self.node_map@[v as int]);
            }
            match self.node_map[v] {
                Some(w) => nodes.push(w),
                None => {
                    return None;
                },
            }
            v = v + 1;
        }
        let mut edges: Vec<usize> = Vec::new();
        let mut l: usize = 0;
        while l < self.edge_map.len()
            invariant
                self.wf(*lhs, *target),
                te == target.spec_edges().len(),
                l <= self.edge_map@.len(),
                edges@.len() == l,
                all_below(edges@, te as nat),
            decreases self.edge_map@.len() - l,
        {
            proof {
                assert(self.edge_map@[l as int] == self.edge_map@[l as int]);
            }
            match self.edge_map[l] {
                Some(t) => edges.push(t),
                None => {
                    return None;
                },
            }
            l = l + 1;
        }
        let mut v: usize = 0;
        while v < nodes.len()
            invariant
                self.wf(*lhs, *target),
                tn == target.spec_node_count(),
                all_below(nodes@, tn as nat),
                nodes@.len() == interior@.len(),
            decreases nodes@.len() - v,
        {
            if interior[v] && self.anchored[nodes[v]] {
                return None;
            }
            v = v + 1;
        }
        if is_convex(target, &self.consumer, &edges) {
            Some(Match { nodes, edges })
        } else {
            None
        }
    }

    /// Depth-first extension over `order`, collecting at most `limit` matches.
    fn collect<G: PropSignature>(
        &mut self,
        lhs: &Content<G>,
        target: &Content<G>,
        interior: &Vec<bool>,
        depth: usize,
        order: &Vec<usize>,
        limit: usize,
        out: &mut Vec<Match>,
    )
        requires
            colors_are_structural::<G>(),
            gens_are_structural::<G>(),
            old(self).wf(*lhs, *target),
            interior@.len() == lhs.spec_node_count(),
            all_below(order@, lhs.spec_edges().len()),
            depth <= order@.len(),
            forall|k: int| 0 <= k < old(out)@.len() ==> (#[trigger] old(out)@[k]).fits(*lhs, *target),
        ensures
            final(self).wf(*lhs, *target),
            forall|k: int| 0 <= k < final(out)@.len() ==> (#[trigger] final(out)@[k]).fits(*lhs, *target),
        decreases order@.len() - depth,
    {
        if out.len() >= limit {
            return;
        }
        if depth == order.len() {
            match self.finish(lhs, target, interior) {
                Some(found) => out.push(found),
                None => {},
            }
            return;
        }
        let le = order[depth];
        let order_len = order.len();
        let l_edges = lhs.edges();
        let t_edges = target.edges();
        let mut te: usize = 0;
        while te < t_edges.len()
            invariant
                colors_are_structural::<G>(),
                gens_are_structural::<G>(),
                self.wf(*lhs, *target),
                l_edges@ == lhs.spec_edges(),
                t_edges@ == target.spec_edges(),
                le < l_edges@.len(),
                interior@.len() == lhs.spec_node_count(),
                all_below(order@, lhs.spec_edges().len()),
                order_len == order@.len(),
                depth < order@.len(),
                forall|k: int| 0 <= k < out@.len() ==> (#[trigger] out@[k]).fits(*lhs, *target),
            decreases t_edges@.len() - te,
        {
            proof {
                assert(l_edges@[le as int] == l_edges@[le as int]);
                assert(t_edges@[te as int] == t_edges@[te as int]);
            }
            if !self.edge_used[te] && label_eq(&l_edges[le].label, &t_edges[te].label) {
                self.edge_map.set(le, Some(te));
                self.edge_used.set(te, true);
                let mut undo: Vec<usize> = Vec::new();
                if self.bind_tentacles(lhs, target, le, te, &mut undo) {
                    self.collect(lhs, target, interior, depth + 1, order, limit, out);
                }
                self.unbind(lhs, target, le, te, undo);
                if out.len() >= limit {
                    return;
                }
            }
            te = te + 1;
        }
    }
}

/// Every convex match of `rule`'s left-hand side in `target`, up to `limit`,
/// by backtracking over the left-hand side's edges in connectivity order.
fn matches_of<G: PropSignature>(target: &Content<G>, rule: &RewriteRule<G>, limit: usize) -> (r: Vec<Match>)
    requires
        colors_are_structural::<G>(),
        gens_are_structural::<G>(),
    ensures
        forall|k: int| 0 <= k < r@.len() ==> (#[trigger] r@[k]).fits(rule.spec_lhs(), *target),
{
    proof {
        use_type_invariant(rule);
    }
    let mut out: Vec<Match> = Vec::new();
    if limit == 0 {
        return out;
    }
    let mut matcher = Matcher::new(target, &rule.lhs);
    matcher.collect(&rule.lhs, target, &rule.interior, 0, &rule.order, limit, &mut out);
    out
}

/// Rebuild the match a recorded edge assignment describes, re-running every
/// condition [`matches_of`] enforces.
fn match_at<G: PropSignature>(target: &Content<G>, rule: &RewriteRule<G>, assignment: &Vec<usize>) -> (r: Option<Match>)
    requires
        colors_are_structural::<G>(),
        gens_are_structural::<G>(),
    ensures
        r matches Some(found) ==> found.fits(rule.spec_lhs(), *target),
{
    proof {
        use_type_invariant(rule);
    }
    let lhs = &rule.lhs;
    let l_edges = lhs.edges();
    let t_edges = target.edges();
    if assignment.len() != l_edges.len() {
        return None;
    }
    let mut matcher = Matcher::new(target, lhs);
    let mut i: usize = 0;
    while i < rule.order.len()
        invariant
            colors_are_structural::<G>(),
            gens_are_structural::<G>(),
            matcher.wf(*lhs, *target),
            l_edges@ == lhs.spec_edges(),
            t_edges@ == target.spec_edges(),
            assignment@.len() == l_edges@.len(),
            all_below(rule.order@, l_edges@.len() as nat),
        decreases rule.order@.len() - i,
    {
        let le = rule.order[i];
        let te = assignment[le];
        if te >= t_edges.len() || matcher.edge_used[te] || !label_eq(&l_edges[le].label, &t_edges[te].label) {
            return None;
        }
        matcher.edge_map.set(le, Some(te));
        matcher.edge_used.set(te, true);
        let mut undo: Vec<usize> = Vec::new();
        if !matcher.bind_tentacles(lhs, target, le, te, &mut undo) {
            return None;
        }
        i = i + 1;
    }
    matcher.finish(lhs, target, &rule.interior)
}

// ---------------------------------------------------------------- the step

/// A union-find over node slots. Parents point upward in a ghost level, which
/// is what bounds the walk to a root.
struct Classes {
    parent: Vec<usize>,
    level: Ghost<Seq<nat>>,
    top: Ghost<nat>,
}

impl Classes {
    spec fn wf(&self) -> bool {
        let n = self.parent@.len();
        &&& self.level@.len() == n
        &&& forall|i: int| 0 <= i < n ==> self.parent@[i] < n
        &&& forall|i: int|
            0 <= i < n && self.parent@[i] != i ==> self.level@[self.parent@[i] as int] > self.level@[i]
        &&& forall|i: int| 0 <= i < n ==> self.level@[i] <= self.top@
    }

    /// `n` singleton classes.
    fn new(n: usize) -> (r: Self)
        ensures
            r.wf(),
            r.parent@.len() == n,
    {
        let mut parent: Vec<usize> = Vec::new();
        let mut i: usize = 0;
        while i < n
            invariant
                i <= n,
                parent@.len() == i,
                forall|k: int| 0 <= k < i ==> parent@[k] == k,
            decreases n - i,
        {
            parent.push(i);
            i = i + 1;
        }
        Classes { parent, level: Ghost(Seq::new(n as nat, |i: int| 0nat)), top: Ghost(0) }
    }

    /// The root of `x`'s class.
    spec fn root(&self, x: int) -> int {
        root_at(self.parent@, self.level@, self.top@, x)
    }

    /// The root of `x`'s class, halving the path on the way.
    fn find(&mut self, x: usize) -> (r: usize)
        requires
            old(self).wf(),
            x < old(self).parent@.len(),
        ensures
            final(self).wf(),
            final(self).parent@.len() == old(self).parent@.len(),
            r < final(self).parent@.len(),
            final(self).parent@[r as int] == r,
            r == old(self).root(x as int),
            forall|y: int| 0 <= y < old(self).parent@.len() ==> #[trigger] final(self).root(y) == old(self).root(y),
    {
        let ghost x0 = x;
        let mut x = x;
        while self.parent[x] != x
            invariant
                self.wf(),
                self.parent@.len() == old(self).parent@.len(),
                x < self.parent@.len(),
                forest_ok(self.parent@, self.level@, self.top@),
                self.root(x as int) == old(self).root(x0 as int),
                forall|y: int| 0 <= y < old(self).parent@.len() ==> #[trigger] self.root(y) == old(self).root(y),
            decreases self.top@ - self.level@[x as int],
        {
            let next = self.parent[x];
            let grand = self.parent[next];
            let ghost pre = *self;
            proof {
                assert(pre.root(x as int) == pre.root(next as int));
                assert(pre.root(next as int) == pre.root(grand as int));
            }
            self.parent.set(x, grand);
            proof {
                assert(self.parent@ == pre.parent@.update(x as int, grand));
                assert forall|y: int| 0 <= y < old(self).parent@.len() implies #[trigger] self.root(y) == old(self).root(y) by {
                    lemma_reparent_keeps_roots(pre.parent@, pre.level@, pre.top@, x as int, grand, y);
                    assert(pre.root(y) == old(self).root(y));
                }
                lemma_reparent_keeps_roots(pre.parent@, pre.level@, pre.top@, x as int, grand, next as int);
                assert(self.root(next as int) == pre.root(next as int));
            }
            x = next;
        }
        proof {
            assert(self.root(x as int) == x);
        }
        x
    }

    /// Merge the classes of `a` and `b`, linking `a`'s root under `b`'s.
    fn union(&mut self, a: usize, b: usize)
        requires
            old(self).wf(),
            a < old(self).parent@.len(),
            b < old(self).parent@.len(),
        ensures
            final(self).wf(),
            final(self).parent@.len() == old(self).parent@.len(),
            forall|y: int|
                0 <= y < old(self).parent@.len() ==> #[trigger] final(self).root(y) == if old(self).root(y) == old(
                    self,
                ).root(a as int) {
                    old(self).root(b as int)
                } else {
                    old(self).root(y)
                },
    {
        let ghost before = *self;
        let ra = self.find(a);
        let ghost s1 = *self;
        let rb = self.find(b);
        proof {
            assert(s1.root(b as int) == before.root(b as int));
            assert forall|y: int| 0 <= y < before.parent@.len() implies #[trigger] self.root(y) == before.root(y) by {
                assert(self.root(y) == s1.root(y));
                assert(s1.root(y) == before.root(y));
            }
            assert(s1.root(ra as int) == ra);
            assert(self.root(ra as int) == ra);
            lemma_root_is_root(self.parent@, self.level@, self.top@, ra as int);
        }
        if ra != rb {
            let ghost mid = *self;
            self.parent.set(ra, rb);
            proof {
                let lv = if self.level@[rb as int] > self.level@[ra as int] {
                    self.level@[rb as int]
                } else {
                    self.level@[ra as int] + 1
                };
                assert forall|y: int| 0 <= y < mid.parent@.len() implies root_at(
                    mid.parent@.update(ra as int, rb),
                    mid.level@.update(rb as int, lv),
                    if lv > mid.top@ { lv } else { mid.top@ },
                    y,
                ) == if mid.root(y) == ra as int { rb as int } else { mid.root(y) } by {
                    lemma_link_roots(mid.parent@, mid.level@, mid.top@, ra as int, rb as int, lv, y);
                }
                self.level@ = self.level@.update(rb as int, lv);
                if lv > self.top@ {
                    self.top@ = lv;
                }
                assert(self.parent@ == mid.parent@.update(ra as int, rb));
                assert forall|y: int| 0 <= y < before.parent@.len() implies #[trigger] self.root(y) == if before.root(y)
                    == before.root(a as int) {
                    before.root(b as int)
                } else {
                    before.root(y)
                } by {
                    assert(mid.root(y) == before.root(y));
                }
            }
        } else {
            proof {
                assert forall|y: int| 0 <= y < before.parent@.len() implies #[trigger] self.root(y) == if before.root(y)
                    == before.root(a as int) {
                    before.root(b as int)
                } else {
                    before.root(y)
                } by {
                    assert(self.root(y) == before.root(y));
                }
            }
        }
    }
}

/// The labels of the edges of `edges` whose index is not in `gone`, in order.
pub open spec fn survivors<G: PropSignature>(edges: Seq<ContentEdge<G>>, gone: Seq<usize>) -> Seq<G>
    decreases edges.len(),
{
    if edges.len() == 0 {
        Seq::empty()
    } else {
        let rest = survivors(edges.drop_last(), gone);
        if gone.contains((edges.len() - 1) as usize) {
            rest
        } else {
            rest.push(edges.last().label)
        }
    }
}

/// `xs` read through `slot`, each shifted by `base`; entries that fall
/// outside `slot` read as `usize::MAX`.
fn through(slot: &Vec<usize>, base: usize, xs: &Vec<usize>) -> (r: Vec<usize>)
    ensures
        r@.len() == xs@.len(),
{
    let mut r: Vec<usize> = Vec::new();
    let mut i: usize = 0;
    while i < xs.len()
        invariant
            i <= xs@.len(),
            r@.len() == i,
        decreases xs@.len() - i,
    {
        let x = xs[i];
        let at = base.checked_add(x);
        let y = match at {
            Some(k) => if k < slot.len() {
                slot[k]
            } else {
                usize::MAX
            },
            None => usize::MAX,
        };
        r.push(y);
        i = i + 1;
    }
    r
}

/// Apply one double-pushout step: excise the matched hyperedges and the
/// interior nodes they span, then glue the rule's right-hand side in along
/// the interface, coordinate for coordinate. The result is rebuilt through
/// [`from_parts`], which re-checks that it is a content; on a convex match
/// the rebuild succeeds.
///
/// Surviving target nodes are numbered first, in index order, then the
/// right-hand side's own; the edges are the surviving target edges, in
/// order, followed by the right-hand side's.
fn apply_match<G: PropSignature>(target: &Content<G>, rule: &RewriteRule<G>, found: &Match) -> (r: Result<
    Content<G>,
    CatgraphError,
>)
    requires
        colors_are_structural::<G>(),
        found.fits(rule.spec_lhs(), *target),
    ensures
        r matches Err(err) ==> err is Presentation,
        target.spec_node_count() + rule.spec_rhs().spec_node_count() > usize::MAX ==> (r matches Err(
            CatgraphError::Presentation { message },
        ) && message@ == "rewrite step: the rebuilt node count does not fit in usize"@),
        r matches Ok(c) ==> {
            &&& edge_labels(c.spec_edges()) == survivors(target.spec_edges(), found.edges@)
                + edge_labels(rule.spec_rhs().spec_edges())
            &&& c.spec_input().len() == target.spec_input().len()
            &&& c.spec_output().len() == target.spec_output().len()
        },
{
    proof {
        use_type_invariant(rule);
    }
    let lhs = &rule.lhs;
    let rhs = &rule.rhs;
    let t_nodes = target.node_count();
    let r_nodes = rhs.node_count();
    let t_edges = target.edges();
    let te = t_edges.len();
    let total = match t_nodes.checked_add(r_nodes) {
        Some(t) => t,
        None => {
            return Err(presentation_error("rewrite step: the rebuilt node count does not fit in usize"));
        },
    };

    let mut deleted_edge: Vec<bool> = filled(false, te);
    let mut i: usize = 0;
    while i < found.edges.len()
        invariant
            te == t_edges@.len(),
            deleted_edge@.len() == te,
            all_below(found.edges@, te as nat),
            i <= found.edges@.len(),
            forall|e: int|
                0 <= e < te ==> (#[trigger] deleted_edge@[e] <==> exists|k: int|
                    0 <= k < i && #[trigger] found.edges@[k] == e),
        decreases found.edges@.len() - i,
    {
        let e = found.edges[i];
        deleted_edge.set(e, true);
        proof {
            assert forall|f: int|
                0 <= f < te implies (#[trigger] deleted_edge@[f] <==> exists|k: int|
                    0 <= k < i + 1 && #[trigger] found.edges@[k] == f) by {
                if f == e {
                    assert(found.edges@[i as int] == f);
                }
            }
        }
        i = i + 1;
    }
    proof {
        assert forall|e: int| 0 <= e < te implies (deleted_edge@[e] <==> found.edges@.contains(e as usize)) by {
            if found.edges@.contains(e as usize) {
                let k = choose|k: int| 0 <= k < found.edges@.len() && #[trigger] found.edges@[k] == e as usize;
                assert(found.edges@[k] == e);
            }
        }
    }
    let mut deleted_node: Vec<bool> = filled(false, t_nodes);
    let mut v: usize = 0;
    while v < rule.interior.len()
        invariant
            rule.interior@.len() == lhs.spec_node_count(),
            found.nodes@.len() == lhs.spec_node_count(),
            all_below(found.nodes@, t_nodes as nat),
            deleted_node@.len() == t_nodes,
        decreases rule.interior@.len() - v,
    {
        if rule.interior[v] {
            deleted_node.set(found.nodes[v], true);
        }
        v = v + 1;
    }

    // Slots `0..t_nodes` are the target's nodes, the rest the rhs's; glue the
    // rhs boundary to the matched lhs boundary.
    let mut classes = Classes::new(total);
    let l_in = lhs.input();
    let l_out = lhs.output();
    let r_in = rhs.input();
    let r_out = rhs.output();
    let mut c: usize = 0;
    while c < r_in.len()
        invariant
            classes.wf(),
            classes.parent@.len() == total,
            total == t_nodes + r_nodes,
            lhs.well_indexed(),
            rhs.well_indexed(),
            r_nodes == rhs.spec_node_count(),
            l_in@ == lhs.spec_input(),
            r_in@ == rhs.spec_input(),
            r_in@.len() == l_in@.len(),
            found.nodes@.len() == lhs.spec_node_count(),
            all_below(found.nodes@, t_nodes as nat),
        decreases r_in@.len() - c,
    {
        classes.union(t_nodes + r_in[c], found.nodes[l_in[c]]);
        c = c + 1;
    }
    let mut c: usize = 0;
    while c < r_out.len()
        invariant
            classes.wf(),
            classes.parent@.len() == total,
            total == t_nodes + r_nodes,
            lhs.well_indexed(),
            rhs.well_indexed(),
            r_nodes == rhs.spec_node_count(),
            l_out@ == lhs.spec_output(),
            r_out@ == rhs.spec_output(),
            r_out@.len() == l_out@.len(),
            found.nodes@.len() == lhs.spec_node_count(),
            all_below(found.nodes@, t_nodes as nat),
        decreases r_out@.len() - c,
    {
        classes.union(t_nodes + r_out[c], found.nodes[l_out[c]]);
        c = c + 1;
    }

    // Dense renumbering: surviving target nodes in index order, then the
    // rhs's own.
    let t_colors = target.node_colors();
    let r_colors = rhs.node_colors();
    let mut dense: Vec<usize> = filled(usize::MAX, total);
    let mut node_colors: Vec<Option<G::Color>> = Vec::new();
    let mut x: usize = 0;
    while x < total
        invariant
            classes.wf(),
            classes.parent@.len() == total,
            total == t_nodes + r_nodes,
            dense@.len() == total,
            deleted_node@.len() == t_nodes,
            t_colors@.len() == t_nodes,
            r_colors@.len() == r_nodes,
            node_colors@.len() <= x,
        decreases total - x,
    {
        let keep = if x < t_nodes { !deleted_node[x] } else { true };
        if keep {
            let root = classes.find(x);
            if dense[root] == usize::MAX {
                dense.set(root, node_colors.len());
                if x < t_nodes {
                    node_colors.push(t_colors[x]);
                } else {
                    node_colors.push(r_colors[x - t_nodes]);
                }
            }
        }
        x = x + 1;
    }
    let mut slot: Vec<usize> = Vec::new();
    let mut x: usize = 0;
    while x < total
        invariant
            classes.wf(),
            classes.parent@.len() == total,
            dense@.len() == total,
            x <= total,
            slot@.len() == x,
        decreases total - x,
    {
        let root = classes.find(x);
        slot.push(dense[root]);
        x = x + 1;
    }

    let mut edges: Vec<ContentEdge<G>> = Vec::new();
    let mut index: usize = 0;
    while index < te
        invariant
            t_edges@ == target.spec_edges(),
            te == t_edges@.len(),
            index <= te,
            deleted_edge@.len() == te,
            forall|e: int| 0 <= e < te ==> (deleted_edge@[e] <==> found.edges@.contains(e as usize)),
            edge_labels(edges@) == survivors(t_edges@.take(index as int), found.edges@),
        decreases te - index,
    {
        proof {
            assert(t_edges@.take(index + 1).drop_last() =~= t_edges@.take(index as int));
        }
        if !deleted_edge[index] {
            let edge = &t_edges[index];
            let ghost before = edges@;
            edges.push(
                ContentEdge {
                    label: edge.label,
                    sources: through(&slot, 0, &edge.sources),
                    targets: through(&slot, 0, &edge.targets),
                },
            );
            proof {
                assert(edge_labels(edges@) =~= edge_labels(before).push(edge.label));
            }
        }
        index = index + 1;
    }
    proof {
        assert(t_edges@.take(te as int) =~= t_edges@);
    }
    let ghost kept = edges@;
    let r_edges = rhs.edges();
    let mut k: usize = 0;
    while k < r_edges.len()
        invariant
            r_edges@ == rhs.spec_edges(),
            k <= r_edges@.len(),
            edge_labels(edges@) == edge_labels(kept) + edge_labels(r_edges@.take(k as int)),
        decreases r_edges@.len() - k,
    {
        let edge = &r_edges[k];
        let ghost before = edges@;
        edges.push(
            ContentEdge {
                label: edge.label,
                sources: through(&slot, t_nodes, &edge.sources),
                targets: through(&slot, t_nodes, &edge.targets),
            },
        );
        proof {
            assert(edge_labels(edges@) =~= edge_labels(before).push(edge.label));
            assert(edge_labels(r_edges@.take(k + 1)) =~= edge_labels(r_edges@.take(k as int)).push(edge.label));
            assert(edge_labels(kept) + edge_labels(r_edges@.take(k + 1)) =~= (edge_labels(kept) + edge_labels(r_edges@.take(k as int))).push(edge.label));
        }
        k = k + 1;
    }
    proof {
        assert(r_edges@.take(r_edges@.len() as int) =~= r_edges@);
    }
    let t_in = slice_to_vec(target.input());
    let t_out = slice_to_vec(target.output());
    let input = through(&slot, 0, &t_in);
    let output = through(&slot, 0, &t_out);
    let count = node_colors.len();
    from_parts(count, node_colors, edges, input, output)
}

// ---------------------------------------------------------------- the search

/// One applied step of a trace: which rule fired, and which hyperedges of
/// the state it fired on, in the rule's internal left-hand-side edge order.
/// Replaying a trace with [`replay`] re-derives the state it describes.
#[derive(Debug, PartialEq, Eq)]
pub struct RewriteStep {
    rule: usize,
    matched_edges: Vec<usize>,
}

impl RewriteStep {
    /// Index of the fired rule.
    pub closed spec fn spec_rule(&self) -> usize {
        self.rule
    }

    /// The matched hyperedges.
    pub closed spec fn spec_matched_edges(&self) -> Seq<usize> {
        self.matched_edges@
    }

    /// Index of the fired rule in the `rules` slice the step came from.
    pub fn rule(&self) -> (r: usize)
        ensures
            r == self.spec_rule(),
    {
        self.rule
    }

    /// The hyperedges of the state this step matched.
    pub fn matched_edges(&self) -> (r: &[usize])
        ensures
            r@ == self.spec_matched_edges(),
    {
        self.matched_edges.as_slice()
    }
}

impl Clone for RewriteStep {
    fn clone(&self) -> (r: Self)
        ensures
            r.spec_rule() == self.spec_rule(),
            r.spec_matched_edges() == self.spec_matched_edges(),
    {
        let mut matched_edges: Vec<usize> = Vec::new();
        let mut i: usize = 0;
        while i < self.matched_edges.len()
            invariant
                i <= self.matched_edges@.len(),
                matched_edges@ == self.matched_edges@.take(i as int),
            decreases self.matched_edges@.len() - i,
        {
            matched_edges.push(self.matched_edges[i]);
            i = i + 1;
            proof {
                assert(matched_edges@ =~= self.matched_edges@.take(i as int));
            }
        }
        proof {
            assert(self.matched_edges@.take(i as int) =~= self.matched_edges@);
        }
        RewriteStep { rule: self.rule, matched_edges }
    }
}

/// What [`optimize`] found: the cheapest representative it reached, its cost
/// against the start's, and the trace that gets there.
#[derive(Debug)]
pub struct RewriteOutcome<G: PropSignature> {
    best: ColoredExpr<G>,
    initial_cost: u64,
    best_cost: u64,
    steps: Vec<RewriteStep>,
    fuel_exhausted: bool,
    states_explored: usize,
    /// The cost of every state the search reached, in the order reached.
    explored_costs: Vec<u64>,
}

impl<G: PropSignature> RewriteOutcome<G> {
    /// The cheapest representative found.
    pub closed spec fn spec_best(&self) -> ColoredExpr<G> {
        self.best
    }

    /// The start's cost.
    pub closed spec fn spec_initial_cost(&self) -> u64 {
        self.initial_cost
    }

    /// The best state's cost.
    pub closed spec fn spec_best_cost(&self) -> u64 {
        self.best_cost
    }

    /// The trace.
    pub closed spec fn spec_steps(&self) -> Seq<RewriteStep> {
        self.steps@
    }

    /// Whether the budget ran out.
    pub closed spec fn spec_fuel_exhausted(&self) -> bool {
        self.fuel_exhausted
    }

    /// How many distinct states were seen.
    pub closed spec fn spec_states_explored(&self) -> usize {
        self.states_explored
    }

    /// The cost of every state the search reached, the start first.
    pub closed spec fn spec_explored_costs(&self) -> Seq<u64> {
        self.explored_costs@
    }

    /// The cheapest representative found, read back from its content and
    /// re-checked. Best found under fuel: not a normal form, not canonical.
    pub fn best(&self) -> (r: &ColoredExpr<G>)
        ensures
            *r == self.spec_best(),
    {
        &self.best
    }

    /// Consume the outcome for its representative.
    pub fn into_best(self) -> (r: ColoredExpr<G>)
        ensures
            r == self.spec_best(),
    {
        self.best
    }

    /// [`cost_of`] on the starting morphism.
    pub fn initial_cost(&self) -> (r: u64)
        ensures
            r == self.spec_initial_cost(),
    {
        self.initial_cost
    }

    /// [`cost_of`] on [`Self::best`]; never above [`Self::initial_cost`].
    pub fn best_cost(&self) -> (r: u64)
        ensures
            r == self.spec_best_cost(),
    {
        self.best_cost
    }

    /// The steps from the start to [`Self::best`], in application order;
    /// empty exactly when the start was already the cheapest state reached.
    pub fn steps(&self) -> (r: &[RewriteStep])
        ensures
            r@ == self.spec_steps(),
    {
        self.steps.as_slice()
    }

    /// Whether the budget ran out with applicable matches still unexplored.
    pub fn fuel_exhausted(&self) -> (r: bool)
        ensures
            r == self.spec_fuel_exhausted(),
    {
        self.fuel_exhausted
    }

    /// How many distinct states (by canonical key) the search saw,
    /// including the start.
    pub fn states_explored(&self) -> (r: usize)
        ensures
            r == self.spec_states_explored(),
    {
        self.states_explored
    }
}

/// One node of the search tree.
struct SearchState<G: PropSignature> {
    content: Content<G>,
    cost: u64,
    parent: Option<usize>,
    step: Option<RewriteStep>,
}

/// Whether `keys` holds a key equal to `key`.
fn seen_key<G: PropSignature>(keys: &Vec<ContentKey<G>>, key: &ContentKey<G>) -> (r: bool)
    requires
        colors_are_structural::<G>(),
        gens_are_structural::<G>(),
    ensures
        r == exists|i: int| 0 <= i < keys@.len() && #[trigger] keys@[i].same_key(*key),
{
    let mut i: usize = 0;
    while i < keys.len()
        invariant
            colors_are_structural::<G>(),
            gens_are_structural::<G>(),
            i <= keys@.len(),
            forall|t: int| 0 <= t < i ==> !#[trigger] keys@[t].same_key(*key),
        decreases keys@.len() - i,
    {
        if key_eq(&keys[i], key) {
            return true;
        }
        i = i + 1;
    }
    false
}

/// `a` sorts strictly before `b`: lower cost, then lower state.
spec fn entry_below(a: (u64, usize), b: (u64, usize)) -> bool {
    a.0 < b.0 || (a.0 == b.0 && a.1 < b.1)
}

/// Position in `frontier` of its least `(cost, state)` entry.
fn cheapest(frontier: &Vec<(u64, usize)>) -> (r: usize)
    requires
        frontier@.len() > 0,
    ensures
        r < frontier@.len(),
        forall|j: int| 0 <= j < frontier@.len() ==> !entry_below(frontier@[j], frontier@[r as int]),
        forall|j: int| 0 <= j < r ==> entry_below(frontier@[r as int], frontier@[j]),
{
    let mut at: usize = 0;
    let mut i: usize = 1;
    while i < frontier.len()
        invariant
            1 <= i <= frontier@.len(),
            at < i,
            forall|j: int| 0 <= j < i ==> !entry_below(frontier@[j], frontier@[at as int]),
            forall|j: int| 0 <= j < at ==> entry_below(frontier@[at as int], frontier@[j]),
        decreases frontier@.len() - i,
    {
        let (c, s) = frontier[i];
        let (bc, bs) = frontier[at];
        if c < bc || (c == bc && s < bs) {
            at = i;
        }
        i = i + 1;
    }
    at
}

/// The errors a readback can report: the read expression is not
/// arity-well-formed, does not check against the source word, or does not
/// carry the state's content.
pub open spec fn readback_failure(e: CatgraphError) -> bool {
    ||| e matches CatgraphError::Presentation { message } && (message@
        == "rewrite readback: the expression read off the state is not arity-well-formed"@ || message@
        == "rewrite readback: the expression read off the state does not carry that state's content"@)
    ||| e is CompositionSizeMismatch
    ||| e is Composition
}

/// Read a content back out as a colored morphism over `source_word`, and
/// check that it is one: arity-well-formed, word-well-formed, and carrying
/// the content it came from. A failure is an engine-invariant failure,
/// reported as a `Presentation` error.
fn readback<G: PropSignature>(source_word: &[G::Color], content: &Content<G>) -> (r: Result<
    ColoredExpr<G>,
    CatgraphError,
>)
    requires
        colors_are_structural::<G>(),
        gens_are_structural::<G>(),
    ensures
        r matches Ok(read) ==> {
            &&& read.spec_source_word() == source_word@
            &&& sound_colored(read)
            &&& read.spec_expr().spec_source() == content.spec_input().len()
            &&& read.spec_expr().spec_target() == content.spec_output().len()
        },
        r matches Err(e) ==> readback_failure(e),
{
    let expr = expr_of_content(content);
    if !is_arity_well_formed(&expr) {
        return Err(presentation_error("rewrite readback: the expression read off the state is not arity-well-formed"));
    }
    let read = match ColoredExpr::new(slice_to_vec(source_word), expr) {
        Ok(read) => read,
        Err(err) => {
            return Err(err);
        },
    };
    let again = content_of_colored(&read);
    if !content_eq(&again, content) {
        return Err(
            presentation_error("rewrite readback: the expression read off the state does not carry that state's content"),
        );
    }
    Ok(read)
}

/// Search for a cheaper writing of `start` under `rules`, spending at most
/// `fuel` rewrite applications.
///
/// Best first over states deduplicated by canonical key: each round expands
/// the cheapest frontier state (ties to the earliest), applying every convex
/// match of every rule to it. A step whose rebuild fails is skipped. The
/// cheapest state reached is read back and re-checked.
///
/// Errors: `Presentation` if `start` is not arity- or word-well-formed, or if
/// the readback of the best state does not re-check (an engine-invariant
/// failure).
pub fn optimize<G: PropSignature, F: Fn(&G) -> u64>(
    start: &ColoredExpr<G>,
    rules: &[RewriteRule<G>],
    fuel: usize,
    per_gen: F,
) -> (r: Result<RewriteOutcome<G>, CatgraphError>)
    requires
        colors_are_structural::<G>(),
        gens_are_structural::<G>(),
        forall|g: &G| #[trigger] per_gen.requires((g,)),
    ensures
        !sound_colored(*start) ==> (r matches Err(err) && err is Presentation),
        sound_colored(*start) ==> (r is Ok || (r matches Err(e) && readback_failure(e))),
        r matches Ok(o) ==> {
            &&& sound_colored(*start)
            &&& exists|w: Seq<u64>|
                weighs(per_gen, generators_of(start.spec_expr()), w) && o.spec_initial_cost()
                    == saturating_total(w)
            &&& o.spec_best_cost() <= o.spec_initial_cost()
            &&& (o.spec_steps().len() == 0 <==> o.spec_best_cost() == o.spec_initial_cost())
            &&& o.spec_steps().len() <= fuel
            &&& forall|k: int| 0 <= k < o.spec_steps().len() ==> (#[trigger] o.spec_steps()[k]).spec_rule() < rules@.len()
            &&& o.spec_best().spec_source_word() == start.spec_source_word()
            &&& sound_colored(o.spec_best())
            &&& o.spec_best().spec_expr().spec_source() == start.spec_expr().spec_source()
            &&& o.spec_best().spec_expr().spec_target() == start.spec_expr().spec_target()
            &&& o.spec_states_explored() >= 1
            &&& o.spec_explored_costs().len() == o.spec_states_explored()
            &&& o.spec_explored_costs()[0] == o.spec_initial_cost()
            &&& forall|s: int|
                0 <= s < o.spec_explored_costs().len() ==> o.spec_best_cost() <= #[trigger] o.spec_explored_costs()[s]
            &&& exists|s: int|
                0 <= s < o.spec_explored_costs().len() && o.spec_best_cost() == #[trigger] o.spec_explored_costs()[s]
            &&& fuel == 0 ==> o.spec_states_explored() == 1 && o.spec_steps().len() == 0 && o.spec_best_cost()
                == o.spec_initial_cost()
        },
{
    match revalidate(
        start,
        "rewrite search: the starting morphism is not arity-well-formed",
        "rewrite search: the starting morphism is not word-well-formed",
    ) {
        Ok(()) => {},
        Err(err) => {
            return Err(err);
        },
    }
    let root = content_of_colored(start);
    let initial_cost = weigh(&root, &per_gen);
    proof {
        assert(edge_labels(root.spec_edges()) =~= generators_of(start.spec_expr()));
    }
    let mut visited: Vec<ContentKey<G>> = Vec::new();
    visited.push(canonical_key(&root));
    let mut states: Vec<SearchState<G>> = Vec::new();
    states.push(SearchState { content: root, cost: initial_cost, parent: None, step: None });
    let ghost mut depth: Seq<nat> = seq![0nat];
    let mut frontier: Vec<(u64, usize)> = Vec::new();
    frontier.push((initial_cost, 0));
    let mut best: usize = 0;
    let mut fuel_left: usize = fuel;
    let mut fuel_exhausted = false;

    while frontier.len() > 0 && !fuel_exhausted
        invariant
            visited@.len() >= 1,
            exists|w: Seq<u64>|
                weighs(per_gen, generators_of(start.spec_expr()), w) && initial_cost == saturating_total(w),
            colors_are_structural::<G>(),
            gens_are_structural::<G>(),
            forall|g: &G| #[trigger] per_gen.requires((g,)),
            states@.len() >= 1,
            forall|s: int| 0 <= s < states@.len() ==> (#[trigger] states@[s]).content.spec_input().len() == start.spec_expr().spec_source() && states@[s].content.spec_output().len() == start.spec_expr().spec_target(),
            depth.len() == states@.len(),
            states@[0].cost == initial_cost,
            states@[0].parent is None,
            depth[0] == 0,
            forall|s: int|
                0 < s < states@.len() ==> {
                    &&& (#[trigger] states@[s]).parent matches Some(p) && p < s && depth[s] == depth[p as int] + 1
                    &&& states@[s].step matches Some(st) && st.rule < rules@.len()
                },
            forall|s: int| 0 <= s < states@.len() ==> #[trigger] depth[s] + fuel_left <= fuel,
                states@.len() == visited@.len(),
                visited@.len() <= 1 + (fuel - fuel_left),
            fuel_left <= fuel,
                states@.len() == visited@.len(),
                visited@.len() <= 1 + (fuel - fuel_left),
            best < states@.len(),
            best == 0 ==> states@[best as int].cost == initial_cost,
            best != 0 ==> states@[best as int].cost < initial_cost,
                forall|s: int| 0 <= s < states@.len() ==> states@[best as int].cost <= #[trigger] states@[s].cost,
            forall|k: int| 0 <= k < frontier@.len() ==> (#[trigger] frontier@[k]).1 < states@.len(),
        decreases fuel_left + frontier@.len() + (if fuel_exhausted { 0int } else { 1int }),
    {
        let ghost before = fuel_left + frontier@.len();
        let at = cheapest(&frontier);
        let (_, index) = frontier.remove(at);
        let mut rule_index: usize = 0;
        while rule_index < rules.len() && !fuel_exhausted
            invariant
                visited@.len() >= 1,
                colors_are_structural::<G>(),
                gens_are_structural::<G>(),
                forall|g: &G| #[trigger] per_gen.requires((g,)),
                index < states@.len(),
                states@.len() >= 1,
                forall|s: int| 0 <= s < states@.len() ==> (#[trigger] states@[s]).content.spec_input().len() == start.spec_expr().spec_source() && states@[s].content.spec_output().len() == start.spec_expr().spec_target(),
            forall|s: int| 0 <= s < states@.len() ==> (#[trigger] states@[s]).content.spec_input().len() == start.spec_expr().spec_source() && states@[s].content.spec_output().len() == start.spec_expr().spec_target(),
                depth.len() == states@.len(),
                states@[0].cost == initial_cost,
                states@[0].parent is None,
                depth[0] == 0,
                forall|s: int|
                    0 < s < states@.len() ==> {
                        &&& (#[trigger] states@[s]).parent matches Some(p) && p < s && depth[s] == depth[p as int] + 1
                        &&& states@[s].step matches Some(st) && st.rule < rules@.len()
                    },
                forall|s: int| 0 <= s < states@.len() ==> #[trigger] depth[s] + fuel_left <= fuel,
                states@.len() == visited@.len(),
                visited@.len() <= 1 + (fuel - fuel_left),
                fuel_left <= fuel,
                states@.len() == visited@.len(),
                visited@.len() <= 1 + (fuel - fuel_left),
                best < states@.len(),
                best == 0 ==> states@[best as int].cost == initial_cost,
                best != 0 ==> states@[best as int].cost < initial_cost,
                forall|s: int| 0 <= s < states@.len() ==> states@[best as int].cost <= #[trigger] states@[s].cost,
                forall|k: int| 0 <= k < frontier@.len() ==> (#[trigger] frontier@[k]).1 < states@.len(),
                fuel_left + frontier@.len() < before,
            decreases rules@.len() - rule_index,
        {
            let rule = &rules[rule_index];
            let limit = fuel_left.saturating_add(1);
            let found = matches_of(&states[index].content, rule, limit);
            let mut k: usize = 0;
            while k < found.len() && !fuel_exhausted
                invariant
                    visited@.len() >= 1,
                    colors_are_structural::<G>(),
                    gens_are_structural::<G>(),
                    forall|g: &G| #[trigger] per_gen.requires((g,)),
                    index < states@.len(),
                    rule_index < rules@.len(),
                    *rule == rules@[rule_index as int],
                    forall|j: int| 0 <= j < found@.len() ==> (#[trigger] found@[j]).fits(rule.spec_lhs(), states@[index as int].content),
                    states@.len() >= 1,
                    forall|s: int| 0 <= s < states@.len() ==> (#[trigger] states@[s]).content.spec_input().len() == start.spec_expr().spec_source() && states@[s].content.spec_output().len() == start.spec_expr().spec_target(),
                forall|s: int| 0 <= s < states@.len() ==> (#[trigger] states@[s]).content.spec_input().len() == start.spec_expr().spec_source() && states@[s].content.spec_output().len() == start.spec_expr().spec_target(),
            forall|s: int| 0 <= s < states@.len() ==> (#[trigger] states@[s]).content.spec_input().len() == start.spec_expr().spec_source() && states@[s].content.spec_output().len() == start.spec_expr().spec_target(),
                    depth.len() == states@.len(),
                    states@[0].cost == initial_cost,
                    states@[0].parent is None,
                    depth[0] == 0,
                    forall|s: int|
                        0 < s < states@.len() ==> {
                            &&& (#[trigger] states@[s]).parent matches Some(p) && p < s && depth[s] == depth[p as int] + 1
                            &&& states@[s].step matches Some(st) && st.rule < rules@.len()
                        },
                    forall|s: int| 0 <= s < states@.len() ==> #[trigger] depth[s] + fuel_left <= fuel,
                states@.len() == visited@.len(),
                visited@.len() <= 1 + (fuel - fuel_left),
                    fuel_left <= fuel,
                states@.len() == visited@.len(),
                visited@.len() <= 1 + (fuel - fuel_left),
                    best < states@.len(),
                    best == 0 ==> states@[best as int].cost == initial_cost,
                    best != 0 ==> states@[best as int].cost < initial_cost,
                forall|s: int| 0 <= s < states@.len() ==> states@[best as int].cost <= #[trigger] states@[s].cost,
                    forall|k: int| 0 <= k < frontier@.len() ==> (#[trigger] frontier@[k]).1 < states@.len(),
                    fuel_left + frontier@.len() < before,
                decreases found@.len() - k,
            {
                if fuel_left == 0 {
                    fuel_exhausted = true;
                } else {
                    fuel_left = fuel_left - 1;
                    let one = &found[k];
                    proof {
                        assert(found@[k as int].fits(rule.spec_lhs(), states@[index as int].content));
                    }
                    match apply_match(&states[index].content, rule, one) {
                        Ok(next) => {
                            let key = canonical_key(&next);
                            if !seen_key(&visited, &key) {
                                let cost = weigh(&next, &per_gen);
                                let slot = states.len();
                                visited.push(key);
                                let step = RewriteStep { rule: rule_index, matched_edges: one.edges.clone() };
                                states.push(
                                    SearchState { content: next, cost, parent: Some(index), step: Some(step) },
                                );
                                proof {
                                    depth = depth.push(depth[index as int] + 1);
                                }
                                let ghost old_best = best;
                                if cost < states[best].cost {
                                    best = slot;
                                }
                                proof {
                                    assert forall|s: int| 0 <= s < states@.len() implies states@[best as int].cost
                                        <= #[trigger] states@[s].cost by {
                                        if s < slot {
                                            assert(states@[s] == states@[s]);
                                            assert(states@[old_best as int].cost <= states@[s].cost);
                                        }
                                    }
                                }
                                frontier.push((cost, slot));
                            }
                        },
                        Err(_) => {},
                    }
                }
                k = k + 1;
            }
            rule_index = rule_index + 1;
        }
    }

    proof {
        if fuel == 0 {
            assert(states@.len() == 1);
            assert(best == 0);
        }
    }
    // The trace: walk the parent links back from the best state.
    let mut reversed: Vec<RewriteStep> = Vec::new();
    let mut walk: usize = best;
    while walk > 0
        invariant
            walk < states@.len(),
            states@.len() >= 1,
            forall|s: int| 0 <= s < states@.len() ==> (#[trigger] states@[s]).content.spec_input().len() == start.spec_expr().spec_source() && states@[s].content.spec_output().len() == start.spec_expr().spec_target(),
            depth.len() == states@.len(),
            depth[0] == 0,
            forall|s: int|
                0 < s < states@.len() ==> {
                    &&& (#[trigger] states@[s]).parent matches Some(p) && p < s && depth[s] == depth[p as int] + 1
                    &&& states@[s].step matches Some(st) && st.rule < rules@.len()
                },
            reversed@.len() + depth[walk as int] == depth[best as int],
            forall|k: int| 0 <= k < reversed@.len() ==> (#[trigger] reversed@[k]).rule < rules@.len(),
        decreases walk,
    {
        proof {
            assert(states@[walk as int] == states@[walk as int]);
        }
        match &states[walk].step {
            Some(step) => reversed.push(step.clone()),
            None => {},
        }
        match states[walk].parent {
            Some(p) => {
                walk = p;
            },
            None => {
                walk = 0;
            },
        }
    }
    let mut steps: Vec<RewriteStep> = Vec::new();
    let mut i: usize = reversed.len();
    while i > 0
        invariant
            i <= reversed@.len(),
            steps@.len() + i == reversed@.len(),
            forall|k: int| 0 <= k < reversed@.len() ==> (#[trigger] reversed@[k]).rule < rules@.len(),
            forall|k: int| 0 <= k < steps@.len() ==> (#[trigger] steps@[k]).rule < rules@.len(),
        decreases i,
    {
        i = i - 1;
        steps.push(reversed[i].clone());
    }

    let mut explored_costs: Vec<u64> = Vec::new();
    let mut s: usize = 0;
    while s < states.len()
        invariant
            s <= states@.len(),
            explored_costs@.len() == s,
            forall|j: int| 0 <= j < s ==> #[trigger] explored_costs@[j] == states@[j].cost,
        decreases states@.len() - s,
    {
        explored_costs.push(states[s].cost);
        s = s + 1;
    }
    let best_cost = states[best].cost;
    let read = match readback(start.source_word(), &states[best].content) {
        Ok(read) => read,
        Err(err) => {
            return Err(err);
        },
    };
    proof {
        assert(explored_costs@.len() == visited@.len());
        assert(explored_costs@[0] == initial_cost);
        assert(explored_costs@[best as int] == best_cost);
        assert(forall|j: int| 0 <= j < explored_costs@.len() ==> best_cost <= #[trigger] explored_costs@[j]);
    }
    let o = RewriteOutcome {
        best: read,
        initial_cost,
        best_cost,
        steps,
        fuel_exhausted,
        states_explored: visited.len(),
        explored_costs,
    };
    proof {
        assert(o.spec_explored_costs()[best as int] == o.spec_best_cost());
    }
    Ok(o)
}

/// Re-derive the state a trace describes: apply `steps` to `start` in order,
/// re-validating each as a convex match of the rule it names, then read the
/// state back.
///
/// Errors: `Presentation` if `start` is not well-formed, a step names a rule
/// outside `rules`, a step's hyperedges are not a convex match of its rule,
/// a rebuild fails, or the readback does not re-check.
pub fn replay<G: PropSignature>(start: &ColoredExpr<G>, rules: &[RewriteRule<G>], steps: &[RewriteStep]) -> (r: Result<
    ColoredExpr<G>,
    CatgraphError,
>)
    requires
        colors_are_structural::<G>(),
        gens_are_structural::<G>(),
    ensures
        !sound_colored(*start) ==> (r matches Err(err) && err is Presentation),
        sound_colored(*start) && steps@.len() == 0 ==> (r is Ok || (r matches Err(e) && readback_failure(e))),
        r matches Ok(read) ==> {
            &&& sound_colored(*start)
            &&& forall|k: int| 0 <= k < steps@.len() ==> (#[trigger] steps@[k]).spec_rule() < rules@.len()
            &&& read.spec_source_word() == start.spec_source_word()
            &&& sound_colored(read)
            &&& read.spec_expr().spec_source() == start.spec_expr().spec_source()
            &&& read.spec_expr().spec_target() == start.spec_expr().spec_target()
        },
{
    match revalidate(
        start,
        "rewrite replay: the starting morphism is not arity-well-formed",
        "rewrite replay: the starting morphism is not word-well-formed",
    ) {
        Ok(()) => {},
        Err(err) => {
            return Err(err);
        },
    }
    let mut content = content_of_colored(start);
    let mut i: usize = 0;
    while i < steps.len()
        invariant
            colors_are_structural::<G>(),
            gens_are_structural::<G>(),
            i <= steps@.len(),
            forall|k: int| 0 <= k < i ==> (#[trigger] steps@[k]).spec_rule() < rules@.len(),
            content.spec_input().len() == start.spec_expr().spec_source(),
            content.spec_output().len() == start.spec_expr().spec_target(),
        decreases steps@.len() - i,
    {
        let step = &steps[i];
        if step.rule >= rules.len() {
            return Err(presentation_error("rewrite replay: a step names a rule outside the rules given"));
        }
        let rule = &rules[step.rule];
        let found = match match_at(&content, rule, &step.matched_edges) {
            Some(found) => found,
            None => {
                return Err(presentation_error("rewrite replay: a step does not describe a convex match"));
            },
        };
        content = match apply_match(&content, rule, &found) {
            Ok(next) => next,
            Err(err) => {
                return Err(err);
            },
        };
        i = i + 1;
    }
    readback(start.source_word(), &content)
}

} // verus!
