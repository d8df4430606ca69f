//! Reading a content back as a layered expression, and the canonical
//! display built on it.
//!
//! [`expr_of_content`] writes a content cospan out as a layered expression by
//! a sweep over its canonical relabeling: each pass places every hyperedge
//! whose sources sit contiguous and in tentacle order on the current wire
//! word; when none does, it crosses wires to gather one edge's sources; and
//! when nothing can proceed, it emits the source-free hyperedges at the
//! coordinates their consumers (or the outputs they reach) demand. Closed
//! components are laid out as blocks to the left of the anchored part.
//! [`canonical_display`] is the normal form of that readback.
use vstd::prelude::*;
use crate::prop::{PropExpr, PropSignature, gens_are_structural, lemma_arities_bounded};
use vstd::slice::slice_to_vec;
use super::content::{Content, ContentEdge, canonical_content, content_of, spec_arity_well_formed, spec_composes, all_below, filled, usizes_eq};
use super::smc_nf::{StringDiagram, nf};

verus! {

// ---------------------------------------------------------------- incidence

/// Per-node incidence of a content, as the sweep reads it: the producing
/// edge, the consuming `(edge, tentacle)`, the output coordinate, and the
/// least output coordinate reachable downstream (`usize::MAX` when the whole
/// downstream cone dies inside the diagram).
struct Incidence {
    producer: Vec<Option<usize>>,
    consumer: Vec<Option<(usize, usize)>>,
    out_coord: Vec<Option<usize>>,
    reach: Vec<usize>,
}

impl Incidence {
    /// Every table has one entry per node and names edges in range.
    spec fn fits(&self, n: nat, m: nat) -> bool {
        &&& self.producer@.len() == n
        &&& self.consumer@.len() == n
        &&& self.out_coord@.len() == n
        &&& self.reach@.len() == n
        &&& forall|x: int| 0 <= x < n ==> (#[trigger] self.producer@[x] matches Some(e) ==> e < m)
        &&& forall|x: int| 0 <= x < n ==> (#[trigger] self.consumer@[x] matches Some((e, _)) ==> e < m)
    }

    /// The edges incident to `node`, consumer first.
    fn incident(&self, node: usize) -> (r: [Option<usize>; 2])
        requires
            node < self.consumer@.len(),
            node < self.producer@.len(),
        ensures
            r@[0] == (match self.consumer@[node as int] {
                Some((e, _)) => Some(e),
                None => None,
            }),
            r@[1] == self.producer@[node as int],
    {
        let c = match self.consumer[node] {
            Some((e, _)) => Some(e),
            None => None,
        };
        [c, self.producer[node]]
    }
}

/// Every recorded consumer names an edge of `edges` and one of its source
/// tentacles.
spec fn consumers_fit<G: PropSignature>(inc: &Incidence, edges: Seq<ContentEdge<G>>) -> bool {
    forall|x: int|
        0 <= x < inc.consumer@.len() ==> (#[trigger] inc.consumer@[x] matches Some((e, p)) ==> e
            < edges.len() && p < edges[e as int].sources@.len())
}

/// `producer` names, for each node, the first edge producing it among the
/// first `m` edges and the first `q` targets of edge `m`, and nothing when
/// none does.
spec fn first_producers<G: PropSignature>(producer: Seq<Option<usize>>, edges: Seq<ContentEdge<G>>, m: int, q: int) -> bool {
    forall|x: int|
        0 <= x < producer.len() ==> match #[trigger] producer[x] {
            Some(e) => {
                &&& 0 <= e <= m
                &&& e < m ==> edges[e as int].targets@.contains(x as usize)
                &&& e == m ==> edges[e as int].targets@.take(q).contains(x as usize)
                &&& forall|f: int| 0 <= f < e ==> !(#[trigger] edges[f].targets@.contains(x as usize))
            },
            None => {
                &&& forall|f: int| 0 <= f < m ==> !(#[trigger] edges[f].targets@.contains(x as usize))
                &&& !edges[m].targets@.take(q).contains(x as usize)
            },
        }
}

/// `consumer` names, for each node, the first source tentacle consuming it,
/// in edge order and then position order, among the tentacles before
/// position `q` of edge `m` (all tentacles of the earlier edges).
spec fn first_consumers<G: PropSignature>(consumer: Seq<Option<(usize, usize)>>, edges: Seq<ContentEdge<G>>, m: int, q: int) -> bool {
    forall|x: int|
        0 <= x < consumer.len() ==> match #[trigger] consumer[x] {
            Some((e, p)) => tentacle_before(e as int, p as int, m, q) && 0 <= p < edges[e as int].sources@.len()
                && edges[e as int].sources@[p as int] == x && forall|f: int, t: int|
                tentacle_before(f, t, e as int, p as int) && 0 <= t < edges[f].sources@.len() ==> edges[f].sources@[t]
                    != x,
            None => forall|f: int, t: int|
                tentacle_before(f, t, m, q) && 0 <= t < edges[f].sources@.len() ==> edges[f].sources@[t] != x,
        }
}

/// Tentacle `(f, t)` comes before `(e, p)`: an earlier edge, or the same
/// edge and an earlier position.
spec fn tentacle_before(f: int, t: int, e: int, p: int) -> bool {
    0 <= f && 0 <= t && (f < e || (f == e && t < p))
}

/// `out_coord` names, for each node, the first of the first `k` output
/// coordinates holding it, and nothing when none does.
spec fn first_coords(out_coord: Seq<Option<usize>>, output: Seq<usize>, k: int) -> bool {
    forall|x: int|
        0 <= x < out_coord.len() ==> match #[trigger] out_coord[x] {
            Some(j) => 0 <= j < k && output[j as int] == x && forall|i: int| 0 <= i < j ==> output[i] != x,
            None => forall|i: int| 0 <= i < k ==> output[i] != x,
        }
}

/// Every reach is an output coordinate or `usize::MAX`, and a node at an
/// output coordinate reaches its first one.
spec fn reach_fits(reach: Seq<usize>, out_coord: Seq<Option<usize>>, outputs: nat) -> bool {
    &&& reach.len() == out_coord.len()
    &&& forall|x: int| 0 <= x < reach.len() ==> #[trigger] reach[x] == usize::MAX || reach[x] < outputs
    &&& forall|x: int| 0 <= x < reach.len() ==> (#[trigger] out_coord[x] matches Some(j) ==> reach[x] == j)
}

/// Read the incidence of `c`: first producer, first consumer and first
/// output coordinate of each node, and `reach` by relaxation against the
/// flow (at most one pass per node plus one).
fn incidence<G: PropSignature>(c: &Content<G>) -> (inc: Incidence)
    ensures
        inc.fits(c.spec_node_count(), c.spec_edges().len()),
        consumers_fit(&inc, c.spec_edges()),
        first_producers(inc.producer@, c.spec_edges(), c.spec_edges().len() as int, 0),
        first_consumers(inc.consumer@, c.spec_edges(), c.spec_edges().len() as int, 0),
        first_coords(inc.out_coord@, c.spec_output(), c.spec_output().len() as int),
        reach_fits(inc.reach@, inc.out_coord@, c.spec_output().len()),
{
    let n = c.node_count();
    let edges = c.edges();
    let output = c.output();
    let mut producer: Vec<Option<usize>> = filled(None, n);
    let mut consumer: Vec<Option<(usize, usize)>> = filled(None, n);
    let mut out_coord: Vec<Option<usize>> = filled(None, n);
    let mut index: usize = 0;
    while index < edges.len()
        invariant
            c.well_indexed(),
            edges@ == c.spec_edges(),
            n == c.spec_node_count(),
            producer@.len() == n,
            consumer@.len() == n,
            index <= edges@.len(),
            forall|x: int| 0 <= x < n ==> (#[trigger] producer@[x] matches Some(e) ==> e < edges@.len()),
            forall|x: int| 0 <= x < n ==> (#[trigger] consumer@[x] matches Some((e, p)) ==> e < edges@.len() && p < edges@[e as int].sources@.len()),
            first_producers(producer@, edges@, index as int, 0),
            first_consumers(consumer@, edges@, index as int, 0),
        decreases edges@.len() - index,
    {
        proof {
            assert(edges@[index as int] == edges@[index as int]);
        }
        let edge = &edges[index];
        let mut position: usize = 0;
        while position < edge.sources.len()
            invariant
                c.well_indexed(),
                edges@ == c.spec_edges(),
                n == c.spec_node_count(),
                index < edges@.len(),
                *edge == edges@[index as int],
                position <= edge.sources@.len(),
                consumer@.len() == n,
                forall|x: int| 0 <= x < n ==> (#[trigger] consumer@[x] matches Some((e, p)) ==> e < edges@.len() && p < edges@[e as int].sources@.len()),
                first_consumers(consumer@, edges@, index as int, position as int),
            decreases edge.sources@.len() - position,
        {
            proof {
                assert(edges@[index as int] == edges@[index as int]);
            }
            let x = edge.sources[position];
            let ghost prev = consumer@;
            if consumer[x].is_none() {
                consumer.set(x, Some((index, position)));
            }
            proof {
                assert forall|y: int| 0 <= y < consumer@.len() implies match #[trigger] consumer@[y] {
                    Some((e, p)) => tentacle_before(e as int, p as int, index as int, position + 1) && 0 <= p
                        < edges@[e as int].sources@.len() && edges@[e as int].sources@[p as int] == y && forall|f: int, t: int|
                        tentacle_before(f, t, e as int, p as int) && 0 <= t < edges@[f].sources@.len()
                            ==> edges@[f].sources@[t] != y,
                    None => forall|f: int, t: int|
                        tentacle_before(f, t, index as int, position + 1) && 0 <= t < edges@[f].sources@.len()
                            ==> edges@[f].sources@[t] != y,
                } by {
                    assert(match prev[y] {
                        Some((e, p)) => tentacle_before(e as int, p as int, index as int, position as int) && 0 <= p
                            < edges@[e as int].sources@.len() && edges@[e as int].sources@[p as int] == y && forall|f: int, t: int|
                            tentacle_before(f, t, e as int, p as int) && 0 <= t < edges@[f].sources@.len()
                                ==> edges@[f].sources@[t] != y,
                        None => forall|f: int, t: int|
                            tentacle_before(f, t, index as int, position as int) && 0 <= t < edges@[f].sources@.len()
                                ==> edges@[f].sources@[t] != y,
                    });
                    if prev[y] is None && y != x as int {
                        assert forall|f: int, t: int|
                            tentacle_before(f, t, index as int, position + 1) && 0 <= t < edges@[f].sources@.len()
                                implies edges@[f].sources@[t] != y by {
                            if f == index && t == position {
                                assert(edges@[index as int].sources@[position as int] == x);
                            } else {
                                assert(tentacle_before(f, t, index as int, position as int));
                            }
                        }
                    }
                }
            }
            position = position + 1;
        }
        proof {
            assert(first_consumers(consumer@, edges@, index + 1, 0)) by {
                assert forall|y: int| 0 <= y < consumer@.len() implies match #[trigger] consumer@[y] {
                    Some((e, p)) => tentacle_before(e as int, p as int, index + 1, 0) && 0 <= p < edges@[e as int].sources@.len()
                        && edges@[e as int].sources@[p as int] == y && forall|f: int, t: int|
                        tentacle_before(f, t, e as int, p as int) && 0 <= t < edges@[f].sources@.len()
                            ==> edges@[f].sources@[t] != y,
                    None => forall|f: int, t: int|
                        tentacle_before(f, t, index + 1, 0) && 0 <= t < edges@[f].sources@.len() ==> edges@[f].sources@[t] != y,
                } by {
                    assert(match consumer@[y] {
                        Some((e, p)) => tentacle_before(e as int, p as int, index as int, edge.sources@.len() as int) && 0 <= p
                            < edges@[e as int].sources@.len() && edges@[e as int].sources@[p as int] == y && forall|f: int, t: int|
                            tentacle_before(f, t, e as int, p as int) && 0 <= t < edges@[f].sources@.len()
                                ==> edges@[f].sources@[t] != y,
                        None => forall|f: int, t: int|
                            tentacle_before(f, t, index as int, edge.sources@.len() as int) && 0 <= t < edges@[f].sources@.len()
                                ==> edges@[f].sources@[t] != y,
                    });
                    if consumer@[y] is None {
                        assert forall|f: int, t: int|
                            tentacle_before(f, t, index + 1, 0) && 0 <= t < edges@[f].sources@.len()
                                implies edges@[f].sources@[t] != y by {
                            assert(tentacle_before(f, t, index as int, edge.sources@.len() as int));
                        }
                    }
                }
            }
        }
        let mut position: usize = 0;
        while position < edge.targets.len()
            invariant
                c.well_indexed(),
                edges@ == c.spec_edges(),
                n == c.spec_node_count(),
                index < edges@.len(),
                *edge == edges@[index as int],
                producer@.len() == n,
                forall|x: int| 0 <= x < n ==> (#[trigger] producer@[x] matches Some(e) ==> e < edges@.len()),
                position <= edge.targets@.len(),
                first_producers(producer@, edges@, index as int, position as int),
            decreases edge.targets@.len() - position,
        {
            proof {
                assert(edges@[index as int] == edges@[index as int]);
            }
            let x = edge.targets[position];
            let ghost prev = producer@;
            if producer[x].is_none() {
                producer.set(x, Some(index));
            }
            proof {
                let tk = edges@[index as int].targets@;
                assert(tk.take(position + 1) =~= tk.take(position as int).push(x));
                assert forall|y: int| 0 <= y < producer@.len() implies match #[trigger] producer@[y] {
                    Some(e) => {
                        &&& 0 <= e <= index
                        &&& e < index ==> edges@[e as int].targets@.contains(y as usize)
                        &&& e == index ==> edges@[e as int].targets@.take(position + 1).contains(y as usize)
                        &&& forall|f: int| 0 <= f < e ==> !(#[trigger] edges@[f].targets@.contains(y as usize))
                    },
                    None => {
                        &&& forall|f: int| 0 <= f < index ==> !(#[trigger] edges@[f].targets@.contains(y as usize))
                        &&& !edges@[index as int].targets@.take(position + 1).contains(y as usize)
                    },
                } by {
                    assert(match prev[y] {
                        Some(e) => {
                            &&& 0 <= e <= index
                            &&& e < index ==> edges@[e as int].targets@.contains(y as usize)
                            &&& e == index ==> edges@[e as int].targets@.take(position as int).contains(y as usize)
                            &&& forall|f: int| 0 <= f < e ==> !(#[trigger] edges@[f].targets@.contains(y as usize))
                        },
                        None => {
                            &&& forall|f: int| 0 <= f < index ==> !(#[trigger] edges@[f].targets@.contains(y as usize))
                            &&& !edges@[index as int].targets@.take(position as int).contains(y as usize)
                        },
                    });
                    if y == x as int {
                        assert(tk.take(position + 1)[position as int] == x);
                    }
                    if prev[y] matches Some(e) && e == index {
                        let w = choose|w: int| 0 <= w < position && tk.take(position as int)[w] == y as usize;
                        assert(tk.take(position + 1)[w] == y as usize);
                    }
                }
            }
            position = position + 1;
        }
        proof {
            let tk = edges@[index as int].targets@;
            assert(tk.take(tk.len() as int) =~= tk);
            assert(edges@[index + 1].targets@.take(0) =~= Seq::<usize>::empty());
            assert forall|y: int| 0 <= y < producer@.len() implies match #[trigger] producer@[y] {
                Some(e) => {
                    &&& 0 <= e <= index + 1
                    &&& e < index + 1 ==> edges@[e as int].targets@.contains(y as usize)
                    &&& e == index + 1 ==> edges@[e as int].targets@.take(0).contains(y as usize)
                    &&& forall|f: int| 0 <= f < e ==> !(#[trigger] edges@[f].targets@.contains(y as usize))
                },
                None => {
                    &&& forall|f: int| 0 <= f < index + 1 ==> !(#[trigger] edges@[f].targets@.contains(y as usize))
                    &&& !edges@[index + 1].targets@.take(0).contains(y as usize)
                },
            } by {
                assert(match producer@[y] {
                    Some(e) => {
                        &&& 0 <= e <= index
                        &&& e < index ==> edges@[e as int].targets@.contains(y as usize)
                        &&& e == index ==> edges@[e as int].targets@.take(tk.len() as int).contains(y as usize)
                        &&& forall|f: int| 0 <= f < e ==> !(#[trigger] edges@[f].targets@.contains(y as usize))
                    },
                    None => {
                        &&& forall|f: int| 0 <= f < index ==> !(#[trigger] edges@[f].targets@.contains(y as usize))
                        &&& !edges@[index as int].targets@.take(tk.len() as int).contains(y as usize)
                    },
                });
            }
        }
        index = index + 1;
    }
    let mut coordinate: usize = 0;
    while coordinate < output.len()
        invariant
            c.well_indexed(),
            output@ == c.spec_output(),
            n == c.spec_node_count(),
            out_coord@.len() == n,
            coordinate <= output@.len(),
            first_coords(out_coord@, output@, coordinate as int),
        decreases output@.len() - coordinate,
    {
        let x = output[coordinate];
        let ghost prev = out_coord@;
        if out_coord[x].is_none() {
            out_coord.set(x, Some(coordinate));
        }
        proof {
            assert forall|y: int| 0 <= y < out_coord@.len() implies match #[trigger] out_coord@[y] {
                Some(j) => 0 <= j < coordinate + 1 && output@[j as int] == y && forall|i: int| 0 <= i < j ==> output@[i] != y,
                None => forall|i: int| 0 <= i < coordinate + 1 ==> output@[i] != y,
            } by {
                assert(match prev[y] {
                    Some(j) => 0 <= j < coordinate && output@[j as int] == y && forall|i: int| 0 <= i < j ==> output@[i] != y,
                    None => forall|i: int| 0 <= i < coordinate ==> output@[i] != y,
                });
            }
        }
        coordinate = coordinate + 1;
    }
    let mut reach: Vec<usize> = filled(usize::MAX, n);
    let mut x: usize = 0;
    while x < n
        invariant
            reach@.len() == n,
            out_coord@.len() == n,
            x <= n,
            first_coords(out_coord@, c.spec_output(), c.spec_output().len() as int),
            forall|y: int| 0 <= y < n ==> #[trigger] reach@[y] == usize::MAX || reach@[y] < c.spec_output().len(),
            forall|y: int| 0 <= y < x ==> (#[trigger] out_coord@[y] matches Some(j) ==> reach@[y] == j),
        decreases n - x,
    {
        if let Some(coordinate) = out_coord[x] {
            reach.set(x, coordinate);
        }
        x = x + 1;
    }
    let mut left: usize = n;
    loop
        invariant
            reach@.len() == n,
            out_coord@.len() == n,
            consumer@.len() == n,
            c.well_indexed(),
            edges@ == c.spec_edges(),
            n == c.spec_node_count(),
            forall|x: int| 0 <= x < n ==> (#[trigger] consumer@[x] matches Some((e, p)) ==> e < edges@.len() && p < edges@[e as int].sources@.len()),
            reach_fits(reach@, out_coord@, c.spec_output().len()),
        decreases left,
    {
        let mut changed = false;
        let mut x: usize = 0;
        while x < n
            invariant
                reach@.len() == n,
                out_coord@.len() == n,
                consumer@.len() == n,
                c.well_indexed(),
                edges@ == c.spec_edges(),
                n == c.spec_node_count(),
                forall|x: int| 0 <= x < n ==> (#[trigger] consumer@[x] matches Some((e, p)) ==> e < edges@.len() && p < edges@[e as int].sources@.len()),
                reach_fits(reach@, out_coord@, c.spec_output().len()),
            decreases n - x,
        {
            if out_coord[x].is_none() {
                if let Some((k, _)) = consumer[x] {
                    proof {
                        assert(edges@[k as int] == edges@[k as int]);
                    }
                    let targets = &edges[k].targets;
                    let mut least: usize = usize::MAX;
                    let mut t: usize = 0;
                    while t < targets.len()
                        invariant
                            reach@.len() == n,
                            all_below(targets@, n as nat),
                            reach_fits(reach@, out_coord@, c.spec_output().len()),
                            least == usize::MAX || least < c.spec_output().len(),
                        decreases targets@.len() - t,
                    {
                        let y = targets[t];
                        if reach[y] < least {
                            least = reach[y];
                        }
                        t = t + 1;
                    }
                    if least < reach[x] {
                        reach.set(x, least);
                        changed = true;
                    }
                }
            }
            x = x + 1;
        }
        if !changed || left == 0 {
            break;
        }
        left = left - 1;
    }
    Incidence { producer, consumer, out_coord, reach }
}

/// The indices `e` with `tags[e] == id`, ascending.
fn tagged(tags: &Vec<usize>, id: usize) -> (r: Vec<usize>)
    ensures
        all_below(r@, tags@.len()),
        ascending(r@),
        forall|k: int| 0 <= k < r@.len() ==> tags@[#[trigger] r@[k] as int] == id,
        forall|e: int| 0 <= e < tags@.len() && tags@[e] == id ==> r@.contains(e as usize),
{
    let mut r: Vec<usize> = Vec::new();
    let mut e: usize = 0;
    while e < tags.len()
        invariant
            e <= tags@.len(),
            all_below(r@, e as nat),
            ascending(r@),
            forall|k: int| 0 <= k < r@.len() ==> tags@[#[trigger] r@[k] as int] == id,
            forall|j: int| 0 <= j < e && tags@[j] == id ==> r@.contains(j as usize),
        decreases tags@.len() - e,
    {
        if tags[e] == id {
            let ghost before = r@;
            r.push(e);
            proof {
                assert(r@[r@.len() - 1] == e);
                assert forall|j: int| 0 <= j < e + 1 && tags@[j] == id implies r@.contains(j as usize) by {
                    if j < e {
                        let k = choose|k: int| 0 <= k < before.len() && before[k] == j as usize;
                        assert(r@[k] == j);
                    }
                }
            }
        }
        e = e + 1;
    }
    r
}

/// The nodes an edge touches: its sources, then its targets.
fn tentacles<G: PropSignature>(edge: &ContentEdge<G>) -> (r: Vec<usize>)
    ensures
        r@ == edge.sources@ + edge.targets@,
{
    let mut r: Vec<usize> = Vec::new();
    let mut k: usize = 0;
    while k < edge.sources.len()
        invariant
            k <= edge.sources@.len(),
            r@ == edge.sources@.subrange(0, k as int),
        decreases edge.sources@.len() - k,
    {
        r.push(edge.sources[k]);
        k = k + 1;
        proof {
            assert(r@ =~= edge.sources@.subrange(0, k as int));
        }
    }
    let mut k: usize = 0;
    while k < edge.targets.len()
        invariant
            k <= edge.targets@.len(),
            r@ == edge.sources@ + edge.targets@.subrange(0, k as int),
        decreases edge.targets@.len() - k,
    {
        r.push(edge.targets[k]);
        k = k + 1;
        proof {
            assert(r@ =~= edge.sources@ + edge.targets@.subrange(0, k as int));
        }
    }
    proof {
        assert(edge.sources@.subrange(0, edge.sources@.len() as int) =~= edge.sources@);
        assert(edge.targets@.subrange(0, edge.targets@.len() as int) =~= edge.targets@);
    }
    r
}

/// Strictly increasing.
spec fn ascending(s: Seq<usize>) -> bool {
    forall|i: int, j: int| 0 <= i < j < s.len() ==> s[i] < s[j]
}

/// Split the edges into the part the anchors reach and the closed
/// components, each sorted ascending.
fn split<G: PropSignature>(c: &Content<G>, inc: &Incidence) -> (r: (Vec<usize>, Vec<Vec<usize>>))
    requires
        inc.fits(c.spec_node_count(), c.spec_edges().len()),
    ensures
        all_below(r.0@, c.spec_edges().len()),
        ascending(r.0@),
        forall|k: int| 0 <= k < r.1@.len() ==> all_below(#[trigger] r.1@[k]@, c.spec_edges().len()),
        forall|k: int| 0 <= k < r.1@.len() ==> ascending(#[trigger] r.1@[k]@),
{
    let n = c.node_count();
    let edges = c.edges();
    let m = edges.len();
    let mut seen_node: Vec<bool> = filled(false, n);
    let mut seen_edge: Vec<bool> = filled(false, m);
    let mut queue: Vec<usize> = Vec::new();
    let anchors_in = c.input();
    let anchors_out = c.output();
    let mut i: usize = 0;
    while i < anchors_in.len()
        invariant
            c.well_indexed(),
            anchors_in@ == c.spec_input(),
            n == c.spec_node_count(),
            seen_node@.len() == n,
            all_below(queue@, n as nat),
        decreases anchors_in@.len() - i,
    {
        let x = anchors_in[i];
        if !seen_node[x] {
            seen_node.set(x, true);
            queue.push(x);
        }
        i = i + 1;
    }
    let mut i: usize = 0;
    while i < anchors_out.len()
        invariant
            c.well_indexed(),
            anchors_out@ == c.spec_output(),
            n == c.spec_node_count(),
            seen_node@.len() == n,
            all_below(queue@, n as nat),
        decreases anchors_out@.len() - i,
    {
        let x = anchors_out[i];
        if !seen_node[x] {
            seen_node.set(x, true);
            queue.push(x);
        }
        i = i + 1;
    }
    let mut head: usize = 0;
    let mut fuel: usize = n;
    while head < queue.len() && fuel > 0
        invariant
            c.well_indexed(),
            edges@ == c.spec_edges(),
            n == c.spec_node_count(),
            m == edges@.len(),
            inc.fits(n as nat, m as nat),
            seen_node@.len() == n,
            seen_edge@.len() == m,
            all_below(queue@, n as nat),
        decreases fuel,
    {
        fuel = fuel - 1;
        let x = queue[head];
        head = head + 1;
        let inc_x = inc.incident(x);
        let mut side: usize = 0;
        while side < 2
            invariant
                c.well_indexed(),
                edges@ == c.spec_edges(),
                n == c.spec_node_count(),
                m == edges@.len(),
                inc.fits(n as nat, m as nat),
                seen_node@.len() == n,
                seen_edge@.len() == m,
                all_below(queue@, n as nat),
                x < n,
                inc_x@[0] == (match inc.consumer@[x as int] {
                    Some((e, _)) => Some(e),
                    None => None,
                }),
                inc_x@[1] == inc.producer@[x as int],
            decreases 2 - side,
        {
            match inc_x[side] {
                Some(e) => {
                    proof {
                        if side == 0 {
                            assert(inc.consumer@[x as int] == inc.consumer@[x as int]);
                        } else {
                            assert(inc.producer@[x as int] == inc.producer@[x as int]);
                        }
                    }
                    if !seen_edge[e] {
                        seen_edge.set(e, true);
                        proof {
                            assert(edges@[e as int] == edges@[e as int]);
                        }
                        let edge = &edges[e];
                        let mut k: usize = 0;
                        while k < edge.sources.len()
                            invariant
                                c.well_indexed(),
                                edges@ == c.spec_edges(),
                                n == c.spec_node_count(),
                                e < edges@.len(),
                                *edge == edges@[e as int],
                                seen_node@.len() == n,
                                all_below(queue@, n as nat),
                            decreases edge.sources@.len() - k,
                        {
                            proof {
                                assert(edges@[e as int] == edges@[e as int]);
                            }
                            let y = edge.sources[k];
                            if !seen_node[y] {
                                seen_node.set(y, true);
                                queue.push(y);
                            }
                            k = k + 1;
                        }
                        let mut k: usize = 0;
                        while k < edge.targets.len()
                            invariant
                                c.well_indexed(),
                                edges@ == c.spec_edges(),
                                n == c.spec_node_count(),
                                e < edges@.len(),
                                *edge == edges@[e as int],
                                seen_node@.len() == n,
                                all_below(queue@, n as nat),
                            decreases edge.targets@.len() - k,
                        {
                            proof {
                                assert(edges@[e as int] == edges@[e as int]);
                            }
                            let y = edge.targets[k];
                            if !seen_node[y] {
                                seen_node.set(y, true);
                                queue.push(y);
                            }
                            k = k + 1;
                        }
                    }
                },
                None => {},
            }
            side = side + 1;
        }
    }
    let mut anchored: Vec<usize> = Vec::new();
    let mut e: usize = 0;
    while e < m
        invariant
            e <= m,
            seen_edge@.len() == m,
            all_below(anchored@, e as nat),
            ascending(anchored@),
        decreases m - e,
    {
        if seen_edge[e] {
            anchored.push(e);
        }
        e = e + 1;
    }
    let mut component: Vec<usize> = filled(usize::MAX, m);
    let mut components: Vec<Vec<usize>> = Vec::new();
    let mut start: usize = 0;
    while start < m
        invariant
            c.well_indexed(),
            edges@ == c.spec_edges(),
            n == c.spec_node_count(),
            m == edges@.len(),
            inc.fits(n as nat, m as nat),
            seen_edge@.len() == m,
            component@.len() == m,
            forall|k: int| 0 <= k < components@.len() ==> all_below(#[trigger] components@[k]@, m as nat),
            forall|k: int| 0 <= k < components@.len() ==> ascending(#[trigger] components@[k]@),
        decreases m - start,
    {
        if seen_edge[start] || component[start] != usize::MAX {
            start = start + 1;
            continue;
        }
        let id = components.len();
        component.set(start, id);
        let mut stack: Vec<usize> = Vec::new();
        stack.push(start);
        let mut fuel: usize = m;
        while stack.len() > 0 && fuel > 0
            invariant
                c.well_indexed(),
                edges@ == c.spec_edges(),
                n == c.spec_node_count(),
                m == edges@.len(),
                inc.fits(n as nat, m as nat),
                seen_edge@.len() == m,
                component@.len() == m,
                all_below(stack@, m as nat),
            decreases fuel,
        {
            fuel = fuel - 1;
            let e = match stack.pop() {
                Some(e) => e,
                None => {
                    break;
                },
            };
            proof {
                assert(edges@[e as int] == edges@[e as int]);
            }
            let edge = &edges[e];
            let ends = tentacles(edge);
            let mut k: usize = 0;
            while k < ends.len()
                invariant
                    n == c.spec_node_count(),
                    m == edges@.len(),
                    all_below(ends@, n as nat),
                    inc.fits(n as nat, m as nat),
                    seen_edge@.len() == m,
                    component@.len() == m,
                    all_below(stack@, m as nat),
                decreases ends@.len() - k,
            {
                let x = ends[k];
                let inc_x = inc.incident(x);
                let mut side: usize = 0;
                while side < 2
                    invariant
                        inc.fits(n as nat, m as nat),
                        seen_edge@.len() == m,
                        component@.len() == m,
                        all_below(stack@, m as nat),
                        x < n,
                        inc_x@[0] == (match inc.consumer@[x as int] {
                            Some((e, _)) => Some(e),
                            None => None,
                        }),
                        inc_x@[1] == inc.producer@[x as int],
                    decreases 2 - side,
                {
                    match inc_x[side] {
                        Some(f) => {
                            proof {
                                assert(inc.consumer@[x as int] == inc.consumer@[x as int]);
                                assert(inc.producer@[x as int] == inc.producer@[x as int]);
                            }
                            if !seen_edge[f] && component[f] == usize::MAX {
                                component.set(f, id);
                                stack.push(f);
                            }
                        },
                        None => {},
                    }
                    side = side + 1;
                }
                k = k + 1;
            }
        }
        let members = tagged(&component, id);
        components.push(members);
        start = start + 1;
    }
    (anchored, components)
}


// ---------------------------------------------------------------- widths

/// `e` composes throughout and runs from `a` wires to `b` wires.
spec fn spans<G: PropSignature>(e: PropExpr<G>, a: nat, b: nat) -> bool {
    &&& spec_composes(e)
    &&& e.spec_source() == a
    &&& e.spec_target() == b
}

/// What has been composed so far runs from `a` wires to `b` wires; with
/// nothing composed yet, `a == b`.
spec fn so_far<G: PropSignature>(acc: Option<PropExpr<G>>, a: nat, b: nat) -> bool {
    match acc {
        Some(e) => spans(e, a, b),
        None => a == b,
    }
}

/// The sum of `s`.
spec fn total(s: Seq<nat>) -> nat
    decreases s.len(),
{
    if s.len() == 0 {
        0
    } else {
        total(s.drop_last()) + s.last()
    }
}

proof fn lemma_total_concat(a: Seq<nat>, b: Seq<nat>)
    ensures
        total(a + b) == total(a) + total(b),
    decreases b.len(),
{
    if b.len() == 0 {
        assert(a + b =~= a);
    } else {
        assert((a + b).drop_last() =~= a + b.drop_last());
        lemma_total_concat(a, b.drop_last());
    }
}

proof fn lemma_total_push(a: Seq<nat>, x: nat)
    ensures
        total(a.push(x)) == total(a) + x,
{
    assert(a.push(x).drop_last() =~= a);
}

proof fn lemma_all_below_concat(a: Seq<usize>, b: Seq<usize>, n: nat)
    requires
        all_below(a, n),
        all_below(b, n),
    ensures
        all_below(a + b, n),
{
    assert forall|i: int| 0 <= i < (a + b).len() implies (a + b)[i] < n by {
        if i >= a.len() {
            assert((a + b)[i] == b[i - a.len()]);
        }
    }
}

/// Right-associated tensor of `parts`, with tensor units dropped.
fn tensor_all<G: PropSignature>(
    parts: Vec<PropExpr<G>>,
    Ghost(srcs): Ghost<Seq<nat>>,
    Ghost(tgts): Ghost<Seq<nat>>,
) -> (r: PropExpr<G>)
    requires
        srcs.len() == parts@.len(),
        tgts.len() == parts@.len(),
        forall|i: int|
            0 <= i < parts@.len() ==> spans(#[trigger] parts@[i], srcs[i], tgts[i]),
        total(srcs) <= usize::MAX,
    ensures
        spec_composes(r),
        r.spec_source() == total(srcs),
        total(tgts) <= usize::MAX ==> r.spec_target() == total(tgts),
{
    let ghost all = parts@;
    let ghost len = parts@.len() as int;
    let mut parts = parts;
    let mut acc: Option<PropExpr<G>> = None;
    while parts.len() > 0
        invariant
            parts@.len() <= len,
            parts@ == all.subrange(0, parts@.len() as int),
            len == all.len(),
            srcs.len() == len,
            tgts.len() == len,
            forall|i: int| 0 <= i < len ==> spans(#[trigger] all[i], srcs[i], tgts[i]),
            total(srcs) <= usize::MAX,
            match acc {
                Some(e) => {
                    &&& spec_composes(e)
                    &&& e.spec_source() == total(srcs.subrange(parts@.len() as int, len))
                    &&& total(tgts) <= usize::MAX ==> e.spec_target() == total(
                        tgts.subrange(parts@.len() as int, len),
                    )
                },
                None => {
                    &&& total(srcs.subrange(parts@.len() as int, len)) == 0
                    &&& total(tgts.subrange(parts@.len() as int, len)) == 0
                },
            },
        decreases parts@.len(),
    {
        let part = parts.pop().unwrap();
        let k = parts.len();
        proof {
            assert(part == all[k as int]);
            let ss = srcs.subrange(k as int, len);
            let ts = tgts.subrange(k as int, len);
            assert(ss =~= seq![srcs[k as int]] + srcs.subrange(k + 1, len));
            assert(ts =~= seq![tgts[k as int]] + tgts.subrange(k + 1, len));
            assert(seq![srcs[k as int]].drop_last() =~= Seq::<nat>::empty());
            assert(seq![tgts[k as int]].drop_last() =~= Seq::<nat>::empty());
            reveal_with_fuel(total, 2);
            lemma_total_concat(seq![srcs[k as int]], srcs.subrange(k + 1, len));
            lemma_total_concat(seq![tgts[k as int]], tgts.subrange(k + 1, len));
            assert(srcs =~= srcs.subrange(0, k as int) + ss);
            assert(tgts =~= tgts.subrange(0, k as int) + ts);
            lemma_total_concat(srcs.subrange(0, k as int), ss);
            lemma_total_concat(tgts.subrange(0, k as int), ts);
            assert(parts@ =~= all.subrange(0, k as int));
            assert(spans(part, srcs[k as int], tgts[k as int]));
            assert(total(ss) == srcs[k as int] + total(srcs.subrange(k + 1, len)));
            assert(total(ts) == tgts[k as int] + total(tgts.subrange(k + 1, len)));
            assert(total(ss) <= total(srcs));
            assert(total(ts) <= total(tgts));
        }
        let unit = match &part {
            PropExpr::Identity(w) => *w == 0,
            _ => false,
        };
        if !unit {
            acc = Some(
                match acc {
                    None => part,
                    Some(a) => PropExpr::Tensor(Box::new(part), Box::new(a)),
                },
            );
        }
    }
    proof {
        assert(srcs.subrange(0, len) =~= srcs);
        assert(tgts.subrange(0, len) =~= tgts);
    }
    match acc {
        Some(e) => e,
        None => PropExpr::Identity(0),
    }
}

/// Compose `layer` after what `acc` holds.
fn compose_onto<G: PropSignature>(
    acc: Option<PropExpr<G>>,
    layer: PropExpr<G>,
    Ghost(a): Ghost<nat>,
    Ghost(b): Ghost<nat>,
    Ghost(c): Ghost<nat>,
) -> (r: Option<PropExpr<G>>)
    requires
        so_far(acc, a, b),
        spans(layer, b, c),
    ensures
        so_far(r, a, c),
{
    match acc {
        None => Some(layer),
        Some(e) => Some(PropExpr::Compose(Box::new(e), Box::new(layer))),
    }
}

/// One adjacent transposition at `at`, padded to `width`.
fn swap_layer<G: PropSignature>(at: usize, width: usize) -> (r: PropExpr<G>)
    requires
        at + 2 <= width,
    ensures
        spans(r, width as nat, width as nat),
{
    let mut atoms: Vec<PropExpr<G>> = Vec::new();
    atoms.push(PropExpr::Identity(at));
    atoms.push(PropExpr::Braid(1, 1));
    atoms.push(PropExpr::Identity(width - (at + 2)));
    let ghost s: Seq<nat> = seq![at as nat, 2nat, (width - (at + 2)) as nat];
    proof {
        assert(s.drop_last() =~= seq![at as nat, 2nat]);
        assert(seq![at as nat, 2nat].drop_last() =~= seq![at as nat]);
        assert(seq![at as nat].drop_last() =~= Seq::<nat>::empty());
        reveal_with_fuel(total, 4);
        assert(total(s) == width);
        assert(atoms@[1] == PropExpr::<G>::Braid(1, 1));
        assert(spans(atoms@[1], 2, 2));
    }
    tensor_all(atoms, Ghost(s), Ghost(s))
}

// ---------------------------------------------------------------- words

/// Where in `word` the node first sits, if it is there at all.
fn position(word: &Vec<usize>, node: usize) -> (r: Option<usize>)
    ensures
        match r {
            Some(p) => p < word@.len() && word@[p as int] == node && forall|q: int|
                0 <= q < p ==> word@[q] != node,
            None => !word@.contains(node),
        },
{
    let mut p: usize = 0;
    while p < word.len()
        invariant
            p <= word@.len(),
            forall|q: int| 0 <= q < p ==> word@[q] != node,
        decreases word@.len() - p,
    {
        if word[p] == node {
            return Some(p);
        }
        p = p + 1;
    }
    None
}

/// Whether `node` occurs in `nodes`.
fn holds(nodes: &Vec<usize>, node: usize) -> (r: bool)
    ensures
        r == nodes@.contains(node),
{
    match position(nodes, node) {
        Some(p) => {
            proof {
                assert(nodes@[p as int] == node);
            }
            true
        },
        None => false,
    }
}

/// `nodes` sits on `word` as a contiguous run, in order, starting at `s`,
/// the first occurrence of its head.
spec fn placed_at(word: Seq<usize>, nodes: Seq<usize>, s: int) -> bool {
    &&& nodes.len() > 0
    &&& 0 <= s
    &&& s + nodes.len() <= word.len()
    &&& forall|i: int| 0 <= i < nodes.len() ==> word[s + i] == nodes[i]
    &&& forall|q: int| 0 <= q < s ==> word[q] != nodes[0]
}

/// The start of `nodes` as a contiguous run of `word`, in that order, read
/// at the first occurrence of its head.
fn contiguous_at(word: &Vec<usize>, nodes: &Vec<usize>) -> (r: Option<usize>)
    ensures
        r matches Some(s) ==> placed_at(word@, nodes@, s as int),
        r is None ==> forall|s: int| !#[trigger] placed_at(word@, nodes@, s),
{
    if nodes.len() == 0 {
        return None;
    }
    let start = match position(word, nodes[0]) {
        Some(p) => p,
        None => {
            proof {
                assert forall|s: int| !#[trigger] placed_at(word@, nodes@, s) by {
                    if placed_at(word@, nodes@, s) {
                        assert(word@[s + 0] == nodes@[0]);
                    }
                }
            }
            return None;
        },
    };
    proof {
        assert forall|s: int| #[trigger] placed_at(word@, nodes@, s) implies s == start by {
            assert(word@[s + 0] == nodes@[0]);
            if s < start {
            } else if s > start {
                assert(word@[start as int] == nodes@[0]);
            }
        }
    }
    let end = match start.checked_add(nodes.len()) {
        Some(e) => e,
        None => {
            proof {
                assert(word@.len() == word.len());
            }
            return None;
        },
    };
    if end > word.len() {
        return None;
    }
    let mut i: usize = 0;
    while i < nodes.len()
        invariant
            end == start + nodes@.len(),
            start + nodes@.len() <= word@.len(),
            i <= nodes@.len(),
            forall|k: int| 0 <= k < i ==> word@[start + k] == nodes@[k],
            forall|s: int| #[trigger] placed_at(word@, nodes@, s) ==> s == start,
        decreases nodes@.len() - i,
    {
        if word[start + i] != nodes[i] {
            return None;
        }
        i = i + 1;
    }
    Some(start)
}

/// Whether every node of `nodes` is on `word`.
fn all_present(word: &Vec<usize>, nodes: &Vec<usize>) -> (r: bool)
    ensures
        r == forall|i: int| 0 <= i < nodes@.len() ==> word@.contains(#[trigger] nodes@[i]),
{
    let mut i: usize = 0;
    while i < nodes.len()
        invariant
            i <= nodes@.len(),
            forall|k: int| 0 <= k < i ==> word@.contains(#[trigger] nodes@[k]),
        decreases nodes@.len() - i,
    {
        if !holds(word, nodes[i]) {
            return false;
        }
        i = i + 1;
    }
    true
}

/// Append `src[lo..hi]` to `next`.
fn push_range(next: &mut Vec<usize>, src: &Vec<usize>, lo: usize, hi: usize)
    requires
        lo <= hi <= src@.len(),
    ensures
        final(next)@ == old(next)@ + src@.subrange(lo as int, hi as int),
{
    let mut k: usize = lo;
    while k < hi
        invariant
            lo <= k <= hi,
            hi <= src@.len(),
            next@ == old(next)@ + src@.subrange(lo as int, k as int),
        decreases hi - k,
    {
        next.push(src[k]);
        k = k + 1;
        proof {
            assert(next@ =~= old(next)@ + src@.subrange(lo as int, k as int));
        }
    }
}

/// Bubble `word` into `target` by adjacent transpositions, composing one
/// swap layer onto `acc` per transposition. Coordinate 0 is settled first,
/// then 1, and so on; words of different lengths are left alone.
fn bubble_to<G: PropSignature>(
    word: &mut Vec<usize>,
    target: &Vec<usize>,
    acc: Option<PropExpr<G>>,
    Ghost(a): Ghost<nat>,
    Ghost(n): Ghost<nat>,
) -> (r: Option<PropExpr<G>>)
    requires
        so_far(acc, a, old(word)@.len() as nat),
        all_below(old(word)@, n),
    ensures
        final(word)@.len() == old(word)@.len(),
        so_far(r, a, final(word)@.len() as nat),
        all_below(final(word)@, n),
{
    let mut acc = acc;
    if word.len() != target.len() {
        return acc;
    }
    let width = word.len();
    let mut i: usize = 0;
    while i < width
        invariant
            word@.len() == width,
            target@.len() == width,
            so_far(acc, a, width as nat),
            all_below(word@, n),
        decreases width - i,
    {
        let wanted = target[i];
        let mut j: usize = i;
        while j < width && word[j] != wanted
            invariant
                i <= j <= width,
                word@.len() == width,
            decreases width - j,
        {
            j = j + 1;
        }
        if j < width {
            while j > i
                invariant
                    i <= j < width,
                    word@.len() == width,
                    so_far(acc, a, width as nat),
                    all_below(word@, n),
                decreases j,
            {
                let x = word[j - 1];
                let y = word[j];
                word.set(j - 1, y);
                word.set(j, x);
                let layer = swap_layer(j - 1, width);
                acc = compose_onto(acc, layer, Ghost(a), Ghost(width as nat), Ghost(width as nat));
                j = j - 1;
            }
        }
        i = i + 1;
    }
    acc
}

/// The word `word` becomes once `nodes` are gathered into one contiguous
/// run, in tentacle order, at the position of their leftmost member; `None`
/// if some member is not on the word.
fn gather_target(word: &Vec<usize>, nodes: &Vec<usize>, Ghost(n): Ghost<nat>) -> (r: Option<Vec<usize>>)
    requires
        all_below(word@, n),
        all_below(nodes@, n),
    ensures
        r matches Some(t) ==> all_below(t@, n),
        r is Some <==> forall|i: int| 0 <= i < nodes@.len() ==> word@.contains(#[trigger] nodes@[i]),
{
    let mut leftmost: usize = usize::MAX;
    let mut i: usize = 0;
    while i < nodes.len()
        invariant
            i <= nodes@.len(),
            forall|k: int| 0 <= k < i ==> word@.contains(#[trigger] nodes@[k]),
        decreases nodes@.len() - i,
    {
        match position(word, nodes[i]) {
            Some(p) => {
                proof {
                    assert(word@[p as int] == nodes@[i as int]);
                }
                if p < leftmost {
                    leftmost = p;
                }
            },
            None => {
                return None;
            },
        }
        i = i + 1;
    }
    let mut rest: Vec<usize> = Vec::new();
    let mut before: usize = 0;
    let mut k: usize = 0;
    while k < word.len()
        invariant
            k <= word@.len(),
            before <= rest@.len(),
            rest@.len() <= k,
            all_below(word@, n),
            all_below(rest@, n),
        decreases word@.len() - k,
    {
        let x = word[k];
        if !holds(nodes, x) {
            rest.push(x);
            if k < leftmost {
                before = before + 1;
            }
        }
        k = k + 1;
    }
    let mut target: Vec<usize> = Vec::new();
    push_range(&mut target, &rest, 0, before);
    let len_nodes = nodes.len();
    push_range(&mut target, nodes, 0, len_nodes);
    let len_rest = rest.len();
    push_range(&mut target, &rest, before, len_rest);
    proof {
        lemma_all_below_concat(rest@.subrange(0, before as int), nodes@.subrange(0, len_nodes as int), n);
        lemma_all_below_concat(
            rest@.subrange(0, before as int) + nodes@.subrange(0, len_nodes as int),
            rest@.subrange(before as int, len_rest as int),
            n,
        );
        assert(target@ =~= rest@.subrange(0, before as int) + nodes@.subrange(0, len_nodes as int)
            + rest@.subrange(before as int, len_rest as int));
    }
    Some(target)
}

// ---------------------------------------------------------------- placement

/// A sort key of the sweep: coordinate, two tie-breakers, edge.
type Key = (usize, usize, usize, usize);

/// The lexicographic order on sort keys.
spec fn key_le(a: Key, b: Key) -> bool {
    ||| a.0 < b.0
    ||| a.0 == b.0 && a.1 < b.1
    ||| a.0 == b.0 && a.1 == b.1 && a.2 < b.2
    ||| a.0 == b.0 && a.1 == b.1 && a.2 == b.2 && a.3 <= b.3
}

/// Whether `a` sorts no later than `b`.
fn key_before(a: Key, b: Key) -> (r: bool)
    ensures
        r == key_le(a, b),
{
    if a.0 != b.0 {
        a.0 < b.0
    } else if a.1 != b.1 {
        a.1 < b.1
    } else if a.2 != b.2 {
        a.2 < b.2
    } else {
        a.3 <= b.3
    }
}

/// The keys of `v` in lexicographic order (insertion sort).
fn sort_keys(v: Vec<Key>) -> (r: Vec<Key>)
    ensures
        r@.len() == v@.len(),
        forall|i: int| 0 <= i < r@.len() ==> v@.contains(#[trigger] r@[i]),
        forall|i: int, j: int| 0 <= i < j < r@.len() ==> key_le(r@[i], r@[j]),
{
    let mut r: Vec<Key> = Vec::new();
    let mut k: usize = 0;
    while k < v.len()
        invariant
            k <= v@.len(),
            r@.len() == k,
            forall|i: int| 0 <= i < r@.len() ==> v@.contains(#[trigger] r@[i]),
            forall|i: int, j: int| 0 <= i < j < r@.len() ==> key_le(r@[i], r@[j]),
        decreases v@.len() - k,
    {
        let p = v[k];
        let mut pos: usize = 0;
        while pos < r.len() && key_before(r[pos], p)
            invariant
                pos <= r@.len(),
                forall|i: int| 0 <= i < pos ==> key_le(r@[i], p),
            decreases r@.len() - pos,
        {
            pos = pos + 1;
        }
        let ghost before = r@;
        r.insert(pos, p);
        proof {
            assert(v@[k as int] == p);
            assert forall|i: int| 0 <= i < r@.len() implies v@.contains(#[trigger] r@[i]) by {
                if i < pos {
                    assert(r@[i] == before[i]);
                } else if i > pos {
                    assert(r@[i] == before[i - 1]);
                }
            }
            assert forall|i: int, j: int| 0 <= i < j < r@.len() implies key_le(r@[i], r@[j]) by {
                if j < pos {
                    assert(r@[i] == before[i] && r@[j] == before[j]);
                } else if j == pos {
                    assert(r@[i] == before[i]);
                } else if i == pos {
                    assert(r@[j] == before[j - 1]);
                    if pos < before.len() {
                        assert(!key_le(before[pos as int], p));
                        if j - 1 > pos {
                            assert(key_le(before[pos as int], before[j - 1]));
                        }
                    }
                } else if i < pos {
                    assert(r@[i] == before[i] && r@[j] == before[j - 1]);
                } else {
                    assert(r@[i] == before[i - 1] && r@[j] == before[j - 1]);
                }
            }
        }
        k = k + 1;
    }
    r
}

/// One layer placing each `(at, _, _, e)` of `ready` on the span of `word`
/// starting at `at`, with identities filling the gaps; an entry overlapping
/// one already placed is skipped. The word becomes the layer's output.
fn place_generators<G: PropSignature>(
    c: &Content<G>,
    word: &mut Vec<usize>,
    ready: &Vec<Key>,
    Ghost(n): Ghost<nat>,
) -> (r: PropExpr<G>)
    requires
        c.well_indexed(),
        n == c.spec_node_count(),
        all_below(old(word)@, n),
        forall|i: int|
            0 <= i < ready@.len() ==> (#[trigger] ready@[i]).3 < c.spec_edges().len() && ready@[i].0
                + c.spec_edges()[ready@[i].3 as int].sources@.len() <= old(word)@.len(),
    ensures
        spans(r, old(word)@.len() as nat, final(word)@.len() as nat),
        all_below(final(word)@, n),
{
    let edges = c.edges();
    let mut atoms: Vec<PropExpr<G>> = Vec::new();
    let mut next: Vec<usize> = Vec::new();
    let ghost mut srcs: Seq<nat> = Seq::empty();
    let ghost mut tgts: Seq<nat> = Seq::empty();
    let mut cursor: usize = 0;
    let width = word.len();
    let mut i: usize = 0;
    while i < ready.len()
        invariant
            width == word@.len(),
            c.well_indexed(),
            edges@ == c.spec_edges(),
            n == c.spec_node_count(),
            all_below(word@, n),
            all_below(next@, n),
            forall|i: int|
                0 <= i < ready@.len() ==> (#[trigger] ready@[i]).3 < edges@.len() && ready@[i].0
                    + edges@[ready@[i].3 as int].sources@.len() <= word@.len(),
            cursor <= word@.len(),
            srcs.len() == atoms@.len(),
            tgts.len() == atoms@.len(),
            forall|k: int| 0 <= k < atoms@.len() ==> spans(#[trigger] atoms@[k], srcs[k], tgts[k]),
            total(srcs) == cursor,
            total(tgts) == next@.len(),
        decreases ready@.len() - i,
    {
        let (at, _, _, e) = ready[i];
        proof {
            assert(ready@[i as int] == ready@[i as int]);
        }
        if at >= cursor {
            if at > cursor {
                let ghost before = next@;
                atoms.push(PropExpr::Identity(at - cursor));
                push_range(&mut next, word, cursor, at);
                proof {
                    lemma_total_push(srcs, (at - cursor) as nat);
                    lemma_total_push(tgts, (at - cursor) as nat);
                    srcs = srcs.push((at - cursor) as nat);
                    tgts = tgts.push((at - cursor) as nat);
                    assert(all_below(word@.subrange(cursor as int, at as int), n));
                    lemma_all_below_concat(before, word@.subrange(cursor as int, at as int), n);
                }
            }
            proof {
                assert(edges@[e as int] == edges@[e as int]);
            }
            let edge = &edges[e];
            let ns = edge.sources.len();
            let nt = edge.targets.len();
            let ghost before = next@;
            atoms.push(PropExpr::Generator(edge.label));
            push_range(&mut next, &edge.targets, 0, nt);
            proof {
                assert(edge.targets@.subrange(0, nt as int) =~= edge.targets@);
                lemma_all_below_concat(before, edge.targets@, n);
                lemma_total_push(srcs, ns as nat);
                lemma_total_push(tgts, nt as nat);
                srcs = srcs.push(ns as nat);
                tgts = tgts.push(nt as nat);
                assert(spans(PropExpr::Generator(edge.label), ns as nat, nt as nat));
            }
            cursor = at + ns;
        }
        i = i + 1;
    }
    if cursor < width {
        let ghost before = next@;
        atoms.push(PropExpr::Identity(width - cursor));
        push_range(&mut next, word, cursor, width);
        proof {
            lemma_total_push(srcs, (width - cursor) as nat);
            lemma_total_push(tgts, (width - cursor) as nat);
            srcs = srcs.push((width - cursor) as nat);
            tgts = tgts.push((width - cursor) as nat);
            assert(all_below(word@.subrange(cursor as int, width as int), n));
            lemma_all_below_concat(before, word@.subrange(cursor as int, width as int), n);
        }
    }
    proof {
        assert(next@.len() == next.len());
    }
    let layer = tensor_all(atoms, Ghost(srcs), Ghost(tgts));
    *word = next;
    layer
}

/// One layer placing the source-free edges of `inserts`, each
/// `(at, _, _, e)` at coordinate `at` (clamped to the word), with identities
/// filling the gaps. `inserts` comes sorted by coordinate. The word becomes
/// the layer's output.
fn place_sources<G: PropSignature>(
    c: &Content<G>,
    word: &mut Vec<usize>,
    inserts: &Vec<Key>,
    Ghost(n): Ghost<nat>,
) -> (r: PropExpr<G>)
    requires
        c.well_indexed(),
        n == c.spec_node_count(),
        all_below(old(word)@, n),
        forall|i: int|
            0 <= i < inserts@.len() ==> (#[trigger] inserts@[i]).3 < c.spec_edges().len()
                && c.spec_edges()[inserts@[i].3 as int].sources@.len() == 0,
    ensures
        spans(r, old(word)@.len() as nat, final(word)@.len() as nat),
        all_below(final(word)@, n),
{
    let edges = c.edges();
    let width = word.len();
    let mut atoms: Vec<PropExpr<G>> = Vec::new();
    let mut next: Vec<usize> = Vec::new();
    let ghost mut srcs: Seq<nat> = Seq::empty();
    let ghost mut tgts: Seq<nat> = Seq::empty();
    let mut cursor: usize = 0;
    let mut i: usize = 0;
    while i < inserts.len()
        invariant
            c.well_indexed(),
            edges@ == c.spec_edges(),
            n == c.spec_node_count(),
            width == word@.len(),
            all_below(word@, n),
            all_below(next@, n),
            forall|i: int|
                0 <= i < inserts@.len() ==> (#[trigger] inserts@[i]).3 < edges@.len()
                    && edges@[inserts@[i].3 as int].sources@.len() == 0,
            cursor <= width,
            srcs.len() == atoms@.len(),
            tgts.len() == atoms@.len(),
            forall|k: int| 0 <= k < atoms@.len() ==> spans(#[trigger] atoms@[k], srcs[k], tgts[k]),
            total(srcs) == cursor,
            total(tgts) == next@.len(),
        decreases inserts@.len() - i,
    {
        let (at, _, _, e) = inserts[i];
        proof {
            assert(inserts@[i as int] == inserts@[i as int]);
        }
        let at = if at < width { at } else { width };
        if at > cursor {
            let ghost before = next@;
            atoms.push(PropExpr::Identity(at - cursor));
            push_range(&mut next, word, cursor, at);
            proof {
                lemma_total_push(srcs, (at - cursor) as nat);
                lemma_total_push(tgts, (at - cursor) as nat);
                srcs = srcs.push((at - cursor) as nat);
                tgts = tgts.push((at - cursor) as nat);
                assert(all_below(word@.subrange(cursor as int, at as int), n));
                lemma_all_below_concat(before, word@.subrange(cursor as int, at as int), n);
            }
            cursor = at;
        }
        proof {
            assert(edges@[e as int] == edges@[e as int]);
        }
        let edge = &edges[e];
        let nt = edge.targets.len();
        let ghost before = next@;
        atoms.push(PropExpr::Generator(edge.label));
        push_range(&mut next, &edge.targets, 0, nt);
        proof {
            assert(edge.targets@.subrange(0, nt as int) =~= edge.targets@);
            lemma_all_below_concat(before, edge.targets@, n);
            lemma_total_push(srcs, 0);
            lemma_total_push(tgts, nt as nat);
            srcs = srcs.push(0);
            tgts = tgts.push(nt as nat);
            assert(spans(PropExpr::Generator(edge.label), 0, nt as nat));
        }
        i = i + 1;
    }
    if cursor < width {
        let ghost before = next@;
        atoms.push(PropExpr::Identity(width - cursor));
        push_range(&mut next, word, cursor, width);
        proof {
            lemma_total_push(srcs, (width - cursor) as nat);
            lemma_total_push(tgts, (width - cursor) as nat);
            srcs = srcs.push((width - cursor) as nat);
            tgts = tgts.push((width - cursor) as nat);
            assert(all_below(word@.subrange(cursor as int, width as int), n));
            lemma_all_below_concat(before, word@.subrange(cursor as int, width as int), n);
        }
    }
    proof {
        assert(next@.len() == next.len());
    }
    let layer = tensor_all(atoms, Ghost(srcs), Ghost(tgts));
    *word = next;
    layer
}

/// The coordinate a source-free edge takes when nothing in the content pins
/// one: the far side of the wire word.
fn free_slot(width: usize) -> (r: usize)
    ensures
        r == width,
{
    width
}

/// Node `z`'s consumer is unplaced and already has another source wire on
/// the word, which pins where `z` goes.
spec fn pinned<G: PropSignature>(
    edges: Seq<ContentEdge<G>>,
    inc: &Incidence,
    word: Seq<usize>,
    placed: Seq<bool>,
    z: usize,
) -> bool {
    inc.consumer@[z as int] matches Some((k, t)) && !placed[k as int] && exists|j: int|
        0 <= j < edges[k as int].sources@.len() && j != t && word.contains(
            #[trigger] edges[k as int].sources@[j],
        )
}

/// Where a source-free edge's first output wire goes, with the tie key that
/// orders edges landing on the same coordinate.
///
/// First the consumer's tentacle order: if the (unplaced) consumer already
/// has another source wire on the word, the new wire lands beside the
/// nearest such wire. Then the outputs reached downstream: the wire goes
/// before the first live wire reaching an output coordinate at or after its
/// own. Otherwise the slot is free and this returns `None`. The tie key is
/// the least reachable output coordinate, then the consuming tentacle.
fn demand<G: PropSignature>(
    c: &Content<G>,
    inc: &Incidence,
    word: &Vec<usize>,
    placed: &Vec<bool>,
    edge: usize,
) -> (r: Option<(usize, (usize, usize))>)
    requires
        c.well_indexed(),
        inc.fits(c.spec_node_count(), c.spec_edges().len()),
        consumers_fit(inc, c.spec_edges()),
        placed@.len() == c.spec_edges().len(),
        edge < c.spec_edges().len(),
        all_below(word@, c.spec_node_count()),
    ensures
        r matches Some((at, _)) ==> at <= word@.len(),
        c.spec_edges()[edge as int].targets@.len() == 0 ==> r is None,
        r matches Some((_, (t0, _))) ==> t0 == inc.reach@[c.spec_edges()[edge as int].targets@[0] as int],
        r is None && c.spec_edges()[edge as int].targets@.len() > 0 ==> ({
            let z = c.spec_edges()[edge as int].targets@[0];
            &&& inc.reach@[z as int] == usize::MAX
            &&& !pinned(c.spec_edges(), inc, word@, placed@, z)
        }),
{
    let edges = c.edges();
    proof {
        assert(edges@[edge as int] == edges@[edge as int]);
    }
    let width = word.len();
    let targets = &edges[edge].targets;
    if targets.len() == 0 {
        return None;
    }
    let z = targets[0];
    let tie0 = inc.reach[z];
    let mut tie1: usize = usize::MAX;
    match inc.consumer[z] {
        Some((k, tentacle)) => {
            proof {
                assert(inc.consumer@[z as int] == inc.consumer@[z as int]);
                assert(edges@[k as int] == edges@[k as int]);
            }
            if !placed[k] {
                tie1 = tentacle;
                let sources = &edges[k].sources;
                let ns = sources.len();
                let mut i: usize = tentacle;
                while i > 0
                    invariant
                        edges@ == c.spec_edges(),
                        c.spec_edges()[edge as int].targets@.len() > 0,
                        tie0 == inc.reach@[c.spec_edges()[edge as int].targets@[0] as int],
                        width == word@.len(),
                        i <= tentacle,
                        tentacle < sources@.len(),
                        forall|j: int| i <= j < tentacle ==> !word@.contains(#[trigger] sources@[j]),
                    decreases i,
                {
                    i = i - 1;
                    match position(word, sources[i]) {
                        Some(p) => {
                            return Some((p + 1, (tie0, tie1)));
                        },
                        None => {},
                    }
                }
                let mut i: usize = tentacle + 1;
                while i < ns
                    invariant
                        edges@ == c.spec_edges(),
                        c.spec_edges()[edge as int].targets@.len() > 0,
                        tie0 == inc.reach@[c.spec_edges()[edge as int].targets@[0] as int],
                        ns == sources@.len(),
                        tentacle < i <= sources@.len(),
                        forall|j: int| 0 <= j < tentacle ==> !word@.contains(#[trigger] sources@[j]),
                        forall|j: int| tentacle < j < i ==> !word@.contains(#[trigger] sources@[j]),
                    decreases sources@.len() - i,
                {
                    match position(word, sources[i]) {
                        Some(p) => {
                            return Some((p, (tie0, tie1)));
                        },
                        None => {},
                    }
                    i = i + 1;
                }
            }
        },
        None => {},
    }
    if tie0 == usize::MAX {
        return None;
    }
    let mut at: usize = 0;
    while at < word.len() && !(inc.reach[word[at]] != usize::MAX && inc.reach[word[at]] >= tie0)
        invariant
            at <= word@.len(),
            all_below(word@, c.spec_node_count()),
            inc.fits(c.spec_node_count(), c.spec_edges().len()),
        decreases word@.len() - at,
    {
        at = at + 1;
    }
    Some((at, (tie0, tie1)))
}

/// Whether some edge is still unplaced.
fn any_unplaced(placed: &Vec<bool>) -> (r: bool)
    ensures
        r == exists|e: int| 0 <= e < placed@.len() && !placed@[e],
{
    let mut e: usize = 0;
    while e < placed.len()
        invariant
            e <= placed@.len(),
            forall|k: int| 0 <= k < e ==> placed@[k],
        decreases placed@.len() - e,
    {
        if !placed[e] {
            return true;
        }
        e = e + 1;
    }
    false
}

/// Build one part of the diagram: the layers placing `part`, taking the
/// wire word from `input` towards `output`.
///
/// Each pass places every edge whose sources are on the word, contiguous
/// and in tentacle order; failing that, it gathers the sources of the first
/// edge whose sources are all present but out of order; failing that, it
/// emits the source-free edges where [`demand`] pins them, or else the first
/// of them at [`free_slot`]. The passes are bounded by twice the edge count
/// plus four. A final braid takes the word to `output` when the two have the
/// same length.
fn layout<G: PropSignature>(
    c: &Content<G>,
    inc: &Incidence,
    part: &Vec<usize>,
    input: &Vec<usize>,
    output: &Vec<usize>,
) -> (r: PropExpr<G>)
    requires
        inc.fits(c.spec_node_count(), c.spec_edges().len()),
        consumers_fit(inc, c.spec_edges()),
        all_below(part@, c.spec_edges().len()),
        all_below(input@, c.spec_node_count()),
        all_below(output@, c.spec_node_count()),
    ensures
        spec_composes(r),
        r.spec_source() == input@.len(),
{
    let n = c.node_count();
    let edges = c.edges();
    let m = edges.len();
    let ghost a = input@.len() as nat;
    let mut word: Vec<usize> = Vec::new();
    let len_in = input.len();
    push_range(&mut word, input, 0, len_in);
    proof {
        assert(input@.subrange(0, len_in as int) =~= input@);
        assert(word@ =~= input@);
    }
    let mut acc: Option<PropExpr<G>> = None;
    let mut placed: Vec<bool> = filled(true, m);
    let mut i: usize = 0;
    while i < part.len()
        invariant
            placed@.len() == m,
            all_below(part@, m as nat),
        decreases part@.len() - i,
    {
        placed.set(part[i], false);
        i = i + 1;
    }
    let count = part.len();
    let mut budget: usize = if count <= (usize::MAX - 4) / 2 {
        2 * count + 4
    } else {
        usize::MAX
    };
    while budget > 0 && any_unplaced(&placed)
        invariant
            c.well_indexed(),
            edges@ == c.spec_edges(),
            n == c.spec_node_count(),
            m == edges@.len(),
            inc.fits(n as nat, m as nat),
            consumers_fit(inc, edges@),
            placed@.len() == m,
            all_below(word@, n as nat),
            all_below(output@, n as nat),
            so_far(acc, a, word@.len() as nat),
        decreases budget,
    {
        budget = budget - 1;

        // Every unplaced edge whose sources sit contiguous, in tentacle
        // order, goes now.
        let mut ready: Vec<Key> = Vec::new();
        let mut e: usize = 0;
        while e < m
            invariant
                c.well_indexed(),
                edges@ == c.spec_edges(),
                m == edges@.len(),
                placed@.len() == m,
                forall|i: int|
                    0 <= i < ready@.len() ==> (#[trigger] ready@[i]).3 < m && ready@[i].0
                        + edges@[ready@[i].3 as int].sources@.len() <= word@.len(),
            decreases m - e,
        {
            proof {
                assert(edges@[e as int] == edges@[e as int]);
            }
            if !placed[e] && edges[e].sources.len() > 0 {
                match contiguous_at(&word, &edges[e].sources) {
                    Some(p) => {
                        ready.push((p, 0, 0, e));
                    },
                    None => {},
                }
            }
            e = e + 1;
        }
        if ready.len() > 0 {
            let ready = sort_keys(ready);
            let w0 = word.len();
            let layer = place_generators(c, &mut word, &ready, Ghost(n as nat));
            acc = compose_onto(acc, layer, Ghost(a), Ghost(w0 as nat), Ghost(word@.len() as nat));
            let mut i: usize = 0;
            while i < ready.len()
                invariant
                    placed@.len() == m,
                    forall|i: int| 0 <= i < ready@.len() ==> (#[trigger] ready@[i]).3 < m,
                decreases ready@.len() - i,
            {
                proof {
                    assert(ready@[i as int] == ready@[i as int]);
                }
                placed.set(ready[i].3, true);
                i = i + 1;
            }
            continue;
        }

        // Sources all present but out of order: cross the wires to gather
        // them, for the first such edge.
        let mut gatherable: Option<usize> = None;
        let mut e: usize = 0;
        while e < m && gatherable.is_none()
            invariant
                edges@ == c.spec_edges(),
                m == edges@.len(),
                placed@.len() == m,
                gatherable matches Some(g) ==> g < m,
            decreases m - e,
        {
            proof {
                assert(edges@[e as int] == edges@[e as int]);
            }
            if !placed[e] && edges[e].sources.len() > 0 && all_present(&word, &edges[e].sources) {
                gatherable = Some(e);
            }
            e = e + 1;
        }
        match gatherable {
            Some(g) => {
                proof {
                    assert(edges@[g as int] == edges@[g as int]);
                }
                match gather_target(&word, &edges[g].sources, Ghost(n as nat)) {
                    Some(target) => {
                        if !usizes_eq(&target, &word) {
                            acc = bubble_to(&mut word, &target, acc, Ghost(a), Ghost(n as nat));
                            continue;
                        }
                    },
                    None => {},
                }
            },
            None => {},
        }

        // Nothing proceeds on the wires present: emit source-free edges.
        let mut inserts: Vec<Key> = Vec::new();
        let mut e: usize = 0;
        while e < m
            invariant
                c.well_indexed(),
                edges@ == c.spec_edges(),
                n == c.spec_node_count(),
                m == edges@.len(),
                inc.fits(n as nat, m as nat),
                consumers_fit(inc, edges@),
                placed@.len() == m,
                all_below(word@, n as nat),
                forall|i: int|
                    0 <= i < inserts@.len() ==> (#[trigger] inserts@[i]).3 < m
                        && edges@[inserts@[i].3 as int].sources@.len() == 0,
            decreases m - e,
        {
            proof {
                assert(edges@[e as int] == edges@[e as int]);
            }
            if !placed[e] && edges[e].sources.len() == 0 {
                match demand(c, inc, &word, &placed, e) {
                    Some((at, (t0, t1))) => {
                        inserts.push((at, t0, t1, e));
                    },
                    None => {},
                }
            }
            e = e + 1;
        }
        if inserts.len() == 0 {
            let mut e: usize = 0;
            while e < m
                invariant
                    edges@ == c.spec_edges(),
                    m == edges@.len(),
                    placed@.len() == m,
                    forall|i: int|
                        0 <= i < inserts@.len() ==> (#[trigger] inserts@[i]).3 < m
                            && edges@[inserts@[i].3 as int].sources@.len() == 0,
                decreases m - e,
            {
                proof {
                    assert(edges@[e as int] == edges@[e as int]);
                }
                if !placed[e] && edges[e].sources.len() == 0 {
                    inserts.push((free_slot(word.len()), usize::MAX, usize::MAX, e));
                    break;
                }
                e = e + 1;
            }
        }
        if inserts.len() == 0 {
            break;
        }
        let inserts = sort_keys(inserts);
        let w0 = word.len();
        let layer = place_sources(c, &mut word, &inserts, Ghost(n as nat));
        acc = compose_onto(acc, layer, Ghost(a), Ghost(w0 as nat), Ghost(word@.len() as nat));
        let mut i: usize = 0;
        while i < inserts.len()
            invariant
                placed@.len() == m,
                forall|i: int| 0 <= i < inserts@.len() ==> (#[trigger] inserts@[i]).3 < m,
            decreases inserts@.len() - i,
        {
            proof {
                assert(inserts@[i as int] == inserts@[i as int]);
            }
            placed.set(inserts[i].3, true);
            i = i + 1;
        }
    }
    if !usizes_eq(&word, output) {
        acc = bubble_to(&mut word, output, acc, Ghost(a), Ghost(n as nat));
    }
    match acc {
        Some(e) => e,
        None => PropExpr::Identity(len_in),
    }
}

// ---------------------------------------------------------------- public API

/// Write a content cospan back out as a layered expression.
///
/// The sweep reads [`canonical_content`]'s relabeling, not the raw node
/// indices, so the result depends on the content only through its canonical
/// key. Closed components come out as `0 → 0` blocks to the left of the
/// anchored part, in the key's block order. Every layer covers the whole
/// wire word, so every `Compose` of the result joins equal widths, and the
/// result starts from the content's input width.
pub fn expr_of_content<G: PropSignature>(c: &Content<G>) -> (r: PropExpr<G>)
    requires
        gens_are_structural::<G>(),
    ensures
        spec_composes(r),
        r.spec_source() == c.spec_input().len(),
{
    let canonical = canonical_content(c);
    let input = slice_to_vec(canonical.input());
    let output = slice_to_vec(canonical.output());
    let inc = incidence(&canonical);
    let (anchored, closed) = split(&canonical, &inc);
    let none: Vec<usize> = Vec::new();
    let mut parts: Vec<PropExpr<G>> = Vec::new();
    let ghost mut srcs: Seq<nat> = Seq::empty();
    let ghost mut tgts: Seq<nat> = Seq::empty();
    let mut k: usize = 0;
    while k < closed.len()
        invariant
            canonical.well_indexed(),
            inc.fits(canonical.spec_node_count(), canonical.spec_edges().len()),
            consumers_fit(&inc, canonical.spec_edges()),
            forall|k: int|
                0 <= k < closed@.len() ==> all_below(
                    #[trigger] closed@[k]@,
                    canonical.spec_edges().len(),
                ),
            none@.len() == 0,
            srcs.len() == parts@.len(),
            tgts.len() == parts@.len(),
            forall|i: int| 0 <= i < parts@.len() ==> spans(#[trigger] parts@[i], srcs[i], tgts[i]),
            total(srcs) == 0,
        decreases closed@.len() - k,
    {
        let part = layout(&canonical, &inc, &closed[k], &none, &none);
        proof {
            lemma_arities_bounded(part);
            lemma_total_push(srcs, 0);
            srcs = srcs.push(0);
            tgts = tgts.push(part.spec_target());
        }
        parts.push(part);
        k = k + 1;
    }
    let len_in = input.len();
    let part = layout(&canonical, &inc, &anchored, &input, &output);
    proof {
        lemma_total_push(srcs, input@.len() as nat);
        srcs = srcs.push(input@.len() as nat);
        tgts = tgts.push(part.spec_target());
    }
    parts.push(part);
    tensor_all(parts, Ghost(srcs), Ghost(tgts))
}

/// The canonical display of `e`: the normal form of its content's readback,
/// `nf(expr_of_content(content_of(e)))`.
pub fn canonical_display<G: PropSignature>(e: &PropExpr<G>) -> (r: StringDiagram<G>)
    requires
        spec_arity_well_formed(*e),
        gens_are_structural::<G>(),
{
    nf(&expr_of_content(&content_of(e)))
}

} // verus!
