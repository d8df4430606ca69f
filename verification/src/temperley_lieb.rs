//! Arcs of Brauer diagrams and the Temperley-Lieb (non-crossing) test.
//!
//! A Brauer diagram `source → target` is a perfect matching on the
//! `source + target` points: `0..source` on the domain side and
//! `source..source+target` on the codomain side. A [`Pair`] is one matched
//! arc. A pair joining two domain points is a cup, two codomain points a cap,
//! and one of each a through-line. The non-crossing diagrams form the
//! Temperley-Lieb subalgebra: no two same-side arcs cross, no through-line
//! passes under a same-side arc, and through-lines keep their order.
use vstd::prelude::*;
use vstd::std_specs::convert::FromSpecImpl;

verus! {

/// An ordered pair of point indices: one matched arc of a Brauer diagram.
#[derive(Clone, Copy, PartialEq, Eq, Structural, Hash, Debug, PartialOrd, Ord)]
pub struct Pair(pub usize, pub usize);

/// `x` lies strictly between the two ends of `p`, in either order.
pub open spec fn spec_contains(p: Pair, x: usize) -> bool {
    (x < p.0 && x > p.1) || (x < p.1 && x > p.0)
}

/// `p` with its ends in ascending order.
pub open spec fn spec_sorted(x: usize, y: usize) -> Pair {
    if x < y {
        Pair(x, y)
    } else {
        Pair(y, x)
    }
}

impl Pair {
    /// Both point indices of the pair, in order.
    pub fn iter(&self) -> (r: Vec<usize>)
        ensures
            r@ == seq![self.0, self.1],
    {
        let mut v: Vec<usize> = Vec::new();
        v.push(self.0);
        v.push(self.1);
        proof {
            assert(v@ =~= seq![self.0, self.1]);
        }
        v
    }

    /// Apply `f` to both point indices, returning a new pair.
    pub fn map<F: Fn(usize) -> usize>(&self, f: F) -> (r: Self)
        requires
            f.requires((self.0,)),
            f.requires((self.1,)),
        ensures
            f.ensures((self.0,), r.0),
            f.ensures((self.1,), r.1),
    {
        let a = f(self.0);
        let b = f(self.1);
        Pair(a, b)
    }

    /// True if the predicate holds for both elements.
    pub fn all<F: Fn(usize) -> bool>(&self, f: F) -> (r: bool)
        requires
            f.requires((self.0,)),
            f.requires((self.1,)),
        ensures
            r ==> f.ensures((self.0,), true) && f.ensures((self.1,), true),
            !r ==> f.ensures((self.0,), false) || f.ensures((self.1,), false),
    {
        let a = f(self.0);
        if !a {
            return false;
        }
        let b = f(self.1);
        b
    }

    /// True if the predicate holds for at least one element.
    pub fn any<F: Fn(usize) -> bool>(&self, f: F) -> (r: bool)
        requires
            f.requires((self.0,)),
            f.requires((self.1,)),
        ensures
            r ==> f.ensures((self.0,), true) || f.ensures((self.1,), true),
            !r ==> f.ensures((self.0,), false) && f.ensures((self.1,), false),
    {
        let a = f(self.0);
        if a {
            return true;
        }
        f(self.1)
    }

    /// Exchange the two sides of a `source → target` diagram: a domain point
    /// `v < source` moves to `v + target`, a codomain point to `v - source`.
    pub fn flip_upside_down(&self, source: usize, target: usize) -> (r: Self)
        requires
            self.0 < source + target,
            self.1 < source + target,
            source + target <= usize::MAX,
        ensures
            r.0 == (if self.0 < source { self.0 + target } else { self.0 - source }),
            r.1 == (if self.1 < source { self.1 + target } else { self.1 - source }),
    {
        let a = if self.0 < source { self.0 + target } else { self.0 - source };
        let b = if self.1 < source { self.1 + target } else { self.1 - source };
        Pair(a, b)
    }

    /// This pair with its elements in ascending order.
    pub fn sort(&self) -> (r: Self)
        ensures
            r == spec_sorted(self.0, self.1),
    {
        Self::sorted(self.0, self.1)
    }

    /// The pair with the smaller element first.
    pub fn sorted(x: usize, y: usize) -> (r: Self)
        ensures
            r == spec_sorted(x, y),
    {
        if x < y {
            Pair(x, y)
        } else {
            Pair(y, x)
        }
    }

    /// True if `x` lies strictly between the two point indices.
    pub fn contains(&self, x: usize) -> (r: bool)
        ensures
            r == spec_contains(*self, x),
    {
        (x < self.0 && x > self.1) || (x < self.1 && x > self.0)
    }
}

impl From<(usize, usize)> for Pair {
    fn from(value: (usize, usize)) -> (r: Self)
        ensures
            r == Pair(value.0, value.1),
    {
        Pair(value.0, value.1)
    }
}

impl FromSpecImpl<(usize, usize)> for Pair {
    open spec fn obeys_from_spec() -> bool {
        true
    }

    open spec fn from_spec(v: (usize, usize)) -> Self {
        Pair(v.0, v.1)
    }
}

/// Pair `p` joins two domain points.
pub open spec fn is_cup(p: Pair, source: usize) -> bool {
    p.0 < source && p.1 < source
}

/// Pair `p` joins two codomain points.
pub open spec fn is_cap(p: Pair, source: usize) -> bool {
    p.0 >= source && p.1 >= source
}

/// Pair `p` joins a domain point to a codomain point.
pub open spec fn is_through(p: Pair, source: usize) -> bool {
    (p.0 < source && p.1 >= source) || (p.1 < source && p.0 >= source)
}

/// Two arcs cross: exactly one end of `b` lies strictly inside `a`.
pub open spec fn crosses(a: Pair, b: Pair) -> bool {
    spec_contains(a, b.0) != spec_contains(a, b.1)
}

/// The Temperley-Lieb condition on the arcs `pairs` of a diagram whose
/// domain has `source` points: no two cups cross and no two caps cross (an
/// earlier arc against a later one); no through-line has an end strictly
/// inside a cup or a cap; and the through-lines, each read with its ends in
/// ascending order, have non-decreasing codomain ends in list order.
pub open spec fn spec_non_crossing(pairs: Seq<Pair>, source: usize) -> bool {
    &&& forall|i: int, j: int|
        0 <= i < j < pairs.len() && is_cup(pairs[i], source) && is_cup(pairs[j], source) ==> !crosses(
            pairs[i],
            pairs[j],
        )
    &&& forall|i: int, j: int|
        0 <= i < j < pairs.len() && is_cap(pairs[i], source) && is_cap(pairs[j], source) ==> !crosses(
            pairs[i],
            pairs[j],
        )
    &&& forall|i: int, k: int|
        0 <= i < pairs.len() && 0 <= k < pairs.len() && (is_cup(pairs[i], source) || is_cap(
            pairs[i],
            source,
        )) && is_through(pairs[k], source) ==> !spec_contains(pairs[i], pairs[k].0) && !spec_contains(
            pairs[i],
            pairs[k].1,
        )
    &&& forall|i: int, j: int|
        0 <= i < j < pairs.len() && is_through(pairs[i], source) && is_through(pairs[j], source)
            ==> spec_sorted(pairs[i].0, pairs[i].1).1 <= spec_sorted(pairs[j].0, pairs[j].1).1
}

/// `pairs` covers each point of `0..2·len` exactly once.
pub open spec fn is_perfect_matching(pairs: Seq<Pair>) -> bool {
    &&& forall|i: int| 0 <= i < pairs.len() ==> pairs[i].0 < 2 * pairs.len() && pairs[i].1 < 2 * pairs.len()
    &&& forall|i: int| 0 <= i < pairs.len() ==> pairs[i].0 != pairs[i].1
    &&& forall|i: int, j: int|
        0 <= i < j < pairs.len() ==> pairs[i].0 != pairs[j].0 && pairs[i].0 != pairs[j].1 && pairs[i].1
            != pairs[j].0 && pairs[i].1 != pairs[j].1
}

/// Lexicographic order on pairs.
pub open spec fn pair_le(a: Pair, b: Pair) -> bool {
    a.0 < b.0 || (a.0 == b.0 && a.1 <= b.1)
}

/// A perfect matching on `0..2·len`, kept canonical: each pair ascending,
/// the pairs in lexicographic order.
#[derive(PartialEq, Eq, Clone, Hash, Debug)]
pub struct PerfectMatching {
    pairs: Vec<Pair>,
}

impl PerfectMatching {
    /// The arcs, in canonical order.
    pub closed spec fn spec_pairs(&self) -> Seq<Pair> {
        self.pairs@
    }

    /// The arcs, in canonical order.
    pub fn pairs(&self) -> (r: &[Pair])
        ensures
            r@ == self.spec_pairs(),
    {
        self.pairs.as_slice()
    }

    /// Build a matching from its arcs, putting each arc in ascending order and
    /// the arcs in lexicographic order.
    pub fn new(pairs: Vec<Pair>) -> (r: Self)
        requires
            is_perfect_matching(pairs@),
        ensures
            r.spec_pairs().len() == pairs@.len(),
            forall|i: int| 0 <= i < r.spec_pairs().len() ==> r.spec_pairs()[i].0 < r.spec_pairs()[i].1,
            forall|i: int, j: int|
                0 <= i < j < r.spec_pairs().len() ==> pair_le(r.spec_pairs()[i], r.spec_pairs()[j]),
            r.spec_pairs().to_multiset() =~= pairs@.map_values(|p: Pair| spec_sorted(p.0, p.1)).to_multiset(),
    {
        let mut ret = PerfectMatching { pairs };
        ret.canonicalize();
        ret
    }

    /// Put each arc in ascending order, then sort the arcs.
    fn canonicalize(&mut self)
        requires
            forall|i: int| 0 <= i < old(self).pairs@.len() ==> old(self).pairs@[i].0 != old(self).pairs@[i].1,
        ensures
            forall|i: int| 0 <= i < final(self).pairs@.len() ==> final(self).pairs@[i].0 < final(self).pairs@[i].1,
            final(self).pairs@.len() == old(self).pairs@.len(),
            forall|i: int, j: int|
                0 <= i < j < final(self).pairs@.len() ==> pair_le(final(self).pairs@[i], final(self).pairs@[j]),
            final(self).pairs@.to_multiset() =~= old(self).pairs@.map_values(|p: Pair| spec_sorted(p.0, p.1)).to_multiset(),
    {
        let mut ascending: Vec<Pair> = Vec::new();
        let mut i: usize = 0;
        while i < self.pairs.len()
            invariant
                i <= self.pairs@.len(),
                ascending@ == self.pairs@.take(i as int).map_values(|p: Pair| spec_sorted(p.0, p.1)),
            decreases self.pairs@.len() - i,
        {
            let p = self.pairs[i];
            ascending.push(Pair::sorted(p.0, p.1));
            i = i + 1;
            proof {
                assert(ascending@ =~= self.pairs@.take(i as int).map_values(|p: Pair| spec_sorted(p.0, p.1)));
            }
        }
        proof {
            assert(self.pairs@.take(self.pairs@.len() as int) =~= self.pairs@);
        }
        proof {
            assert forall|i: int| 0 <= i < ascending@.len() implies ascending@[i].0 < ascending@[i].1 by {
                assert(ascending@[i] == spec_sorted(self.pairs@[i].0, self.pairs@[i].1));
            }
        }
        let sorted = sort_pairs(ascending);
        self.pairs = sorted;
    }
}

/// Insertion sort of pairs into lexicographic order.
fn sort_pairs(v: Vec<Pair>) -> (r: Vec<Pair>)
    ensures
        r@.len() == v@.len(),
        r@.to_multiset() =~= v@.to_multiset(),
        forall|i: int, j: int| 0 <= i < j < r@.len() ==> pair_le(r@[i], r@[j]),
        (forall|i: int| 0 <= i < v@.len() ==> v@[i].0 < v@[i].1) ==> forall|i: int|
            0 <= i < r@.len() ==> r@[i].0 < r@[i].1,
{
    proof {
        assert(Seq::<Pair>::empty() =~= v@.take(0));
    }
    let mut r: Vec<Pair> = Vec::new();
    let mut k: usize = 0;
    while k < v.len()
        invariant
            k <= v@.len(),
            r@.len() == k,
            r@.to_multiset() =~= v@.take(k as int).to_multiset(),
            forall|i: int, j: int| 0 <= i < j < r@.len() ==> pair_le(r@[i], r@[j]),
            (forall|i: int| 0 <= i < v@.len() ==> v@[i].0 < v@[i].1) ==> forall|i: int|
                0 <= i < r@.len() ==> r@[i].0 < r@[i].1,
        decreases v@.len() - k,
    {
        let p = v[k];
        let mut pos: usize = 0;
        while pos < r.len() && (r[pos].0 < p.0 || (r[pos].0 == p.0 && r[pos].1 <= p.1))
            invariant
                pos <= r@.len(),
                forall|i: int| 0 <= i < pos ==> pair_le(r@[i], p),
            decreases r@.len() - pos,
        {
            pos = pos + 1;
        }
        let ghost before = r@;
        r.insert(pos, p);
        proof {
            broadcast use vstd::seq_lib::group_to_multiset_ensures;
            assert(v@.take(k + 1) =~= v@.take(k as int).push(p));
            assert(r@.to_multiset() == before.to_multiset().insert(p));
            assert(v@.take(k + 1).to_multiset() == v@.take(k as int).to_multiset().insert(p));
            assert forall|i: int, j: int| 0 <= i < j < r@.len() implies pair_le(r@[i], r@[j]) by {
                if j < pos {
                    assert(r@[i] == before[i] && r@[j] == before[j]);
                } else if j == pos {
                    assert(r@[i] == before[i]);
                } else if i == pos {
                    assert(r@[j] == before[j - 1]);
                    if pos < before.len() {
                        assert(!pair_le(before[pos as int], p));
                        if j - 1 > pos {
                            assert(pair_le(before[pos as int], before[j - 1]));
                        }
                    }
                } else if i < pos {
                    assert(r@[i] == before[i] && r@[j] == before[j - 1]);
                    if i < j - 1 {
                    }
                } else {
                    assert(r@[i] == before[i - 1] && r@[j] == before[j - 1]);
                }
            }
            if forall|i: int| 0 <= i < v@.len() ==> v@[i].0 < v@[i].1 {
                assert forall|i: int| 0 <= i < r@.len() implies r@[i].0 < r@[i].1 by {
                    if i < pos {
                        assert(r@[i] == before[i]);
                    } else if i == pos {
                        assert(r@[i] == v@[k as int]);
                    } else {
                        assert(r@[i] == before[i - 1]);
                    }
                }
            }
        }
        k = k + 1;
    }
    proof {
        assert(v@.take(v@.len() as int) =~= v@);
    }
    r
}

impl PerfectMatching {
    /// Exchange the two sides of a `source → target` diagram.
    pub fn flip_upside_down(&self, source: usize, target: usize) -> (r: Vec<Pair>)
        requires
            source + target <= usize::MAX,
            forall|i: int| 0 <= i < self.spec_pairs().len() ==> self.spec_pairs()[i].0 < source + target
                && self.spec_pairs()[i].1 < source + target,
        ensures
            r@.len() == self.spec_pairs().len(),
            forall|i: int|
                #![trigger r@[i]]
                0 <= i < r@.len() ==> {
                    let p = self.spec_pairs()[i];
                    &&& r@[i].0 == (if p.0 < source { p.0 + target } else { p.0 - source })
                    &&& r@[i].1 == (if p.1 < source { p.1 + target } else { p.1 - source })
                },
    {
        let mut r: Vec<Pair> = Vec::new();
        let mut i: usize = 0;
        proof {
            assert(self.pairs@ == self.spec_pairs());
        }
        while i < self.pairs.len()
            invariant
                i <= self.pairs@.len(),
                r@.len() == i,
                source + target <= usize::MAX,
                forall|k: int| 0 <= k < self.pairs@.len() ==> self.pairs@[k].0 < source + target
                    && self.pairs@[k].1 < source + target,
                forall|k: int|
                    #![trigger r@[k]]
                    0 <= k < i ==> {
                        let p = self.pairs@[k];
                        &&& r@[k].0 == (if p.0 < source { p.0 + target } else { p.0 - source })
                        &&& r@[k].1 == (if p.1 < source { p.1 + target } else { p.1 - source })
                    },
            decreases self.pairs@.len() - i,
        {
            r.push(self.pairs[i].flip_upside_down(source, target));
            i = i + 1;
        }
        r
    }

    /// The Temperley-Lieb test for a diagram whose domain has `source` points
    /// ([`spec_non_crossing`]).
    pub fn non_crossing(&self, source: usize, _target: usize) -> (r: bool)
        ensures
            r == spec_non_crossing(self.spec_pairs(), source),
    {
        let pairs = &self.pairs;
        let n = pairs.len();
        proof {
            assert(pairs@ == self.spec_pairs());
        }
        // Crossings among cups, then among caps.
        let mut i: usize = 0;
        while i < n
            invariant
                n == pairs@.len(),
                pairs@ == self.spec_pairs(),
                i <= n,
                forall|a: int, b: int|
                    0 <= a < i && a < b < n && is_cup(pairs@[a], source) && is_cup(pairs@[b], source) ==> !crosses(
                        pairs@[a],
                        pairs@[b],
                    ),
            decreases n - i,
        {
            let mut j: usize = i + 1;
            while j < n
                invariant
                    n == pairs@.len(),
                pairs@ == self.spec_pairs(),
                    i < n,
                    i + 1 <= j <= n,
                    forall|a: int, b: int|
                        0 <= a < i && a < b < n && is_cup(pairs@[a], source) && is_cup(pairs@[b], source) ==> !crosses(
                            pairs@[a],
                            pairs@[b],
                        ),
                    forall|b: int|
                        i < b < j && is_cup(pairs@[i as int], source) && is_cup(pairs@[b], source) ==> !crosses(
                            pairs@[i as int],
                            pairs@[b],
                        ),
                decreases n - j,
            {
                let a = pairs[i];
                let b = pairs[j];
                if a.0 < source && a.1 < source && b.0 < source && b.1 < source && a.contains(b.0) != a.contains(b.1) {
                    proof {
                        assert(is_cup(pairs@[i as int], source) && is_cup(pairs@[j as int], source) && crosses(pairs@[i as int], pairs@[j as int]));
                        assert(!spec_non_crossing(pairs@, source));
                    }
                    return false;
                }
                j = j + 1;
            }
            i = i + 1;
        }
        let mut i: usize = 0;
        while i < n
            invariant
                n == pairs@.len(),
                pairs@ == self.spec_pairs(),
                i <= n,
                forall|a: int, b: int|
                    0 <= a < b < n && is_cup(pairs@[a], source) && is_cup(pairs@[b], source) ==> !crosses(
                        pairs@[a],
                        pairs@[b],
                    ),
                forall|a: int, b: int|
                    0 <= a < i && a < b < n && is_cap(pairs@[a], source) && is_cap(pairs@[b], source) ==> !crosses(
                        pairs@[a],
                        pairs@[b],
                    ),
            decreases n - i,
        {
            let mut j: usize = i + 1;
            while j < n
                invariant
                    n == pairs@.len(),
                pairs@ == self.spec_pairs(),
                    i < n,
                    i + 1 <= j <= n,
                    forall|a: int, b: int|
                        0 <= a < i && a < b < n && is_cap(pairs@[a], source) && is_cap(pairs@[b], source) ==> !crosses(
                            pairs@[a],
                            pairs@[b],
                        ),
                    forall|b: int|
                        i < b < j && is_cap(pairs@[i as int], source) && is_cap(pairs@[b], source) ==> !crosses(
                            pairs@[i as int],
                            pairs@[b],
                        ),
                decreases n - j,
            {
                let a = pairs[i];
                let b = pairs[j];
                if a.0 >= source && a.1 >= source && b.0 >= source && b.1 >= source && a.contains(b.0) != a.contains(b.1) {
                    proof {
                        assert(is_cap(pairs@[i as int], source) && is_cap(pairs@[j as int], source) && crosses(pairs@[i as int], pairs@[j as int]));
                        assert(!spec_non_crossing(pairs@, source));
                    }
                    return false;
                }
                j = j + 1;
            }
            i = i + 1;
        }
        // No through-line end lies strictly inside a cup or a cap.
        let mut i: usize = 0;
        while i < n
            invariant
                n == pairs@.len(),
                pairs@ == self.spec_pairs(),
                i <= n,
                forall|a: int, k: int|
                    0 <= a < i && 0 <= k < n && (is_cup(pairs@[a], source) || is_cap(pairs@[a], source))
                        && is_through(pairs@[k], source) ==> !spec_contains(pairs@[a], pairs@[k].0)
                        && !spec_contains(pairs@[a], pairs@[k].1),
            decreases n - i,
        {
            let a = pairs[i];
            if (a.0 < source && a.1 < source) || (a.0 >= source && a.1 >= source) {
                let mut k: usize = 0;
                while k < n
                    invariant
                        n == pairs@.len(),
                pairs@ == self.spec_pairs(),
                        i < n,
                        a == pairs@[i as int],
                        is_cup(a, source) || is_cap(a, source),
                        k <= n,
                        forall|c: int|
                            0 <= c < k && is_through(pairs@[c], source) ==> !spec_contains(a, pairs@[c].0)
                                && !spec_contains(a, pairs@[c].1),
                    decreases n - k,
                {
                    let t = pairs[k];
                    if ((t.0 < source && t.1 >= source) || (t.1 < source && t.0 >= source)) && (a.contains(t.0)
                        || a.contains(t.1)) {
                        proof {
                            assert((is_cup(pairs@[i as int], source) || is_cap(pairs@[i as int], source)) && is_through(pairs@[k as int], source));
                        assert(!spec_non_crossing(pairs@, source));
                        }
                        return false;
                    }
                    k = k + 1;
                }
            }
            i = i + 1;
        }
        // Through-lines keep their order.
        let mut last: usize = 0;
        let mut seen = false;
        let mut i: usize = 0;
        while i < n
            invariant
                n == pairs@.len(),
                pairs@ == self.spec_pairs(),
                i <= n,
                seen ==> exists|a: int| 0 <= a < i && is_through(pairs@[a], source) && spec_sorted(pairs@[a].0, pairs@[a].1).1 == last,
                seen ==> forall|a: int| 0 <= a < i && is_through(pairs@[a], source) ==> spec_sorted(pairs@[a].0, pairs@[a].1).1 <= last,
                !seen ==> forall|a: int| 0 <= a < i ==> !is_through(pairs@[a], source),
                forall|a: int, b: int|
                    0 <= a < b < i && is_through(pairs@[a], source) && is_through(pairs@[b], source)
                        ==> spec_sorted(pairs@[a].0, pairs@[a].1).1 <= spec_sorted(pairs@[b].0, pairs@[b].1).1,
            decreases n - i,
        {
            let t = pairs[i];
            if (t.0 < source && t.1 >= source) || (t.1 < source && t.0 >= source) {
                let w = t.sort().1;
                if seen && w < last {
                    proof {
                        let a = choose|a: int| 0 <= a < i && is_through(pairs@[a], source) && spec_sorted(pairs@[a].0, pairs@[a].1).1 == last;
                        assert(!(spec_sorted(pairs@[a].0, pairs@[a].1).1 <= spec_sorted(pairs@[i as int].0, pairs@[i as int].1).1));
                        assert(!spec_non_crossing(pairs@, source));
                    }
                    return false;
                }
                last = w;
                seen = true;
            }
            i = i + 1;
        }
        true
    }
}

} // verus!
