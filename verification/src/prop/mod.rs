//! Props and the free prop on a signature.
//!
//! A prop is a symmetric strict monoidal category whose objects are the
//! natural numbers, with tensor given by addition. The free prop `Free(G)` on
//! a signature `G` has as morphisms the well-formed expressions built from the
//! generators of `G` under composition, tensor, identities and braidings.
//! [`PropExpr`] is the arity-tracked expression tree; equality on it is
//! structural, and equality modulo the symmetric monoidal axioms lives in
//! [`presentation`].
use vstd::prelude::*;
use crate::error::CatgraphError;
use permutations::Permutation;

pub mod colored;
pub mod presentation;
mod structural_eq;

pub use structural_eq::lemma_primitive_eq_is_structural;

verus! {

/// `a + b`, saturated at `usize::MAX`.
pub open spec fn sat_add(a: nat, b: nat) -> nat {
    if a + b <= usize::MAX {
        a + b
    } else {
        usize::MAX as nat
    }
}

/// A signature `(G, s, t)` for a free prop: every generator declares a source
/// word and a target word over a color alphabet `Λ` (`Color`); its arities are
/// the lengths of those words. `Color = ()` recovers the single-sorted prop.
///
/// Implementations promise that `source_word` / `target_word` return the words
/// named by `spec_source_word` / `spec_target_word`, and that an overridden
/// `source` / `target` agrees with the word lengths.
pub trait PropSignature: Sized + Copy + PartialEq + Eq + core::hash::Hash + core::fmt::Debug + Ord {
    /// The color alphabet `Λ`.
    type Color: Copy + PartialEq + Eq + core::hash::Hash + core::fmt::Debug;

    /// The source word `s(g)` as a mathematical sequence.
    spec fn spec_source_word(&self) -> Seq<Self::Color>;

    /// The target word `t(g)` as a mathematical sequence.
    spec fn spec_target_word(&self) -> Seq<Self::Color>;

    /// Source word `s(g)`: the colors of the input ports, in order.
    fn source_word(&self) -> (r: Vec<Self::Color>)
        ensures
            r@ == self.spec_source_word(),
    ;

    /// Target word `t(g)`: the colors of the output ports, in order.
    fn target_word(&self) -> (r: Vec<Self::Color>)
        ensures
            r@ == self.spec_target_word(),
    ;

    /// Source arity, the length of the source word.
    fn source(&self) -> (r: usize)
        ensures
            r == self.spec_source_word().len(),
    {
        self.source_word().len()
    }

    /// Target arity, the length of the target word.
    fn target(&self) -> (r: usize)
        ensures
            r == self.spec_target_word().len(),
    {
        self.target_word().len()
    }
}

/// The monochromatic word `•ⁿ` over the one-letter palette `()`.
pub fn mono_word(n: usize) -> (r: Vec<()>)
    ensures
        r@.len() == n,
{
    let mut v: Vec<()> = Vec::new();
    let mut i: usize = 0;
    while i < n
        invariant
            i <= n,
            v@.len() == i,
        decreases n - i,
    {
        v.push(());
        i = i + 1;
    }
    v
}

/// The one letter of a monochromatic palette.
#[derive(Clone, Copy, Debug, Eq, Hash, PartialOrd, Ord)]
pub struct Dot;

/// A monochromatic primitive: a labelled generator `source → target` over
/// the one-letter palette [`Dot`]. Equal labels with different arities are
/// different primitives.
#[derive(Clone, Copy, Debug, Eq, Hash, PartialOrd, Ord)]
pub struct Primitive {
    /// The generator's name.
    pub label: u32,
    /// Source arity.
    pub source: usize,
    /// Target arity.
    pub target: usize,
}

/// The word `•ⁿ` over [`Dot`].
pub open spec fn dot_seq(n: nat) -> Seq<Dot> {
    Seq::new(n, |i: int| Dot)
}

/// The word `•ⁿ` over [`Dot`].
pub fn dot_word(n: usize) -> (r: Vec<Dot>)
    ensures
        r@ == dot_seq(n as nat),
{
    let mut v: Vec<Dot> = Vec::new();
    let mut i: usize = 0;
    while i < n
        invariant
            i <= n,
            v@ == dot_seq(i as nat),
        decreases n - i,
    {
        v.push(Dot);
        i = i + 1;
        proof {
            assert(v@ =~= dot_seq(i as nat));
        }
    }
    v
}

impl Primitive {
    /// The primitive `label : source → target`.
    pub fn new(label: u32, source: usize, target: usize) -> (r: Self)
        ensures
            r == (Primitive { label, source, target }),
    {
        Primitive { label, source, target }
    }
}

impl PropSignature for Primitive {
    type Color = Dot;

    open spec fn spec_source_word(&self) -> Seq<Dot> {
        dot_seq(self.source as nat)
    }

    open spec fn spec_target_word(&self) -> Seq<Dot> {
        dot_seq(self.target as nat)
    }

    fn source_word(&self) -> (r: Vec<Dot>) {
        dot_word(self.source)
    }

    fn target_word(&self) -> (r: Vec<Dot>) {
        dot_word(self.target)
    }
}

/// Arity-tracked free-prop expression tree over a signature `G`.
///
/// The smart constructors on [`Free`] produce only well-formed expressions;
/// the variants are public, so a hand-built tree may compose mismatched
/// arities. Arity sums that would overflow `usize` saturate at `usize::MAX`
/// in [`PropExpr::source`] / [`PropExpr::target`].
#[derive(Debug, PartialEq, Eq, Hash)]
pub enum PropExpr<G: PropSignature> {
    /// `id_n : n → n`.
    Identity(usize),
    /// The braiding `σ_{m,n} : m+n → m+n` swapping two blocks.
    Braid(usize, usize),
    /// A generator `g ∈ G`.
    Generator(G),
    /// Sequential composition `f ; g`.
    Compose(Box<PropExpr<G>>, Box<PropExpr<G>>),
    /// Parallel tensor `f ⊗ g`.
    Tensor(Box<PropExpr<G>>, Box<PropExpr<G>>),
}

impl<G: PropSignature> Clone for PropExpr<G> {
    /// A structurally identical copy.
    fn clone(&self) -> (r: Self)
        ensures
            r == *self,
        decreases self,
    {
        match self {
            PropExpr::Identity(n) => PropExpr::Identity(*n),
            PropExpr::Braid(m, n) => PropExpr::Braid(*m, *n),
            PropExpr::Generator(g) => PropExpr::Generator(*g),
            PropExpr::Compose(f, h) => PropExpr::Compose(
                Box::new((**f).clone()),
                Box::new((**h).clone()),
            ),
            PropExpr::Tensor(f, h) => PropExpr::Tensor(
                Box::new((**f).clone()),
                Box::new((**h).clone()),
            ),
        }
    }
}

impl<G: PropSignature> PropExpr<G> {
    /// Source arity, saturating at `usize::MAX`.
    pub open spec fn spec_source(self) -> nat
        decreases self,
    {
        match self {
            PropExpr::Identity(n) => n as nat,
            PropExpr::Braid(m, n) => sat_add(m as nat, n as nat),
            PropExpr::Generator(g) => sat_add(g.spec_source_word().len(), 0),
            PropExpr::Compose(f, _) => f.spec_source(),
            PropExpr::Tensor(f, h) => sat_add(f.spec_source(), h.spec_source()),
        }
    }

    /// Target arity, saturating at `usize::MAX`.
    pub open spec fn spec_target(self) -> nat
        decreases self,
    {
        match self {
            PropExpr::Identity(n) => n as nat,
            PropExpr::Braid(m, n) => sat_add(m as nat, n as nat),
            PropExpr::Generator(g) => sat_add(g.spec_target_word().len(), 0),
            PropExpr::Compose(_, h) => h.spec_target(),
            PropExpr::Tensor(f, h) => sat_add(f.spec_target(), h.spec_target()),
        }
    }

    /// The exact arity pair, or `None` when some braid or tensor width anywhere
    /// in the tree sums past `usize::MAX`.
    pub open spec fn spec_checked_arities(self) -> Option<(nat, nat)>
        decreases self,
    {
        match self {
            PropExpr::Identity(n) => Some((n as nat, n as nat)),
            PropExpr::Braid(m, n) => if m + n <= usize::MAX {
                Some(((m + n) as nat, (m + n) as nat))
            } else {
                None
            },
            PropExpr::Generator(g) => Some(
                (sat_add(g.spec_source_word().len(), 0), sat_add(g.spec_target_word().len(), 0)),
            ),
            PropExpr::Compose(f, h) => match (f.spec_checked_arities(), h.spec_checked_arities()) {
                (Some((fs, _)), Some((_, ht))) => Some((fs, ht)),
                _ => None,
            },
            PropExpr::Tensor(f, h) => match (f.spec_checked_arities(), h.spec_checked_arities()) {
                (Some((fs, ft)), Some((hs, ht))) => if fs + hs <= usize::MAX && ft + ht
                    <= usize::MAX {
                    Some((fs + hs, ft + ht))
                } else {
                    None
                },
                _ => None,
            },
        }
    }

    /// Every arity sum in the tree fits in `usize`.
    pub open spec fn spec_arities_fit(self) -> bool {
        self.spec_checked_arities() is Some
    }

    /// Source arity of this morphism, saturating at `usize::MAX`.
    pub fn source(&self) -> (r: usize)
        ensures
            r == self.spec_source(),
        decreases self,
    {
        match self {
            PropExpr::Identity(n) => *n,
            PropExpr::Braid(m, n) => m.saturating_add(*n),
            PropExpr::Generator(g) => g.source(),
            PropExpr::Compose(f, _) => f.source(),
            PropExpr::Tensor(f, h) => f.source().saturating_add(h.source()),
        }
    }

    /// Target arity of this morphism, saturating at `usize::MAX`.
    pub fn target(&self) -> (r: usize)
        ensures
            r == self.spec_target(),
        decreases self,
    {
        match self {
            PropExpr::Identity(n) => *n,
            PropExpr::Braid(m, n) => m.saturating_add(*n),
            PropExpr::Generator(g) => g.target(),
            PropExpr::Compose(_, h) => h.target(),
            PropExpr::Tensor(f, h) => f.target().saturating_add(h.target()),
        }
    }

    /// The exact `(source, target)` pair, or `None` if any braid or tensor
    /// width in the tree sums past `usize::MAX`.
    pub fn checked_arities(&self) -> (r: Option<(usize, usize)>)
        ensures
            r is Some <==> self.spec_checked_arities() is Some,
            r matches Some((s, t)) ==> self.spec_checked_arities() == Some((s as nat, t as nat)),
        decreases self,
    {
        match self {
            PropExpr::Identity(n) => Some((*n, *n)),
            PropExpr::Braid(m, n) => {
                match m.checked_add(*n) {
                    Some(w) => Some((w, w)),
                    None => None,
                }
            },
            PropExpr::Generator(g) => Some((g.source(), g.target())),
            PropExpr::Compose(f, h) => {
                match f.checked_arities() {
                    None => None,
                    Some((fs, _)) => match h.checked_arities() {
                        None => None,
                        Some((_, ht)) => Some((fs, ht)),
                    },
                }
            },
            PropExpr::Tensor(f, h) => {
                match f.checked_arities() {
                    None => None,
                    Some((fs, ft)) => match h.checked_arities() {
                        None => None,
                        Some((hs, ht)) => match fs.checked_add(hs) {
                            None => None,
                            Some(s) => match ft.checked_add(ht) {
                                None => None,
                                Some(t) => Some((s, t)),
                            },
                        },
                    },
                }
            },
        }
    }

    /// Whether every arity sum in this subterm fits in `usize`.
    pub fn arities_fit(&self) -> (r: bool)
        ensures
            r == self.spec_arities_fit(),
    {
        self.checked_arities().is_some()
    }
}

/// When every width fits, the saturating arities are the exact ones.
pub proof fn lemma_fit_arities_are_exact<G: PropSignature>(e: PropExpr<G>)
    requires
        e.spec_arities_fit(),
    ensures
        e.spec_checked_arities() == Some((e.spec_source(), e.spec_target())),
    decreases e,
{
    match e {
        PropExpr::Compose(f, h) => {
            lemma_fit_arities_are_exact(*f);
            lemma_fit_arities_are_exact(*h);
        },
        PropExpr::Tensor(f, h) => {
            lemma_fit_arities_are_exact(*f);
            lemma_fit_arities_are_exact(*h);
        },
        _ => {},
    }
}

/// Saturating arities never exceed `usize::MAX`.
pub proof fn lemma_arities_bounded<G: PropSignature>(e: PropExpr<G>)
    ensures
        e.spec_source() <= usize::MAX,
        e.spec_target() <= usize::MAX,
    decreases e,
{
    match e {
        PropExpr::Compose(f, h) => {
            lemma_arities_bounded(*f);
            lemma_arities_bounded(*h);
        },
        _ => {},
    }
}

/// Marker for the prop itself; its morphisms are [`PropExpr`] values.
pub struct Prop<G: PropSignature> {
    marker: core::marker::PhantomData<G>,
}

/// Smart-constructor namespace producing well-formed [`PropExpr`] values.
pub struct Free<G: PropSignature> {
    marker: core::marker::PhantomData<G>,
}

impl<G: PropSignature> Free<G> {
    /// `id_n : n → n`.
    pub fn identity(n: usize) -> (r: PropExpr<G>)
        ensures
            r == PropExpr::<G>::Identity(n),
    {
        PropExpr::Identity(n)
    }

    /// The braiding `σ_{m,n}`.
    pub fn braid(m: usize, n: usize) -> (r: PropExpr<G>)
        ensures
            r == PropExpr::<G>::Braid(m, n),
    {
        PropExpr::Braid(m, n)
    }

    /// Generator inclusion `g ↦ Free(G)`.
    pub fn generator(g: G) -> (r: PropExpr<G>)
        ensures
            r == PropExpr::<G>::Generator(g),
    {
        PropExpr::Generator(g)
    }

    /// Sequential composition `f ; g`, refused when `f`'s target arity differs
    /// from `g`'s source arity.
    pub fn compose(f: PropExpr<G>, g: PropExpr<G>) -> (r: Result<PropExpr<G>, CatgraphError>)
        ensures
            r matches Ok(e) ==> f.spec_target() == g.spec_source() && e == PropExpr::Compose(
                Box::new(f),
                Box::new(g),
            ),
            r matches Err(err) ==> f.spec_target() != g.spec_source() && err
                == (CatgraphError::CompositionSizeMismatch {
                    expected: f.spec_target() as usize,
                    actual: g.spec_source() as usize,
                }),
            r is Ok <==> f.spec_target() == g.spec_source(),
    {
        let ft = f.target();
        let gs = g.source();
        if ft != gs {
            return Err(CatgraphError::CompositionSizeMismatch { expected: ft, actual: gs });
        }
        Ok(PropExpr::Compose(Box::new(f), Box::new(g)))
    }

    /// Parallel tensor `f ⊗ g`; never fails.
    pub fn tensor(f: PropExpr<G>, g: PropExpr<G>) -> (r: PropExpr<G>)
        ensures
            r == PropExpr::Tensor(Box::new(f), Box::new(g)),
    {
        PropExpr::Tensor(Box::new(f), Box::new(g))
    }
}

/// An owned copy of `s`.
pub(crate) fn copy_usizes(s: &[usize]) -> (r: Vec<usize>)
    ensures
        r@ == s@,
{
    let mut v: Vec<usize> = Vec::new();
    let mut i: usize = 0;
    while i < s.len()
        invariant
            i <= s@.len(),
            v@ == s@.take(i as int),
        decreases s@.len() - i,
    {
        v.push(s[i]);
        i = i + 1;
        proof {
            assert(v@ =~= s@.take(i as int));
        }
    }
    proof {
        assert(s@.take(s@.len() as int) =~= s@);
    }
    v
}

/// `s` with the entries at `t` and `t + 1` exchanged.
pub open spec fn swap_adjacent(s: Seq<usize>, t: int) -> Seq<usize> {
    s.update(t, s[t + 1]).update(t + 1, s[t])
}

/// `s` after applying the adjacent transpositions `swaps` left to right.
pub open spec fn apply_swaps(s: Seq<usize>, swaps: Seq<usize>) -> Seq<usize>
    decreases swaps.len(),
{
    if swaps.len() == 0 {
        s
    } else {
        swap_adjacent(apply_swaps(s, swaps.drop_last()), swaps.last() as int)
    }
}

/// `s` is in ascending order.
pub open spec fn is_ascending(s: Seq<usize>) -> bool {
    forall|i: int, j: int| 0 <= i <= j < s.len() ==> s[i] <= s[j]
}

/// How many entries of `s` lie below `x`.
pub open spec fn count_below(s: Seq<usize>, x: usize) -> nat
    decreases s.len(),
{
    if s.len() == 0 {
        0
    } else {
        (if s[0] < x { 1nat } else { 0nat }) + count_below(s.drop_first(), x)
    }
}

/// The number of inversions of `s`, pairs `i < j` with `s[i] > s[j]`: those
/// with the first entry on the left, then the rest's.
pub open spec fn inversions(s: Seq<usize>) -> nat
    decreases s.len(),
{
    if s.len() == 0 {
        0
    } else {
        count_below(s.drop_first(), s[0]) + inversions(s.drop_first())
    }
}

/// An adjacent swap does not change how many entries lie below `x`.
proof fn lemma_count_below_swap(s: Seq<usize>, t: int, x: usize)
    requires
        0 <= t,
        t + 1 < s.len(),
    ensures
        count_below(swap_adjacent(s, t), x) == count_below(s, x),
    decreases t,
{
    let s2 = swap_adjacent(s, t);
    if t == 0 {
        assert(s2.drop_first().drop_first() =~= s.drop_first().drop_first());
        assert(count_below(s.drop_first(), x) == (if s[1] < x { 1nat } else { 0nat }) + count_below(
            s.drop_first().drop_first(),
            x,
        ));
        assert(count_below(s2.drop_first(), x) == (if s2[1] < x { 1nat } else { 0nat }) + count_below(
            s2.drop_first().drop_first(),
            x,
        ));
    } else {
        assert(s2.drop_first() =~= swap_adjacent(s.drop_first(), t - 1));
        lemma_count_below_swap(s.drop_first(), t - 1, x);
    }
}

/// Swapping an adjacent pair removes its inversion if it was out of order and
/// adds one if it was in strict order; no other inversion changes.
proof fn lemma_inversions_swap(s: Seq<usize>, t: int)
    requires
        0 <= t,
        t + 1 < s.len(),
    ensures
        inversions(swap_adjacent(s, t)) + (if s[t] > s[t + 1] { 1int } else { 0int }) == inversions(s) + (if s[t]
            < s[t + 1] { 1int } else { 0int }),
    decreases t,
{
    let s2 = swap_adjacent(s, t);
    if t == 0 {
        let r = s.drop_first().drop_first();
        assert(s2.drop_first().drop_first() =~= r);
        assert(count_below(s.drop_first(), s[0]) == (if s[1] < s[0] { 1nat } else { 0nat }) + count_below(r, s[0]));
        assert(count_below(s2.drop_first(), s[1]) == (if s[0] < s[1] { 1nat } else { 0nat }) + count_below(r, s[1]));
        assert(inversions(s.drop_first()) == count_below(r, s[1]) + inversions(r));
        assert(inversions(s2.drop_first()) == count_below(r, s[0]) + inversions(r));
    } else {
        assert(s2.drop_first() =~= swap_adjacent(s.drop_first(), t - 1));
        lemma_count_below_swap(s.drop_first(), t - 1, s[0]);
        lemma_inversions_swap(s.drop_first(), t - 1);
    }
}

/// No entry below `x` is counted when every entry is at least `x`.
proof fn lemma_count_below_none(s: Seq<usize>, x: usize)
    requires
        forall|i: int| 0 <= i < s.len() ==> s[i] >= x,
    ensures
        count_below(s, x) == 0,
    decreases s.len(),
{
    if s.len() > 0 {
        lemma_count_below_none(s.drop_first(), x);
    }
}

/// An ascending sequence has no inversion.
proof fn lemma_ascending_no_inversions(s: Seq<usize>)
    requires
        is_ascending(s),
    ensures
        inversions(s) == 0,
    decreases s.len(),
{
    if s.len() > 0 {
        assert(forall|i: int| 0 <= i < s.drop_first().len() ==> s.drop_first()[i] == s[i + 1]);
        lemma_count_below_none(s.drop_first(), s[0]);
        lemma_ascending_no_inversions(s.drop_first());
    }
}

/// Each adjacent swap removes at most one inversion.
proof fn lemma_swaps_remove_at_most_len(s: Seq<usize>, swaps: Seq<usize>)
    requires
        forall|i: int| 0 <= i < swaps.len() ==> swaps[i] + 1 < s.len(),
    ensures
        apply_swaps(s, swaps).len() == s.len(),
        inversions(apply_swaps(s, swaps)) + swaps.len() >= inversions(s),
    decreases swaps.len(),
{
    if swaps.len() > 0 {
        let rest = swaps.drop_last();
        lemma_swaps_remove_at_most_len(s, rest);
        let pre = apply_swaps(s, rest);
        lemma_inversions_swap(pre, swaps.last() as int);
    }
}

/// No sequence of adjacent swaps that sorts `s` is shorter than its number of
/// inversions, so the swaps [`adjacent_swaps`] returns are as few as possible.
pub proof fn law_sorting_swaps_at_least_inversions(s: Seq<usize>, swaps: Seq<usize>)
    requires
        forall|i: int| 0 <= i < swaps.len() ==> swaps[i] + 1 < s.len(),
        is_ascending(apply_swaps(s, swaps)),
    ensures
        swaps.len() >= inversions(s),
{
    lemma_swaps_remove_at_most_len(s, swaps);
    lemma_ascending_no_inversions(apply_swaps(s, swaps));
}

/// One bubble-sort pass over the positions `t..end` of `s`: at each
/// position, the entry and its right neighbour swap when out of order. The
/// sequence after the pass, and the positions swapped, in order.
pub open spec fn bubble_pass(s: Seq<usize>, t: nat, end: nat) -> (Seq<usize>, Seq<usize>)
    decreases end - t,
{
    if t >= end {
        (s, Seq::empty())
    } else {
        let out_of_order = s[t as int] > s[t + 1 as int];
        let next = if out_of_order { swap_adjacent(s, t as int) } else { s };
        let rest = bubble_pass(next, t + 1, end);
        (rest.0, if out_of_order { seq![t as usize] + rest.1 } else { rest.1 })
    }
}

/// Bubble-sort passes `pass..k` over a sequence of length `k`, pass `p`
/// covering the positions `0..k - p - 1`: the sorted sequence and the
/// positions swapped, in order.
pub open spec fn bubble_from(s: Seq<usize>, pass: nat, k: nat) -> (Seq<usize>, Seq<usize>)
    decreases k - pass,
{
    if pass >= k {
        (s, Seq::empty())
    } else {
        let first = bubble_pass(s, 0, (k - (pass + 1)) as nat);
        let rest = bubble_from(first.0, pass + 1, k);
        (rest.0, first.1 + rest.1)
    }
}

/// The adjacent swaps bubble sort makes on `s`, in order.
pub open spec fn bubble_swaps(s: Seq<usize>) -> Seq<usize> {
    bubble_from(s, 0, s.len()).1
}

/// Every swap in `swaps` exchanges two adjacent in-range entries that are out of
/// order at the moment it is applied.
pub open spec fn swaps_fix_inversions(s: Seq<usize>, swaps: Seq<usize>) -> bool {
    forall|i: int|
        #![trigger swaps[i]]
        0 <= i < swaps.len() ==> {
            let before = apply_swaps(s, swaps.take(i));
            &&& swaps[i] + 1 < s.len()
            &&& before[swaps[i] as int] > before[swaps[i] + 1]
        }
}

proof fn lemma_apply_swaps_len(s: Seq<usize>, swaps: Seq<usize>)
    requires
        forall|i: int| 0 <= i < swaps.len() ==> swaps[i] + 1 < s.len(),
    ensures
        apply_swaps(s, swaps).len() == s.len(),
    decreases swaps.len(),
{
    if swaps.len() > 0 {
        lemma_apply_swaps_len(s, swaps.drop_last());
    }
}

/// Bubble-sort `perm` ascending and return the positions of the adjacent
/// transpositions in the order performed: `r[i] = t` means the `i`-th swap
/// exchanged positions `t` and `t + 1`. Applying the swaps to `perm` left to
/// right yields the ascending sort; an already sorted input gives no swaps.
pub fn adjacent_swaps(perm: &[usize]) -> (r: Vec<usize>)
    ensures
        swaps_fix_inversions(perm@, r@),
        is_ascending(apply_swaps(perm@, r@)),
        is_ascending(perm@) ==> r@.len() == 0,
        r@.len() == inversions(perm@),
        r@ == bubble_swaps(perm@),
{
    let k = perm.len();
    let mut arr: Vec<usize> = copy_usizes(perm);
    let mut swaps: Vec<usize> = Vec::new();
    let mut pass: usize = 0;
    proof {
        assert(swaps@.take(0) =~= swaps@);
        assert(swaps@ + bubble_from(arr@, 0, k as nat).1 =~= bubble_from(perm@, 0, k as nat).1);
    }
    while pass < k
        invariant
            k == perm@.len(),
            pass <= k,
            arr@.len() == k,
            arr@ == apply_swaps(perm@, swaps@),
            swaps_fix_inversions(perm@, swaps@),
            forall|i: int, j: int| k - pass <= i <= j < k ==> arr@[i] <= arr@[j],
            forall|i: int, j: int| 0 <= i < k - pass <= j < k ==> arr@[i] <= arr@[j],
            is_ascending(perm@) ==> swaps@.len() == 0 && arr@ == perm@,
            swaps@.len() + inversions(arr@) == inversions(perm@),
            swaps@ + bubble_from(arr@, pass as nat, k as nat).1 == bubble_swaps(perm@),
        decreases k - pass,
    {
        let end = k - (pass + 1);
        let mut t: usize = 0;
        proof {
            let first = bubble_pass(arr@, 0, end as nat);
            let rest = bubble_from(first.0, (pass + 1) as nat, k as nat);
            assert(bubble_from(arr@, pass as nat, k as nat).1 == first.1 + rest.1);
            assert(swaps@ + first.1 + rest.1 =~= swaps@ + (first.1 + rest.1));
        }
        while t < end
            invariant
                k == perm@.len(),
                pass < k,
                end == k - (pass + 1),
                t <= end,
                arr@.len() == k,
                arr@ == apply_swaps(perm@, swaps@),
                swaps_fix_inversions(perm@, swaps@),
                forall|i: int, j: int| k - pass <= i <= j < k ==> arr@[i] <= arr@[j],
                forall|i: int, j: int| 0 <= i < k - pass <= j < k ==> arr@[i] <= arr@[j],
                forall|i: int| 0 <= i <= t ==> arr@[i] <= arr@[t as int],
                is_ascending(perm@) ==> swaps@.len() == 0 && arr@ == perm@,
                swaps@.len() + inversions(arr@) == inversions(perm@),
                swaps@ + bubble_pass(arr@, t as nat, end as nat).1 + bubble_from(
                    bubble_pass(arr@, t as nat, end as nat).0,
                    (pass + 1) as nat,
                    k as nat,
                ).1 == bubble_swaps(perm@),
            decreases end - t,
        {
            let ghost arr0 = arr@;
            let ghost sw0 = swaps@;
            if arr[t] > arr[t + 1] {
                let ghost before = arr@;
                let ghost old_swaps = swaps@;
                let a = arr[t];
                let b = arr[t + 1];
                arr.set(t, b);
                arr.set(t + 1, a);
                swaps.push(t);
                proof {
                    assert(swaps@.drop_last() =~= old_swaps);
                    assert(arr@ =~= swap_adjacent(before, t as int));
                    lemma_inversions_swap(before, t as int);
                    assert forall|i: int| #![trigger swaps@[i]] 0 <= i < swaps@.len() implies {
                        let pre = apply_swaps(perm@, swaps@.take(i));
                        &&& swaps@[i] + 1 < perm@.len()
                        &&& pre[swaps@[i] as int] > pre[swaps@[i] + 1]
                    } by {
                        if i < old_swaps.len() {
                            assert(swaps@.take(i) =~= old_swaps.take(i));
                        } else {
                            assert(swaps@.take(i) =~= old_swaps);
                        }
                    }
                }
            }
            proof {
                let inner = bubble_pass(arr0, (t + 1) as nat, end as nat);
                let tail = bubble_from(inner.0, (pass + 1) as nat, k as nat).1;
                if arr0[t as int] > arr0[t + 1] {
                    assert(arr@ == swap_adjacent(arr0, t as int));
                    assert(bubble_pass(arr0, t as nat, end as nat).1 == seq![t as usize] + bubble_pass(
                        arr@,
                        (t + 1) as nat,
                        end as nat,
                    ).1);
                    assert(sw0 + (seq![t as usize] + bubble_pass(arr@, (t + 1) as nat, end as nat).1) =~= swaps@
                        + bubble_pass(arr@, (t + 1) as nat, end as nat).1);
                } else {
                    assert(arr@ == arr0);
                }
            }
            t = t + 1;
        }
        proof {
            assert(swaps@ + Seq::<usize>::empty() =~= swaps@);
        }
        pass = pass + 1;
    }
    proof {
        assert(is_ascending(arr@));
        lemma_ascending_no_inversions(arr@);
        assert(swaps@ + Seq::<usize>::empty() =~= swaps@);
    }
    swaps
}

#[verifier::external_type_specification]
#[verifier::external_body]
pub struct ExPermutation(permutations::Permutation);

/// The image sequence `i ↦ p(i)` of a permutation from the `permutations`
/// crate.
pub uninterp spec fn permutation_images(p: Permutation) -> Seq<usize>;

/// Calls `Permutation::len`: the number of points, which is the length of the
/// image sequence.
#[verifier::external_body]
fn permutation_len(p: &Permutation) -> (r: usize)
    ensures
        r == permutation_images(*p).len(),
{
    p.len()
}

/// Calls `Permutation::apply`: the image of `i`, read from the stored image
/// sequence. Every constructor of the crate validates the images, so the image
/// is again a point.
#[verifier::external_body]
fn permutation_apply(p: &Permutation, i: usize) -> (r: usize)
    requires
        i < permutation_images(*p).len(),
    ensures
        r == permutation_images(*p)[i as int],
        r < permutation_images(*p).len(),
{
    p.apply(i)
}

/// Calls `Permutation::inv`: the inverse permutation, whose images undo `p`'s.
#[verifier::external_body]
fn permutation_inverse(p: &Permutation) -> (r: Permutation)
    ensures
        permutation_images(r).len() == permutation_images(*p).len(),
        forall|i: int|
            0 <= i < permutation_images(*p).len() ==> #[trigger] permutation_images(r)[permutation_images(
                *p,
            )[i] as int] == i,
{
    p.inv()
}

/// The braid layer `id_t ⊗ σ_{1,1} ⊗ id_{n-t-2}` that swaps wires `t`, `t + 1`.
pub open spec fn swap_layer<G: PropSignature>(t: nat, n: nat) -> PropExpr<G> {
    PropExpr::Tensor(
        Box::new(
            PropExpr::Tensor(Box::new(PropExpr::Identity(t as usize)), Box::new(PropExpr::Braid(1, 1))),
        ),
        Box::new(PropExpr::Identity((n - t - 2) as usize)),
    )
}

/// `id_n` followed, input side first, by one swap layer per entry of `swaps`.
pub open spec fn braid_network<G: PropSignature>(n: usize, swaps: Seq<usize>) -> PropExpr<G>
    decreases swaps.len(),
{
    if swaps.len() == 0 {
        PropExpr::Identity(n)
    } else {
        PropExpr::Compose(
            Box::new(braid_network(n, swaps.drop_last())),
            Box::new(swap_layer(swaps.last() as nat, n as nat)),
        )
    }
}

/// `e` is the braiding network realizing the input-indexed permutation
/// `images` on `n` wires: the bubble-sort network of adjacent swaps that sorts
/// `images`.
pub open spec fn is_braiding_of<G: PropSignature>(e: PropExpr<G>, n: usize, images: Seq<usize>) -> bool {
    exists|swaps: Seq<usize>|
        {
            &&& swaps_fix_inversions(images, swaps)
            &&& is_ascending(apply_swaps(images, swaps))
            &&& e == braid_network::<G>(n, swaps)
        }
}

/// A braiding network on `n` wires is an endomorphism of `n`.
pub proof fn lemma_braid_network_arity<G: PropSignature>(n: usize, swaps: Seq<usize>)
    requires
        forall|i: int| 0 <= i < swaps.len() ==> swaps[i] + 1 < n,
    ensures
        braid_network::<G>(n, swaps).spec_source() == n,
        braid_network::<G>(n, swaps).spec_target() == n,
    decreases swaps.len(),
{
    if swaps.len() > 0 {
        let rest = swaps.drop_last();
        assert forall|i: int| 0 <= i < rest.len() implies rest[i] + 1 < n by {
            assert(rest[i] == swaps[i]);
        }
        lemma_braid_network_arity::<G>(n, rest);
        let t = swaps.last();
        assert(swaps[swaps.len() - 1] + 1 < n);
        let inner = PropExpr::<G>::Tensor(
            Box::new(PropExpr::Identity(t as usize)),
            Box::new(PropExpr::Braid(1, 1)),
        );
        assert(PropExpr::<G>::Braid(1, 1).spec_source() == 2);
        assert(PropExpr::<G>::Braid(1, 1).spec_target() == 2);
        assert(PropExpr::<G>::Identity(t as usize).spec_source() == t);
        assert(PropExpr::<G>::Identity(t as usize).spec_target() == t);
        assert(inner.spec_source() == t + 2);
        assert(inner.spec_target() == t + 2);
        let rest_id = PropExpr::<G>::Identity((n - t - 2) as usize);
        assert(rest_id.spec_source() == n - t - 2);
        assert(rest_id.spec_target() == n - t - 2);
        let layer = swap_layer::<G>(t as nat, n as nat);
        assert(layer == PropExpr::<G>::Tensor(Box::new(inner), Box::new(rest_id)));
        assert(layer.spec_source() == n);
        assert(layer.spec_target() == n);
    }
}

/// Build the braiding network for the input-indexed images `perm` on `n` wires.
#[verifier::spinoff_prover]
#[verifier::rlimit(40)]
fn network_of<G: PropSignature>(perm: &[usize], n: usize) -> (r: PropExpr<G>)
    requires
        perm@.len() == n,
    ensures
        is_braiding_of(r, n, perm@),
{
    let swaps = adjacent_swaps(perm);
    let mut expr: PropExpr<G> = PropExpr::Identity(n);
    let mut i: usize = 0;
    proof {
        assert(swaps@.take(0) =~= Seq::<usize>::empty());
        assert forall|j: int| 0 <= j < swaps@.len() implies swaps@[j] + 1 < n by {
            assert(swaps_fix_inversions(perm@, swaps@));
            assert(swaps@[j] + 1 < perm@.len());
        }
    }
    while i < swaps.len()
        invariant
            i <= swaps@.len(),
            forall|j: int| 0 <= j < swaps@.len() ==> swaps@[j] + 1 < n,
            expr == braid_network::<G>(n, swaps@.take(i as int)),
        decreases swaps@.len() - i,
    {
        let t = swaps[i];
        proof {
            assert(swaps@[i as int] + 1 < n);
        }
        let layer: PropExpr<G> = PropExpr::Tensor(
            Box::new(PropExpr::Tensor(Box::new(PropExpr::Identity(t)), Box::new(PropExpr::Braid(1, 1)))),
            Box::new(PropExpr::Identity(n - t - 2)),
        );
        expr = PropExpr::Compose(Box::new(expr), Box::new(layer));
        proof {
            assert(swaps@.take(i + 1).drop_last() =~= swaps@.take(i as int));
        }
        i = i + 1;
    }
    proof {
        assert(swaps@.take(swaps@.len() as int) =~= swaps@);
        assert(swaps_fix_inversions(perm@, swaps@));
        assert(is_ascending(apply_swaps(perm@, swaps@)));
        assert(expr == braid_network::<G>(n, swaps@));
    }
    expr
}

/// The input-indexed image sequence of `p`, read into a vector.
fn images_of(p: &Permutation) -> (r: Vec<usize>)
    ensures
        r@ == permutation_images(*p),
{
    let n = permutation_len(p);
    let mut v: Vec<usize> = Vec::new();
    let mut i: usize = 0;
    while i < n
        invariant
            n == permutation_images(*p).len(),
            i <= n,
            v@ == permutation_images(*p).take(i as int),
        decreases n - i,
    {
        v.push(permutation_apply(p, i));
        i = i + 1;
        proof {
            assert(v@ =~= permutation_images(*p).take(i as int));
        }
    }
    proof {
        assert(permutation_images(*p).take(n as int) =~= permutation_images(*p));
    }
    v
}

impl<G: PropSignature> PropExpr<G> {
    /// The braiding network shared by the two permutation constructors: a wire
    /// entering at position `i` exits at position `p(i)`.
    fn braiding_expr(p: &Permutation, arity: usize) -> (r: Result<Self, CatgraphError>)
        ensures
            r is Ok <==> permutation_images(*p).len() == arity,
            r matches Ok(e) ==> is_braiding_of(e, arity, permutation_images(*p)),
            r matches Err(err) ==> err is Composition,
    {
        if permutation_len(p) != arity {
            return Err(crate::error::composition_error(
                "PropExpr::from_permutation: permutation length differs from the number of types provided",
            ));
        }
        let images = images_of(p);
        Ok(network_of(images.as_slice(), arity))
    }

    /// The pure braiding `n → n` realizing `p`, input-indexed: the wire entering
    /// at position `i` exits at position `p(i)`. Only the length of `types`
    /// matters.
    pub fn from_permutation_on_domain(p: Permutation, types: &[()]) -> (r: Result<Self, CatgraphError>)
        ensures
            r is Ok <==> permutation_images(p).len() == types@.len(),
            r matches Ok(e) ==> is_braiding_of(e, types@.len() as usize, permutation_images(p)),
            r matches Err(err) ==> err is Composition,
    {
        Self::braiding_expr(&p, types.len())
    }

    /// The same morphism as [`PropExpr::from_permutation_on_domain`]: on a
    /// single-sorted carrier the two coincide.
    pub fn from_permutation_on_codomain(p: Permutation, types: &[()]) -> (r: Result<Self, CatgraphError>)
        ensures
            r is Ok <==> permutation_images(p).len() == types@.len(),
            r matches Ok(e) ==> is_braiding_of(e, types@.len() as usize, permutation_images(p)),
            r matches Err(err) ==> err is Composition,
    {
        Self::braiding_expr(&p, types.len())
    }

    /// Permute the wires on one side in place: postcompose the braiding of `p`
    /// onto the codomain, or precompose the braiding of `p⁻¹` onto the domain.
    /// A `p` whose length differs from that side's arity leaves `self`
    /// unchanged.
    pub fn permute_side(&mut self, p: &Permutation, of_codomain: bool)
        ensures
            ({
                let n = if of_codomain {
                    old(self).spec_target()
                } else {
                    old(self).spec_source()
                };
                &&& permutation_images(*p).len() != n ==> *final(self) == *old(self)
                &&& (permutation_images(*p).len() == n && of_codomain) ==> exists|b: PropExpr<G>|
                    is_braiding_of(b, n as usize, permutation_images(*p)) && *final(self)
                        == PropExpr::Compose(Box::new(*old(self)), Box::new(b))
                &&& (permutation_images(*p).len() == n && !of_codomain) ==> exists|
                    b: PropExpr<G>,
                    inv: Seq<usize>,
                |
                    {
                        &&& inv.len() == n
                        &&& (forall|i: int|
                            0 <= i < n ==> #[trigger] inv[permutation_images(*p)[i] as int] == i)
                        &&& is_braiding_of(b, n as usize, inv)
                        &&& *final(self) == PropExpr::Compose(Box::new(b), Box::new(*old(self)))
                    }
            }),
    {
        let n = if of_codomain {
            self.target()
        } else {
            self.source()
        };
        if permutation_len(p) != n {
            return ;
        }
        let old_self = self.clone();
        if of_codomain {
            let images = images_of(p);
            let braid: PropExpr<G> = network_of(images.as_slice(), n);
            *self = PropExpr::Compose(Box::new(old_self), Box::new(braid));
            proof {
                assert(is_braiding_of(braid, n, permutation_images(*p)));
            }
        } else {
            let q = permutation_inverse(p);
            let images = images_of(&q);
            let braid: PropExpr<G> = network_of(images.as_slice(), n);
            *self = PropExpr::Compose(Box::new(braid), Box::new(old_self));
            proof {
                let inv = permutation_images(q);
                assert(is_braiding_of(braid, n, inv));
                assert(inv.len() == n);
                assert(forall|i: int|
                    0 <= i < n ==> #[trigger] inv[permutation_images(*p)[i] as int] == i);
            }
        }
    }

    /// `id` on the object `on_this` (a prop object is a length).
    pub fn identity(on_this: &Vec<()>) -> (r: Self)
        ensures
            r == PropExpr::<G>::Identity(on_this@.len() as usize),
    {
        PropExpr::Identity(on_this.len())
    }

    /// `self ; other`, refused on an arity mismatch.
    pub fn compose(&self, other: &Self) -> (r: Result<Self, CatgraphError>)
        ensures
            r is Ok <==> self.spec_target() == other.spec_source(),
            r matches Ok(e) ==> e == PropExpr::Compose(Box::new(*self), Box::new(*other)),
            r matches Err(err) ==> err == (CatgraphError::CompositionSizeMismatch {
                expected: self.spec_target() as usize,
                actual: other.spec_source() as usize,
            }),
    {
        Free::compose(self.clone(), other.clone())
    }

    /// The domain object, a word of `source()` units.
    pub fn domain(&self) -> (r: Vec<()>)
        ensures
            r@.len() == self.spec_source(),
    {
        mono_word(self.source())
    }

    /// The codomain object, a word of `target()` units.
    pub fn codomain(&self) -> (r: Vec<()>)
        ensures
            r@.len() == self.spec_target(),
    {
        mono_word(self.target())
    }

    /// Tensor `other` onto the right of `self`, in place.
    pub fn monoidal(&mut self, other: Self)
        ensures
            *final(self) == PropExpr::Tensor(Box::new(*old(self)), Box::new(other)),
    {
        let lhs = self.clone();
        *self = PropExpr::Tensor(Box::new(lhs), Box::new(other));
    }
}

/// Generator equality of `G` is structural equality.
pub open spec fn gens_are_structural<G: PropSignature>() -> bool {
    vstd::laws_eq::obeys_concrete_eq::<G>()
}

/// Structural equality of two expressions.
pub fn expr_eq<G: PropSignature>(a: &PropExpr<G>, b: &PropExpr<G>) -> (r: bool)
    requires
        gens_are_structural::<G>(),
    ensures
        r == (*a == *b),
    decreases a,
{
    match (a, b) {
        (PropExpr::Identity(x), PropExpr::Identity(y)) => *x == *y,
        (PropExpr::Braid(x1, x2), PropExpr::Braid(y1, y2)) => *x1 == *y1 && *x2 == *y2,
        (PropExpr::Generator(g), PropExpr::Generator(h)) => {
            let same = *g == *h;
            proof {
                reveal(vstd::laws_eq::obeys_concrete_eq);
            }
            same
        },
        (PropExpr::Compose(f1, g1), PropExpr::Compose(f2, g2)) => expr_eq(f1, f2) && expr_eq(g1, g2),
        (PropExpr::Tensor(f1, g1), PropExpr::Tensor(f2, g2)) => expr_eq(f1, f2) && expr_eq(g1, g2),
        _ => false,
    }
}

} // verus!
