//! Λ-colored well-formedness for free-prop expressions.
//!
//! Interfaces of a Λ-colored prop are words over Λ, not bare numbers.
//! `Identity` and `Braid` carry only a width and are color-polymorphic, so
//! colors flow top-down: given a source word, [`check`] threads it through
//! the tree and returns the target word. [`ColoredExpr`] pairs an expression
//! with the source word it was checked against. Equations carry no declared
//! source word; [`check_equation`] infers whether a common one exists.
use vstd::prelude::*;
use vstd::laws_eq::obeys_concrete_eq;
use crate::forest::{forest_ok, lemma_link_roots, lemma_reparent_keeps_roots, lemma_root_is_root, root_at};
use crate::error::CatgraphError;
use super::{PropExpr, PropSignature, sat_add, gens_are_structural};
use super::presentation::smc_nf::{nf, diagrams_equal};

verus! {

/// Color equality of `G`'s palette is structural equality.
pub open spec fn colors_are_structural<G: PropSignature>() -> bool {
    obeys_concrete_eq::<G::Color>()
}

/// What threading a word through an expression yields.
pub enum CheckOutcome<C> {
    /// The resulting target word.
    Word(Seq<C>),
    /// A subterm was handed a word of the wrong length.
    SizeMismatch(usize, usize),
    /// A generator was handed a word of the right length but the wrong colors.
    ColorMismatch,
}

/// Thread `w` through `e` top-down: composition requires word equality at the
/// interface, tensor splits the word at the left factor's source arity, a
/// braid swaps the two blocks, and a generator demands exactly its source word.
pub open spec fn spec_check<G: PropSignature>(e: PropExpr<G>, w: Seq<G::Color>) -> CheckOutcome<
    G::Color,
>
    decreases e,
{
    match e {
        PropExpr::Identity(n) => if w.len() == n {
            CheckOutcome::Word(w)
        } else {
            CheckOutcome::SizeMismatch(n, w.len() as usize)
        },
        PropExpr::Braid(m, n) => {
            let k = sat_add(m as nat, n as nat);
            if w.len() == k {
                CheckOutcome::Word(w.subrange(m as int, k as int) + w.subrange(0, m as int))
            } else {
                CheckOutcome::SizeMismatch(k as usize, w.len() as usize)
            }
        },
        PropExpr::Generator(g) => {
            let want = g.spec_source_word();
            if w.len() != want.len() {
                CheckOutcome::SizeMismatch(want.len() as usize, w.len() as usize)
            } else if w != want {
                CheckOutcome::ColorMismatch
            } else {
                CheckOutcome::Word(g.spec_target_word())
            }
        },
        PropExpr::Compose(f, h) => match spec_check(*f, w) {
            CheckOutcome::Word(mid) => spec_check(*h, mid),
            other => other,
        },
        PropExpr::Tensor(f, h) => {
            let split = f.spec_source();
            if w.len() < split {
                CheckOutcome::SizeMismatch(split as usize, w.len() as usize)
            } else {
                match spec_check(*f, w.subrange(0, split as int)) {
                    CheckOutcome::Word(left) => match spec_check(
                        *h,
                        w.subrange(split as int, w.len() as int),
                    ) {
                        CheckOutcome::Word(right) => CheckOutcome::Word(left + right),
                        other => other,
                    },
                    other => other,
                }
            }
        },
    }
}

/// The message of the `Composition` error [`check`] reports for a color
/// mismatch.
pub open spec fn color_mismatch_message() -> Seq<char> {
    "colored check: a generator received a word other than its declared source word"@
}

/// A braid `σ_{m,n}` takes a word of length `m + n` to the same letters with
/// the first `m` moved after the remaining `n`: `u ⊗ v ↦ v ⊗ u`.
pub proof fn law_braid_swaps_blocks<G: PropSignature>(m: usize, n: usize, w: Seq<G::Color>)
    requires
        w.len() == m + n,
        m + n <= usize::MAX,
    ensures
        spec_check(PropExpr::<G>::Braid(m, n), w) == CheckOutcome::Word(
            w.subrange(m as int, w.len() as int) + w.subrange(0, m as int),
        ),
        forall|i: int| 0 <= i < n ==> #[trigger] spec_check(PropExpr::<G>::Braid(m, n), w)->Word_0[i] == w[m + i],
        forall|i: int| 0 <= i < m ==> #[trigger] spec_check(PropExpr::<G>::Braid(m, n), w)->Word_0[n + i] == w[i],
{
    assert(sat_add(m as nat, n as nat) == m + n);
}

/// `r` reports `outcome`: the word on success, the exact size mismatch, or
/// the `Composition` error for a color mismatch.
pub open spec fn reports<C>(r: Result<Vec<C>, CatgraphError>, outcome: CheckOutcome<C>) -> bool {
    match outcome {
        CheckOutcome::Word(w) => r matches Ok(v) && v@ == w,
        CheckOutcome::SizeMismatch(x, y) => r == Err::<Vec<C>, CatgraphError>(
            CatgraphError::CompositionSizeMismatch { expected: x, actual: y },
        ),
        CheckOutcome::ColorMismatch => r matches Err(CatgraphError::Composition { message })
            && message@ == color_mismatch_message(),
    }
}

/// The entries `lo..hi` of `s`, copied.
pub(crate) fn copy_range<C: Copy>(s: &[C], lo: usize, hi: usize) -> (r: Vec<C>)
    requires
        lo <= hi <= s@.len(),
    ensures
        r@ == s@.subrange(lo as int, hi as int),
{
    let mut v: Vec<C> = Vec::new();
    let mut i = lo;
    while i < hi
        invariant
            lo <= i <= hi <= s@.len(),
            v@ == s@.subrange(lo as int, i as int),
        decreases hi - i,
    {
        v.push(s[i]);
        i = i + 1;
        proof {
            assert(v@ =~= s@.subrange(lo as int, i as int));
        }
    }
    v
}

/// Whether two words are equal, letter by letter.
pub(crate) fn words_equal<C: Copy + PartialEq>(a: &[C], b: &[C]) -> (r: bool)
    requires
        obeys_concrete_eq::<C>(),
    ensures
        r == (a@ == b@),
{
    if a.len() != b.len() {
        return false;
    }
    let mut i: usize = 0;
    while i < a.len()
        invariant
            obeys_concrete_eq::<C>(),
            a@.len() == b@.len(),
            i <= a@.len(),
            forall|j: int| 0 <= j < i ==> a@[j] == b@[j],
        decreases a@.len() - i,
    {
        let same = a[i] == b[i];
        proof {
            reveal(obeys_concrete_eq);
        }
        if !same {
            return false;
        }
        i = i + 1;
    }
    proof {
        assert(a@ =~= b@);
    }
    true
}

fn expect_len<C>(expected: usize, input: &[C]) -> (r: Result<(), CatgraphError>)
    ensures
        r is Ok <==> input@.len() == expected,
        r matches Err(err) ==> err == (CatgraphError::CompositionSizeMismatch {
            expected,
            actual: input@.len() as usize,
        }),
{
    if input.len() == expected {
        Ok(())
    } else {
        Err(CatgraphError::CompositionSizeMismatch { expected, actual: input.len() })
    }
}

fn expect_at_least<C>(expected: usize, input: &[C]) -> (r: Result<(), CatgraphError>)
    ensures
        r is Ok <==> input@.len() >= expected,
        r matches Err(err) ==> err == (CatgraphError::CompositionSizeMismatch {
            expected,
            actual: input@.len() as usize,
        }),
{
    if input.len() >= expected {
        Ok(())
    } else {
        Err(CatgraphError::CompositionSizeMismatch { expected, actual: input.len() })
    }
}

/// Thread `input` through `expr` top-down and return the resulting target
/// word: composition requires *word* equality at the interface, not merely
/// equal arities.
///
/// Errors: `CompositionSizeMismatch` when a subterm is handed a word of the
/// wrong length (including the top-level call); `Composition` when the
/// lengths agree but a generator receives the wrong colors.
pub fn check<G: PropSignature>(expr: &PropExpr<G>, input: &[G::Color]) -> (r: Result<
    Vec<G::Color>,
    CatgraphError,
>)
    requires
        colors_are_structural::<G>(),
    ensures
        reports(r, spec_check(*expr, input@)),
        *expr matches PropExpr::Braid(m, n) ==> (input@.len() == m + n && m + n <= usize::MAX ==> (r matches Ok(v)
            && v@ == input@.subrange(m as int, input@.len() as int) + input@.subrange(0, m as int))),
    decreases expr,
{
    match expr {
        PropExpr::Identity(n) => {
            match expect_len(*n, input) {
                Err(e) => Err(e),
                Ok(()) => {
                    let out = copy_range(input, 0, input.len());
                    proof {
                        assert(out@ =~= input@);
                    }
                    Ok(out)
                },
            }
        },
        PropExpr::Braid(m, n) => {
            let k = m.saturating_add(*n);
            match expect_len(k, input) {
                Err(e) => Err(e),
                Ok(()) => {
                    let mut out = copy_range(input, *m, input.len());
                    let mut front = copy_range(input, 0, *m);
                    out.append(&mut front);
                    proof {
                        assert(sat_add(*m as nat, *n as nat) == k);
                    }
                    Ok(out)
                },
            }
        },
        PropExpr::Generator(g) => {
            let want = g.source_word();
            match expect_len(want.len(), input) {
                Err(e) => Err(e),
                Ok(()) => {
                    if !words_equal(input, want.as_slice()) {
                        return Err(
                            crate::error::composition_error(
                                "colored check: a generator received a word other than its declared source word",
                            ),
                        );
                    }
                    Ok(g.target_word())
                },
            }
        },
        PropExpr::Compose(f, h) => {
            match check(f, input) {
                Err(e) => Err(e),
                Ok(mid) => check(h, mid.as_slice()),
            }
        },
        PropExpr::Tensor(f, h) => {
            let split = f.source();
            match expect_at_least(split, input) {
                Err(e) => Err(e),
                Ok(()) => {
                    let left = copy_range(input, 0, split);
                    let right = copy_range(input, split, input.len());
                    match check(f, left.as_slice()) {
                        Err(e) => Err(e),
                        Ok(mut out) => match check(h, right.as_slice()) {
                            Err(e) => Err(e),
                            Ok(mut rest) => {
                                let ghost l = out@;
                                let ghost rr = rest@;
                                out.append(&mut rest);
                                proof {
                                    assert(out@ == l + rr);
                                }
                                Ok(out)
                            },
                        },
                    }
                },
            }
        },
    }
}

/// The length-level shadow of [`spec_check`]: the target arity a word of
/// length `n` yields, or the first size mismatch. Colors play no part.
pub open spec fn spec_lengths<G: PropSignature>(e: PropExpr<G>, n: nat) -> Result<nat, (usize, usize)>
    decreases e,
{
    match e {
        PropExpr::Identity(k) => if n == k {
            Ok(n)
        } else {
            Err((k, n as usize))
        },
        PropExpr::Braid(a, b) => {
            let k = sat_add(a as nat, b as nat);
            if n == k {
                Ok(n)
            } else {
                Err((k as usize, n as usize))
            }
        },
        PropExpr::Generator(g) => if n == g.spec_source_word().len() {
            Ok(g.spec_target_word().len())
        } else {
            Err((g.spec_source_word().len() as usize, n as usize))
        },
        PropExpr::Compose(f, h) => match spec_lengths(*f, n) {
            Ok(mid) => spec_lengths(*h, mid),
            Err(x) => Err(x),
        },
        PropExpr::Tensor(f, h) => {
            let split = f.spec_source();
            if n < split {
                Err((split as usize, n as usize))
            } else {
                match spec_lengths(*f, split) {
                    Ok(a) => match spec_lengths(*h, (n - split) as nat) {
                        Ok(b) => Ok(a + b),
                        Err(x) => Err(x),
                    },
                    Err(x) => Err(x),
                }
            }
        },
    }
}

/// [`spec_check`] fails on length exactly where [`spec_lengths`] does, and a
/// word it produces has the length `spec_lengths` predicts.
pub proof fn lemma_check_lengths<G: PropSignature>(e: PropExpr<G>, w: Seq<G::Color>)
    ensures
        spec_check(e, w) matches CheckOutcome::Word(t) ==> spec_lengths(e, w.len()) == Ok::<
            nat,
            (usize, usize),
        >(t.len()),
        spec_check(e, w) matches CheckOutcome::SizeMismatch(x, y) ==> spec_lengths(e, w.len())
            == Err::<nat, (usize, usize)>((x, y)),
    decreases e,
{
    match e {
        PropExpr::Compose(f, h) => {
            lemma_check_lengths(*f, w);
            if let CheckOutcome::Word(mid) = spec_check(*f, w) {
                lemma_check_lengths(*h, mid);
            }
        },
        PropExpr::Tensor(f, h) => {
            let split = f.spec_source();
            if w.len() >= split {
                lemma_check_lengths(*f, w.subrange(0, split as int));
                lemma_check_lengths(*h, w.subrange(split as int, w.len() as int));
            }
        },
        _ => {},
    }
}

/// Along a parent chain of non-roots, ghost levels strictly rise, so every
/// earlier node sits below the last.
proof fn lemma_levels_rise(parent: Seq<usize>, level: Seq<nat>, path: Seq<usize>, j: int, k: int)
    requires
        0 <= j < k < path.len(),
        level.len() == parent.len(),
        forall|i: int| 0 <= i < parent.len() && parent[i] != i ==> level[parent[i] as int] > level[i],
        forall|m: int| 0 <= m < path.len() ==> path[m] < parent.len(),
        forall|m: int| 0 <= m < path.len() - 1 ==> parent[path[m] as int] == path[m + 1],
        forall|m: int| 0 <= m < path.len() - 1 ==> parent[path[m] as int] != path[m],
    ensures
        level[path[j] as int] < level[path[k] as int],
    decreases k - j,
{
    if j < k - 1 {
        lemma_levels_rise(parent, level, path, j + 1, k);
    }
}

/// `min(n, usize::MAX)`.
pub open spec fn clamp(n: nat) -> nat {
    sat_add(n, 0)
}

/// A length-feasible expression has the saturating arities its length run
/// reports: source `min(n, MAX)` and target `min(m, MAX)`.
pub proof fn lemma_lengths_give_arities<G: PropSignature>(e: PropExpr<G>, n: nat)
    requires
        spec_lengths(e, n) is Ok,
    ensures
        e.spec_source() == clamp(n),
        spec_lengths(e, n) matches Ok(m) && e.spec_target() == clamp(m),
    decreases e,
{
    match e {
        PropExpr::Compose(f, h) => {
            lemma_lengths_give_arities(*f, n);
            if let Ok(mid) = spec_lengths(*f, n) {
                lemma_lengths_give_arities(*h, mid);
            }
        },
        PropExpr::Tensor(f, h) => {
            let split = f.spec_source();
            super::lemma_arities_bounded(*f);
            lemma_lengths_give_arities(*f, split);
            lemma_lengths_give_arities(*h, (n - split) as nat);
        },
        _ => {},
    }
}

/// A letter of an inferred word: a unification variable or a concrete color.
#[derive(Clone, Copy, Debug)]
enum Term<C> {
    /// An as-yet-unconstrained color, by variable index.
    Var(usize),
    /// A concrete color.
    Const(C),
}

/// Union-find over an equation's source variables, one optional color binding
/// per class. Binding a class to a second, different color is a conflict,
/// reported as the `(left, right)` pair of colors.
struct Unifier<C> {
    parent: Vec<usize>,
    color: Vec<Option<C>>,
    level: Ghost<Seq<nat>>,
    top: Ghost<nat>,
}

impl<C: Copy + PartialEq> Unifier<C> {
    /// The forest is well formed: parents are in range, and every non-root
    /// sits strictly below its parent in a ghost level that bounds path length.
    spec fn wf(&self) -> bool {
        &&& self.parent@.len() == self.color@.len()
        &&& self.level@.len() == self.parent@.len()
        &&& forall|i: int| 0 <= i < self.parent@.len() ==> self.parent@[i] < self.parent@.len()
        &&& forall|i: int|
            0 <= i < self.parent@.len() && self.parent@[i] != i ==> self.level@[self.parent@[i] as int]
                > self.level@[i]
        &&& forall|i: int| 0 <= i < self.parent@.len() ==> self.level@[i] <= self.top@
    }

    /// Number of variables allocated so far.
    spec fn size(&self) -> nat {
        self.parent@.len()
    }

    /// An empty unifier.
    fn new() -> (r: Self)
        ensures
            r.wf(),
            r.size() == 0,
    {
        Unifier { parent: Vec::new(), color: Vec::new(), level: Ghost(Seq::empty()), top: Ghost(0) }
    }

    /// Allocate a fresh, unbound variable.
    fn fresh(&mut self) -> (v: usize)
        requires
            old(self).wf(),
            old(self).size() < usize::MAX,
        ensures
            final(self).wf(),
            v == old(self).size(),
            final(self).size() == old(self).size() + 1,
            final(self).parent@ == old(self).parent@.push(v),
            final(self).color@ == old(self).color@.push(None),
    {
        let v = self.parent.len();
        self.parent.push(v);
        self.color.push(None);
        proof {
            self.level@ = self.level@.push(0);
        }
        v
    }

    /// The root of `v`'s class.
    spec fn root(&self, v: int) -> int {
        root_at(self.parent@, self.level@, self.top@, v)
    }

    /// The color bound to `v`'s class, if any.
    spec fn class_color(&self, v: int) -> Option<C> {
        self.color@[self.root(v)]
    }

    /// The root of `v`'s class, compressing the path walked.
    #[verifier::rlimit(40)]
    fn find(&mut self, v: usize) -> (r: usize)
        requires
            old(self).wf(),
            v < old(self).size(),
        ensures
            final(self).wf(),
            final(self).size() == old(self).size(),
            r < final(self).size(),
            final(self).parent@[r as int] == r,
            final(self).color@ == old(self).color@,
            r == old(self).root(v as int),
            forall|y: int| 0 <= y < old(self).size() ==> #[trigger] final(self).root(y) == old(self).root(y),
    {
        let ghost mut path: Seq<usize> = seq![v];
        let mut root = v;
        proof {
            assert(forest_ok(self.parent@, self.level@, self.top@));
        }
        while self.parent[root] != root
            invariant
                self.wf(),
                *self == *old(self),
                self.parent@.len() == old(self).parent@.len(),
                self.color@ == old(self).color@,
                root < self.parent@.len(),
                path.len() >= 1,
                path[0] == v,
                path.last() == root,
                forall|j: int| 0 <= j < path.len() ==> path[j] < self.parent@.len(),
                forall|j: int| 0 <= j < path.len() - 1 ==> self.parent@[path[j] as int] == path[j + 1],
                forall|j: int| 0 <= j < path.len() - 1 ==> self.parent@[path[j] as int] != path[j],
                forall|j: int| 0 <= j < path.len() ==> #[trigger] self.root(path[j] as int) == self.root(v as int),
            decreases self.top@ - self.level@[root as int],
        {
            proof {
                assert(self.root(root as int) == self.root(self.parent@[root as int] as int));
            }
            root = self.parent[root];
            proof {
                path = path.push(root);
            }
        }
        proof {
            assert(self.root(root as int) == root);
            assert(self.root(path[path.len() - 1] as int) == self.root(v as int));
        }
        proof {
            assert forall|j: int| 0 <= j < path.len() - 1 implies self.level@[path[j] as int]
                < self.level@[root as int] by {
                lemma_levels_rise(self.parent@, self.level@, path, j, path.len() - 1);
            }
            assert forall|j: int, k: int| 0 <= j < k < path.len() implies path[j] != path[k] by {
                lemma_levels_rise(self.parent@, self.level@, path, j, k);
            }
        }
        let mut cur = v;
        let ghost mut i: int = 0;
        while self.parent[cur] != cur
            invariant
                self.wf(),
                self.parent@.len() == old(self).parent@.len(),
                self.color@ == old(self).color@,
                root < self.parent@.len(),
                self.parent@[root as int] == root,
                0 <= i < path.len(),
                cur == path[i],
                path.last() == root,
                forall|j: int| 0 <= j < path.len() ==> path[j] < self.parent@.len(),
                forall|j: int| i <= j < path.len() - 1 ==> self.parent@[path[j] as int] == path[j + 1],
                forall|j: int| i <= j < path.len() - 1 ==> self.parent@[path[j] as int] != path[j],
                forall|j: int| 0 <= j < path.len() - 1 ==> self.level@[path[j] as int]
                    < self.level@[root as int],
                forall|j: int, k: int| 0 <= j < k < path.len() ==> path[j] != path[k],
                self.level@ == old(self).level@,
                self.top@ == old(self).top@,
                forest_ok(self.parent@, self.level@, self.top@),
                root == old(self).root(v as int),
                forall|j: int| 0 <= j < path.len() ==> #[trigger] old(self).root(path[j] as int) == old(self).root(v as int),
                forall|y: int| 0 <= y < old(self).size() ==> #[trigger] self.root(y) == old(self).root(y),
            decreases path.len() - i,
        {
            let next = self.parent[cur];
            let ghost pre = *self;
            proof {
                assert(i < path.len() - 1);
                assert(pre.root(root as int) == root);
                assert(pre.root(cur as int) == old(self).root(path[i] as int));
            }
            self.parent.set(cur, root);
            proof {
                assert(self.parent@ == pre.parent@.update(cur as int, root));
                assert forall|y: int| 0 <= y < old(self).size() implies #[trigger] self.root(y) == old(self).root(y) by {
                    lemma_reparent_keeps_roots(pre.parent@, pre.level@, pre.top@, cur as int, root, y);
                    assert(pre.root(y) == old(self).root(y));
                }
                i = i + 1;
            }
            cur = next;
        }
        root
    }

    /// `after` is `self` with `v`'s class bound to `c`: the classes stay, an
    /// unbound class takes `c`, and a class bound to another color is a
    /// conflict `(found, c)` (`(c, found)` when `swap`), changing nothing.
    spec fn bind_outcome(self, after: Self, v: int, c: C, swap: bool, r: Result<(), (C, C)>) -> bool {
        &&& forall|y: int| 0 <= y < self.size() ==> #[trigger] after.root(y) == self.root(y)
        &&& match self.class_color(v) {
            Some(f) => after.color@ == self.color@ && r == (if f == c {
                Ok(())
            } else if swap {
                Err((c, f))
            } else {
                Err((f, c))
            }),
            None => after.color@ == self.color@.update(self.root(v), Some(c)) && r == Ok::<(), (C, C)>(()),
        }
    }

    /// `after` is `self` with the classes of `x` and `y` unified: nothing
    /// changes when they are one class or carry two different colors (a
    /// conflict `(color of x, color of y)`); otherwise `x`'s class joins
    /// `y`'s, which keeps its color or takes `x`'s.
    spec fn alias_outcome(self, after: Self, x: int, y: int, r: Result<(), (C, C)>) -> bool {
        let cx = self.class_color(x);
        let cy = self.class_color(y);
        if self.root(x) == self.root(y) || (cx is Some && cy is Some && cx != cy) {
            &&& r == if self.root(x) == self.root(y) {
                Ok::<(), (C, C)>(())
            } else {
                Err((cx.unwrap(), cy.unwrap()))
            }
            &&& after.color@ == self.color@
            &&& forall|z: int| 0 <= z < self.size() ==> #[trigger] after.root(z) == self.root(z)
        } else {
            &&& r == Ok::<(), (C, C)>(())
            &&& after.color@ == self.color@.update(self.root(y), if cy is Some { cy } else { cx })
            &&& forall|z: int|
                0 <= z < self.size() ==> #[trigger] after.root(z) == if self.root(z) == self.root(x) {
                    self.root(y)
                } else {
                    self.root(z)
                }
        }
    }

    /// Bind `v`'s class to `c`; `Err((found, c))` if it already carries another.
    fn bind(&mut self, v: usize, c: &C) -> (r: Result<(), (C, C)>)
        requires
            old(self).wf(),
            v < old(self).size(),
            obeys_concrete_eq::<C>(),
        ensures
            final(self).wf(),
            final(self).size() == old(self).size(),
            old(self).bind_outcome(*final(self), v as int, *c, false, r),
            single_color::<C>() ==> r is Ok,
    {
        let ghost before = *self;
        let root = self.find(v);
        let ghost s1 = *self;
        match self.color[root] {
            Some(found) => {
                let same = found == *c;
                proof {
                    reveal(obeys_concrete_eq);
                    if single_color::<C>() {
                        assert(same_color(found, *c));
                    }
                }
                if !same {
                    Err((found, *c))
                } else {
                    Ok(())
                }
            },
            None => {
                self.color.set(root, Some(*c));
                proof {
                    assert forall|y: int| 0 <= y < before.size() implies #[trigger] self.root(y) == before.root(y) by {
                        assert(s1.root(y) == before.root(y));
                    }
                }
                Ok(())
            },
        }
    }

    /// Unify two terms: alias two variables, bind a variable to a color, or
    /// compare two colors. A conflict is reported as `(left, right)`.
    fn unify(&mut self, a: &Term<C>, b: &Term<C>) -> (r: Result<(), (C, C)>)
        requires
            old(self).wf(),
            obeys_concrete_eq::<C>(),
            a matches Term::Var(x) ==> x < old(self).size(),
            b matches Term::Var(y) ==> y < old(self).size(),
        ensures
            final(self).wf(),
            final(self).size() == old(self).size(),
            match (*a, *b) {
                (Term::Var(x), Term::Var(y)) => old(self).alias_outcome(*final(self), x as int, y as int, r),
                (Term::Var(x), Term::Const(c)) => old(self).bind_outcome(*final(self), x as int, c, false, r),
                (Term::Const(c), Term::Var(y)) => old(self).bind_outcome(*final(self), y as int, c, true, r),
                (Term::Const(x), Term::Const(y)) => *final(self) == *old(self) && r == if x == y {
                    Ok::<(), (C, C)>(())
                } else {
                    Err((x, y))
                },
            },
            single_color::<C>() ==> r is Ok,
    {
        match (a, b) {
            (Term::Var(x), Term::Var(y)) => {
                let ghost before = *self;
                let rx = self.find(*x);
                let ghost s1 = *self;
                let ry = self.find(*y);
                let ghost s2 = *self;
                proof {
                    assert(s1.root(*y as int) == before.root(*y as int));
                    assert forall|z: int| 0 <= z < before.size() implies #[trigger] self.root(z) == before.root(z) by {
                        assert(self.root(z) == s1.root(z));
                        assert(s1.root(z) == before.root(z));
                    }
                    assert(s1.root(rx as int) == rx);
                    assert(self.root(rx as int) == rx);
                    assert(forest_ok(self.parent@, self.level@, self.top@));
                    lemma_root_is_root(self.parent@, self.level@, self.top@, rx as int);
                }
                if rx == ry {
                    return Ok(());
                }
                match (self.color[rx], self.color[ry]) {
                    (Some(cx), Some(cy)) => {
                        let same = cx == cy;
                        proof {
                            reveal(obeys_concrete_eq);
                            if single_color::<C>() {
                                assert(same_color(cx, cy));
                            }
                        }
                        if !same {
                            return Err((cx, cy));
                        }
                    },
                    (Some(cx), None) => {
                        self.color.set(ry, Some(cx));
                    },
                    _ => {},
                }
                let ghost mid = *self;
                self.parent.set(rx, ry);
                proof {
                    let lv = if self.level@[ry as int] > self.level@[rx as int] {
                        self.level@[ry as int]
                    } else {
                        self.level@[rx as int] + 1
                    };
                    assert forall|z: int| 0 <= z < mid.parent@.len() implies root_at(
                        mid.parent@.update(rx as int, ry),
                        mid.level@.update(ry as int, lv),
                        if lv > mid.top@ { lv } else { mid.top@ },
                        z,
                    ) == if mid.root(z) == rx as int { ry as int } else { mid.root(z) } by {
                        lemma_link_roots(mid.parent@, mid.level@, mid.top@, rx as int, ry as int, lv, z);
                    }
                    self.level@ = self.level@.update(ry as int, lv);
                    if lv > self.top@ {
                        self.top@ = lv;
                    }
                    assert(self.parent@ == mid.parent@.update(rx as int, ry));
                    assert forall|z: int| 0 <= z < before.size() implies #[trigger] self.root(z) == if before.root(z)
                        == before.root(*x as int) {
                        before.root(*y as int)
                    } else {
                        before.root(z)
                    } by {
                        assert(mid.parent@ == s2.parent@ && mid.level@ == s2.level@ && mid.top@ == s2.top@);
                        assert(mid.root(z) == s2.root(z));
                        assert(s2.root(z) == before.root(z));
                    }
                    let cx = before.class_color(*x as int);
                    let cy = before.class_color(*y as int);
                    assert(s2.color@ == before.color@);
                    assert(cx == s2.color@[rx as int]);
                    assert(cy == s2.color@[ry as int]);
                    assert(self.color@ =~= before.color@.update(before.root(*y as int), if cy is Some { cy } else { cx }));
                }
                Ok(())
            },
            (Term::Var(x), Term::Const(c)) => self.bind(*x, c),
            (Term::Const(c), Term::Var(y)) => {
                match self.bind(*y, c) {
                    Ok(()) => Ok(()),
                    Err((found, given)) => Err((given, found)),
                }
            },
            (Term::Const(x), Term::Const(y)) => {
                let same = *x == *y;
                proof {
                    reveal(obeys_concrete_eq);
                    if single_color::<C>() {
                        assert(same_color(*x, *y));
                    }
                }
                if same {
                    Ok(())
                } else {
                    Err((*x, *y))
                }
            },
        }
    }
}

/// The color a term takes under the assignment `sigma` of the variables.
spec fn term_value<C>(t: Term<C>, sigma: Seq<C>) -> C {
    match t {
        Term::Var(v) => sigma[v as int],
        Term::Const(c) => c,
    }
}

/// The word a term word takes under `sigma`.
spec fn word_value<C>(ts: Seq<Term<C>>, sigma: Seq<C>) -> Seq<C> {
    Seq::new(ts.len(), |i: int| term_value(ts[i], sigma))
}

impl<C: Copy + PartialEq> Unifier<C> {
    /// `sigma` colors every variable and satisfies every constraint recorded:
    /// variables of one class get one color, the class's bound one if any.
    spec fn respects(&self, sigma: Seq<C>) -> bool {
        &&& sigma.len() == self.size()
        &&& forall|v: int| 0 <= v < self.size() ==> (#[trigger] self.class_color(v) matches Some(c) ==> sigma[v] == c)
        &&& forall|v: int, w: int|
            #![trigger self.root(v), self.root(w)]
            0 <= v < self.size() && 0 <= w < self.size() && self.root(v) == self.root(w) ==> sigma[v] == sigma[w]
    }

    /// Binding a class to the color `sigma` gives it succeeds and keeps
    /// `sigma` a solution.
    proof fn lemma_bind_respects(self, after: Self, v: int, c: C, swap: bool, r: Result<(), (C, C)>, sigma: Seq<C>)
        requires
            self.wf(),
            after.size() == self.size(),
            0 <= v < self.size(),
            self.bind_outcome(after, v, c, swap, r),
            self.respects(sigma),
            sigma[v] == c,
        ensures
            r is Ok,
            after.respects(sigma),
    {
        assert(forest_ok(self.parent@, self.level@, self.top@));
        lemma_root_is_root(self.parent@, self.level@, self.top@, v);
        assert(self.root(self.root(v)) == self.root(v));
        assert forall|y: int| 0 <= y < after.size() implies (#[trigger] after.class_color(y) matches Some(d) ==> sigma[y]
            == d) by {
            lemma_root_is_root(self.parent@, self.level@, self.top@, y);
            assert(after.root(y) == self.root(y));
            assert(after.class_color(y) == after.color@[self.root(y)]);
            assert(self.class_color(y) matches Some(e) ==> sigma[y] == e);
            if self.root(y) == self.root(v) {
                assert(sigma[y] == sigma[v]);
            } else {
                assert(after.color@[self.root(y)] == self.color@[self.root(y)]);
            }
        }
        assert forall|x: int, w: int|
            #![trigger after.root(x), after.root(w)]
            0 <= x < after.size() && 0 <= w < after.size() && after.root(x) == after.root(w) implies sigma[x]
                == sigma[w] by {
            assert(after.root(x) == self.root(x));
            assert(after.root(w) == self.root(w));
        }
    }

    /// Aliasing two variables `sigma` colors alike succeeds and keeps `sigma`
    /// a solution.
    proof fn lemma_alias_respects(self, after: Self, x: int, y: int, r: Result<(), (C, C)>, sigma: Seq<C>)
        requires
            self.wf(),
            after.size() == self.size(),
            0 <= x < self.size(),
            0 <= y < self.size(),
            self.alias_outcome(after, x, y, r),
            self.respects(sigma),
            sigma[x] == sigma[y],
        ensures
            r is Ok,
            after.respects(sigma),
    {
        assert(forest_ok(self.parent@, self.level@, self.top@));
        lemma_root_is_root(self.parent@, self.level@, self.top@, x);
        lemma_root_is_root(self.parent@, self.level@, self.top@, y);
        assert(self.root(self.root(x)) == self.root(x));
        assert(self.root(self.root(y)) == self.root(y));
        assert(self.class_color(x) matches Some(c) ==> sigma[x] == c);
        assert(self.class_color(y) matches Some(c) ==> sigma[y] == c);
        if self.root(x) != self.root(y) {
            assert forall|z: int| 0 <= z < after.size() implies (#[trigger] after.class_color(z) matches Some(d) ==> sigma[z]
                == d) by {
                lemma_root_is_root(self.parent@, self.level@, self.top@, z);
                assert(self.class_color(z) matches Some(c) ==> sigma[z] == c);
                assert(after.class_color(z) == after.color@[after.root(z)]);
                if self.root(z) == self.root(x) {
                    assert(sigma[z] == sigma[x]);
                    assert(after.root(z) == self.root(y));
                } else if self.root(z) == self.root(y) {
                    assert(sigma[z] == sigma[y]);
                    assert(after.root(z) == self.root(y));
                } else {
                    assert(after.root(z) == self.root(z));
                    assert(after.color@[self.root(z)] == self.color@[self.root(z)]);
                }
            }
            assert forall|a: int, b: int|
                #![trigger after.root(a), after.root(b)]
                0 <= a < after.size() && 0 <= b < after.size() && after.root(a) == after.root(b) implies sigma[a]
                    == sigma[b] by {
                if self.root(a) == self.root(x) {
                    assert(sigma[a] == sigma[x]);
                }
                if self.root(b) == self.root(x) {
                    assert(sigma[b] == sigma[x]);
                }
                if self.root(a) == self.root(y) {
                    assert(sigma[a] == sigma[y]);
                }
                if self.root(b) == self.root(y) {
                    assert(sigma[b] == sigma[y]);
                }
            }
        } else {
            assert forall|z: int| 0 <= z < after.size() implies (#[trigger] after.class_color(z) matches Some(d) ==> sigma[z]
                == d) by {
                assert(self.class_color(z) matches Some(c) ==> sigma[z] == c);
            }
            assert forall|a: int, b: int|
                #![trigger after.root(a), after.root(b)]
                0 <= a < after.size() && 0 <= b < after.size() && after.root(a) == after.root(b) implies sigma[a]
                    == sigma[b] by {
                assert(after.root(a) == self.root(a));
                assert(after.root(b) == self.root(b));
            }
        }
    }
}

/// Every variable in `ts` is allocated in a unifier of `size` variables.
spec fn vars_below<C>(ts: Seq<Term<C>>, size: nat) -> bool {
    forall|i: int| 0 <= i < ts.len() ==> (#[trigger] ts[i] matches Term::Var(v) ==> v < size)
}

/// The entries `lo..hi` of a term word, copied.
fn copy_terms<C: Copy>(s: &[Term<C>], lo: usize, hi: usize) -> (r: Vec<Term<C>>)
    requires
        lo <= hi <= s@.len(),
    ensures
        r@ == s@.subrange(lo as int, hi as int),
{
    let mut v: Vec<Term<C>> = Vec::new();
    let mut i = lo;
    while i < hi
        invariant
            lo <= i <= hi <= s@.len(),
            v@ == s@.subrange(lo as int, i as int),
        decreases hi - i,
    {
        v.push(s[i]);
        i = i + 1;
        proof {
            assert(v@ =~= s@.subrange(lo as int, i as int));
        }
    }
    v
}

/// Thread `input` through `expr`, recording the color constraints it implies
/// in `u`: the variable-threaded sibling of [`check`], with unification in
/// place of a generator's word-equality test.
fn infer<G: PropSignature>(
    expr: &PropExpr<G>,
    input: &[Term<G::Color>],
    u: &mut Unifier<G::Color>,
    Ghost(sigma): Ghost<Seq<G::Color>>,
) -> (r: Result<Vec<Term<G::Color>>, CatgraphError>)
    requires
        old(u).wf(),
        colors_are_structural::<G>(),
        vars_below(input@, old(u).size()),
    ensures
        final(u).wf(),
        final(u).size() == old(u).size(),
        r matches Ok(out) ==> vars_below(out@, final(u).size()) && spec_lengths(*expr, input@.len())
            == Ok::<nat, (usize, usize)>(out@.len()),
        r matches Err(CatgraphError::CompositionSizeMismatch { expected, actual }) ==> spec_lengths(
            *expr,
            input@.len(),
        ) == Err::<nat, (usize, usize)>((expected, actual)),
        r matches Err(err) ==> err is CompositionSizeMismatch || err is Composition,
        single_color::<G::Color>() ==> (r matches Err(err) ==> err is CompositionSizeMismatch),
        old(u).respects(sigma) ==> (spec_check(*expr, word_value(input@, sigma)) matches CheckOutcome::Word(t) ==> (
        r matches Ok(out) && final(u).respects(sigma) && word_value(out@, sigma) == t)),
    decreases expr,
{
    let ghost w = word_value(input@, sigma);
    match expr {
        PropExpr::Identity(n) => {
            match expect_len(*n, input) {
                Err(e) => Err(e),
                Ok(()) => {
                    let out = copy_terms(input, 0, input.len());
                    proof {
                        assert(out@ =~= input@);
                    }
                    Ok(out)
                },
            }
        },
        PropExpr::Braid(m, n) => {
            let k = m.saturating_add(*n);
            match expect_len(k, input) {
                Err(e) => Err(e),
                Ok(()) => {
                    let mut out = copy_terms(input, *m, input.len());
                    let mut front = copy_terms(input, 0, *m);
                    let ghost a = out@;
                    let ghost b = front@;
                    out.append(&mut front);
                    proof {
                        assert(out@ == a + b);
                        let k2 = sat_add(*m as nat, *n as nat);
                        assert(word_value(out@, sigma) =~= w.subrange(*m as int, k2 as int) + w.subrange(0, *m as int));
                    }
                    Ok(out)
                },
            }
        },
        PropExpr::Generator(g) => {
            let want = g.source_word();
            match expect_len(want.len(), input) {
                Err(e) => Err(e),
                Ok(()) => {
                    let ghost good = old(u).respects(sigma) && w == want@;
                    let mut i: usize = 0;
                    while i < want.len()
                        invariant
                            u.wf(),
                            u.size() == old(u).size(),
                            colors_are_structural::<G>(),
                            vars_below(input@, u.size()),
                            want@.len() == input@.len(),
                            i <= want@.len(),
                            w == word_value(input@, sigma),
                            good == (old(u).respects(sigma) && w == want@),
                            good ==> u.respects(sigma),
                            old(u).respects(sigma) && spec_check(*expr, w) is Word ==> good,
                        decreases want@.len() - i,
                    {
                        let declared = Term::Const(want[i]);
                        let ghost pre = *u;
                        let r_unify = u.unify(&input[i], &declared);
                        proof {
                            if good {
                                assert(w[i as int] == want@[i as int]);
                                match input@[i as int] {
                                    Term::Var(x) => {
                                        pre.lemma_bind_respects(*u, x as int, want@[i as int], false, r_unify, sigma);
                                    },
                                    Term::Const(c) => {
                                        assert(term_value(input@[i as int], sigma) == c);
                                        assert(c == want@[i as int]);
                                    },
                                }
                                assert(r_unify is Ok);
                            }
                        }
                        match r_unify {
                            Ok(()) => {},
                            Err(_) => {
                                return Err(
                                    crate::error::composition_error(
                                        "colored inference: a generator's declared source color conflicts with the incoming word",
                                    ),
                                );
                            },
                        }
                        i = i + 1;
                    }
                    let target = g.target_word();
                    let mut out: Vec<Term<G::Color>> = Vec::new();
                    let mut j: usize = 0;
                    while j < target.len()
                        invariant
                            j <= target@.len(),
                            out@.len() == j,
                            forall|k: int| 0 <= k < j ==> out@[k] == Term::Const(target@[k]),
                        decreases target@.len() - j,
                    {
                        out.push(Term::Const(target[j]));
                        j = j + 1;
                    }
                    proof {
                        assert(word_value(out@, sigma) =~= target@);
                    }
                    Ok(out)
                },
            }
        },
        PropExpr::Compose(f, h) => {
            match infer(f, input, u, Ghost(sigma)) {
                Err(e) => Err(e),
                Ok(mid) => infer(h, mid.as_slice(), u, Ghost(sigma)),
            }
        },
        PropExpr::Tensor(f, h) => {
            let split = f.source();
            match expect_at_least(split, input) {
                Err(e) => Err(e),
                Ok(()) => {
                    let left = copy_terms(input, 0, split);
                    let right = copy_terms(input, split, input.len());
                    proof {
                        assert(word_value(left@, sigma) =~= w.subrange(0, split as int));
                        assert(word_value(right@, sigma) =~= w.subrange(split as int, w.len() as int));
                    }
                    match infer(f, left.as_slice(), u, Ghost(sigma)) {
                        Err(e) => Err(e),
                        Ok(mut out) => match infer(h, right.as_slice(), u, Ghost(sigma)) {
                            Err(e) => Err(e),
                            Ok(mut rest) => {
                                let ghost a = out@;
                                let ghost b = rest@;
                                out.append(&mut rest);
                                proof {
                                    assert(out@ == a + b);
                                    assert(word_value(out@, sigma) =~= word_value(a, sigma) + word_value(b, sigma));
                                }
                                Ok(out)
                            },
                        },
                    }
                },
            }
        },
    }
}

/// Two colors are the same.
pub open spec fn same_color<C>(x: C, y: C) -> bool {
    x == y
}

/// The palette has a single color: no two colors differ.
pub open spec fn single_color<C>() -> bool {
    forall|x: C, y: C| #[trigger] same_color(x, y)
}

/// `lhs` and `rhs` have consistent lengths over `lhs`'s source arity and end
/// on target words of the same length.
pub open spec fn sizes_agree<G: PropSignature>(lhs: PropExpr<G>, rhs: PropExpr<G>) -> bool {
    &&& lhs.spec_source() < usize::MAX
    &&& spec_lengths(lhs, lhs.spec_source()) is Ok
    &&& spec_lengths(rhs, lhs.spec_source()) == spec_lengths(lhs, lhs.spec_source())
}

/// `lhs` and `rhs` both accept the source word `w`, of `lhs`'s source
/// arity, and give it the same target word.
pub open spec fn parallel_over<G: PropSignature>(lhs: PropExpr<G>, rhs: PropExpr<G>, w: Seq<G::Color>) -> bool {
    &&& w.len() == lhs.spec_source()
    &&& spec_check(lhs, w) is Word
    &&& spec_check(rhs, w) == spec_check(lhs, w)
}

/// Check that `lhs` and `rhs` are parallel over a common source word: both
/// sides are threaded through the same fresh source variables, then the two
/// target words are unified pairwise.
///
/// Errors: `CompositionSizeMismatch` on any length disagreement (and when
/// `lhs`'s source arity reads `usize::MAX`, which is screened up front);
/// `Composition` when the lengths agree but the colors conflict.
pub fn check_equation<G: PropSignature>(lhs: &PropExpr<G>, rhs: &PropExpr<G>) -> (r: Result<
    (),
    CatgraphError,
>)
    requires
        colors_are_structural::<G>(),
    ensures
        r is Ok ==> lhs.spec_source() < usize::MAX && spec_lengths(*lhs, lhs.spec_source()) is Ok
            && spec_lengths(*rhs, lhs.spec_source()) == spec_lengths(*lhs, lhs.spec_source()),
        r is Ok ==> lhs.spec_source() == rhs.spec_source() && lhs.spec_target() == rhs.spec_target(),
        r matches Err(err) ==> err is CompositionSizeMismatch || err is Composition,
        !sizes_agree(*lhs, *rhs) ==> r is Err,
        single_color::<G::Color>() ==> (r is Ok <==> sizes_agree(*lhs, *rhs)),
        lhs.spec_source() == usize::MAX ==> r == Err::<(), CatgraphError>(
            CatgraphError::CompositionSizeMismatch { expected: usize::MAX, actual: rhs.spec_source() as usize },
        ),
        lhs.spec_source() < usize::MAX && (exists|w: Seq<G::Color>| #[trigger] parallel_over(*lhs, *rhs, w)) ==> r is Ok,
{
    let ghost parallel = exists|w: Seq<G::Color>| #[trigger] parallel_over(*lhs, *rhs, w);
    let ghost sigma = choose|w: Seq<G::Color>| #[trigger] parallel_over(*lhs, *rhs, w);
    let n = lhs.source();
    if n == usize::MAX {
        return Err(CatgraphError::CompositionSizeMismatch { expected: n, actual: rhs.source() });
    }
    let mut u: Unifier<G::Color> = Unifier::new();
    let mut source: Vec<Term<G::Color>> = Vec::new();
    let mut i: usize = 0;
    while i < n
        invariant
            u.wf(),
            i <= n < usize::MAX,
            u.size() == i,
            source@.len() == i,
            vars_below(source@, u.size()),
            forall|j: int| 0 <= j < i ==> u.parent@[j] == j && u.color@[j] is None,
            forall|j: int| 0 <= j < i ==> source@[j] == Term::<G::Color>::Var(j as usize),
        decreases n - i,
    {
        let v = u.fresh();
        source.push(Term::Var(v));
        i = i + 1;
    }
    proof {
        if parallel {
            assert(forest_ok(u.parent@, u.level@, u.top@));
            assert forall|v: int| 0 <= v < u.size() implies #[trigger] u.root(v) == v by {}
            assert(u.respects(sigma));
            assert(word_value(source@, sigma) =~= sigma);
        }
    }
    let lhs_target = match infer(lhs, source.as_slice(), &mut u, Ghost(sigma)) {
        Err(e) => return Err(e),
        Ok(t) => t,
    };
    let rhs_target = match infer(rhs, source.as_slice(), &mut u, Ghost(sigma)) {
        Err(e) => return Err(e),
        Ok(t) => t,
    };
    proof {
        if parallel {
            assert(word_value(lhs_target@, sigma) == word_value(rhs_target@, sigma));
            assert(lhs_target@.len() == word_value(lhs_target@, sigma).len());
            assert(rhs_target@.len() == word_value(rhs_target@, sigma).len());
        }
    }
    if lhs_target.len() != rhs_target.len() {
        return Err(
            CatgraphError::CompositionSizeMismatch {
                expected: lhs_target.len(),
                actual: rhs_target.len(),
            },
        );
    }
    let mut k: usize = 0;
    while k < lhs_target.len()
        invariant
            u.wf(),
            colors_are_structural::<G>(),
            vars_below(lhs_target@, u.size()),
            vars_below(rhs_target@, u.size()),
            lhs_target@.len() == rhs_target@.len(),
            k <= lhs_target@.len(),
            lhs.spec_source() < usize::MAX,
            parallel ==> u.respects(sigma) && word_value(lhs_target@, sigma) == word_value(rhs_target@, sigma),
            parallel == exists|w: Seq<G::Color>| #[trigger] parallel_over(*lhs, *rhs, w),
        decreases lhs_target@.len() - k,
    {
        let ghost pre = u;
        let r_unify = u.unify(&lhs_target[k], &rhs_target[k]);
        proof {
            if parallel {
                let kk = k as int;
                assert(word_value(lhs_target@, sigma)[kk] == word_value(rhs_target@, sigma)[kk]);
                match (lhs_target@[kk], rhs_target@[kk]) {
                    (Term::Var(x), Term::Var(y)) => {
                        pre.lemma_alias_respects(u, x as int, y as int, r_unify, sigma);
                    },
                    (Term::Var(x), Term::Const(c)) => {
                        pre.lemma_bind_respects(u, x as int, c, false, r_unify, sigma);
                    },
                    (Term::Const(c), Term::Var(y)) => {
                        pre.lemma_bind_respects(u, y as int, c, true, r_unify, sigma);
                    },
                    (Term::Const(c1), Term::Const(c2)) => {},
                }
                assert(r_unify is Ok);
            }
        }
        match r_unify {
            Ok(()) => {},
            Err(_) => {
                return Err(
                    crate::error::composition_error(
                        "colored inference: the two sides' target words disagree in color",
                    ),
                );
            },
        }
        k = k + 1;
    }
    proof {
        super::lemma_arities_bounded(*lhs);
        lemma_lengths_give_arities(*lhs, n as nat);
        lemma_lengths_give_arities(*rhs, n as nat);
    }
    Ok(())
}

/// A morphism of the free Λ-colored prop: the pair `(source word, expr)`,
/// with the target word [`check`] derived from them. Every value built by
/// [`ColoredExpr::new`] is word-well-formed.
///
/// The derived `PartialEq` is structural; [`ColoredExpr::eq_colored`] is the
/// equality modulo the symmetric monoidal axioms.
#[derive(Debug, PartialEq, Eq)]
pub struct ColoredExpr<G: PropSignature> {
    source_word: Vec<G::Color>,
    target_word: Vec<G::Color>,
    expr: PropExpr<G>,
}

impl<G: PropSignature> ColoredExpr<G> {
    /// The declared source word.
    pub closed spec fn spec_source_word(&self) -> Seq<G::Color> {
        self.source_word@
    }

    /// The derived target word.
    pub closed spec fn spec_target_word(&self) -> Seq<G::Color> {
        self.target_word@
    }

    /// The underlying expression.
    pub closed spec fn spec_expr(&self) -> PropExpr<G> {
        self.expr
    }

    /// Every value this module builds: the target word is what the source word
    /// yields when threaded through the expression.
    pub open spec fn well_colored(&self) -> bool {
        spec_check(self.spec_expr(), self.spec_source_word()) == CheckOutcome::Word(
            self.spec_target_word(),
        )
    }

    /// Check `expr` against `source_word` and pair them up; `check`'s errors
    /// are propagated verbatim.
    pub fn new(source_word: Vec<G::Color>, expr: PropExpr<G>) -> (r: Result<Self, CatgraphError>)
        requires
            colors_are_structural::<G>(),
        ensures
            match spec_check(expr, source_word@) {
                CheckOutcome::Word(t) => r matches Ok(c) && c.spec_source_word() == source_word@
                    && c.spec_target_word() == t && c.spec_expr() == expr,
                CheckOutcome::SizeMismatch(x, y) => r == Err::<Self, CatgraphError>(
                    CatgraphError::CompositionSizeMismatch { expected: x, actual: y },
                ),
                CheckOutcome::ColorMismatch => r matches Err(CatgraphError::Composition { message })
                    && message@ == color_mismatch_message(),
            },
            r matches Ok(c) ==> c.well_colored(),
    {
        match check(&expr, source_word.as_slice()) {
            Err(e) => Err(e),
            Ok(target_word) => Ok(ColoredExpr { source_word, target_word, expr }),
        }
    }

    /// The declared source word.
    pub fn source_word(&self) -> (r: &[G::Color])
        ensures
            r@ == self.spec_source_word(),
    {
        self.source_word.as_slice()
    }

    /// The derived target word.
    pub fn target_word(&self) -> (r: &[G::Color])
        ensures
            r@ == self.spec_target_word(),
    {
        self.target_word.as_slice()
    }

    /// The underlying uncolored expression.
    pub fn expr(&self) -> (r: &PropExpr<G>)
        ensures
            *r == self.spec_expr(),
    {
        &self.expr
    }

    /// Consume into `(source word, target word, expr)`.
    pub fn into_inner(self) -> (r: (Vec<G::Color>, Vec<G::Color>, PropExpr<G>))
        ensures
            r.0@ == self.spec_source_word(),
            r.1@ == self.spec_target_word(),
            r.2 == self.spec_expr(),
    {
        (self.source_word, self.target_word, self.expr)
    }

    /// SMC-quotient equality: equal boundary words and equal normal forms.
    /// A `true` is sound; a `false` is not a disproof.
    pub fn eq_colored(&self, other: &Self) -> (r: bool)
        requires
            colors_are_structural::<G>(),
            gens_are_structural::<G>(),
        ensures
            r ==> self.spec_source_word() == other.spec_source_word() && self.spec_target_word()
                == other.spec_target_word(),
            self.spec_source_word() != other.spec_source_word() ==> !r,
            self.spec_target_word() != other.spec_target_word() ==> !r,
    {
        if !words_equal(self.source_word.as_slice(), other.source_word.as_slice()) {
            return false;
        }
        if !words_equal(self.target_word.as_slice(), other.target_word.as_slice()) {
            return false;
        }
        let a = nf(&self.expr);
        let b = nf(&other.expr);
        diagrams_equal(&a, &b)
    }
}

impl<G: PropSignature> Clone for ColoredExpr<G> {
    fn clone(&self) -> (r: Self)
        ensures
            r.spec_source_word() == self.spec_source_word(),
            r.spec_target_word() == self.spec_target_word(),
            r.spec_expr() == self.spec_expr(),
    {
        ColoredExpr {
            source_word: copy_range(self.source_word.as_slice(), 0, self.source_word.len()),
            target_word: copy_range(self.target_word.as_slice(), 0, self.target_word.len()),
            expr: self.expr.clone(),
        }
    }
}

} // verus!
