//! Prop presentations: equations quotienting `Free(G)`.
//!
//! A presentation consists of a signature `G` and a list `E` of equations,
//! each a pair of parallel expressions. The presented prop is `Free(G)`
//! quotiented by the smallest congruence containing `E` and the symmetric
//! monoidal axioms. Rewriting is bounded-depth (default 32): the nine fixed
//! SMC canonical-form rules apply first, then the user equations left to right.
//!
//! # SMC rules
//!
//! 1. Interchange: `(f1 ⊗ g1) ; (f2 ⊗ g2) → (f1 ; f2) ⊗ (g1 ; g2)` when composable.
//! 2. Left unitor: `id_0 ⊗ f → f`.
//! 3. Right unitor: `f ⊗ id_0 → f`.
//! 4. Associator: `(f ⊗ g) ⊗ h → f ⊗ (g ⊗ h)`.
//! 5. `id_n ; f → f` when `n` is `f`'s source arity.
//! 6. `f ; id_n → f` when `n` is `f`'s target arity.
//! 7. `(f ; g) ; h → f ; (g ; h)`.
//! 8. `σ_{m,n} ; σ_{n,m} → id_{m+n}`.
//! 9. `id_m ⊗ id_n → id_{m+n}`.
use vstd::prelude::*;
use vstd::multiset::Multiset;
use crate::error::CatgraphError;
use super::{PropExpr, PropSignature, sat_add, expr_eq, gens_are_structural, lemma_arities_bounded};
use super::colored::{check_equation, colors_are_structural, parallel_over, single_color, sizes_agree, spec_lengths};
use content::generators_of;

pub mod content;
pub mod smc_nf;
pub mod kb;
pub mod display;
pub mod rewrite;

verus! {

/// Engine selector for [`Presentation::eq_mod`].
///
/// - `StructuralRewrite`: normalize both sides by bounded structural rewriting and
///   compare; may answer `None` (undecided) on overlapping equations.
/// - `CongruenceClosure` (default): decide the symmetric monoidal layer by
///   content equality, then fall back to bounded congruence closure.
#[derive(Debug, Clone, Copy, PartialEq, Eq, Structural)]
pub enum NormalizeEngine {
    /// Normalize both sides and compare structurally.
    StructuralRewrite,
    /// Decide equality via content and congruence closure.
    CongruenceClosure,
}

impl Default for NormalizeEngine {
    fn default() -> (r: Self)
        ensures
            r == NormalizeEngine::CongruenceClosure,
    {
        NormalizeEngine::CongruenceClosure
    }
}

/// Result of [`Presentation::normalize`]: the (possibly partial) normal form,
/// whether a fixpoint was reached before the depth bound, and how many rewrite
/// iterations ran.
#[derive(Debug)]
pub struct NormalizeResult<G: PropSignature> {
    /// The (possibly partial) normalized expression.
    pub expr: PropExpr<G>,
    /// `true` iff normalization reached a fixpoint before the depth bound.
    pub converged: bool,
    /// Number of rewrite iterations performed (at most the depth bound).
    pub steps_taken: usize,
}

impl<G: PropSignature> Clone for NormalizeResult<G> {
    fn clone(&self) -> (r: Self)
        ensures
            r == *self,
    {
        NormalizeResult { expr: self.expr.clone(), converged: self.converged, steps_taken: self.steps_taken }
    }
}

/// Number of nodes of an expression tree.
pub open spec fn expr_size<G: PropSignature>(e: PropExpr<G>) -> nat
    decreases e,
{
    match e {
        PropExpr::Compose(f, g) => expr_size(*f) + expr_size(*g) + 1,
        PropExpr::Tensor(f, g) => expr_size(*f) + expr_size(*g) + 1,
        _ => 1,
    }
}

/// A potential that every associator and interchange step strictly lowers:
/// twice the left-child size of each composition plus the left-child size of
/// each tensor.
pub open spec fn expr_potential<G: PropSignature>(e: PropExpr<G>) -> nat
    decreases e,
{
    match e {
        PropExpr::Compose(f, g) => expr_potential(*f) + expr_potential(*g) + 2 * expr_size(*f),
        PropExpr::Tensor(f, g) => expr_potential(*f) + expr_potential(*g) + expr_size(*f),
        _ => 0,
    }
}

/// `r` is no larger than `e`, and no higher in potential when equally large.
pub open spec fn no_growth<G: PropSignature>(r: PropExpr<G>, e: PropExpr<G>) -> bool {
    &&& expr_size(r) <= expr_size(e)
    &&& expr_size(r) == expr_size(e) ==> expr_potential(r) <= expr_potential(e)
}

/// `r` has the same saturating source and target arity as `e`.
pub open spec fn same_arities<G: PropSignature>(r: PropExpr<G>, e: PropExpr<G>) -> bool {
    r.spec_source() == e.spec_source() && r.spec_target() == e.spec_target()
}

/// The top of `e` is a redex of one of the nine SMC rules, in the order the
/// rules are tried: a composition with an identity that fits (rules 5, 6),
/// `σ_{m,n} ; σ_{n,m}` with `m + n` in range (8), the interchange of two
/// tensors whose factors compose (1), or a left-nested composition (7); a
/// tensor with `id_0` (2, 3), of two identities whose widths add in range
/// (9), or a left-nested tensor (4).
pub open spec fn smc_redex<G: PropSignature>(e: PropExpr<G>) -> bool {
    match e {
        PropExpr::Compose(f, g) => match *f {
            PropExpr::Identity(n) => n == g.spec_source(),
            _ => match *g {
                PropExpr::Identity(n) => n == f.spec_target(),
                _ => match *f {
                    PropExpr::Braid(m1, n1) => match *g {
                        PropExpr::Braid(m2, n2) => m1 == n2 && n1 == m2 && m1 + n1 <= usize::MAX,
                        _ => false,
                    },
                    PropExpr::Tensor(f1, g1) => match *g {
                        PropExpr::Tensor(f2, g2) => f1.spec_target() == f2.spec_source() && g1.spec_target()
                            == g2.spec_source(),
                        _ => false,
                    },
                    PropExpr::Compose(_, _) => true,
                    _ => false,
                },
            },
        },
        PropExpr::Tensor(f, g) => {
            ||| *f == PropExpr::<G>::Identity(0)
            ||| *g == PropExpr::<G>::Identity(0)
            ||| (*f matches PropExpr::Identity(m) && *g matches PropExpr::Identity(n) && m + n <= usize::MAX)
            ||| *f is Tensor
        },
        _ => false,
    }
}

/// No subterm of `e` is a redex of the nine SMC rules.
pub open spec fn smc_normal<G: PropSignature>(e: PropExpr<G>) -> bool
    decreases e,
{
    &&& !smc_redex(e)
    &&& match e {
        PropExpr::Compose(f, g) => smc_normal(*f) && smc_normal(*g),
        PropExpr::Tensor(f, g) => smc_normal(*f) && smc_normal(*g),
        _ => true,
    }
}

/// `e` is a fixpoint of a normalization iteration: one pass of `eqs` over
/// some SMC-normal expression gives `e` back.
pub open spec fn settled<G: PropSignature>(e: PropExpr<G>, eqs: Seq<(PropExpr<G>, PropExpr<G>)>) -> bool {
    exists|s: PropExpr<G>| #[trigger] smc_normal(s) && spec_apply_equations(s, eqs) == e
}

/// What one SMC rule does at the root of a term whose children are already
/// passed: the final term, or a term the pass runs on again.
pub enum RootStep<G: PropSignature> {
    Done(PropExpr<G>),
    Again(PropExpr<G>),
}

/// The SMC rules at the root of `f ; g`, in order: unit laws (5, 6), braid
/// involution (8), interchange (1), associativity (7).
pub open spec fn compose_step<G: PropSignature>(f: PropExpr<G>, g: PropExpr<G>) -> RootStep<G> {
    let here = PropExpr::Compose(Box::new(f), Box::new(g));
    match f {
        PropExpr::Identity(n) => if n == g.spec_source() {
            RootStep::Again(g)
        } else {
            RootStep::Done(here)
        },
        _ => match g {
            PropExpr::Identity(n) => if n == f.spec_target() {
                RootStep::Again(f)
            } else {
                RootStep::Done(here)
            },
            _ => match f {
                PropExpr::Braid(m1, n1) => match g {
                    PropExpr::Braid(m2, n2) => if m1 == n2 && n1 == m2 && m1 + n1 <= usize::MAX {
                        RootStep::Done(PropExpr::Identity((m1 + n1) as usize))
                    } else {
                        RootStep::Done(here)
                    },
                    _ => RootStep::Done(here),
                },
                PropExpr::Tensor(f1, g1) => match g {
                    PropExpr::Tensor(f2, g2) => if f1.spec_target() == f2.spec_source() && g1.spec_target()
                        == g2.spec_source() {
                        RootStep::Again(
                            PropExpr::Tensor(
                                Box::new(PropExpr::Compose(f1, f2)),
                                Box::new(PropExpr::Compose(g1, g2)),
                            ),
                        )
                    } else {
                        RootStep::Done(here)
                    },
                    _ => RootStep::Done(here),
                },
                PropExpr::Compose(ff, gg) => RootStep::Again(
                    PropExpr::Compose(ff, Box::new(PropExpr::Compose(gg, Box::new(g)))),
                ),
                _ => RootStep::Done(here),
            },
        },
    }
}

/// The SMC rules at the root of `f ⊗ g`, in order: unit laws (2, 3),
/// identity fusion (9), associativity (4).
pub open spec fn tensor_step<G: PropSignature>(f: PropExpr<G>, g: PropExpr<G>) -> RootStep<G> {
    let here = PropExpr::Tensor(Box::new(f), Box::new(g));
    match f {
        PropExpr::Identity(m) if m == 0 => RootStep::Again(g),
        _ => match g {
            PropExpr::Identity(n) if n == 0 => RootStep::Again(f),
            _ => match f {
                PropExpr::Identity(m) => match g {
                    PropExpr::Identity(n) => if m + n <= usize::MAX {
                        RootStep::Done(PropExpr::Identity((m + n) as usize))
                    } else {
                        RootStep::Done(here)
                    },
                    _ => RootStep::Done(here),
                },
                PropExpr::Tensor(ff, gg) => RootStep::Again(
                    PropExpr::Tensor(ff, Box::new(PropExpr::Tensor(gg, Box::new(g)))),
                ),
                _ => RootStep::Done(here),
            },
        },
    }
}

/// The bottom-up SMC pass run with at most `fuel` nested calls: the children
/// are passed first, then the root rule applies, and a rewritten root is
/// passed again; `None` when the fuel runs out.
pub open spec fn smc_pass_within<G: PropSignature>(e: PropExpr<G>, fuel: nat) -> Option<PropExpr<G>>
    decreases fuel,
{
    if fuel == 0 {
        None
    } else {
        let less = (fuel - 1) as nat;
        match e {
            PropExpr::Compose(f, g) => match (smc_pass_within(*f, less), smc_pass_within(*g, less)) {
                (Some(pf), Some(pg)) => match compose_step(pf, pg) {
                    RootStep::Done(x) => Some(x),
                    RootStep::Again(x) => smc_pass_within(x, less),
                },
                _ => None,
            },
            PropExpr::Tensor(f, g) => match (smc_pass_within(*f, less), smc_pass_within(*g, less)) {
                (Some(pf), Some(pg)) => match tensor_step(pf, pg) {
                    RootStep::Done(x) => Some(x),
                    RootStep::Again(x) => smc_pass_within(x, less),
                },
                _ => None,
            },
            _ => Some(e),
        }
    }
}

/// The result of one bottom-up SMC pass over `e` (the pass always ends; `e`
/// itself stands in only where no fuel would do).
pub open spec fn smc_pass<G: PropSignature>(e: PropExpr<G>) -> PropExpr<G> {
    if exists|n: nat| #[trigger] smc_pass_within(e, n) is Some {
        smc_pass_within(e, choose|n: nat| #[trigger] smc_pass_within(e, n) is Some)->0
    } else {
        e
    }
}

/// More fuel gives the same result.
proof fn lemma_pass_within_step<G: PropSignature>(e: PropExpr<G>, n: nat)
    requires
        smc_pass_within(e, n) is Some,
    ensures
        smc_pass_within(e, n + 1) == smc_pass_within(e, n),
    decreases n,
{
    let less = (n - 1) as nat;
    match e {
        PropExpr::Compose(f, g) => {
            lemma_pass_within_step(*f, less);
            lemma_pass_within_step(*g, less);
            let pf = smc_pass_within(*f, less)->0;
            let pg = smc_pass_within(*g, less)->0;
            if let RootStep::Again(x) = compose_step(pf, pg) {
                lemma_pass_within_step(x, less);
            }
        },
        PropExpr::Tensor(f, g) => {
            lemma_pass_within_step(*f, less);
            lemma_pass_within_step(*g, less);
            let pf = smc_pass_within(*f, less)->0;
            let pg = smc_pass_within(*g, less)->0;
            if let RootStep::Again(x) = tensor_step(pf, pg) {
                lemma_pass_within_step(x, less);
            }
        },
        _ => {},
    }
}

/// Any fuel beyond a sufficient one gives the same result.
proof fn lemma_pass_within_lift<G: PropSignature>(e: PropExpr<G>, n: nat, m: nat)
    requires
        smc_pass_within(e, n) is Some,
        n <= m,
    ensures
        smc_pass_within(e, m) == smc_pass_within(e, n),
    decreases m - n,
{
    if n < m {
        lemma_pass_within_step(e, n);
        lemma_pass_within_lift(e, n + 1, m);
    }
}

/// A pass that ends within some fuel gives [`smc_pass`].
proof fn lemma_pass_within_is_pass<G: PropSignature>(e: PropExpr<G>, n: nat)
    requires
        smc_pass_within(e, n) is Some,
    ensures
        smc_pass(e) == smc_pass_within(e, n)->0,
{
    let k = choose|k: nat| #[trigger] smc_pass_within(e, k) is Some;
    if k <= n {
        lemma_pass_within_lift(e, k, n);
    } else {
        lemma_pass_within_lift(e, n, k);
    }
}

/// Packing the pass of `f ; g` from its children's passes and the root.
proof fn lemma_pass_compose<G: PropSignature>(
    f: PropExpr<G>,
    g: PropExpr<G>,
    pf: PropExpr<G>,
    pg: PropExpr<G>,
    n0: nat,
    r: PropExpr<G>,
    nr: nat,
)
    requires
        smc_pass_within(f, n0) == Some(pf),
        smc_pass_within(g, n0) == Some(pg),
        match compose_step(pf, pg) {
            RootStep::Done(x) => r == x,
            RootStep::Again(x) => smc_pass_within(x, nr) == Some(r),
        },
    ensures
        smc_pass_within(PropExpr::Compose(Box::new(f), Box::new(g)), n0 + nr + 1) == Some(r),
        smc_pass(PropExpr::Compose(Box::new(f), Box::new(g))) == r,
{
    lemma_pass_within_lift(f, n0, n0 + nr);
    lemma_pass_within_lift(g, n0, n0 + nr);
    if let RootStep::Again(x) = compose_step(pf, pg) {
        lemma_pass_within_lift(x, nr, n0 + nr);
    }
    lemma_pass_within_is_pass(PropExpr::Compose(Box::new(f), Box::new(g)), n0 + nr + 1);
}

/// Packing the pass of `f ⊗ g` from its children's passes and the root.
proof fn lemma_pass_tensor<G: PropSignature>(
    f: PropExpr<G>,
    g: PropExpr<G>,
    pf: PropExpr<G>,
    pg: PropExpr<G>,
    n0: nat,
    r: PropExpr<G>,
    nr: nat,
)
    requires
        smc_pass_within(f, n0) == Some(pf),
        smc_pass_within(g, n0) == Some(pg),
        match tensor_step(pf, pg) {
            RootStep::Done(x) => r == x,
            RootStep::Again(x) => smc_pass_within(x, nr) == Some(r),
        },
    ensures
        smc_pass_within(PropExpr::Tensor(Box::new(f), Box::new(g)), n0 + nr + 1) == Some(r),
        smc_pass(PropExpr::Tensor(Box::new(f), Box::new(g))) == r,
{
    lemma_pass_within_lift(f, n0, n0 + nr);
    lemma_pass_within_lift(g, n0, n0 + nr);
    if let RootStep::Again(x) = tensor_step(pf, pg) {
        lemma_pass_within_lift(x, nr, n0 + nr);
    }
    lemma_pass_within_is_pass(PropExpr::Tensor(Box::new(f), Box::new(g)), n0 + nr + 1);
}

/// The first operand of a composite or tensor.
spec fn left_part<G: PropSignature>(e: PropExpr<G>) -> PropExpr<G> {
    match e {
        PropExpr::Compose(a, _) => *a,
        PropExpr::Tensor(a, _) => *a,
        _ => e,
    }
}

/// The second operand of a composite or tensor.
spec fn right_part<G: PropSignature>(e: PropExpr<G>) -> PropExpr<G> {
    match e {
        PropExpr::Compose(_, b) => *b,
        PropExpr::Tensor(_, b) => *b,
        _ => e,
    }
}

/// The generator occurrences of `f` and `g` together, as a multiset.
spec fn joint_generators<G: PropSignature>(f: PropExpr<G>, g: PropExpr<G>) -> Multiset<G> {
    generators_of(f).to_multiset().add(generators_of(g).to_multiset())
}

/// A root rule at `f ; g` keeps the generator occurrences.
proof fn lemma_compose_step_generators<G: PropSignature>(f: PropExpr<G>, g: PropExpr<G>)
    ensures
        match compose_step(f, g) {
            RootStep::Done(x) => generators_of(x).to_multiset() =~= joint_generators(f, g),
            RootStep::Again(x) => generators_of(x).to_multiset() =~= joint_generators(f, g),
        },
{
    broadcast use vstd::seq_lib::lemma_multiset_commutative, vstd::multiset::group_multiset_axioms, vstd::seq_lib::group_to_multiset_ensures;

    assert(generators_of(PropExpr::Compose(Box::new(f), Box::new(g))) == generators_of(f) + generators_of(g));
    assert(Seq::<G>::empty().to_multiset() =~= Multiset::empty());
    match f {
        PropExpr::Tensor(f1, g1) => {
            if let PropExpr::Tensor(f2, g2) = g {
                let x = PropExpr::Tensor(
                    Box::new(PropExpr::Compose(f1, f2)),
                    Box::new(PropExpr::Compose(g1, g2)),
                );
                assert(generators_of(PropExpr::Compose(f1, f2)) == generators_of(*f1) + generators_of(*f2));
                assert(generators_of(PropExpr::Compose(g1, g2)) == generators_of(*g1) + generators_of(*g2));
                assert(generators_of(x) == (generators_of(*f1) + generators_of(*f2)) + (generators_of(*g1)
                    + generators_of(*g2)));
                assert(generators_of(f) == generators_of(*f1) + generators_of(*g1));
                assert(generators_of(g) == generators_of(*f2) + generators_of(*g2));
            }
        },
        PropExpr::Compose(ff, gg) => {
            let x = PropExpr::Compose(ff, Box::new(PropExpr::Compose(gg, Box::new(g))));
            assert(generators_of(PropExpr::Compose(gg, Box::new(g))) == generators_of(*gg) + generators_of(g));
            assert(generators_of(x) == generators_of(*ff) + (generators_of(*gg) + generators_of(g)));
            assert(generators_of(f) == generators_of(*ff) + generators_of(*gg));
        },
        _ => {},
    }
}

/// A root rule at `f ⊗ g` keeps the generator occurrences.
proof fn lemma_tensor_step_generators<G: PropSignature>(f: PropExpr<G>, g: PropExpr<G>)
    ensures
        match tensor_step(f, g) {
            RootStep::Done(x) => generators_of(x).to_multiset() =~= joint_generators(f, g),
            RootStep::Again(x) => generators_of(x).to_multiset() =~= joint_generators(f, g),
        },
{
    broadcast use vstd::seq_lib::lemma_multiset_commutative, vstd::multiset::group_multiset_axioms, vstd::seq_lib::group_to_multiset_ensures;

    assert(generators_of(PropExpr::Tensor(Box::new(f), Box::new(g))) == generators_of(f) + generators_of(g));
    assert(Seq::<G>::empty().to_multiset() =~= Multiset::empty());
    if let PropExpr::Tensor(ff, gg) = f {
        let x = PropExpr::Tensor(ff, Box::new(PropExpr::Tensor(gg, Box::new(g))));
        assert(generators_of(PropExpr::Tensor(gg, Box::new(g))) == generators_of(*gg) + generators_of(g));
        assert(generators_of(x) == generators_of(*ff) + (generators_of(*gg) + generators_of(g)));
        assert(generators_of(f) == generators_of(*ff) + generators_of(*gg));
    }
}

/// A pass keeps the generator occurrences of the term, as a multiset.
proof fn lemma_pass_within_generators<G: PropSignature>(e: PropExpr<G>, n: nat)
    requires
        smc_pass_within(e, n) is Some,
    ensures
        generators_of(smc_pass_within(e, n)->0).to_multiset() =~= generators_of(e).to_multiset(),
    decreases n,
{
    broadcast use vstd::seq_lib::lemma_multiset_commutative, vstd::multiset::group_multiset_axioms;

    let less = (n - 1) as nat;
    match e {
        PropExpr::Compose(f, g) => {
            lemma_pass_within_generators(*f, less);
            lemma_pass_within_generators(*g, less);
            let pf = smc_pass_within(*f, less)->0;
            let pg = smc_pass_within(*g, less)->0;
            lemma_compose_step_generators(pf, pg);
            assert(generators_of(e) == generators_of(*f) + generators_of(*g));
            if let RootStep::Again(x) = compose_step(pf, pg) {
                lemma_pass_within_generators(x, less);
            }
        },
        PropExpr::Tensor(f, g) => {
            lemma_pass_within_generators(*f, less);
            lemma_pass_within_generators(*g, less);
            let pf = smc_pass_within(*f, less)->0;
            let pg = smc_pass_within(*g, less)->0;
            lemma_tensor_step_generators(pf, pg);
            assert(generators_of(e) == generators_of(*f) + generators_of(*g));
            if let RootStep::Again(x) = tensor_step(pf, pg) {
                lemma_pass_within_generators(x, less);
            }
        },
        _ => {},
    }
}

/// The SMC pass never loses, adds or relabels a generator: the term it gives
/// has the same generator occurrences, as a multiset.
pub proof fn law_smc_pass_keeps_generators<G: PropSignature>(e: PropExpr<G>)
    requires
        exists|n: nat| #[trigger] smc_pass_within(e, n) is Some,
    ensures
        generators_of(smc_pass(e)).to_multiset() =~= generators_of(e).to_multiset(),
{
    let n = choose|n: nat| #[trigger] smc_pass_within(e, n) is Some;
    lemma_pass_within_is_pass(e, n);
    lemma_pass_within_generators(e, n);
}

/// Two passes that end within some fuel both end within a common fuel.
proof fn lemma_common_fuel<G: PropSignature>(f: PropExpr<G>, pf: PropExpr<G>, g: PropExpr<G>, pg: PropExpr<G>) -> (n: nat)
    requires
        exists|k: nat| smc_pass_within(f, k) == Some(pf),
        exists|k: nat| smc_pass_within(g, k) == Some(pg),
    ensures
        smc_pass_within(f, n) == Some(pf),
        smc_pass_within(g, n) == Some(pg),
{
    let a = choose|k: nat| smc_pass_within(f, k) == Some(pf);
    let b = choose|k: nat| smc_pass_within(g, k) == Some(pg);
    lemma_pass_within_lift(f, a, a + b);
    lemma_pass_within_lift(g, b, a + b);
    a + b
}

/// One bottom-up pass of the nine SMC rules, recursing into compositions and
/// tensors. Every rule preserves both arities and never grows the tree.
///
/// Rule 8 fires only when `m + n` fits in `usize`, as rule 9 does.
#[verifier::rlimit(60)]
#[verifier::spinoff_prover]
fn apply_smc_rules<G: PropSignature>(expr: &PropExpr<G>) -> (r: PropExpr<G>)
    ensures
        same_arities(r, *expr),
        no_growth(r, *expr),
        smc_normal(r),
        exists|n: nat| smc_pass_within(*expr, n) == Some(r),
        r == smc_pass(*expr),
    decreases expr_size(*expr), expr_potential(*expr),
{
    let ghost mut n0: nat = 0;
    let e = match expr {
        PropExpr::Compose(f, g) => {
            let f_norm = apply_smc_rules(f);
            let g_norm = apply_smc_rules(g);
            proof {
                n0 = lemma_common_fuel(**f, f_norm, **g, g_norm);
            }
            PropExpr::Compose(Box::new(f_norm), Box::new(g_norm))
        },
        PropExpr::Tensor(f, g) => {
            let f_norm = apply_smc_rules(f);
            let g_norm = apply_smc_rules(g);
            proof {
                n0 = lemma_common_fuel(**f, f_norm, **g, g_norm);
            }
            PropExpr::Tensor(Box::new(f_norm), Box::new(g_norm))
        },
        other => other.clone(),
    };
    let ghost f0 = left_part(*expr);
    let ghost g0 = right_part(*expr);
    proof {
        assert(e matches PropExpr::Compose(pf, pg) ==> expr is Compose && smc_pass_within(f0, n0) == Some(*pf)
            && smc_pass_within(g0, n0) == Some(*pg));
        assert(e matches PropExpr::Tensor(pf, pg) ==> expr is Tensor && smc_pass_within(f0, n0) == Some(*pf)
            && smc_pass_within(g0, n0) == Some(*pg));
        assert(!(e is Compose) && !(e is Tensor) ==> e == *expr);
    }
    proof {
        assert(same_arities(e, *expr));
        assert(no_growth(e, *expr));
    }
    match e {
        PropExpr::Compose(f, g) => {
            // Rule 5: id_n ; g → g
            if let PropExpr::Identity(n) = &*f {
                if *n == g.source() {
                    let r = apply_smc_rules(&*g);
                    proof {
                        let nr = choose|k: nat| smc_pass_within(*g, k) == Some(r);
                        lemma_pass_compose(f0, g0, *f, *g, n0, r, nr);
                    }
                    return r;
                }
                proof {
                    lemma_pass_compose(f0, g0, *f, *g, n0, PropExpr::Compose(f, g), 0);
                }
                return PropExpr::Compose(f, g);
            }
            // Rule 6: f ; id_n → f
            if let PropExpr::Identity(n) = &*g {
                if *n == f.target() {
                    let r = apply_smc_rules(&*f);
                    proof {
                        let nr = choose|k: nat| smc_pass_within(*f, k) == Some(r);
                        lemma_pass_compose(f0, g0, *f, *g, n0, r, nr);
                    }
                    return r;
                }
                proof {
                    lemma_pass_compose(f0, g0, *f, *g, n0, PropExpr::Compose(f, g), 0);
                }
                return PropExpr::Compose(f, g);
            }
            // Rule 8: σ_{m,n} ; σ_{n,m} → id_{m+n}
            if let PropExpr::Braid(m1, n1) = &*f {
                if let PropExpr::Braid(m2, n2) = &*g {
                    if *m1 == *n2 && *n1 == *m2 {
                        if let Some(w) = m1.checked_add(*n1) {
                            proof {
                                lemma_pass_compose(f0, g0, *f, *g, n0, PropExpr::Identity(w), 0);
                            }
                            return PropExpr::Identity(w);
                        }
                    }
                    proof {
                        lemma_pass_compose(f0, g0, *f, *g, n0, PropExpr::Compose(f, g), 0);
                    }
                    return PropExpr::Compose(f, g);
                }
            }
            // Rule 1: interchange
            if let PropExpr::Tensor(f1, g1) = &*f {
                if let PropExpr::Tensor(f2, g2) = &*g {
                    if f1.target() == f2.source() && g1.target() == g2.source() {
                        let f12 = PropExpr::Compose(Box::new((**f1).clone()), Box::new((**f2).clone()));
                        let g12 = PropExpr::Compose(Box::new((**g1).clone()), Box::new((**g2).clone()));
                        let swapped = PropExpr::Tensor(Box::new(f12), Box::new(g12));
                        proof {
                            assert(expr_size(*f) == expr_size(**f1) + expr_size(**g1) + 1);
                            assert(expr_size(*g) == expr_size(**f2) + expr_size(**g2) + 1);
                            assert(expr_potential(*f) == expr_potential(**f1) + expr_potential(**g1)
                                + expr_size(**f1));
                            assert(expr_potential(*g) == expr_potential(**f2) + expr_potential(**g2)
                                + expr_size(**f2));
                            assert(expr_size(f12) == expr_size(**f1) + expr_size(**f2) + 1);
                            assert(expr_size(g12) == expr_size(**g1) + expr_size(**g2) + 1);
                            assert(expr_potential(f12) == expr_potential(**f1) + expr_potential(**f2)
                                + 2 * expr_size(**f1));
                            assert(expr_potential(g12) == expr_potential(**g1) + expr_potential(**g2)
                                + 2 * expr_size(**g1));
                            assert(expr_size(swapped) == expr_size(PropExpr::Compose(f, g)));
                            assert(f12.spec_source() == f1.spec_source());
                            assert(g12.spec_source() == g1.spec_source());
                            assert(f12.spec_target() == f2.spec_target());
                            assert(g12.spec_target() == g2.spec_target());
                            assert(same_arities(swapped, PropExpr::Compose(f, g)));
                            assert(expr_potential(swapped) < expr_potential(PropExpr::Compose(f, g)));
                        }
                        let r = apply_smc_rules(&swapped);
                        proof {
                            let nr = choose|k: nat| smc_pass_within(swapped, k) == Some(r);
                            lemma_pass_compose(f0, g0, *f, *g, n0, r, nr);
                        }
                        return r;
                    }
                    proof {
                        lemma_pass_compose(f0, g0, *f, *g, n0, PropExpr::Compose(f, g), 0);
                    }
                    return PropExpr::Compose(f, g);
                }
            }
            // Rule 7: (f ; g) ; h → f ; (g ; h)
            if let PropExpr::Compose(ff, gg) = &*f {
                let inner = PropExpr::Compose(Box::new((**gg).clone()), Box::new((*g).clone()));
                let rotated = PropExpr::Compose(Box::new((**ff).clone()), Box::new(inner));
                proof {
                    assert(expr_size(*f) == expr_size(**ff) + expr_size(**gg) + 1);
                    assert(expr_potential(*f) == expr_potential(**ff) + expr_potential(**gg)
                        + 2 * expr_size(**ff));
                    assert(expr_size(inner) == expr_size(**gg) + expr_size(*g) + 1);
                    assert(expr_potential(inner) == expr_potential(**gg) + expr_potential(*g)
                        + 2 * expr_size(**gg));
                    assert(inner.spec_target() == g.spec_target());
                    assert(rotated.spec_target() == g.spec_target());
                    assert(f.spec_source() == ff.spec_source());
                    assert(same_arities(rotated, PropExpr::Compose(f, g)));
                    assert(expr_size(rotated) == expr_size(PropExpr::Compose(f, g)));
                    assert(expr_potential(rotated) < expr_potential(PropExpr::Compose(f, g)));
                }
                let r = apply_smc_rules(&rotated);
                proof {
                    let nr = choose|k: nat| smc_pass_within(rotated, k) == Some(r);
                    lemma_pass_compose(f0, g0, *f, *g, n0, r, nr);
                }
                return r;
            }
            proof {
                lemma_pass_compose(f0, g0, *f, *g, n0, PropExpr::Compose(f, g), 0);
            }
            PropExpr::Compose(f, g)
        },
        PropExpr::Tensor(f, g) => {
            // Rule 2: id_0 ⊗ g → g
            if let PropExpr::Identity(0) = &*f {
                proof {
                    lemma_arities_bounded(*g);
                }
                let r = apply_smc_rules(&*g);
                proof {
                    let nr = choose|k: nat| smc_pass_within(*g, k) == Some(r);
                    lemma_pass_tensor(f0, g0, *f, *g, n0, r, nr);
                }
                return r;
            }
            // Rule 3: f ⊗ id_0 → f
            if let PropExpr::Identity(0) = &*g {
                proof {
                    lemma_arities_bounded(*f);
                }
                let r = apply_smc_rules(&*f);
                proof {
                    let nr = choose|k: nat| smc_pass_within(*f, k) == Some(r);
                    lemma_pass_tensor(f0, g0, *f, *g, n0, r, nr);
                }
                return r;
            }
            // Rule 9: id_m ⊗ id_n → id_{m+n}
            if let PropExpr::Identity(m) = &*f {
                if let PropExpr::Identity(n) = &*g {
                    if let Some(fused) = m.checked_add(*n) {
                        proof {
                            lemma_pass_tensor(f0, g0, *f, *g, n0, PropExpr::Identity(fused), 0);
                        }
                        return PropExpr::Identity(fused);
                    }
                    proof {
                        lemma_pass_tensor(f0, g0, *f, *g, n0, PropExpr::Tensor(f, g), 0);
                    }
                    return PropExpr::Tensor(f, g);
                }
            }
            // Rule 4: (f ⊗ g) ⊗ h → f ⊗ (g ⊗ h)
            if let PropExpr::Tensor(ff, gg) = &*f {
                let inner = PropExpr::Tensor(Box::new((**gg).clone()), Box::new((*g).clone()));
                let rotated = PropExpr::Tensor(Box::new((**ff).clone()), Box::new(inner));
                proof {
                    assert(expr_size(*f) == expr_size(**ff) + expr_size(**gg) + 1);
                    assert(expr_potential(*f) == expr_potential(**ff) + expr_potential(**gg)
                        + expr_size(**ff));
                    assert(expr_size(inner) == expr_size(**gg) + expr_size(*g) + 1);
                    assert(expr_potential(inner) == expr_potential(**gg) + expr_potential(*g)
                        + expr_size(**gg));
                    assert(expr_size(rotated) == expr_size(PropExpr::Tensor(f, g)));
                    assert(expr_potential(rotated) < expr_potential(PropExpr::Tensor(f, g)));
                    assert(sat_add(sat_add(ff.spec_source(), gg.spec_source()), g.spec_source())
                        == sat_add(ff.spec_source(), sat_add(gg.spec_source(), g.spec_source())));
                    assert(sat_add(sat_add(ff.spec_target(), gg.spec_target()), g.spec_target())
                        == sat_add(ff.spec_target(), sat_add(gg.spec_target(), g.spec_target())));
                    assert(inner.spec_source() == sat_add(gg.spec_source(), g.spec_source()));
                    assert(inner.spec_target() == sat_add(gg.spec_target(), g.spec_target()));
                    assert(f.spec_source() == sat_add(ff.spec_source(), gg.spec_source()));
                    assert(f.spec_target() == sat_add(ff.spec_target(), gg.spec_target()));
                    assert(same_arities(rotated, PropExpr::Tensor(f, g)));
                }
                let r = apply_smc_rules(&rotated);
                proof {
                    let nr = choose|k: nat| smc_pass_within(rotated, k) == Some(r);
                    lemma_pass_tensor(f0, g0, *f, *g, n0, r, nr);
                }
                return r;
            }
            proof {
                lemma_pass_tensor(f0, g0, *f, *g, n0, PropExpr::Tensor(f, g), 0);
            }
            PropExpr::Tensor(f, g)
        },
        other => {
            proof {
                assert(smc_pass_within(*expr, 1) == Some(*expr));
                lemma_pass_within_is_pass(*expr, 1);
            }
            other
        },
    }
}

/// `e` with every subterm equal to `lhs` (outermost first) replaced by `rhs`.
pub open spec fn spec_rewrite_once<G: PropSignature>(
    e: PropExpr<G>,
    lhs: PropExpr<G>,
    rhs: PropExpr<G>,
) -> PropExpr<G>
    decreases e,
{
    if e == lhs {
        rhs
    } else {
        match e {
            PropExpr::Compose(f, g) => PropExpr::Compose(
                Box::new(spec_rewrite_once(*f, lhs, rhs)),
                Box::new(spec_rewrite_once(*g, lhs, rhs)),
            ),
            PropExpr::Tensor(f, g) => PropExpr::Tensor(
                Box::new(spec_rewrite_once(*f, lhs, rhs)),
                Box::new(spec_rewrite_once(*g, lhs, rhs)),
            ),
            other => other,
        }
    }
}

/// One pass of an equation replaces a whole term equal to `lhs` by `rhs`,
/// leaves every other leaf alone, and otherwise rewrites both operands of a
/// composite or a tensor: every occurrence of `lhs` not inside another one is
/// replaced, under `⊗` as under `;`.
pub proof fn law_rewrite_reaches_every_subterm<G: PropSignature>(e: PropExpr<G>, lhs: PropExpr<G>, rhs: PropExpr<G>)
    ensures
        spec_rewrite_once(lhs, lhs, rhs) == rhs,
        e != lhs ==> match e {
            PropExpr::Compose(a, b) => spec_rewrite_once(e, lhs, rhs) == PropExpr::Compose(
                Box::new(spec_rewrite_once(*a, lhs, rhs)),
                Box::new(spec_rewrite_once(*b, lhs, rhs)),
            ),
            PropExpr::Tensor(a, b) => spec_rewrite_once(e, lhs, rhs) == PropExpr::Tensor(
                Box::new(spec_rewrite_once(*a, lhs, rhs)),
                Box::new(spec_rewrite_once(*b, lhs, rhs)),
            ),
            _ => spec_rewrite_once(e, lhs, rhs) == e,
        },
        !occurs_in(lhs, e) ==> spec_rewrite_once(e, lhs, rhs) == e,
    decreases e,
{
    match e {
        PropExpr::Compose(a, b) => {
            law_rewrite_reaches_every_subterm(*a, lhs, rhs);
            law_rewrite_reaches_every_subterm(*b, lhs, rhs);
        },
        PropExpr::Tensor(a, b) => {
            law_rewrite_reaches_every_subterm(*a, lhs, rhs);
            law_rewrite_reaches_every_subterm(*b, lhs, rhs);
        },
        _ => {},
    }
}

/// `t` occurs in `e` as a subterm (possibly `e` itself).
pub open spec fn occurs_in<G: PropSignature>(t: PropExpr<G>, e: PropExpr<G>) -> bool
    decreases e,
{
    e == t || match e {
        PropExpr::Compose(a, b) => occurs_in(t, *a) || occurs_in(t, *b),
        PropExpr::Tensor(a, b) => occurs_in(t, *a) || occurs_in(t, *b),
        _ => false,
    }
}

/// A pass of `lhs ⇒ rhs` leaves no occurrence of `lhs` behind, as long as
/// `rhs` contains none and `lhs` is a leaf (a generator, identity or braid),
/// which no rewritten composite can equal.
pub proof fn law_rewrite_leaves_no_leaf_occurrence<G: PropSignature>(e: PropExpr<G>, lhs: PropExpr<G>, rhs: PropExpr<G>)
    requires
        !(lhs is Compose) && !(lhs is Tensor),
        !occurs_in(lhs, rhs),
    ensures
        !occurs_in(lhs, spec_rewrite_once(e, lhs, rhs)),
    decreases e,
{
    match e {
        PropExpr::Compose(a, b) => {
            law_rewrite_leaves_no_leaf_occurrence(*a, lhs, rhs);
            law_rewrite_leaves_no_leaf_occurrence(*b, lhs, rhs);
        },
        PropExpr::Tensor(a, b) => {
            law_rewrite_leaves_no_leaf_occurrence(*a, lhs, rhs);
            law_rewrite_leaves_no_leaf_occurrence(*b, lhs, rhs);
        },
        _ => {},
    }
}

/// `e` after one top-down rewrite pass per equation, in order.
pub open spec fn spec_apply_equations<G: PropSignature>(
    e: PropExpr<G>,
    eqs: Seq<(PropExpr<G>, PropExpr<G>)>,
) -> PropExpr<G>
    decreases eqs.len(),
{
    if eqs.len() == 0 {
        e
    } else {
        spec_rewrite_once(spec_apply_equations(e, eqs.drop_last()), eqs.last().0, eqs.last().1)
    }
}

/// The normalization loop from `current` once `step` of `depth` iterations
/// are done: an iteration is one SMC pass, then one pass of each equation; it
/// stops, converged, when an iteration gives its input back.
pub open spec fn normalize_from<G: PropSignature>(
    current: PropExpr<G>,
    eqs: Seq<(PropExpr<G>, PropExpr<G>)>,
    step: nat,
    depth: nat,
) -> NormalizeResult<G>
    decreases depth - step,
{
    if step >= depth {
        NormalizeResult { expr: current, converged: false, steps_taken: depth as usize }
    } else {
        let next = spec_apply_equations(smc_pass(current), eqs);
        if next == current {
            NormalizeResult { expr: current, converged: true, steps_taken: (step + 1) as usize }
        } else {
            normalize_from(next, eqs, step + 1, depth)
        }
    }
}

/// What [`Presentation::normalize`] returns for `e` under `eqs` and
/// `depth` iterations.
pub open spec fn spec_normalize<G: PropSignature>(
    e: PropExpr<G>,
    eqs: Seq<(PropExpr<G>, PropExpr<G>)>,
    depth: nat,
) -> NormalizeResult<G> {
    normalize_from(e, eqs, 0, depth)
}

/// The structural engine's answer on `a` and `b`: whether their normal forms
/// agree, `None` when either normalization misses the depth bound.
pub open spec fn structural_answer<G: PropSignature>(
    a: PropExpr<G>,
    b: PropExpr<G>,
    eqs: Seq<(PropExpr<G>, PropExpr<G>)>,
    depth: nat,
) -> Option<bool> {
    let na = spec_normalize(a, eqs, depth);
    let nb = spec_normalize(b, eqs, depth);
    if na.converged && nb.converged {
        Some(na.expr == nb.expr)
    } else {
        None
    }
}

/// A converged result is a fixpoint of one iteration.
proof fn lemma_normalize_from_fixpoint<G: PropSignature>(
    current: PropExpr<G>,
    eqs: Seq<(PropExpr<G>, PropExpr<G>)>,
    step: nat,
    depth: nat,
)
    requires
        normalize_from(current, eqs, step, depth).converged,
    ensures
        spec_apply_equations(smc_pass(normalize_from(current, eqs, step, depth).expr), eqs) == normalize_from(
            current,
            eqs,
            step,
            depth,
        ).expr,
    decreases depth - step,
{
    if step < depth {
        let next = spec_apply_equations(smc_pass(current), eqs);
        if next != current {
            lemma_normalize_from_fixpoint(next, eqs, step + 1, depth);
        }
    }
}

/// Normalizing is idempotent: a converged normal form normalizes to itself
/// in one iteration.
pub proof fn law_normalize_idempotent<G: PropSignature>(
    e: PropExpr<G>,
    eqs: Seq<(PropExpr<G>, PropExpr<G>)>,
    depth: nat,
)
    requires
        spec_normalize(e, eqs, depth).converged,
    ensures
        spec_normalize(spec_normalize(e, eqs, depth).expr, eqs, depth) == (NormalizeResult {
            expr: spec_normalize(e, eqs, depth).expr,
            converged: true,
            steps_taken: 1,
        }),
{
    lemma_normalize_from_fixpoint(e, eqs, 0, depth);
    lemma_normalize_from_converged_within(e, eqs, 0, depth);
}

/// A converged loop ran at least one iteration, so the depth is positive.
proof fn lemma_normalize_from_converged_within<G: PropSignature>(
    current: PropExpr<G>,
    eqs: Seq<(PropExpr<G>, PropExpr<G>)>,
    step: nat,
    depth: nat,
)
    requires
        normalize_from(current, eqs, step, depth).converged,
    ensures
        step < depth,
    decreases depth - step,
{
}

/// The structural engine's answer is symmetric, and an expression whose
/// normalization converges is equal to itself.
pub proof fn law_structural_answer_symmetric_reflexive<G: PropSignature>(
    a: PropExpr<G>,
    b: PropExpr<G>,
    eqs: Seq<(PropExpr<G>, PropExpr<G>)>,
    depth: nat,
)
    ensures
        structural_answer(a, b, eqs, depth) == structural_answer(b, a, eqs, depth),
        spec_normalize(a, eqs, depth).converged ==> structural_answer(a, a, eqs, depth) == Some(true),
{
}

/// Every equation joins two expressions of equal arities.
pub open spec fn all_parallel<G: PropSignature>(eqs: Seq<(PropExpr<G>, PropExpr<G>)>) -> bool {
    forall|i: int| 0 <= i < eqs.len() ==> #[trigger] same_arities(eqs[i].0, eqs[i].1)
}

/// Replacing a subterm by a parallel one keeps the arities of the whole.
pub proof fn lemma_rewrite_keeps_arities<G: PropSignature>(
    e: PropExpr<G>,
    lhs: PropExpr<G>,
    rhs: PropExpr<G>,
)
    requires
        same_arities(lhs, rhs),
    ensures
        same_arities(spec_rewrite_once(e, lhs, rhs), e),
    decreases e,
{
    if e != lhs {
        match e {
            PropExpr::Compose(f, g) => {
                lemma_rewrite_keeps_arities(*f, lhs, rhs);
                lemma_rewrite_keeps_arities(*g, lhs, rhs);
            },
            PropExpr::Tensor(f, g) => {
                lemma_rewrite_keeps_arities(*f, lhs, rhs);
                lemma_rewrite_keeps_arities(*g, lhs, rhs);
            },
            _ => {},
        }
    }
}

/// A pass of parallel equations keeps the arities of the whole.
pub proof fn lemma_equations_keep_arities<G: PropSignature>(
    e: PropExpr<G>,
    eqs: Seq<(PropExpr<G>, PropExpr<G>)>,
)
    requires
        all_parallel(eqs),
    ensures
        same_arities(spec_apply_equations(e, eqs), e),
    decreases eqs.len(),
{
    if eqs.len() > 0 {
        let rest = eqs.drop_last();
        assert(all_parallel(rest)) by {
            assert forall|i: int| 0 <= i < rest.len() implies #[trigger] same_arities(
                rest[i].0,
                rest[i].1,
            ) by {
                assert(rest[i] == eqs[i]);
            }
        }
        lemma_equations_keep_arities(e, rest);
        assert(same_arities(eqs[eqs.len() - 1].0, eqs[eqs.len() - 1].1));
        lemma_rewrite_keeps_arities(spec_apply_equations(e, rest), eqs.last().0, eqs.last().1);
    }
}

/// Rewrite `expr`: if the whole tree equals `lhs`, return `rhs`; otherwise
/// recurse into compositions and tensors.
fn rewrite_once_top<G: PropSignature>(expr: &PropExpr<G>, lhs: &PropExpr<G>, rhs: &PropExpr<G>) -> (r:
    PropExpr<G>)
    requires
        gens_are_structural::<G>(),
    ensures
        r == spec_rewrite_once(*expr, *lhs, *rhs),
    decreases expr,
{
    if expr_eq(expr, lhs) {
        rhs.clone()
    } else {
        match expr {
            PropExpr::Compose(f, g) => PropExpr::Compose(
                Box::new(rewrite_once_top(f, lhs, rhs)),
                Box::new(rewrite_once_top(g, lhs, rhs)),
            ),
            PropExpr::Tensor(f, g) => PropExpr::Tensor(
                Box::new(rewrite_once_top(f, lhs, rhs)),
                Box::new(rewrite_once_top(g, lhs, rhs)),
            ),
            other => other.clone(),
        }
    }
}

/// A presentation of a prop: generators `G` plus a list of equations, each
/// joining two parallel expressions, a rewrite-depth bound and an engine.
#[derive(Debug)]
pub struct Presentation<G: PropSignature> {
    equations: Vec<(PropExpr<G>, PropExpr<G>)>,
    rewrite_depth: usize,
    engine: NormalizeEngine,
}

impl<G: PropSignature> Presentation<G> {
    /// Every stored equation is parallel.
    #[verifier::type_invariant]
    spec fn inv(self) -> bool {
        all_parallel(self.equations@)
    }

    /// The stored equations, in insertion order.
    pub closed spec fn spec_equations(self) -> Seq<(PropExpr<G>, PropExpr<G>)> {
        self.equations@
    }

    /// The depth bound.
    pub closed spec fn spec_rewrite_depth(self) -> usize {
        self.rewrite_depth
    }

    /// The engine selector.
    pub closed spec fn spec_engine(self) -> NormalizeEngine {
        self.engine
    }

    /// An empty presentation with depth bound 32 and the congruence-closure
    /// engine.
    pub fn new() -> (r: Self)
        ensures
            r.spec_equations().len() == 0,
            r.spec_rewrite_depth() == 32,
            r.spec_engine() == NormalizeEngine::CongruenceClosure,
    {
        Presentation { equations: Vec::new(), rewrite_depth: 32, engine: NormalizeEngine::CongruenceClosure }
    }

    /// An empty presentation with a custom depth bound.
    pub fn with_depth(rewrite_depth: usize) -> (r: Self)
        ensures
            r.spec_equations().len() == 0,
            r.spec_rewrite_depth() == rewrite_depth,
            r.spec_engine() == NormalizeEngine::CongruenceClosure,
    {
        Presentation { equations: Vec::new(), rewrite_depth, engine: NormalizeEngine::CongruenceClosure }
    }

    /// An empty presentation with an explicit engine; depth bound 32.
    pub fn with_engine(engine: NormalizeEngine) -> (r: Self)
        ensures
            r.spec_equations().len() == 0,
            r.spec_rewrite_depth() == 32,
            r.spec_engine() == engine,
    {
        Presentation { equations: Vec::new(), rewrite_depth: 32, engine }
    }

    /// Set the engine after construction.
    pub fn set_engine(&mut self, engine: NormalizeEngine)
        ensures
            final(self).spec_engine() == engine,
            final(self).spec_equations() == old(self).spec_equations(),
            final(self).spec_rewrite_depth() == old(self).spec_rewrite_depth(),
    {
        proof {
            use_type_invariant(&*self);
        }
        self.engine = engine;
    }

    /// Add the equation `lhs = rhs` when both sides are parallel over a common
    /// source word; the presentation is unchanged on an error.
    pub fn add_equation(&mut self, lhs: PropExpr<G>, rhs: PropExpr<G>) -> (r: Result<(), CatgraphError>)
        requires
            colors_are_structural::<G>(),
        ensures
            r is Ok ==> final(self).spec_equations() == old(self).spec_equations().push((lhs, rhs)),
            r is Err ==> final(self).spec_equations() == old(self).spec_equations(),
            r is Ok ==> lhs.spec_source() == rhs.spec_source() && lhs.spec_target() == rhs.spec_target(),
            r matches Err(err) ==> err is CompositionSizeMismatch || err is Composition,
            !sizes_agree(lhs, rhs) ==> r is Err,
            single_color::<G::Color>() ==> (r is Ok <==> sizes_agree(lhs, rhs)),
            lhs.spec_source() == usize::MAX ==> r == Err::<(), CatgraphError>(
                CatgraphError::CompositionSizeMismatch { expected: usize::MAX, actual: rhs.spec_source() as usize },
            ),
            lhs.spec_source() < usize::MAX && (exists|w: Seq<G::Color>| #[trigger] parallel_over(lhs, rhs, w))
                ==> r is Ok,
            final(self).spec_rewrite_depth() == old(self).spec_rewrite_depth(),
            final(self).spec_engine() == old(self).spec_engine(),
    {
        match check_equation(&lhs, &rhs) {
            Err(e) => Err(e),
            Ok(()) => {
                proof {
                    use_type_invariant(&*self);
                    assert(same_arities(lhs, rhs));
                }
                let mut eqs: Vec<(PropExpr<G>, PropExpr<G>)> = Vec::new();
                std::mem::swap(&mut eqs, &mut self.equations);
                eqs.push((lhs, rhs));
                proof {
                    assert(all_parallel(eqs@)) by {
                        assert forall|i: int| 0 <= i < eqs@.len() implies #[trigger] same_arities(
                            eqs@[i].0,
                            eqs@[i].1,
                        ) by {
                            if i < eqs@.len() - 1 {
                                assert(eqs@[i] == old(self).equations@[i]);
                            }
                        }
                    }
                }
                self.equations = eqs;
                Ok(())
            },
        }
    }

    /// The equation list, in insertion order.
    pub fn equations(&self) -> (r: &[(PropExpr<G>, PropExpr<G>)])
        ensures
            r@ == self.spec_equations(),
    {
        self.equations.as_slice()
    }

    /// The engine selector.
    pub fn engine(&self) -> (r: NormalizeEngine)
        ensures
            r == self.spec_engine(),
    {
        self.engine
    }

    /// The depth bound [`Presentation::normalize`] and [`Presentation::eq_mod`]
    /// run to.
    pub fn rewrite_depth(&self) -> (r: usize)
        ensures
            r == self.spec_rewrite_depth(),
    {
        self.rewrite_depth
    }

    /// One pass of every user equation, in order.
    fn apply_user_equations(&self, expr: &PropExpr<G>) -> (r: PropExpr<G>)
        requires
            gens_are_structural::<G>(),
        ensures
            r == spec_apply_equations(*expr, self.spec_equations()),
    {
        let mut current = expr.clone();
        let mut i: usize = 0;
        while i < self.equations.len()
            invariant
                gens_are_structural::<G>(),
                i <= self.equations@.len(),
                current == spec_apply_equations(*expr, self.equations@.take(i as int)),
            decreases self.equations@.len() - i,
        {
            let (lhs, rhs) = &self.equations[i];
            current = rewrite_once_top(&current, lhs, rhs);
            proof {
                assert(self.equations@.take(i + 1).drop_last() =~= self.equations@.take(i as int));
            }
            i = i + 1;
        }
        proof {
            assert(self.equations@.take(self.equations@.len() as int) =~= self.equations@);
        }
        current
    }

    /// Normalize `expr` under the SMC rules and the user equations, for at most
    /// `rewrite_depth` iterations of (SMC pass, then one pass of each
    /// equation). `converged` is `true` iff an iteration left the expression
    /// unchanged; `steps_taken` counts the iterations performed. The result has
    /// the arities of `expr`. Never fails.
    pub fn normalize(&self, expr: &PropExpr<G>) -> (r: Result<NormalizeResult<G>, CatgraphError>)
        requires
            gens_are_structural::<G>(),
        ensures
            r matches Ok(res) && same_arities(res.expr, *expr) && res.steps_taken
                <= self.spec_rewrite_depth() && (res.converged ==> res.steps_taken >= 1) && (
            !res.converged ==> res.steps_taken == self.spec_rewrite_depth()),
            r matches Ok(res) && (res.converged ==> settled(res.expr, self.spec_equations())),
            r matches Ok(res) && (res.converged && self.spec_equations().len() == 0 ==> smc_normal(res.expr)),
            self.spec_rewrite_depth() == 0 ==> r == Ok::<NormalizeResult<G>, CatgraphError>(
                NormalizeResult { expr: *expr, converged: false, steps_taken: 0 },
            ),
            r == Ok::<NormalizeResult<G>, CatgraphError>(
                spec_normalize(*expr, self.spec_equations(), self.spec_rewrite_depth() as nat),
            ),
    {
        proof {
            use_type_invariant(self);
        }
        let mut current = expr.clone();
        let mut step: usize = 0;
        while step < self.rewrite_depth
            invariant
                gens_are_structural::<G>(),
                all_parallel(self.equations@),
                step <= self.rewrite_depth,
                same_arities(current, *expr),
                step == 0 ==> current == *expr,
                normalize_from(current, self.equations@, step as nat, self.rewrite_depth as nat) == spec_normalize(
                    *expr,
                    self.equations@,
                    self.rewrite_depth as nat,
                ),
            decreases self.rewrite_depth - step,
        {
            let after_smc = apply_smc_rules(&current);
            let after_user = self.apply_user_equations(&after_smc);
            proof {
                lemma_equations_keep_arities(after_smc, self.equations@);
            }
            if expr_eq(&after_user, &current) {
                proof {
                    assert(smc_normal(after_smc) && spec_apply_equations(after_smc, self.equations@) == current);
                }
                return Ok(NormalizeResult { expr: current, converged: true, steps_taken: step + 1 });
            }
            current = after_user;
            step = step + 1;
        }
        Ok(NormalizeResult { expr: current, converged: false, steps_taken: self.rewrite_depth })
    }

    /// Equality modulo this presentation, dispatching on the engine.
    ///
    /// A tree with a braid or tensor width past `usize::MAX` is screened
    /// first: `Some(true)` when the two trees are identical, `None`
    /// (undecided) otherwise. With `StructuralRewrite`, both sides are
    /// normalized and compared, `None` when either misses the depth bound.
    /// With `CongruenceClosure`, two arity-well-formed sides with equal
    /// content are equal; an ill-formed pair with equal normal forms is
    /// equal; otherwise both sides and every equation are brought to SMC
    /// fixpoints (`None` when any misses the depth bound) and congruence
    /// closure over the equations decides. A `true` is sound; a `false` is
    /// only as complete as congruence closure.
    pub fn eq_mod(&self, a: &PropExpr<G>, b: &PropExpr<G>) -> (r: Result<Option<bool>, CatgraphError>)
        requires
            gens_are_structural::<G>(),
            colors_are_structural::<G>(),
        ensures
            r is Ok,
            (!a.spec_arities_fit() || !b.spec_arities_fit()) ==> (r matches Ok(v) && v == (if *a == *b {
                Some(true)
            } else {
                None
            })),
            a.spec_arities_fit() && b.spec_arities_fit() && self.spec_engine() == NormalizeEngine::StructuralRewrite
                ==> r == Ok::<Option<bool>, CatgraphError>(
                structural_answer(*a, *b, self.spec_equations(), self.spec_rewrite_depth() as nat),
            ),
            a.spec_arities_fit() && b.spec_arities_fit() && self.spec_engine() == NormalizeEngine::CongruenceClosure
                ==> {
                let d = self.spec_rewrite_depth() as nat;
                let none = Seq::<(PropExpr<G>, PropExpr<G>)>::empty();
                let eqs = self.spec_equations();
                let all_converge = spec_normalize(*a, none, d).converged && spec_normalize(*b, none, d).converged
                    && forall|k: int|
                    0 <= k < eqs.len() ==> (#[trigger] spec_normalize(eqs[k].0, none, d)).converged
                        && spec_normalize(eqs[k].1, none, d).converged;
                &&& r == Ok::<Option<bool>, CatgraphError>(None) ==> !all_converge
                &&& all_converge && spec_normalize(*a, none, d).expr == spec_normalize(*b, none, d).expr ==> r == Ok::<
                    Option<bool>,
                    CatgraphError,
                >(Some(true))
            },
    {
        if !a.arities_fit() || !b.arities_fit() {
            if expr_eq(a, b) {
                return Ok(Some(true));
            } else {
                return Ok(None);
            }
        }
        match self.engine {
            NormalizeEngine::StructuralRewrite => {
                let na = match self.normalize(a) {
                    Ok(res) => res,
                    Err(e) => {
                        return Err(e);
                    },
                };
                let nb = match self.normalize(b) {
                    Ok(res) => res,
                    Err(e) => {
                        return Err(e);
                    },
                };
                if !na.converged || !nb.converged {
                    return Ok(None);
                }
                Ok(Some(expr_eq(&na.expr, &nb.expr)))
            },
            NormalizeEngine::CongruenceClosure => {
                if content::is_arity_well_formed(a) && content::is_arity_well_formed(b) {
                    let ca = content::content_of(a);
                    let cb = content::content_of(b);
                    if content::content_eq(&ca, &cb) {
                        return Ok(Some(true));
                    }
                } else {
                    let fa = smc_nf::nf(a);
                    let fb = smc_nf::nf(b);
                    if smc_nf::diagrams_equal(&fa, &fb) {
                        return Ok(Some(true));
                    }
                }
                let na = self.normalize_smc_only(a);
                let nb = self.normalize_smc_only(b);
                if !na.converged || !nb.converged {
                    return Ok(None);
                }
                let mut normalized: Vec<(PropExpr<G>, PropExpr<G>)> = Vec::new();
                let mut i: usize = 0;
                while i < self.equations.len()
                    invariant
                        gens_are_structural::<G>(),
                        a.spec_arities_fit() && b.spec_arities_fit(),
                        self.spec_engine() == NormalizeEngine::CongruenceClosure,
                        i <= self.equations@.len(),
                        forall|k: int|
                            0 <= k < i ==> (#[trigger] spec_normalize(
                                self.equations@[k].0,
                                Seq::empty(),
                                self.rewrite_depth as nat,
                            )).converged && spec_normalize(
                                self.equations@[k].1,
                                Seq::empty(),
                                self.rewrite_depth as nat,
                            ).converged,
                    decreases self.equations@.len() - i,
                {
                    let nl = self.normalize_smc_only(&self.equations[i].0);
                    let nr = self.normalize_smc_only(&self.equations[i].1);
                    if !nl.converged || !nr.converged {
                        proof {
                            let k = i as int;
                            let none = Seq::<(PropExpr<G>, PropExpr<G>)>::empty();
                            let d = self.rewrite_depth as nat;
                            let eqs = self.spec_equations();
                            let dd = self.spec_rewrite_depth() as nat;
                            assert(eqs[k] == self.equations@[k]);
                            assert(dd == d);
                            assert(!(spec_normalize(eqs[k].0, none, dd).converged && spec_normalize(
                                eqs[k].1,
                                none,
                                dd,
                            ).converged));
                            assert(!(forall|j: int|
                                0 <= j < eqs.len() ==> (#[trigger] spec_normalize(eqs[j].0, none, dd)).converged
                                    && spec_normalize(eqs[j].1, none, dd).converged));
                        }
                        return Ok(None);
                    }
                    normalized.push((nl.expr, nr.expr));
                    i = i + 1;
                }
                let mut engine = kb::CongruenceClosure::new(normalized.as_slice());
                Ok(Some(engine.are_equal(&na.expr, &nb.expr)))
            },
        }
    }

    /// The SMC rules alone, iterated to a fixpoint or the depth bound.
    fn normalize_smc_only(&self, expr: &PropExpr<G>) -> (r: NormalizeResult<G>)
        requires
            gens_are_structural::<G>(),
        ensures
            same_arities(r.expr, *expr),
            r.steps_taken <= self.spec_rewrite_depth(),
            !r.converged ==> r.steps_taken == self.spec_rewrite_depth(),
            r == spec_normalize(*expr, Seq::empty(), self.spec_rewrite_depth() as nat),
    {
        let mut current = expr.clone();
        let mut step: usize = 0;
        while step < self.rewrite_depth
            invariant
                gens_are_structural::<G>(),
                step <= self.rewrite_depth,
                same_arities(current, *expr),
                normalize_from(current, Seq::empty(), step as nat, self.rewrite_depth as nat) == spec_normalize(
                    *expr,
                    Seq::empty(),
                    self.rewrite_depth as nat,
                ),
            decreases self.rewrite_depth - step,
        {
            let after_smc = apply_smc_rules(&current);
            proof {
                assert(spec_apply_equations(after_smc, Seq::<(PropExpr<G>, PropExpr<G>)>::empty()) == after_smc);
            }
            if expr_eq(&after_smc, &current) {
                return NormalizeResult { expr: current, converged: true, steps_taken: step + 1 };
            }
            current = after_smc;
            step = step + 1;
        }
        NormalizeResult { expr: current, converged: false, steps_taken: self.rewrite_depth }
    }
}

impl<G: PropSignature> Default for Presentation<G> {
    /// The same empty presentation as [`Presentation::new`].
    fn default() -> (r: Self)
        ensures
            r.spec_equations().len() == 0,
            r.spec_rewrite_depth() == 32,
            r.spec_engine() == NormalizeEngine::CongruenceClosure,
    {
        Presentation::new()
    }
}

/// A presented prop: a [`Presentation`] viewed as the quotient it presents.
#[derive(Debug)]
pub struct PresentedProp<G: PropSignature> {
    presentation: Presentation<G>,
}

impl<G: PropSignature> PresentedProp<G> {
    /// The wrapped presentation.
    pub closed spec fn spec_presentation(self) -> Presentation<G> {
        self.presentation
    }

    /// Wrap a presentation.
    pub fn new(presentation: Presentation<G>) -> (r: Self)
        ensures
            r.spec_presentation() == presentation,
    {
        PresentedProp { presentation }
    }

    /// Borrow the underlying presentation.
    pub fn presentation(&self) -> (r: &Presentation<G>)
        ensures
            *r == self.spec_presentation(),
    {
        &self.presentation
    }

    /// The representative [`Presentation::normalize`] reaches for `expr`.
    pub fn quotient_representative(&self, expr: &PropExpr<G>) -> (r: Result<
        NormalizeResult<G>,
        CatgraphError,
    >)
        requires
            gens_are_structural::<G>(),
        ensures
            r matches Ok(res) && same_arities(res.expr, *expr) && res.steps_taken
                <= self.spec_presentation().spec_rewrite_depth() && (res.converged ==> res.steps_taken >= 1) && (
            !res.converged ==> res.steps_taken == self.spec_presentation().spec_rewrite_depth()),
            r matches Ok(res) && (res.converged ==> settled(res.expr, self.spec_presentation().spec_equations())),
            r matches Ok(res) && (res.converged && self.spec_presentation().spec_equations().len() == 0 ==> smc_normal(
                res.expr,
            )),
            self.spec_presentation().spec_rewrite_depth() == 0 ==> r == Ok::<NormalizeResult<G>, CatgraphError>(
                NormalizeResult { expr: *expr, converged: false, steps_taken: 0 },
            ),
            r == Ok::<NormalizeResult<G>, CatgraphError>(
                spec_normalize(
                    *expr,
                    self.spec_presentation().spec_equations(),
                    self.spec_presentation().spec_rewrite_depth() as nat,
                ),
            ),
    {
        self.presentation.normalize(expr)
    }
}

} // verus!
