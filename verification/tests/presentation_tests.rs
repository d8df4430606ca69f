use catgraph_applied::error::CatgraphError;
use catgraph_applied::prop::presentation::kb::CongruenceClosure;
use catgraph_applied::prop::presentation::{NormalizeEngine, Presentation, PresentedProp};
use catgraph_applied::prop::{Dot, Free, Primitive, PropExpr};

type Sig = Primitive;

const F: Primitive = Primitive { label: 0, source: 1, target: 1 };
const G: Primitive = Primitive { label: 1, source: 1, target: 1 };
const COPY: Primitive = Primitive { label: 2, source: 1, target: 2 };
use catgraph_applied::prop::colored::ColoredExpr;


fn f() -> PropExpr<Sig> {
    Free::<Sig>::generator(F)
}

fn g() -> PropExpr<Sig> {
    Free::<Sig>::generator(G)
}

#[test]
fn smc_equal_terms_are_equal_under_both_engines() {
    let left = Free::compose(PropExpr::Identity(1), f()).unwrap();
    for engine in [NormalizeEngine::CongruenceClosure, NormalizeEngine::StructuralRewrite] {
        let p = Presentation::<Sig>::with_engine(engine);
        assert_eq!(p.eq_mod(&left, &f()).unwrap(), Some(true));
    }
}

#[test]
fn a_user_equation_is_decided_by_congruence_closure() {
    let mut p = Presentation::<Sig>::new();
    p.add_equation(f(), g()).unwrap();
    let lhs = Free::compose(f(), f()).unwrap();
    let rhs = Free::compose(g(), f()).unwrap();
    assert_eq!(p.eq_mod(&lhs, &rhs).unwrap(), Some(true));
    let other = Free::compose(Free::<Sig>::generator(COPY), Free::braid(1, 1)).unwrap();
    assert_eq!(p.eq_mod(&other, &Free::<Sig>::generator(COPY)).unwrap(), Some(false));
}

#[test]
fn an_overflowing_width_is_screened() {
    let p = Presentation::<Sig>::new();
    let wide: PropExpr<Sig> = PropExpr::Braid(usize::MAX, 1);
    assert_eq!(p.eq_mod(&wide, &wide).unwrap(), Some(true));
    assert_eq!(p.eq_mod(&wide, &f()).unwrap(), None);
}

#[test]
fn congruence_closure_propagates_through_composition() {
    let mut cc = CongruenceClosure::new(&[(f(), g())]);
    let a = Free::compose(f(), f()).unwrap();
    let b = Free::compose(g(), g()).unwrap();
    assert!(cc.are_equal(&a, &b));
    assert!(cc.are_equal(&a, &a));
    let c = Free::compose(f(), Free::<Sig>::generator(COPY)).unwrap();
    assert!(!cc.are_equal(&a, &c));
}

#[test]
fn eq_colored_compares_words_and_normal_forms() {
    let x = ColoredExpr::<Sig>::new(vec![Dot], Free::compose(PropExpr::Identity(1), f()).unwrap()).unwrap();
    let y = ColoredExpr::<Sig>::new(vec![Dot], f()).unwrap();
    let z = ColoredExpr::<Sig>::new(vec![Dot], g()).unwrap();
    assert!(x.eq_colored(&y));
    assert!(!y.eq_colored(&z));
}

#[test]
fn every_seeded_equation_is_answered_true() {
    let lhs = Free::compose(f(), g()).unwrap();
    let rhs = Free::tensor(PropExpr::Identity(0), g());
    let mut cc = CongruenceClosure::new(&[(lhs.clone(), rhs.clone()), (g(), f())]);
    assert!(cc.are_equal(&lhs, &rhs));
    assert!(cc.are_equal(&rhs, &lhs));
    assert!(cc.are_equal(&g(), &f()));
}

#[test]
fn an_unbounded_source_is_refused_as_a_size_mismatch() {
    let mut p = Presentation::<Sig>::new();
    let r = p.add_equation(PropExpr::Identity(usize::MAX), PropExpr::Identity(usize::MAX));
    assert_eq!(
        r,
        Err(CatgraphError::CompositionSizeMismatch { expected: usize::MAX, actual: usize::MAX })
    );
    assert_eq!(p.equations().len(), 0);
}

#[test]
fn a_converged_normal_form_normalizes_to_itself() {
    let mut p = Presentation::<Sig>::with_engine(NormalizeEngine::StructuralRewrite);
    p.add_equation(Free::compose(f(), g()).unwrap(), f()).unwrap();
    let e = Free::compose(PropExpr::Identity(1), Free::compose(f(), g()).unwrap()).unwrap();
    let once = p.normalize(&e).unwrap();
    assert!(once.converged);
    assert_eq!(once.expr, f());
    let twice = p.normalize(&once.expr).unwrap();
    assert!(twice.converged);
    assert_eq!(twice.expr, once.expr);
    assert_eq!(twice.steps_taken, 1);
}

#[test]
fn the_structural_engine_is_symmetric_and_reflexive() {
    let mut p = Presentation::<Sig>::with_engine(NormalizeEngine::StructuralRewrite);
    p.add_equation(f(), g()).unwrap();
    let a = Free::compose(f(), PropExpr::Identity(1)).unwrap();
    let b = g();
    let c = Free::<Sig>::generator(COPY);
    assert_eq!(p.eq_mod(&a, &b).unwrap(), Some(true));
    assert_eq!(p.eq_mod(&b, &a).unwrap(), Some(true));
    assert_eq!(p.eq_mod(&a, &a).unwrap(), Some(true));
    assert_eq!(p.eq_mod(&c, &Free::compose(c.clone(), Free::braid(1, 1)).unwrap()).unwrap(), Some(false));
}

#[test]
fn the_quotient_representative_is_the_normal_form() {
    let mut p = Presentation::<Sig>::new();
    p.add_equation(f(), g()).unwrap();
    let e = Free::compose(f(), PropExpr::Identity(1)).unwrap();
    let n = p.normalize(&e).unwrap();
    let q = PresentedProp::new(p).quotient_representative(&e).unwrap();
    assert_eq!(q.expr, n.expr);
    assert_eq!(q.converged, n.converged);
    assert_eq!(q.steps_taken, n.steps_taken);
}

fn generator_labels(e: &PropExpr<Sig>, out: &mut Vec<u32>) {
    match e {
        PropExpr::Generator(g) => out.push(g.label),
        PropExpr::Compose(a, b) | PropExpr::Tensor(a, b) => {
            generator_labels(a, out);
            generator_labels(b, out);
        }
        _ => {}
    }
}

#[test]
fn the_smc_pass_keeps_every_generator() {
    let p = Presentation::<Sig>::with_engine(NormalizeEngine::StructuralRewrite);
    let left = Free::tensor(f(), Free::tensor(g(), PropExpr::Identity(0)));
    let right = Free::tensor(g(), f());
    let e = Free::compose(Free::compose(PropExpr::Identity(2), left).unwrap(), right).unwrap();
    let n = p.normalize(&e).unwrap();
    let mut before = Vec::new();
    let mut after = Vec::new();
    generator_labels(&e, &mut before);
    generator_labels(&n.expr, &mut after);
    before.sort();
    after.sort();
    assert_eq!(before, after);
    assert_ne!(n.expr, e);
}
