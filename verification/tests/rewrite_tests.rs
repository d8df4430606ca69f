use catgraph_applied::error::CatgraphError;
use catgraph_applied::prop::colored::ColoredExpr;
use catgraph_applied::prop::presentation::content::content_of;
use catgraph_applied::prop::presentation::rewrite::{cost_of, optimize, replay, RewriteRule};
use catgraph_applied::prop::{Dot, Free, Primitive, PropExpr};

type Sfg = Primitive;
type E = PropExpr<Sfg>;

const COPY: Primitive = Primitive { label: 0, source: 1, target: 2 };
const ADD: Primitive = Primitive { label: 1, source: 2, target: 1 };
const DISCARD: Primitive = Primitive { label: 2, source: 1, target: 0 };

fn prim(g: Sfg) -> E {
    Free::<Sfg>::generator(g)
}

fn colored(width: usize, e: E) -> ColoredExpr<Sfg> {
    ColoredExpr::new(vec![Dot; width], e).expect("well-formed at •")
}

/// `Copy ; (id₁ ⊗ Discard) : 1 → 1`, a copy whose second branch is dropped.
fn copy_then_drop() -> E {
    Free::compose(prim(COPY), Free::tensor(PropExpr::Identity(1), prim(DISCARD)))
        .expect("Copy : 1 → 2 ; (id₁ ⊗ Discard) : 2 → 1")
}

fn drop_rule() -> RewriteRule<Sfg> {
    RewriteRule::new(colored(1, copy_then_drop()), colored(1, PropExpr::Identity(1)))
        .expect("a parallel rule with a generator on the left and a mono interface")
}

#[test]
fn cost_of_counts_generator_occurrences() {
    let e = Free::compose(prim(COPY), prim(ADD)).expect("Copy ; Add");
    assert_eq!(cost_of(&content_of(&e), |_| 1), 2);
    assert_eq!(cost_of(&content_of(&e), |g: &Sfg| if g.label == 0 { 5 } else { 1 }), 6);
    assert_eq!(cost_of(&content_of::<Sfg>(&PropExpr::Identity(2)), |_| 1), 0);
}

#[test]
fn cost_of_saturates() {
    let e = Free::compose(prim(COPY), prim(ADD)).expect("Copy ; Add");
    assert_eq!(cost_of(&content_of(&e), |_| u64::MAX), u64::MAX);
}

#[test]
fn a_rule_with_different_source_words_is_refused() {
    let r = RewriteRule::new(colored(1, prim(COPY)), colored(2, prim(ADD)));
    assert!(matches!(r, Err(CatgraphError::Presentation { .. })));
}

#[test]
fn a_rule_with_an_edge_free_lhs_is_refused() {
    let r = RewriteRule::new(colored(1, PropExpr::Identity(1)), colored(1, PropExpr::Identity(1)));
    assert!(matches!(r, Err(CatgraphError::Presentation { .. })));
}

#[test]
fn a_rule_whose_lhs_threads_a_wire_through_is_refused() {
    let lhs = Free::tensor(prim(COPY), PropExpr::Identity(1));
    let rhs = Free::tensor(PropExpr::Identity(1), prim(COPY));
    let r = RewriteRule::new(colored(2, lhs), colored(2, rhs));
    assert!(matches!(r, Err(CatgraphError::Presentation { .. })));
}

#[test]
fn optimize_drops_a_dead_branch() {
    let start = colored(1, copy_then_drop());
    let rules = vec![drop_rule()];
    let outcome = optimize(&start, &rules, 10, |_| 1).expect("the start is well-formed");
    assert_eq!(outcome.initial_cost(), 2);
    assert_eq!(outcome.best_cost(), 0);
    assert_eq!(outcome.steps().len(), 1);
    assert_eq!(outcome.steps()[0].rule(), 0);
    assert_eq!(outcome.steps()[0].matched_edges().len(), 2);
    assert!(!outcome.fuel_exhausted());
    assert_eq!(outcome.states_explored(), 2);
    assert_eq!(outcome.best().expr(), &PropExpr::Identity(1));

    let replayed = replay(&start, &rules, outcome.steps()).expect("the trace is a witness");
    assert_eq!(replayed.expr(), outcome.best().expr());
    assert_eq!(outcome.into_best().expr(), &PropExpr::Identity(1));
}

#[test]
fn optimize_without_fuel_keeps_the_start() {
    let start = colored(1, copy_then_drop());
    let rules = vec![drop_rule()];
    let outcome = optimize(&start, &rules, 0, |_| 1).expect("the start is well-formed");
    assert!(outcome.fuel_exhausted());
    assert_eq!(outcome.best_cost(), outcome.initial_cost());
    assert!(outcome.steps().is_empty());
    assert_eq!(outcome.states_explored(), 1);
}

#[test]
fn optimize_without_a_match_explores_only_the_start() {
    let start = colored(1, Free::compose(prim(COPY), prim(ADD)).expect("Copy ; Add"));
    let rules = vec![drop_rule()];
    let outcome = optimize(&start, &rules, 10, |_| 1).expect("the start is well-formed");
    assert!(!outcome.fuel_exhausted());
    assert_eq!(outcome.states_explored(), 1);
    assert_eq!(outcome.best_cost(), 2);
    assert!(outcome.steps().is_empty());
}

#[test]
fn the_drop_applies_inside_a_larger_diagram() {
    let start = colored(
        2,
        Free::tensor(copy_then_drop(), copy_then_drop()),
    );
    let rules = vec![drop_rule()];
    let outcome = optimize(&start, &rules, 10, |_| 1).expect("the start is well-formed");
    assert_eq!(outcome.initial_cost(), 4);
    assert_eq!(outcome.best_cost(), 0);
    assert_eq!(outcome.steps().len(), 2);
    assert_eq!(outcome.best().expr(), &PropExpr::Identity(2));
    assert_eq!(outcome.best().expr().source(), start.expr().source());
    assert_eq!(outcome.best().expr().target(), start.expr().target());
}

#[test]
fn unit_weights_count_generator_occurrences() {
    let e = Free::tensor(copy_then_drop(), prim(ADD));
    let generators = 3;
    assert_eq!(cost_of(&content_of(&e), |_| 1), generators);
}

#[test]
fn replay_refuses_an_unknown_rule() {
    let start = colored(1, copy_then_drop());
    let rules = vec![drop_rule()];
    let outcome = optimize(&start, &rules, 10, |_| 1).expect("the start is well-formed");
    let no_rules: Vec<RewriteRule<Sfg>> = Vec::new();
    let r = replay(&start, &no_rules, outcome.steps());
    assert!(matches!(r, Err(CatgraphError::Presentation { .. })));
}
