use catgraph_applied::prop::presentation::content::{content_eq, content_of};
use catgraph_applied::prop::presentation::display::{canonical_display, expr_of_content};
use catgraph_applied::prop::presentation::smc_nf::{nf, Atom, StringDiagram};
use catgraph_applied::prop::{Free, Primitive, PropExpr};

type Sfg = Primitive;
type E = PropExpr<Sfg>;

const COPY: Primitive = Primitive { label: 0, source: 1, target: 2 };
const ADD: Primitive = Primitive { label: 1, source: 2, target: 1 };
const DISCARD: Primitive = Primitive { label: 2, source: 1, target: 0 };
const ZERO: Primitive = Primitive { label: 3, source: 0, target: 1 };

fn prim(g: Sfg) -> E {
    Free::<Sfg>::generator(g)
}

fn readback(e: &E) -> E {
    expr_of_content(&content_of(e))
}

/// Readback preserves content.
fn round_trips(e: &E) {
    let c = content_of(e);
    assert!(
        content_eq(&content_of(&readback(e)), &c),
        "readback changed the content of {e:?}"
    );
}

fn has_braid(sd: &StringDiagram<Sfg>) -> bool {
    sd.layers
        .iter()
        .any(|l| l.atoms.iter().any(|a| matches!(a, Atom::Braid(_, _))))
}

#[test]
fn identity_reads_back_as_itself() {
    assert_eq!(readback(&PropExpr::Identity(3)), PropExpr::Identity(3));
    assert_eq!(readback(&PropExpr::Identity(0)), PropExpr::Identity(0));
}

#[test]
fn a_braid_is_emitted_because_the_content_demands_it() {
    let e = PropExpr::<Sfg>::Braid(1, 1);
    assert_eq!(readback(&e), PropExpr::Braid(1, 1));
    round_trips(&e);
}

#[test]
fn a_single_generator_reads_back_alone() {
    let e = prim(COPY);
    assert_eq!(readback(&e), PropExpr::Generator(COPY));
    round_trips(&e);
}

#[test]
fn a_chain_reads_back_as_layers() {
    let e = Free::compose(prim(COPY), prim(ADD)).expect("Copy : 1 → 2 ; Add : 2 → 1");
    assert_eq!(
        readback(&e),
        PropExpr::Compose(
            Box::new(PropExpr::Generator(COPY)),
            Box::new(PropExpr::Generator(ADD)),
        )
    );
    round_trips(&e);
}

#[test]
fn an_eta_lands_at_the_coordinate_its_consumer_wants() {
    let e = Free::compose(Free::tensor(PropExpr::Identity(1), prim(ZERO)), prim(ADD))
        .expect("(id₁ ⊗ Zero) : 1 → 2 ; Add : 2 → 1");
    let back = readback(&e);
    round_trips(&e);
    assert!(!has_braid(&nf(&back)), "no crossing is needed here");
    assert_eq!(canonical_display(&e), nf(&e));
    let display = canonical_display(&e);
    assert_eq!(
        display.layers[0].atoms,
        vec![Atom::Identity(1), Atom::Generator(ZERO)]
    );
    assert_eq!(display.layers[1].atoms, vec![Atom::Generator(ADD)]);
}

#[test]
fn a_closed_component_is_emitted_as_a_left_block() {
    let closed = Free::compose(prim(ZERO), prim(DISCARD)).expect("Zero : 0 → 1 ; Discard : 1 → 0");
    let e = Free::tensor(PropExpr::Identity(1), closed);
    let back = readback(&e);
    round_trips(&e);
    assert_eq!(
        back,
        PropExpr::Tensor(
            Box::new(PropExpr::Compose(
                Box::new(PropExpr::Generator(ZERO)),
                Box::new(PropExpr::Generator(DISCARD)),
            )),
            Box::new(PropExpr::Identity(1)),
        )
    );
}

#[test]
fn two_isomorphic_closed_components_both_survive() {
    let loop_ = Free::compose(prim(ZERO), prim(DISCARD)).expect("Zero : 0 → 1 ; Discard : 1 → 0");
    let e = Free::tensor(loop_.clone(), loop_);
    round_trips(&e);
    assert_eq!(content_of(&readback(&e)).edges().len(), 4);
}

#[test]
fn the_written_layer_of_an_eta_does_not_reach_the_display() {
    let left = Free::tensor(
        Free::compose(prim(COPY), Free::tensor(PropExpr::Identity(1), prim(DISCARD)))
            .expect("Copy : 1 → 2 ; (id₁ ⊗ Discard) : 2 → 1"),
        prim(ZERO),
    );
    let right = Free::compose(
        prim(COPY),
        Free::tensor(PropExpr::Identity(1), Free::tensor(prim(ZERO), prim(DISCARD))),
    )
    .expect("Copy : 1 → 2 ; (id₁ ⊗ Zero ⊗ Discard) : 2 → 2");
    assert_ne!(nf(&left), nf(&right), "the two writings still have different normal forms");
    assert_eq!(canonical_display(&left), canonical_display(&right));
}

#[test]
fn a_layer_pinned_eta_below_layer_zero_round_trips() {
    let e = Free::compose(
        Free::compose(
            prim(COPY),
            Free::tensor(PropExpr::Identity(1), Free::tensor(prim(ZERO), PropExpr::Identity(1))),
        )
        .expect("Copy : 1 → 2 ; (id₁ ⊗ Zero ⊗ id₁) : 2 → 3"),
        Free::tensor(PropExpr::Identity(1), prim(ADD)),
    )
    .expect("(…) : 1 → 3 ; (id₁ ⊗ Add) : 3 → 2");
    round_trips(&e);
    assert_eq!(canonical_display(&e), nf(&e));
    let display = canonical_display(&e);
    assert_eq!(display.layers[0].atoms, vec![Atom::Generator(COPY)]);
    assert_eq!(
        display.layers[1].atoms,
        vec![Atom::Identity(1), Atom::Generator(ZERO), Atom::Identity(1)]
    );
}

#[test]
fn an_output_anchored_eta_lands_at_its_boundary_coordinate() {
    let eta = Atom::Generator(ZERO);

    let e = Free::tensor(prim(ZERO), PropExpr::Identity(1));
    round_trips(&e);
    assert_eq!(canonical_display(&e), nf(&e));
    assert_eq!(
        canonical_display(&e).layers[0].atoms,
        vec![eta.clone(), Atom::Identity(1)],
        "output coordinate 0 puts the η left of the wire"
    );

    let e = Free::tensor(PropExpr::Identity(1), prim(ZERO));
    round_trips(&e);
    assert_eq!(canonical_display(&e), nf(&e));
    assert_eq!(
        canonical_display(&e).layers[0].atoms,
        vec![Atom::Identity(1), eta],
        "output coordinate 1 puts it right of the wire"
    );
}

#[test]
fn a_content_with_no_braid_free_writing_gets_its_crossing() {
    let e = Free::compose(
        Free::compose(prim(COPY), PropExpr::Braid(1, 1)).expect("Copy : 1 → 2 ; σ : 2 → 2"),
        prim(ADD),
    )
    .expect("(Copy ; σ) : 1 → 2 ; Add : 2 → 1");
    round_trips(&e);
    assert!(has_braid(&canonical_display(&e)));
    assert_eq!(canonical_display(&e), nf(&e));
}

#[test]
fn a_dead_braid_prefix_does_not_survive_the_readback() {
    let discard = prim(DISCARD);
    let pair = Free::tensor(discard.clone(), discard);
    let braided = Free::compose(PropExpr::Braid(1, 1), pair.clone()).expect("σ ; (ε ⊗ ε)");
    assert_ne!(nf(&braided), nf(&pair), "the two writings still have different normal forms");
    assert_eq!(canonical_display(&braided), canonical_display(&pair));
    assert!(!has_braid(&canonical_display(&braided)));
}

#[test]
fn a_layer_pinned_eta_can_still_take_two_layers() {
    let e = Free::compose(
        Free::compose(
            prim(COPY),
            Free::tensor(Free::tensor(PropExpr::Identity(1), prim(DISCARD)), prim(ZERO)),
        )
        .expect("Copy : 1 → 2 ; (id₁ ⊗ Discard ⊗ Zero) : 2 → 2"),
        prim(ADD),
    )
    .expect("(…) : 1 → 2 ; Add : 2 → 1");

    let written = nf(&e);
    let displayed = canonical_display(&e);
    assert_ne!(written, displayed);
    assert_eq!(nf(&readback(&e)), displayed);
    assert!(!has_braid(&written) && !has_braid(&displayed));
    let eta = Atom::Generator(ZERO);
    assert!(written.layers[0].atoms.contains(&eta));
    assert!(displayed.layers[1].atoms.contains(&eta));
}

#[test]
fn an_empty_content_reads_back_as_the_tensor_unit() {
    let e = Free::<Sfg>::tensor(PropExpr::Identity(0), PropExpr::Identity(0));
    assert_eq!(readback(&e), PropExpr::Identity(0));
    round_trips(&e);
}

#[test]
fn smc_equal_writings_of_a_wide_diagram_agree() {
    let f = prim(COPY);
    let g = prim(DISCARD);
    let left = Free::compose(
        Free::tensor(f.clone(), PropExpr::Identity(1)),
        Free::tensor(PropExpr::Identity(2), g.clone()),
    )
    .expect("(Copy ⊗ id₁) : 2 → 3 ; (id₂ ⊗ Discard) : 3 → 2");
    let right = Free::compose(
        Free::tensor(PropExpr::Identity(1), g),
        Free::tensor(f, PropExpr::Identity(0)),
    )
    .expect("(id₁ ⊗ Discard) : 2 → 1 ; (Copy ⊗ id₀) : 1 → 2");
    assert!(content_eq(&content_of(&left), &content_of(&right)));
    assert_eq!(canonical_display(&left), canonical_display(&right));
}

// Source-free shapes outside the single-output case: a `0 → 0` scalar and a
// `0 → 2` fork, with a `2 → 0` join and a `1 → 1` wire beside them.
const NIL: Primitive = Primitive { label: 10, source: 0, target: 0 };
const FORK: Primitive = Primitive { label: 11, source: 0, target: 2 };
const JOIN: Primitive = Primitive { label: 12, source: 2, target: 0 };
const WIRE: Primitive = Primitive { label: 13, source: 1, target: 1 };

#[test]
fn a_zero_by_zero_scalar_round_trips() {
    let e = E::Generator(NIL);
    round_trips(&e);
    assert_eq!(expr_of_content(&content_of(&e)), E::Generator(NIL));

    let two = PropExpr::Tensor(
        Box::new(E::Generator(NIL)),
        Box::new(PropExpr::Tensor(Box::new(E::Generator(WIRE)), Box::new(E::Generator(NIL)))),
    );
    round_trips(&two);
}

#[test]
fn a_source_zero_hyperedge_with_two_outputs_round_trips() {
    round_trips(&E::Generator(FORK));
    round_trips(&PropExpr::Compose(Box::new(E::Generator(FORK)), Box::new(E::Generator(JOIN))));
}

#[test]
fn a_split_fork_round_trips() {
    let e = PropExpr::Compose(
        Box::new(PropExpr::Tensor(Box::new(E::Generator(WIRE)), Box::new(E::Generator(FORK)))),
        Box::new(PropExpr::Tensor(Box::new(E::Generator(JOIN)), Box::new(E::Generator(WIRE)))),
    );
    round_trips(&e);
}

#[test]
fn a_fork_consumed_in_reverse_round_trips() {
    let e = PropExpr::Compose(
        Box::new(PropExpr::Compose(Box::new(E::Generator(FORK)), Box::new(PropExpr::Braid(1, 1)))),
        Box::new(E::Generator(JOIN)),
    );
    round_trips(&e);
}

#[test]
fn the_readback_starts_from_the_input_foot() {
    let e = Free::tensor(prim(COPY), prim(ADD));
    let back = readback(&e);
    assert_eq!(back.source(), 3);
    assert_eq!(back.target(), 3);
    round_trips(&e);
}
