use catgraph_applied::error::CatgraphError;
use catgraph_applied::prop::colored::ColoredExpr;
use catgraph_applied::prop::presentation::content::{
    canonical_content, canonical_key, content_eq, content_of, content_of_colored, from_parts,
    is_arity_well_formed, key_eq, ContentEdge,
};
use catgraph_applied::prop::{Dot, Free, Primitive, PropExpr};

type Sfg = Primitive;

const COPY: Primitive = Primitive { label: 0, source: 1, target: 2 };
const ADD: Primitive = Primitive { label: 1, source: 2, target: 1 };
const DISCARD: Primitive = Primitive { label: 2, source: 1, target: 0 };
const ZERO: Primitive = Primitive { label: 3, source: 0, target: 1 };

/// A small signal-flow signature: copy, add, discard, zero.

type E = PropExpr<Sfg>;

fn prim(g: Sfg) -> E {
    Free::<Sfg>::generator(g)
}

#[test]
fn identity_is_a_discrete_cospan() {
    let c = content_of::<Sfg>(&PropExpr::Identity(3));
    assert_eq!(c.node_count(), 3);
    assert!(c.edges().is_empty());
    assert_eq!(c.input(), c.output());
}

#[test]
fn braid_permutes_the_anchor_but_not_the_nodes() {
    let c = content_of::<Sfg>(&PropExpr::Braid(1, 2));
    assert_eq!(c.node_count(), 3);
    assert_eq!(c.input(), &[0, 1, 2]);
    assert_eq!(c.output(), &[1, 2, 0]);
}

#[test]
fn compose_glues_over_the_shared_foot() {
    let e = Free::compose(prim(COPY), prim(ADD)).expect("Copy : 1 → 2 ; Add : 2 → 1");
    let c = content_of(&e);
    assert_eq!(c.edges().len(), 2);
    assert_eq!(c.node_count(), 4);
    assert_eq!(c.edges()[0].targets, c.edges()[1].sources);
}

#[test]
fn generator_tentacles_type_their_nodes() {
    let c = content_of(&prim(COPY));
    assert!(c.node_colors().iter().all(Option::is_some));
}

#[test]
fn an_untouched_wire_has_no_color_until_a_word_supplies_one() {
    let c = content_of::<Sfg>(&PropExpr::Identity(1));
    assert_eq!(c.node_colors(), &[None]);

    let colored = ColoredExpr::<Sfg>::new(vec![Dot], PropExpr::Identity(1)).expect("id₁ is well-formed at •");
    let c = content_of_colored(&colored);
    assert_eq!(c.node_colors(), &[Some(Dot)]);
}

fn edge(label: Sfg, sources: Vec<usize>, targets: Vec<usize>) -> ContentEdge<Sfg> {
    ContentEdge { label, sources, targets }
}

fn rejects(
    needle: &str,
    node_count: usize,
    node_colors: Vec<Option<Dot>>,
    edges: Vec<ContentEdge<Sfg>>,
    input: Vec<usize>,
    output: Vec<usize>,
) {
    match from_parts(node_count, node_colors, edges, input, output) {
        Err(CatgraphError::Presentation { message }) => {
            assert!(message.contains(needle), "want {needle:?}, got: {message}");
        }
        other => panic!("expected a rejection mentioning {needle:?}, got {:?}", other.map(|c| c.node_count())),
    }
}

#[test]
fn from_parts_rejects_every_way_the_image_characterization_can_fail() {
    rejects("colors for", 1, vec![], vec![], vec![0], vec![0]);
    rejects("sources node", 1, vec![Some(Dot)], vec![edge(DISCARD, vec![5], vec![])], vec![], vec![]);
    rejects("tentacles", 2, vec![Some(Dot); 2], vec![edge(COPY, vec![0], vec![1])], vec![0], vec![1]);
    rejects("declares", 1, vec![None], vec![edge(DISCARD, vec![0], vec![])], vec![0], vec![]);
    rejects(
        "two producers",
        1,
        vec![Some(Dot)],
        vec![edge(ZERO, vec![], vec![0]), edge(ZERO, vec![], vec![0])],
        vec![],
        vec![0],
    );
    rejects(
        "two consumers",
        1,
        vec![Some(Dot)],
        vec![edge(DISCARD, vec![0], vec![]), edge(DISCARD, vec![0], vec![])],
        vec![0],
        vec![],
    );
    rejects("two input coordinates", 1, vec![None], vec![], vec![0, 0], vec![0]);
    rejects("two output coordinates", 1, vec![None], vec![], vec![0], vec![0, 0]);
    rejects("producerless", 1, vec![Some(Dot)], vec![edge(DISCARD, vec![0], vec![])], vec![], vec![]);
    rejects(
        "acyclicity",
        3,
        vec![Some(Dot); 3],
        vec![edge(COPY, vec![0], vec![1, 2]), edge(ADD, vec![1, 2], vec![0])],
        vec![],
        vec![],
    );

    let identity = from_parts::<Sfg>(1, vec![Some(Dot)], vec![], vec![0], vec![0])
        .expect("id₁ is monogamous, acyclic, and mono on each anchor leg");
    assert!(content_eq(
        &identity,
        &content_of_colored(&ColoredExpr::<Sfg>::new(vec![Dot], PropExpr::Identity(1)).expect("id₁ at •"))
    ));
}

#[test]
fn closed_component_key_is_seed_independent() {
    let loop_ = Free::compose(prim(ZERO), prim(DISCARD)).expect("Zero : 0 → 1 ; Discard : 1 → 0");
    let two = Free::tensor(loop_.clone(), loop_);
    let c = content_of(&two);
    let key = canonical_key(&c);
    assert!(key_eq(&key, &canonical_key(&c)));
    assert!(content_eq(&c, &c));
}

#[test]
fn content_equality_is_smc_equality() {
    let id1: E = PropExpr::Identity(1);
    let copy = prim(COPY);
    // Unitor: id₁ ; Copy has the content of Copy.
    let left = Free::compose(id1.clone(), copy.clone()).unwrap();
    assert!(content_eq(&content_of(&left), &content_of(&copy)));
    // Interchange: (Copy ⊗ id₁) ; (id₂ ⊗ Copy) = Copy ⊗ Copy.
    let a = Free::compose(
        Free::tensor(copy.clone(), id1.clone()),
        Free::tensor(PropExpr::Identity(2), copy.clone()),
    )
    .unwrap();
    let b = Free::tensor(copy.clone(), copy.clone());
    assert!(content_eq(&content_of(&a), &content_of(&b)));
    // Cocommutativity is a user equation, not SMC: Copy ; σ differs from Copy.
    let swapped = Free::compose(copy.clone(), Free::braid(1, 1)).unwrap();
    assert!(!content_eq(&content_of(&swapped), &content_of(&copy)));
    // Different sizes are never equal.
    assert!(!content_eq(&content_of(&copy), &content_of(&prim(ADD))));
}

#[test]
fn keys_agree_exactly_on_equal_contents() {
    let copy = prim(COPY);
    let id1: E = PropExpr::Identity(1);
    let left = Free::compose(copy.clone(), PropExpr::Identity(2)).unwrap();
    assert!(key_eq(&canonical_key(&content_of(&left)), &canonical_key(&content_of(&copy))));
    let other = Free::compose(copy.clone(), Free::braid(1, 1)).unwrap();
    assert!(!key_eq(&canonical_key(&content_of(&other)), &canonical_key(&content_of(&copy))));
    let canon = canonical_content(&content_of(&left));
    assert!(content_eq(&canon, &content_of(&copy)));
    assert!(is_arity_well_formed(&left));
    let bad: E = PropExpr::Compose(Box::new(id1), Box::new(PropExpr::Identity(2)));
    assert!(!is_arity_well_formed(&bad));
}
