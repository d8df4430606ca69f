use catgraph_applied::prop::presentation::smc_nf::{from_string_diagram, nf, Atom, Layer, StringDiagram};
use catgraph_applied::prop::{Primitive, PropExpr};

type Sig = Primitive;

const F: Primitive = Primitive { label: 0, source: 1, target: 1 };


#[test]
fn nf_of_identity_0_is_empty_diagram() {
    let e: PropExpr<Sig> = PropExpr::Identity(0);
    assert_eq!(nf(&e), StringDiagram { layers: Vec::new() });
}

#[test]
fn nf_of_generator_is_single_atom_layer() {
    let e: PropExpr<Sig> = PropExpr::Generator(F);
    let expected = StringDiagram {
        layers: vec![Layer {
            atoms: vec![Atom::Generator(F)],
        }],
    };
    assert_eq!(nf(&e), expected);
}

#[test]
fn nf_of_identity_n_is_single_identity_layer() {
    let e: PropExpr<Sig> = PropExpr::Identity(3);
    let expected = StringDiagram {
        layers: vec![Layer {
            atoms: vec![Atom::Identity(3)],
        }],
    };
    assert_eq!(nf(&e), expected);
}

#[test]
fn nf_of_compose_concatenates_layers() {
    let f = PropExpr::Generator(F);
    let e: PropExpr<Sig> = PropExpr::Compose(Box::new(f.clone()), Box::new(f));
    let nf_sd = nf(&e);
    assert_eq!(nf_sd.layers.len(), 2);
    assert_eq!(nf_sd.layers[0].atoms.len(), 1);
    assert_eq!(nf_sd.layers[1].atoms.len(), 1);
}

#[test]
fn nf_of_tensor_merges_layer_atoms() {
    let f = PropExpr::Generator(F);
    let e: PropExpr<Sig> = PropExpr::Tensor(Box::new(f.clone()), Box::new(f));
    let nf_sd = nf(&e);
    assert_eq!(nf_sd.layers.len(), 1);
    assert_eq!(nf_sd.layers[0].atoms.len(), 2);
}

#[test]
fn braid_involution_cancels() {
    let s: PropExpr<Sig> = PropExpr::Braid(1, 1);
    let e = PropExpr::Compose(Box::new(s.clone()), Box::new(s));
    assert_eq!(nf(&e), nf(&PropExpr::Identity(2)));
}

#[test]
fn interchange_writings_agree() {
    let f = PropExpr::Generator(F);
    let id1: PropExpr<Sig> = PropExpr::Identity(1);
    let left = PropExpr::Compose(
        Box::new(PropExpr::Tensor(Box::new(f.clone()), Box::new(id1.clone()))),
        Box::new(PropExpr::Tensor(Box::new(id1.clone()), Box::new(f.clone()))),
    );
    let right = PropExpr::Tensor(Box::new(f.clone()), Box::new(f));
    assert_eq!(nf(&left), nf(&right));
}

#[test]
fn from_string_diagram_reads_layers_back() {
    let sd = StringDiagram {
        layers: vec![
            Layer { atoms: vec![Atom::Generator(F), Atom::Identity(2)] },
            Layer { atoms: vec![Atom::Braid(1, 2)] },
        ],
    };
    let want = PropExpr::Compose(
        Box::new(PropExpr::Tensor(
            Box::new(PropExpr::Generator(F)),
            Box::new(PropExpr::Identity(2)),
        )),
        Box::new(PropExpr::Braid(1, 2)),
    );
    assert_eq!(from_string_diagram(&sd), want);
    let empty: StringDiagram<Sig> = StringDiagram { layers: Vec::new() };
    assert_eq!(from_string_diagram(&empty), PropExpr::Identity(0));
}

#[test]
fn wide_braid_is_hexagon_expanded() {
    let e: PropExpr<Sig> = PropExpr::Braid(2, 1);
    let sd = nf(&e);
    for layer in &sd.layers {
        for atom in &layer.atoms {
            if let Atom::Braid(m, n) = atom {
                assert_eq!((*m, *n), (1, 1));
            }
        }
    }
    assert_eq!(sd.layers.len(), 2);
}

#[test]
fn layers_come_back_as_a_right_associated_composite() {
    let sd: StringDiagram<Sig> = StringDiagram {
        layers: vec![
            Layer { atoms: vec![Atom::Identity(2)] },
            Layer { atoms: vec![Atom::Braid(1, 1)] },
            Layer { atoms: vec![Atom::Identity(2)] },
        ],
    };
    let want = PropExpr::Compose(
        Box::new(PropExpr::Identity(2)),
        Box::new(PropExpr::Compose(Box::new(PropExpr::Braid(1, 1)), Box::new(PropExpr::Identity(2)))),
    );
    assert_eq!(from_string_diagram(&sd), want);
}
