//! String-diagram normal form for the symmetric monoidal layer.
//!
//! [`nf`] maps an expression to a layered [`StringDiagram`] by a fixpoint of
//! SMC-sound rewrites: empty braids become identities; wide braids are
//! hexagon-expanded into `σ_{1,1}` bricks; adjacent layers merge column-wise
//! (`σ;σ = id`, identity absorption, zero-arity unitor merges); braids are
//! pushed input-ward by naturality and each braid run is replaced by the
//! canonical bubble-sort word of its permutation; identity layers are
//! absorbed; generators sift to their earliest admissible layer; `id_0`
//! atoms are removed; free component blocks and zero-arity columns are put in
//! component order; and strictly commuting zero-arity atoms are put in the
//! within-layer order `scalar < η < ε < solid`, then the signature's order.
//!
//! Every rewrite is SMC-sound, so equal normal forms mean SMC-equal
//! expressions; the converse is not claimed.
//!
//! Wire widths are summed with wrapping arithmetic. Every loop whose
//! termination rests on the fixpoint measure runs under a fuel bound far
//! above the number of passes the measure allows on any diagram that fits in
//! memory.
use vstd::prelude::*;
use crate::prop::{PropExpr, PropSignature, adjacent_swaps, apply_swaps, gens_are_structural, is_ascending, swaps_fix_inversions};
use vstd::laws_eq::obeys_concrete_eq;

verus! {

/// Upper bound on the passes of any fixpoint loop of the normalizer.
pub const NF_FUEL: usize = 1048576;

/// A primitive building block of a [`Layer`].
#[derive(Clone, Copy, Debug, PartialEq, Eq, Hash)]
pub enum Atom<G: PropSignature> {
    /// Wire bundle of width `n`; `Identity(0)` is the tensor unit.
    Identity(usize),
    /// The braid `σ_{m,n}`.
    Braid(usize, usize),
    /// A primitive from the signature.
    Generator(G),
}

/// One horizontal slice of a string diagram: atoms tensored left to right.
#[derive(Clone, Debug, PartialEq, Eq, Hash)]
pub struct Layer<G: PropSignature> {
    /// The atoms, in tensor order.
    pub atoms: Vec<Atom<G>>,
}

/// A layered string diagram `L_0 ; L_1 ; … ; L_{k-1}`.
#[derive(Clone, Debug, PartialEq, Eq, Hash, Default)]
pub struct StringDiagram<G: PropSignature> {
    /// The layers, input side first.
    pub layers: Vec<Layer<G>>,
}

// -------------------------------------------------------------------------
// Reading a diagram back as an expression
// -------------------------------------------------------------------------

/// The expression of one atom.
pub open spec fn spec_atom_expr<G: PropSignature>(a: Atom<G>) -> PropExpr<G> {
    match a {
        Atom::Identity(n) => PropExpr::Identity(n),
        Atom::Braid(m, n) => PropExpr::Braid(m, n),
        Atom::Generator(g) => PropExpr::Generator(g),
    }
}

/// The right-associated tensor of the atoms `atoms`, `id_0` when empty.
pub open spec fn spec_tensor_expr<G: PropSignature>(atoms: Seq<Atom<G>>) -> PropExpr<G>
    decreases atoms.len(),
{
    if atoms.len() == 0 {
        PropExpr::Identity(0)
    } else if atoms.len() == 1 {
        spec_atom_expr(atoms[0])
    } else {
        PropExpr::Tensor(Box::new(spec_atom_expr(atoms[0])), Box::new(spec_tensor_expr(atoms.drop_first())))
    }
}

/// The right-associated composite of the layer expressions of `layers`,
/// `id_0` when empty.
pub open spec fn spec_diagram_expr<G: PropSignature>(layers: Seq<Layer<G>>) -> PropExpr<G>
    decreases layers.len(),
{
    if layers.len() == 0 {
        PropExpr::Identity(0)
    } else if layers.len() == 1 {
        spec_tensor_expr(layers[0].atoms@)
    } else {
        PropExpr::Compose(
            Box::new(spec_tensor_expr(layers[0].atoms@)),
            Box::new(spec_diagram_expr(layers.drop_first())),
        )
    }
}

/// The expression of one atom.
fn atom_to_expr<G: PropSignature>(atom: &Atom<G>) -> (r: PropExpr<G>)
    ensures
        r == spec_atom_expr(*atom),
{
    match atom {
        Atom::Identity(n) => PropExpr::Identity(*n),
        Atom::Braid(m, n) => PropExpr::Braid(*m, *n),
        Atom::Generator(g) => PropExpr::Generator(*g),
    }
}

/// A layer's atoms as a right-associated tensor expression.
fn layer_to_expr<G: PropSignature>(layer: &Layer<G>) -> (r: PropExpr<G>)
    ensures
        r == spec_tensor_expr(layer.atoms@),
{
    let n = layer.atoms.len();
    if n == 0 {
        return PropExpr::Identity(0);
    }
    let mut acc = atom_to_expr(&layer.atoms[n - 1]);
    let mut i: usize = n - 1;
    proof {
        assert(layer.atoms@.subrange(n - 1, n as int) =~= seq![layer.atoms@[n - 1]]);
    }
    while i > 0
        invariant
            0 <= i < n,
            n == layer.atoms@.len(),
            acc == spec_tensor_expr(layer.atoms@.subrange(i as int, n as int)),
        decreases i,
    {
        let prev = i - 1;
        let head = atom_to_expr(&layer.atoms[prev]);
        proof {
            let s = layer.atoms@.subrange(prev as int, n as int);
            assert(s.drop_first() =~= layer.atoms@.subrange(i as int, n as int));
            assert(s[0] == layer.atoms@[prev as int]);
            assert(s.len() >= 2);
        }
        acc = PropExpr::Tensor(Box::new(head), Box::new(acc));
        i = prev;
    }
    proof {
        assert(layer.atoms@.subrange(0, n as int) =~= layer.atoms@);
    }
    acc
}

/// Fold a diagram back into an expression: each layer a right-associated
/// tensor of its atoms, the layers a right-associated composite; the empty
/// diagram is `id_0`.
pub fn from_string_diagram<G: PropSignature>(sd: &StringDiagram<G>) -> (r: PropExpr<G>)
    ensures
        r == spec_diagram_expr(sd.layers@),
{
    let n = sd.layers.len();
    if n == 0 {
        return PropExpr::Identity(0);
    }
    let mut acc = layer_to_expr(&sd.layers[n - 1]);
    let mut i: usize = n - 1;
    proof {
        assert(sd.layers@.subrange(n - 1, n as int) =~= seq![sd.layers@[n - 1]]);
    }
    while i > 0
        invariant
            0 <= i < n,
            n == sd.layers@.len(),
            acc == spec_diagram_expr(sd.layers@.subrange(i as int, n as int)),
        decreases i,
    {
        let prev = i - 1;
        let head = layer_to_expr(&sd.layers[prev]);
        proof {
            let s = sd.layers@.subrange(prev as int, n as int);
            assert(s.drop_first() =~= sd.layers@.subrange(i as int, n as int));
            assert(s[0] == sd.layers@[prev as int]);
            assert(s.len() >= 2);
        }
        acc = PropExpr::Compose(Box::new(head), Box::new(acc));
        i = prev;
    }
    proof {
        assert(sd.layers@.subrange(0, n as int) =~= sd.layers@);
    }
    acc
}

// -------------------------------------------------------------------------
// Small helpers
// -------------------------------------------------------------------------

/// An atom's source width (a braid's two widths add with wrap-around).
pub open spec fn spec_atom_source<G: PropSignature>(a: Atom<G>) -> usize {
    match a {
        Atom::Identity(n) => n,
        Atom::Braid(m, n) => m.wrapping_add(n),
        Atom::Generator(g) => g.spec_source_word().len() as usize,
    }
}

/// An atom's target width.
pub open spec fn spec_atom_target<G: PropSignature>(a: Atom<G>) -> usize {
    match a {
        Atom::Identity(n) => n,
        Atom::Braid(m, n) => m.wrapping_add(n),
        Atom::Generator(g) => g.spec_target_word().len() as usize,
    }
}

/// The total source (or target) width of `atoms`, summed with wrap-around.
pub open spec fn spec_width<G: PropSignature>(atoms: Seq<Atom<G>>, use_target: bool) -> usize
    decreases atoms.len(),
{
    if atoms.len() == 0 {
        0
    } else {
        let w = if use_target {
            spec_atom_target(atoms.last())
        } else {
            spec_atom_source(atoms.last())
        };
        spec_width(atoms.drop_last(), use_target).wrapping_add(w)
    }
}

/// `atoms` with every run of adjacent identities fused into one (widths
/// added with wrap-around).
pub open spec fn merged<G: PropSignature>(atoms: Seq<Atom<G>>) -> Seq<Atom<G>>
    decreases atoms.len(),
{
    if atoms.len() == 0 {
        Seq::empty()
    } else {
        let m = merged(atoms.drop_last());
        match atoms.last() {
            Atom::Identity(n) => if m.len() > 0 && m.last() is Identity {
                m.update(m.len() - 1, Atom::Identity(m.last()->Identity_0.wrapping_add(n)))
            } else {
                m.push(atoms.last())
            },
            _ => m.push(atoms.last()),
        }
    }
}

/// `atoms` with every `Identity(n)` split into `n` copies of `Identity(1)`.
pub open spec fn exploded<G: PropSignature>(atoms: Seq<Atom<G>>) -> Seq<Atom<G>>
    decreases atoms.len(),
{
    if atoms.len() == 0 {
        Seq::empty()
    } else {
        exploded(atoms.drop_last()) + match atoms.last() {
            Atom::Identity(n) => Seq::new(n as nat, |j: int| Atom::<G>::Identity(1)),
            other => seq![other],
        }
    }
}

/// A diagram as the sequence of its layers' atom runs.
pub open spec fn diagram_view<G: PropSignature>(sd: StringDiagram<G>) -> Seq<Seq<Atom<G>>> {
    sd.layers@.map_values(|l: Layer<G>| l.atoms@)
}

/// Source width of an atom.
fn atom_source<G: PropSignature>(a: &Atom<G>) -> (r: usize)
    ensures
        r == spec_atom_source(*a),
{
    match a {
        Atom::Identity(n) => *n,
        Atom::Braid(m, n) => m.wrapping_add(*n),
        Atom::Generator(g) => g.source(),
    }
}

/// Target width of an atom.
fn atom_target<G: PropSignature>(a: &Atom<G>) -> (r: usize)
    ensures
        r == spec_atom_target(*a),
{
    match a {
        Atom::Identity(n) => *n,
        Atom::Braid(m, n) => m.wrapping_add(*n),
        Atom::Generator(g) => g.target(),
    }
}

/// Total source or target width of a run of atoms.
fn width_of<G: PropSignature>(atoms: &[Atom<G>], use_target: bool) -> (r: usize)
    ensures
        r == spec_width(atoms@, use_target),
{
    let mut total: usize = 0;
    let mut i: usize = 0;
    while i < atoms.len()
        invariant
            i <= atoms@.len(),
            total == spec_width(atoms@.take(i as int), use_target),
        decreases atoms@.len() - i,
    {
        let w = if use_target { atom_target(&atoms[i]) } else { atom_source(&atoms[i]) };
        proof {
            assert(atoms@.take(i + 1).drop_last() =~= atoms@.take(i as int));
        }
        total = total.wrapping_add(w);
        i = i + 1;
    }
    proof {
        assert(atoms@.take(atoms@.len() as int) =~= atoms@);
    }
    total
}

/// Total width of `atoms[lo..hi]`.
fn width_between<G: PropSignature>(atoms: &Vec<Atom<G>>, lo: usize, hi: usize, use_target: bool) -> (r: usize)
    ensures
        ({
            let end = if hi < atoms@.len() { hi as int } else { atoms@.len() as int };
            r == if lo < end { spec_width(atoms@.subrange(lo as int, end), use_target) } else { 0 }
        }),
{
    let mut total: usize = 0;
    let mut i: usize = lo;
    while i < hi && i < atoms.len()
        invariant
            lo <= i,
            i > lo ==> i <= hi && i <= atoms@.len(),
            i > lo ==> total == spec_width(atoms@.subrange(lo as int, i as int), use_target),
            i == lo ==> total == 0,
        decreases atoms@.len() - i,
    {
        proof {
            assert(atoms@.subrange(lo as int, i + 1).drop_last() =~= atoms@.subrange(lo as int, i as int));
            if i == lo {
                assert(atoms@.subrange(lo as int, i as int) =~= Seq::<Atom<G>>::empty());
            }
            assert(atoms@.subrange(lo as int, i + 1).last() == atoms@[i as int]);
            assert(spec_width(atoms@.subrange(lo as int, i + 1), use_target) == spec_width(
                atoms@.subrange(lo as int, i as int),
                use_target,
            ).wrapping_add(
                if use_target {
                    spec_atom_target(atoms@[i as int])
                } else {
                    spec_atom_source(atoms@[i as int])
                },
            ));
        }
        let w = if use_target { atom_target(&atoms[i]) } else { atom_source(&atoms[i]) };
        total = total.wrapping_add(w);
        i = i + 1;
    }
    total
}

/// Whether two atoms are equal.
fn atom_eq<G: PropSignature>(a: &Atom<G>, b: &Atom<G>) -> (r: bool)
    requires
        gens_are_structural::<G>(),
    ensures
        r == (*a == *b),
{
    match (a, b) {
        (Atom::Identity(x), Atom::Identity(y)) => *x == *y,
        (Atom::Braid(x1, x2), Atom::Braid(y1, y2)) => *x1 == *y1 && *x2 == *y2,
        (Atom::Generator(g), Atom::Generator(h)) => {
            let same = *g == *h;
            proof {
                reveal(obeys_concrete_eq);
            }
            same
        },
        _ => false,
    }
}

/// Whether two atom runs are equal.
fn atoms_eq<G: PropSignature>(a: &Vec<Atom<G>>, b: &Vec<Atom<G>>) -> (r: bool)
    requires
        gens_are_structural::<G>(),
    ensures
        r == (a@ == b@),
{
    if a.len() != b.len() {
        return false;
    }
    let mut i: usize = 0;
    while i < a.len()
        invariant
            a@.len() == b@.len(),
            i <= a@.len(),
            gens_are_structural::<G>(),
            forall|k: int| 0 <= k < i ==> a@[k] == b@[k],
        decreases a@.len() - i,
    {
        if !atom_eq(&a[i], &b[i]) {
            return false;
        }
        i = i + 1;
    }
    proof {
        assert(a@ =~= b@);
    }
    true
}

/// Whether two diagrams are equal, layer by layer.
fn diagram_eq<G: PropSignature>(a: &StringDiagram<G>, b: &StringDiagram<G>) -> (r: bool)
    requires
        gens_are_structural::<G>(),
    ensures
        r == (diagram_view(*a) == diagram_view(*b)),
{
    if a.layers.len() != b.layers.len() {
        proof {
            assert(diagram_view(*a).len() != diagram_view(*b).len());
        }
        return false;
    }
    let mut i: usize = 0;
    while i < a.layers.len()
        invariant
            a.layers@.len() == b.layers@.len(),
            i <= a.layers@.len(),
            gens_are_structural::<G>(),
            forall|k: int| 0 <= k < i ==> a.layers@[k].atoms@ == b.layers@[k].atoms@,
        decreases a.layers@.len() - i,
    {
        if !atoms_eq(&a.layers[i].atoms, &b.layers[i].atoms) {
            proof {
                assert(diagram_view(*a)[i as int] != diagram_view(*b)[i as int]);
            }
            return false;
        }
        i = i + 1;
    }
    proof {
        assert(diagram_view(*a) =~= diagram_view(*b));
    }
    true
}

/// A copy of a run of atoms.
fn copy_atoms<G: PropSignature>(v: &Vec<Atom<G>>) -> (r: Vec<Atom<G>>)
    ensures
        r@ == v@,
{
    let mut r: Vec<Atom<G>> = Vec::new();
    let mut i: usize = 0;
    while i < v.len()
        invariant
            i <= v@.len(),
            r@ == v@.take(i as int),
        decreases v@.len() - i,
    {
        r.push(v[i]);
        i = i + 1;
        proof {
            assert(r@ =~= v@.take(i as int));
        }
    }
    proof {
        assert(v@.take(v@.len() as int) =~= v@);
    }
    r
}

/// A copy of a diagram.
fn copy_diagram<G: PropSignature>(sd: &StringDiagram<G>) -> (r: StringDiagram<G>)
    ensures
        r.layers@.len() == sd.layers@.len(),
        forall|j: int| 0 <= j < sd.layers@.len() ==> (#[trigger] r.layers@[j]).atoms@ == sd.layers@[j].atoms@,
{
    let mut layers: Vec<Layer<G>> = Vec::new();
    let mut i: usize = 0;
    while i < sd.layers.len()
        invariant
            i <= sd.layers@.len(),
            layers@.len() == i,
            forall|j: int| 0 <= j < i ==> (#[trigger] layers@[j]).atoms@ == sd.layers@[j].atoms@,
        decreases sd.layers@.len() - i,
    {
        layers.push(Layer { atoms: copy_atoms(&sd.layers[i].atoms) });
        i = i + 1;
    }
    StringDiagram { layers }
}

/// Fuse adjacent identity atoms: `Identity(m), Identity(n)` → `Identity(m+n)`.
fn merge_adjacent_identities<G: PropSignature>(atoms: Vec<Atom<G>>) -> (r: Vec<Atom<G>>)
    ensures
        r@ == merged(atoms@),
{
    let mut out: Vec<Atom<G>> = Vec::new();
    let mut i: usize = 0;
    while i < atoms.len()
        invariant
            i <= atoms@.len(),
            out@ == merged(atoms@.take(i as int)),
        decreases atoms@.len() - i,
    {
        let atom = atoms[i];
        proof {
            assert(atoms@.take(i + 1).drop_last() =~= atoms@.take(i as int));
            assert(atoms@.take(i + 1).last() == atom);
        }
        let len = out.len();
        match atom {
            Atom::Identity(n) => {
                if len > 0 {
                    match out[len - 1] {
                        Atom::Identity(prev_n) => {
                            out.set(len - 1, Atom::Identity(prev_n.wrapping_add(n)));
                        },
                        _ => {
                            out.push(atom);
                        },
                    }
                } else {
                    out.push(atom);
                }
            },
            _ => {
                out.push(atom);
            },
        }
        i = i + 1;
    }
    proof {
        assert(atoms@.take(atoms@.len() as int) =~= atoms@);
    }
    out
}

/// True if `atoms` holds at least one braid.
fn layer_has_braid<G: PropSignature>(atoms: &Vec<Atom<G>>) -> (r: bool)
    ensures
        r == exists|i: int| 0 <= i < atoms@.len() && atoms@[i] is Braid,
{
    let mut i: usize = 0;
    while i < atoms.len()
        invariant
            i <= atoms@.len(),
            forall|k: int| 0 <= k < i ==> !(atoms@[k] is Braid),
        decreases atoms@.len() - i,
    {
        if let Atom::Braid(_, _) = atoms[i] {
            return true;
        }
        i = i + 1;
    }
    false
}

/// True if `atoms` holds at least one generator.
fn layer_has_generator<G: PropSignature>(atoms: &Vec<Atom<G>>) -> (r: bool)
    ensures
        r == exists|i: int| 0 <= i < atoms@.len() && atoms@[i] is Generator,
{
    let mut i: usize = 0;
    while i < atoms.len()
        invariant
            i <= atoms@.len(),
            forall|k: int| 0 <= k < i ==> !(atoms@[k] is Generator),
        decreases atoms@.len() - i,
    {
        if let Atom::Generator(_) = atoms[i] {
            return true;
        }
        i = i + 1;
    }
    false
}

/// A layer holding both a braid and a generator.
fn is_mixed_layer<G: PropSignature>(atoms: &Vec<Atom<G>>) -> (r: bool)
    ensures
        r == ((exists|i: int| 0 <= i < atoms@.len() && atoms@[i] is Braid) && (exists|i: int|
            0 <= i < atoms@.len() && atoms@[i] is Generator)),
{
    layer_has_braid(atoms) && layer_has_generator(atoms)
}

/// A non-empty layer of identities only.
fn is_identity_only<G: PropSignature>(layer: &Layer<G>) -> (r: bool)
    ensures
        r == (layer.atoms@.len() > 0 && forall|i: int| 0 <= i < layer.atoms@.len() ==> layer.atoms@[i] is Identity),
{
    if layer.atoms.len() == 0 {
        return false;
    }
    let mut i: usize = 0;
    while i < layer.atoms.len()
        invariant
            i <= layer.atoms@.len(),
            forall|k: int| 0 <= k < i ==> layer.atoms@[k] is Identity,
        decreases layer.atoms@.len() - i,
    {
        match layer.atoms[i] {
            Atom::Identity(_) => {},
            _ => {
                return false;
            },
        }
        i = i + 1;
    }
    true
}

/// A layer of identities and braids holding at least one braid.
fn is_braid_only_layer<G: PropSignature>(layer: &Layer<G>) -> (r: bool)
    ensures
        r == ((exists|i: int| 0 <= i < layer.atoms@.len() && layer.atoms@[i] is Braid) && forall|i: int|
            0 <= i < layer.atoms@.len() ==> !(layer.atoms@[i] is Generator)),
{
    if !layer_has_braid(&layer.atoms) {
        return false;
    }
    let mut i: usize = 0;
    while i < layer.atoms.len()
        invariant
            i <= layer.atoms@.len(),
            forall|k: int| 0 <= k < i ==> !(layer.atoms@[k] is Generator),
        decreases layer.atoms@.len() - i,
    {
        if let Atom::Generator(_) = layer.atoms[i] {
            return false;
        }
        i = i + 1;
    }
    true
}

/// Split every `Identity(n)` into `n` copies of `Identity(1)`.
fn explode_identities<G: PropSignature>(atoms: &Vec<Atom<G>>) -> (r: Vec<Atom<G>>)
    ensures
        r@ == exploded(atoms@),
{
    let mut out: Vec<Atom<G>> = Vec::new();
    let mut i: usize = 0;
    while i < atoms.len()
        invariant
            i <= atoms@.len(),
            out@ == exploded(atoms@.take(i as int)),
        decreases atoms@.len() - i,
    {
        let ghost before = out@;
        proof {
            assert(atoms@.take(i + 1).drop_last() =~= atoms@.take(i as int));
            assert(atoms@.take(i + 1).last() == atoms@[i as int]);
        }
        match atoms[i] {
            Atom::Identity(n) => {
                let mut k: usize = 0;
                while k < n
                    invariant
                        k <= n,
                        out@ == before + Seq::new(k as nat, |j: int| Atom::<G>::Identity(1)),
                    decreases n - k,
                {
                    out.push(Atom::Identity(1));
                    k = k + 1;
                    proof {
                        assert(out@ =~= before + Seq::new(k as nat, |j: int| Atom::<G>::Identity(1)));
                    }
                }
                proof {
                    assert(out@ =~= exploded(atoms@.take(i + 1)));
                }
            },
            other => {
                out.push(other);
                proof {
                    assert(out@ =~= exploded(atoms@.take(i + 1)));
                }
            },
        }
        i = i + 1;
    }
    proof {
        assert(atoms@.take(atoms@.len() as int) =~= atoms@);
    }
    out
}

// -------------------------------------------------------------------------
// Lowering
// -------------------------------------------------------------------------

/// A one-atom, one-layer diagram.
fn single<G: PropSignature>(a: Atom<G>) -> (r: StringDiagram<G>)
    ensures
        diagram_view(r) == seq![seq![a]],
{
    let mut atoms: Vec<Atom<G>> = Vec::new();
    atoms.push(a);
    let mut layers: Vec<Layer<G>> = Vec::new();
    layers.push(Layer { atoms });
    let r = StringDiagram { layers };
    proof {
        assert(diagram_view(r) =~= seq![seq![a]]);
    }
    r
}

/// Output width of a diagram: the target width of its last layer.
fn trailing_arity<G: PropSignature>(sd: &StringDiagram<G>) -> (r: usize)
    ensures
        r == if sd.layers@.len() == 0 { 0 } else { spec_width(sd.layers@.last().atoms@, true) },
{
    let n = sd.layers.len();
    if n == 0 {
        0
    } else {
        width_of(sd.layers[n - 1].atoms.as_slice(), true)
    }
}

/// Pad two diagrams to equal layer count with identity layers of their
/// trailing width, then concatenate atoms layer-wise, fusing identities.
/// Layer `i` of `ls`, or one identity of width `w` past its end.
spec fn padded_layer<G: PropSignature>(ls: Seq<Seq<Atom<G>>>, i: int, w: usize) -> Seq<Atom<G>> {
    if i < ls.len() {
        ls[i]
    } else {
        seq![Atom::<G>::Identity(w)]
    }
}

/// The trailing target width of a diagram, `0` when it has no layer.
spec fn trailing_width<G: PropSignature>(ls: Seq<Seq<Atom<G>>>) -> usize {
    if ls.len() == 0 {
        0
    } else {
        spec_width(ls.last(), true)
    }
}

/// `a ⊗ b` layer-wise: the shorter side padded with identity layers of its
/// trailing width, each pair of layers side by side with identities fused.
spec fn zipped<G: PropSignature>(a: Seq<Seq<Atom<G>>>, b: Seq<Seq<Atom<G>>>) -> Seq<Seq<Atom<G>>> {
    let n = if a.len() < b.len() { b.len() } else { a.len() };
    Seq::new(
        n,
        |i: int| merged(padded_layer(a, i, trailing_width(a)) + padded_layer(b, i, trailing_width(b))),
    )
}

fn pad_and_zip<G: PropSignature>(a: StringDiagram<G>, b: StringDiagram<G>) -> (r: StringDiagram<G>)
    ensures
        diagram_view(r) == zipped(diagram_view(a), diagram_view(b)),
{
    let ghost va = diagram_view(a);
    let ghost vb = diagram_view(b);
    let a_last = trailing_arity(&a);
    let b_last = trailing_arity(&b);
    proof {
        if va.len() > 0 {
            assert(va.last() == a.layers@.last().atoms@);
        }
        if vb.len() > 0 {
            assert(vb.last() == b.layers@.last().atoms@);
        }
    }
    let mut la = a.layers;
    let mut lb = b.layers;
    while la.len() < lb.len()
        invariant
            la@.len() >= va.len(),
            la@.len() <= if va.len() < vb.len() { vb.len() } else { va.len() },
            lb@.len() == vb.len(),
            va == diagram_view(a),
            vb == diagram_view(b),
            a_last == trailing_width(va),
            forall|i: int| 0 <= i < la@.len() ==> #[trigger] la@[i].atoms@ == padded_layer(va, i, a_last),
        decreases lb@.len() - la@.len(),
    {
        la.push(Layer { atoms: vec![Atom::Identity(a_last)] });
    }
    while lb.len() < la.len()
        invariant
            lb@.len() >= vb.len(),
            lb@.len() <= la@.len(),
            la@.len() == if va.len() < vb.len() { vb.len() } else { va.len() },
            va == diagram_view(a),
            vb == diagram_view(b),
            b_last == trailing_width(vb),
            forall|i: int| 0 <= i < lb@.len() ==> #[trigger] lb@[i].atoms@ == padded_layer(vb, i, b_last),
        decreases la@.len() - lb@.len(),
    {
        lb.push(Layer { atoms: vec![Atom::Identity(b_last)] });
    }
    let ghost n = la@.len();
    proof {
        assert(n == if va.len() < vb.len() { vb.len() } else { va.len() });
    }
    let mut layers: Vec<Layer<G>> = Vec::new();
    let mut i: usize = 0;
    while i < la.len() && i < lb.len()
        invariant
            la@.len() == n,
            lb@.len() == n,
            i <= n,
            layers@.len() == i,
            forall|t: int| 0 <= t < la@.len() ==> #[trigger] la@[t].atoms@ == padded_layer(va, t, a_last),
            forall|t: int| 0 <= t < lb@.len() ==> #[trigger] lb@[t].atoms@ == padded_layer(vb, t, b_last),
            forall|t: int| 0 <= t < i ==> #[trigger] layers@[t].atoms@ == zipped(va, vb)[t],
            n == if va.len() < vb.len() { vb.len() } else { va.len() },
            a_last == trailing_width(va),
            b_last == trailing_width(vb),
        decreases la@.len() - i,
    {
        let mut atoms = copy_atoms(&la[i].atoms);
        let mut more = copy_atoms(&lb[i].atoms);
        atoms.append(&mut more);
        layers.push(Layer { atoms: merge_adjacent_identities(atoms) });
        i = i + 1;
    }
    let r = StringDiagram { layers };
    proof {
        assert(diagram_view(r) =~= zipped(va, vb));
    }
    r
}

/// Lower an expression into a one-atom-per-leaf diagram: composition
/// concatenates layers, tensor zips them side by side.
fn lower<G: PropSignature>(expr: &PropExpr<G>) -> (r: StringDiagram<G>)
    ensures
        diagram_view(r) == lowered(*expr),
    decreases expr,
{
    match expr {
        PropExpr::Identity(n) => {
            if *n == 0 {
                let r = StringDiagram { layers: Vec::new() };
                proof {
                    assert(diagram_view(r) =~= Seq::<Seq<Atom<G>>>::empty());
                }
                r
            } else {
                single(Atom::Identity(*n))
            }
        },
        PropExpr::Braid(m, n) => single(Atom::Braid(*m, *n)),
        PropExpr::Generator(g) => single(Atom::Generator(*g)),
        PropExpr::Compose(a, b) => {
            let mut la = lower(a);
            let mut lb = lower(b);
            let ghost va = la.layers@;
            let ghost vb = lb.layers@;
            la.layers.append(&mut lb.layers);
            proof {
                assert(la.layers@ == va + vb);
                assert(diagram_view(la) =~= lowered(**a) + lowered(**b));
            }
            la
        },
        PropExpr::Tensor(a, b) => pad_and_zip(lower(a), lower(b)),
    }
}

/// The one-atom-per-leaf diagram of an expression: composition stacks the
/// layers, tensor zips them side by side.
spec fn lowered<G: PropSignature>(expr: PropExpr<G>) -> Seq<Seq<Atom<G>>>
    decreases expr,
{
    match expr {
        PropExpr::Identity(n) => if n == 0 {
            Seq::empty()
        } else {
            seq![seq![Atom::Identity(n)]]
        },
        PropExpr::Braid(m, n) => seq![seq![Atom::Braid(m, n)]],
        PropExpr::Generator(g) => seq![seq![Atom::Generator(g)]],
        PropExpr::Compose(a, b) => lowered(*a) + lowered(*b),
        PropExpr::Tensor(a, b) => zipped(lowered(*a), lowered(*b)),
    }
}

// -------------------------------------------------------------------------
// Step 0 and Step 1: empty and wide braids
// -------------------------------------------------------------------------

/// `Braid(0, n) → Identity(n)` and `Braid(m, 0) → Identity(m)`.
fn normalize_empty_braids<G: PropSignature>(sd: StringDiagram<G>) -> (r: StringDiagram<G>)
    ensures
        r.layers@.len() == sd.layers@.len(),
        forall|j: int|
            0 <= j < sd.layers@.len() ==> #[trigger] r.layers@[j].atoms@ == sd.layers@[j].atoms@.map_values(
                |a: Atom<G>| unbraid_empty(a),
            ),
{
    let mut layers: Vec<Layer<G>> = Vec::new();
    let mut j: usize = 0;
    while j < sd.layers.len()
        invariant
            j <= sd.layers@.len(),
            layers@.len() == j,
            forall|t: int|
                0 <= t < j ==> #[trigger] layers@[t].atoms@ == sd.layers@[t].atoms@.map_values(
                    |a: Atom<G>| unbraid_empty(a),
                ),
        decreases sd.layers@.len() - j,
    {
        let mut atoms: Vec<Atom<G>> = Vec::new();
        let mut i: usize = 0;
        while i < sd.layers[j].atoms.len()
            invariant
                j < sd.layers@.len(),
                i <= sd.layers@[j as int].atoms@.len(),
                atoms@ == sd.layers@[j as int].atoms@.take(i as int).map_values(|a: Atom<G>| unbraid_empty(a)),
            decreases sd.layers@[j as int].atoms@.len() - i,
        {
            let a = match sd.layers[j].atoms[i] {
                Atom::Braid(m, n) => {
                    if m == 0 {
                        Atom::Identity(n)
                    } else if n == 0 {
                        Atom::Identity(m)
                    } else {
                        Atom::Braid(m, n)
                    }
                },
                other => other,
            };
            atoms.push(a);
            proof {
                assert(atoms@ =~= sd.layers@[j as int].atoms@.take(i + 1).map_values(|a: Atom<G>| unbraid_empty(a)));
            }
            i = i + 1;
        }
        proof {
            assert(sd.layers@[j as int].atoms@.take(sd.layers@[j as int].atoms@.len() as int) =~= sd.layers@[j as int].atoms@);
        }
        layers.push(Layer { atoms });
        j = j + 1;
    }
    StringDiagram { layers }
}

/// `σ_{0,n}` and `σ_{m,0}` as the identities they are; other atoms unchanged.
spec fn unbraid_empty<G: PropSignature>(a: Atom<G>) -> Atom<G> {
    match a {
        Atom::Braid(m, n) => if m == 0 {
            Atom::Identity(n)
        } else if n == 0 {
            Atom::Identity(m)
        } else {
            a
        },
        _ => a,
    }
}

/// Atom `k` of `atoms` is a wide braid (`m + n > 2`) and every other atom
/// is an identity.
spec fn padded_wide_braid<G: PropSignature>(atoms: Seq<Atom<G>>, k: int) -> bool {
    &&& 0 <= k < atoms.len()
    &&& atoms[k] matches Atom::Braid(m, n) && m.wrapping_add(n) > 2
    &&& forall|j: int| 0 <= j < atoms.len() && j != k ==> #[trigger] atoms[j] is Identity
}

/// A layer that is all identities save for one wide braid `σ_{m,n}`
/// (`m + n > 2`): the identity widths before and after it, and `(m, n)`.
fn wide_braid_in_identity_padding<G: PropSignature>(atoms: &Vec<Atom<G>>) -> (r: Option<(usize, (usize, usize), usize)>)
    ensures
        r matches Some((pre, (m, n), suf)) ==> exists|k: int| #[trigger] padded_wide_braid(atoms@, k) && {
            &&& atoms@[k] == Atom::<G>::Braid(m, n)
            &&& pre == spec_width(atoms@.take(k), false)
            &&& suf == spec_width(atoms@.subrange(k + 1, atoms@.len() as int), false)
        },
        r is None ==> !(exists|k: int| #[trigger] padded_wide_braid(atoms@, k)),
{
    let mut braid: Option<(usize, usize)> = None;
    let mut braid_idx: usize = 0;
    let mut i: usize = 0;
    while i < atoms.len()
        invariant
            i <= atoms@.len(),
            braid_idx <= i,
            braid is Some ==> braid_idx < i,
            braid matches Some((m, n)) ==> atoms@[braid_idx as int] == Atom::<G>::Braid(m, n) && m.wrapping_add(n) > 2,
            forall|j: int| 0 <= j < i && (braid is None || j != braid_idx) ==> #[trigger] atoms@[j] is Identity,
        decreases atoms@.len() - i,
    {
        proof {
            if !(atoms@[i as int] is Identity) {
                assert forall|k: int| #[trigger] padded_wide_braid(atoms@, k) implies k == i by {
                    if k != i {
                        assert(atoms@[i as int] is Identity);
                    }
                }
                if braid is Some {
                    assert forall|k: int| #[trigger] padded_wide_braid(atoms@, k) implies false by {
                        assert(atoms@[braid_idx as int] is Identity);
                    }
                }
            }
        }
        match atoms[i] {
            Atom::Identity(_) => {},
            Atom::Braid(m, n) => {
                if m.wrapping_add(n) > 2 && braid.is_none() {
                    braid = Some((m, n));
                    braid_idx = i;
                } else {
                    return None;
                }
            },
            _ => {
                return None;
            },
        }
        i = i + 1;
    }
    match braid {
        None => {
            proof {
                assert forall|k: int| #[trigger] padded_wide_braid(atoms@, k) implies false by {
                    assert(atoms@[k] is Identity);
                }
            }
            None
        },
        Some((m, n)) => {
            let prefix = width_between(atoms, 0, braid_idx, false);
            let suffix = width_between(atoms, braid_idx + 1, atoms.len(), false);
            proof {
                assert(atoms@.subrange(0, braid_idx as int) =~= atoms@.take(braid_idx as int));
                assert(atoms@.take(0) =~= Seq::<Atom<G>>::empty());
                assert(atoms@.subrange(atoms@.len() as int, atoms@.len() as int) =~= Seq::<Atom<G>>::empty());
                assert(padded_wide_braid(atoms@, braid_idx as int));
            }
            Some((prefix, (m, n), suffix))
        },
    }
}

/// A single `σ_{1,1}` at wire `i` of an `n_total`-wire layer, padded with
/// identities.
fn braid_at_position<G: PropSignature>(i: usize, n_total: usize) -> (r: Vec<Atom<G>>)
    ensures
        r@ == (if i > 0 { seq![Atom::Identity(i)] } else { Seq::empty() }) + seq![Atom::<G>::Braid(1, 1)]
            + (if i < n_total && n_total - i > 2 { seq![Atom::Identity((n_total - i - 2) as usize)] } else { Seq::empty() }),
{
    let mut atoms: Vec<Atom<G>> = Vec::new();
    if i > 0 {
        atoms.push(Atom::Identity(i));
    }
    atoms.push(Atom::Braid(1, 1));
    if i < n_total && n_total - i > 2 {
        atoms.push(Atom::Identity(n_total - i - 2));
    }
    proof {
        assert(atoms@ =~= (if i > 0 { seq![Atom::Identity(i)] } else { Seq::empty() }) + seq![Atom::<G>::Braid(1, 1)]
            + (if i < n_total && n_total - i > 2 { seq![Atom::Identity((n_total - i - 2) as usize)] } else { Seq::empty() }));
    }
    atoms
}

/// The entries of `v` in reverse order.
fn reversed(v: &Vec<usize>) -> (r: Vec<usize>)
    ensures
        r@.len() == v@.len(),
        r@ == v@.reverse(),
{
    let mut r: Vec<usize> = Vec::new();
    let mut i: usize = v.len();
    while i > 0
        invariant
            i <= v@.len(),
            r@.len() == v@.len() - i,
            forall|k: int| 0 <= k < r@.len() ==> #[trigger] r@[k] == v@[v@.len() - 1 - k],
        decreases i,
    {
        i = i - 1;
        r.push(v[i]);
    }
    proof {
        assert(r@ =~= v@.reverse());
    }
    r
}

/// `σ_{m,n}` as a sequence of single-brick layers: the reversed bubble-sort
/// word of its output-indexed permutation `[m..m+n, 0..m]`.
/// The output-indexed permutation of `σ_{m,n}`: `[m, …, m+n-1, 0, …, m-1]`
/// (entries added with wrap-around).
spec fn block_perm(m: usize, n: usize) -> Seq<usize> {
    Seq::new(n as nat, |k: int| m.wrapping_add(k as usize)) + Seq::new(m as nat, |k: int| k as usize)
}

/// The single-brick layer placing `σ_{1,1}` at wire `i` of `total` wires.
spec fn brick_layer<G: PropSignature>(i: usize, total: usize) -> Seq<Atom<G>> {
    (if i > 0 { seq![Atom::Identity(i)] } else { Seq::empty() }) + seq![Atom::<G>::Braid(1, 1)] + (if i < total
        && total - i > 2 { seq![Atom::Identity((total - i - 2) as usize)] } else { Seq::empty() })
}

fn decompose_braid<G: PropSignature>(m: usize, n: usize) -> (r: Vec<Layer<G>>)
    ensures
        exists|w: Seq<usize>| {
            &&& swaps_fix_inversions(block_perm(m, n), w)
            &&& is_ascending(apply_swaps(block_perm(m, n), w))
            &&& r@.len() == w.len()
            &&& forall|i: int| 0 <= i < w.len() ==> #[trigger] r@[i].atoms@ == brick_layer::<G>(w.reverse()[i], m.wrapping_add(n))
        },
{
    let total = m.wrapping_add(n);
    let mut perm: Vec<usize> = Vec::new();
    let mut k: usize = 0;
    while k < n
        invariant
            k <= n,
            perm@ == Seq::new(k as nat, |t: int| m.wrapping_add(t as usize)),
        decreases n - k,
    {
        perm.push(m.wrapping_add(k));
        k = k + 1;
        proof {
            assert(perm@ =~= Seq::new(k as nat, |t: int| m.wrapping_add(t as usize)));
        }
    }
    let mut k: usize = 0;
    while k < m
        invariant
            k <= m,
            perm@ == Seq::new(n as nat, |t: int| m.wrapping_add(t as usize)) + Seq::new(k as nat, |t: int| t as usize),
        decreases m - k,
    {
        perm.push(k);
        k = k + 1;
        proof {
            assert(perm@ =~= Seq::new(n as nat, |t: int| m.wrapping_add(t as usize)) + Seq::new(k as nat, |t: int| t as usize));
        }
    }
    proof {
        assert(perm@ == block_perm(m, n));
    }
    let word = adjacent_swaps(perm.as_slice());
    let swaps = reversed(&word);
    let mut out: Vec<Layer<G>> = Vec::new();
    let mut i: usize = 0;
    while i < swaps.len()
        invariant
            i <= swaps@.len(),
            out@.len() == i,
            total == m.wrapping_add(n),
            forall|t: int| 0 <= t < i ==> #[trigger] out@[t].atoms@ == brick_layer::<G>(swaps@[t], total),
        decreases swaps@.len() - i,
    {
        out.push(Layer { atoms: braid_at_position::<G>(swaps[i], total) });
        i = i + 1;
    }
    proof {
        assert(swaps_fix_inversions(block_perm(m, n), word@));
        assert(forall|t: int| 0 <= t < word@.len() ==> #[trigger] out@[t].atoms@ == brick_layer::<G>(word@.reverse()[t], m.wrapping_add(n)));
    }
    out
}

/// Re-apply identity padding around a brick layer, fusing identities.
fn pad_braid_layer<G: PropSignature>(prefix: usize, brick: Vec<Atom<G>>, suffix: usize) -> (r: Layer<G>)
    ensures
        r.atoms@ == merged(
            (if prefix > 0 { seq![Atom::Identity(prefix)] } else { Seq::empty() }) + brick@ + (if suffix > 0 {
                seq![Atom::Identity(suffix)]
            } else {
                Seq::empty()
            }),
        ),
{
    let mut out: Vec<Atom<G>> = Vec::new();
    if prefix > 0 {
        out.push(Atom::Identity(prefix));
    }
    let mut b = brick;
    out.append(&mut b);
    if suffix > 0 {
        out.push(Atom::Identity(suffix));
    }
    proof {
        assert(out@ =~= (if prefix > 0 { seq![Atom::Identity(prefix)] } else { Seq::empty() }) + brick@ + (if suffix > 0 {
                seq![Atom::Identity(suffix)]
            } else {
                Seq::empty()
            }));
    }
    Layer { atoms: merge_adjacent_identities(out) }
}

/// **Step 1**: expand every identity-padded wide braid into `σ_{1,1}`
/// bricks.
fn hexagon_expand<G: PropSignature>(sd: StringDiagram<G>) -> StringDiagram<G> {
    let mut new_layers: Vec<Layer<G>> = Vec::new();
    let mut j: usize = 0;
    while j < sd.layers.len()
        invariant
            j <= sd.layers@.len(),
        decreases sd.layers@.len() - j,
    {
        match wide_braid_in_identity_padding(&sd.layers[j].atoms) {
            Some((prefix, (m, n), suffix)) => {
                let bricks = decompose_braid::<G>(m, n);
                let mut b: usize = 0;
                while b < bricks.len()
                    invariant
                        b <= bricks@.len(),
                    decreases bricks@.len() - b,
                {
                    new_layers.push(pad_braid_layer(prefix, copy_atoms(&bricks[b].atoms), suffix));
                    b = b + 1;
                }
            },
            None => {
                new_layers.push(Layer { atoms: copy_atoms(&sd.layers[j].atoms) });
            },
        }
        j = j + 1;
    }
    StringDiagram { layers: new_layers }
}

// -------------------------------------------------------------------------
// Step 2: merging adjacent layers
// -------------------------------------------------------------------------

/// `[0, w_0, w_0+w_1, …]`: the cumulative atom boundaries on one side.
fn wire_boundaries<G: PropSignature>(atoms: &Vec<Atom<G>>, use_target: bool) -> (r: Vec<usize>)
    ensures
        r@.len() == atoms@.len() + 1,
        forall|k: int| 0 <= k <= atoms@.len() ==> #[trigger] r@[k] == spec_width(atoms@.take(k), use_target),
{
    let mut out: Vec<usize> = Vec::new();
    out.push(0);
    let mut cursor: usize = 0;
    let mut i: usize = 0;
    proof {
        assert(atoms@.take(0) =~= Seq::<Atom<G>>::empty());
    }
    while i < atoms.len()
        invariant
            i <= atoms@.len(),
            out@.len() == i + 1,
            cursor == spec_width(atoms@.take(i as int), use_target),
            forall|k: int| 0 <= k <= i ==> #[trigger] out@[k] == spec_width(atoms@.take(k), use_target),
        decreases atoms@.len() - i,
    {
        let w = if use_target { atom_target(&atoms[i]) } else { atom_source(&atoms[i]) };
        proof {
            assert(atoms@.take(i + 1).drop_last() =~= atoms@.take(i as int));
        }
        cursor = cursor.wrapping_add(w);
        out.push(cursor);
        i = i + 1;
    }
    out
}

/// The entries of `v` sorted ascending with duplicates removed.
fn sorted_unique(v: &Vec<usize>) -> (r: Vec<usize>)
    ensures
        forall|i: int, j: int| 0 <= i < j < r@.len() ==> r@[i] < r@[j],
        forall|y: usize| r@.contains(y) <==> v@.contains(y),
{
    let mut out: Vec<usize> = Vec::new();
    let mut k: usize = 0;
    while k < v.len()
        invariant
            k <= v@.len(),
            forall|i: int, j: int| 0 <= i < j < out@.len() ==> out@[i] < out@[j],
            forall|y: usize| out@.contains(y) <==> exists|t: int| 0 <= t < k && #[trigger] v@[t] == y,
        decreases v@.len() - k,
    {
        let x = v[k];
        let mut pos: usize = 0;
        while pos < out.len() && out[pos] < x
            invariant
                pos <= out@.len(),
                forall|i: int| 0 <= i < pos ==> out@[i] < x,
            decreases out@.len() - pos,
        {
            pos = pos + 1;
        }
        let ghost before = out@;
        if pos == out.len() || out[pos] != x {
            out.insert(pos, x);
            proof {
                assert forall|y: usize| out@.contains(y) <==> exists|t: int| 0 <= t < k + 1 && #[trigger] v@[t] == y by {
                    if out@.contains(y) {
                        let i = choose|i: int| 0 <= i < out@.len() && out@[i] == y;
                        if i < pos {
                            assert(before[i] == y);
                            assert(before.contains(y));
                        } else if i > pos {
                            assert(before[i - 1] == y);
                            assert(before.contains(y));
                        } else {
                            assert(v@[k as int] == y);
                        }
                    }
                    if exists|t: int| 0 <= t < k + 1 && #[trigger] v@[t] == y {
                        let t = choose|t: int| 0 <= t < k + 1 && #[trigger] v@[t] == y;
                        if t < k {
                            assert(before.contains(y));
                            let i = choose|i: int| 0 <= i < before.len() && before[i] == y;
                            if i < pos {
                                assert(out@[i] == y);
                            } else {
                                assert(out@[i + 1] == y);
                            }
                        } else {
                            assert(out@[pos as int] == y);
                        }
                    }
                }
                assert forall|i: int, j: int| 0 <= i < j < out@.len() implies out@[i] < out@[j] by {
                    if j < pos {
                        assert(out@[i] == before[i] && out@[j] == before[j]);
                    } else if j == pos {
                        assert(out@[i] == before[i]);
                    } else if i == pos {
                        assert(out@[j] == before[j - 1]);
                        assert(before[pos as int] >= x);
                        if j - 1 > pos {
                            assert(before[pos as int] < before[j - 1]);
                        }
                    } else if i < pos {
                        assert(out@[i] == before[i] && out@[j] == before[j - 1]);
                    } else {
                        assert(out@[i] == before[i - 1] && out@[j] == before[j - 1]);
                    }
                }
            }
        } else {
            proof {
                assert(before[pos as int] == x);
                assert forall|y: usize| out@.contains(y) <==> exists|t: int| 0 <= t < k + 1 && #[trigger] v@[t] == y by {
                    if exists|t: int| 0 <= t < k + 1 && #[trigger] v@[t] == y {
                        let t = choose|t: int| 0 <= t < k + 1 && #[trigger] v@[t] == y;
                        if t == k {
                            assert(out@[pos as int] == y);
                        }
                    }
                }
            }
        }
        k = k + 1;
    }
    proof {
        assert forall|y: usize| out@.contains(y) <==> v@.contains(y) by {
            if v@.contains(y) {
                let t = choose|t: int| 0 <= t < v@.len() && v@[t] == y;
                assert(v@[t] == y);
            }
        }
    }
    out
}

/// Split each atom at the interior `common` boundaries: identities split
/// freely, any other atom must already sit on the grid.
fn split_atoms_at_boundaries<G: PropSignature>(atoms: &Vec<Atom<G>>, common: &Vec<usize>, use_target: bool) -> Option<Vec<Atom<G>>> {
    let mut out: Vec<Atom<G>> = Vec::new();
    let mut cursor: usize = 0;
    let mut ci: usize = 0;
    while ci < common.len() && common[ci] == 0
        invariant
            ci <= common@.len(),
        decreases common@.len() - ci,
    {
        ci = ci + 1;
    }
    let mut i: usize = 0;
    while i < atoms.len()
        invariant
            i <= atoms@.len(),
            ci <= common@.len(),
        decreases atoms@.len() - i,
    {
        let atom = atoms[i];
        let w = if use_target { atom_target(&atom) } else { atom_source(&atom) };
        let end = cursor.wrapping_add(w);
        let mut splits: Vec<usize> = Vec::new();
        while ci < common.len() && common[ci] < end
            invariant
                ci <= common@.len(),
            decreases common@.len() - ci,
        {
            splits.push(common[ci]);
            ci = ci + 1;
        }
        if ci < common.len() && common[ci] == end {
            ci = ci + 1;
        }
        if splits.len() == 0 {
            out.push(atom);
        } else {
            match atom {
                Atom::Identity(_) => {
                    let mut prev = cursor;
                    let mut k: usize = 0;
                    while k < splits.len()
                        invariant
                            k <= splits@.len(),
                        decreases splits@.len() - k,
                    {
                        out.push(Atom::Identity(splits[k].wrapping_sub(prev)));
                        prev = splits[k];
                        k = k + 1;
                    }
                    out.push(Atom::Identity(end.wrapping_sub(prev)));
                },
                _ => {
                    return None;
                },
            }
        }
        cursor = end;
        i = i + 1;
    }
    Some(out)
}

/// Refine two adjacent layers to a common atom-boundary grid.
fn refine_to_common_boundaries<G: PropSignature>(l1: &Layer<G>, l2: &Layer<G>) -> Option<(Layer<G>, Layer<G>)> {
    let t1 = width_of(l1.atoms.as_slice(), true);
    let s2 = width_of(l2.atoms.as_slice(), false);
    if t1 != s2 {
        return None;
    }
    let mut both = wire_boundaries(&l1.atoms, true);
    let mut more = wire_boundaries(&l2.atoms, false);
    both.append(&mut more);
    let common = sorted_unique(&both);
    let a = match split_atoms_at_boundaries(&l1.atoms, &common, true) {
        Some(a) => a,
        None => {
            return None;
        },
    };
    let b = match split_atoms_at_boundaries(&l2.atoms, &common, false) {
        Some(b) => b,
        None => {
            return None;
        },
    };
    Some((Layer { atoms: a }, Layer { atoms: b }))
}

/// Compose two adjacent layers column-wise into one, when every column pair
/// reduces to a single atom: identities absorb, and `σ_{m,n} ; σ_{n,m}`
/// cancels to `id_{m+n}`.
fn try_column_merge<G: PropSignature>(l1: &Layer<G>, l2: &Layer<G>) -> Option<Layer<G>> {
    let (a, b) = match refine_to_common_boundaries(l1, l2) {
        Some(pair) => pair,
        None => {
            return None;
        },
    };
    if a.atoms.len() != b.atoms.len() {
        return None;
    }
    let mut merged: Vec<Atom<G>> = Vec::new();
    let mut i: usize = 0;
    while i < a.atoms.len()
        invariant
            i <= a.atoms@.len(),
            a.atoms@.len() == b.atoms@.len(),
        decreases a.atoms@.len() - i,
    {
        let a1 = a.atoms[i];
        let a2 = b.atoms[i];
        if atom_target(&a1) != atom_source(&a2) {
            return None;
        }
        let m = match (a1, a2) {
            (Atom::Identity(_), _) => a2,
            (_, Atom::Identity(_)) => a1,
            (Atom::Braid(m, n), Atom::Braid(m2, n2)) => {
                if m == n2 && n == m2 {
                    Atom::Identity(m.wrapping_add(n))
                } else {
                    return None;
                }
            },
            _ => {
                return None;
            },
        };
        merged.push(m);
        i = i + 1;
    }
    Some(Layer { atoms: merge_adjacent_identities(merged) })
}

/// Merge two adjacent layers when one side is a zero-arity sink or source
/// beside an identity that absorbs the other side (unitor and
/// bifunctoriality with a 0-arity edge).
/// The unitor merge of layers `a ; b`: when the widths meet, a zero-target
/// atom beside `id_w` in `a` (or a zero-source atom beside `id_w` in `b`,
/// `w` the shared width) moves into the other layer, on the same side.
spec fn unitor_merged<G: PropSignature>(a: Seq<Atom<G>>, b: Seq<Atom<G>>) -> Option<Seq<Atom<G>>> {
    let t = spec_width(a, true);
    let s = spec_width(b, false);
    if t != s {
        None
    } else if a.len() == 2 && a[1] == Atom::<G>::Identity(s) && spec_atom_target(a[0]) == 0 {
        Some(seq![a[0]] + b)
    } else if a.len() == 2 && a[0] == Atom::<G>::Identity(s) && spec_atom_target(a[1]) == 0 {
        Some(b.push(a[1]))
    } else if b.len() == 2 && b[1] == Atom::<G>::Identity(t) && spec_atom_source(b[0]) == 0 {
        Some(seq![b[0]] + a)
    } else if b.len() == 2 && b[0] == Atom::<G>::Identity(t) && spec_atom_source(b[1]) == 0 {
        Some(a.push(b[1]))
    } else {
        None
    }
}

fn try_unitor_merge<G: PropSignature>(l1: &Layer<G>, l2: &Layer<G>) -> (r: Option<Layer<G>>)
    ensures
        match r {
            Some(l) => unitor_merged(l1.atoms@, l2.atoms@) == Some(l.atoms@),
            None => unitor_merged(l1.atoms@, l2.atoms@) is None,
        },
{
    let l1_target = width_of(l1.atoms.as_slice(), true);
    let l2_source = width_of(l2.atoms.as_slice(), false);
    if l1_target != l2_source {
        return None;
    }
    if l1.atoms.len() == 2 {
        let x = l1.atoms[0];
        if let Atom::Identity(k) = l1.atoms[1] {
            if atom_target(&x) == 0 && k == l2_source {
                let mut atoms: Vec<Atom<G>> = Vec::new();
                atoms.push(x);
                let mut rest = copy_atoms(&l2.atoms);
                atoms.append(&mut rest);
                return Some(Layer { atoms });
            }
        }
        let x = l1.atoms[1];
        if let Atom::Identity(k) = l1.atoms[0] {
            if atom_target(&x) == 0 && k == l2_source {
                let mut atoms = copy_atoms(&l2.atoms);
                atoms.push(x);
                return Some(Layer { atoms });
            }
        }
    }
    if l2.atoms.len() == 2 {
        let x = l2.atoms[0];
        if let Atom::Identity(k) = l2.atoms[1] {
            if atom_source(&x) == 0 && k == l1_target {
                let mut atoms: Vec<Atom<G>> = Vec::new();
                atoms.push(x);
                let mut rest = copy_atoms(&l1.atoms);
                atoms.append(&mut rest);
                return Some(Layer { atoms });
            }
        }
        let x = l2.atoms[1];
        if let Atom::Identity(k) = l2.atoms[0] {
            if atom_source(&x) == 0 && k == l1_target {
                let mut atoms = copy_atoms(&l1.atoms);
                atoms.push(x);
                return Some(Layer { atoms });
            }
        }
    }
    None
}

/// **Step 2**: merge adjacent layers column-wise or by a unitor, never
/// creating a layer that mixes braids and generators.
fn reduce_involution<G: PropSignature>(sd: StringDiagram<G>) -> StringDiagram<G> {
    let mut layers = sd.layers;
    let mut i: usize = 0;
    while i < layers.len() && i + 1 < layers.len()
        invariant
            i <= layers@.len(),
        decreases 2 * layers@.len() - i,
    {
        let merged = match try_column_merge(&layers[i], &layers[i + 1]) {
            Some(m) => Some(m),
            None => try_unitor_merge(&layers[i], &layers[i + 1]),
        };
        let accepted = match merged {
            Some(m) => {
                if is_mixed_layer(&m.atoms) {
                    None
                } else {
                    Some(m)
                }
            },
            None => None,
        };
        match accepted {
            Some(m) => {
                layers.set(i, m);
                layers.remove(i + 1);
            },
            None => {
                i = i + 1;
            },
        }
    }
    StringDiagram { layers }
}

// -------------------------------------------------------------------------
// Step 3: braids to the input side
// -------------------------------------------------------------------------

/// The braid part of a column: braids and identities stay, a generator
/// becomes the identity on its source.
spec fn braid_part<G: PropSignature>(a: Atom<G>) -> Atom<G> {
    match a {
        Atom::Generator(g) => Atom::Identity(g.spec_source_word().len() as usize),
        _ => a,
    }
}

/// The generator part of a column: generators and identities stay, a braid
/// `σ_{m,n}` becomes the identity on `m + n` wires.
spec fn generator_part<G: PropSignature>(a: Atom<G>) -> Atom<G> {
    match a {
        Atom::Braid(m, n) => Atom::Identity(m.wrapping_add(n)),
        _ => a,
    }
}

/// A layer holding both a braid and a generator.
spec fn mixed<G: PropSignature>(atoms: Seq<Atom<G>>) -> bool {
    (exists|i: int| 0 <= i < atoms.len() && atoms[i] is Braid) && (exists|i: int|
        0 <= i < atoms.len() && atoms[i] is Generator)
}

/// Each mixed layer replaced by its braid part followed by its generator
/// part, identities fused; other layers kept.
spec fn isolated<G: PropSignature>(layers: Seq<Seq<Atom<G>>>) -> Seq<Seq<Atom<G>>>
    decreases layers.len(),
{
    if layers.len() == 0 {
        Seq::empty()
    } else {
        let rest = isolated(layers.drop_last());
        let l = layers.last();
        if mixed(l) {
            rest.push(merged(l.map_values(|a: Atom<G>| braid_part(a)))).push(
                merged(l.map_values(|a: Atom<G>| generator_part(a))),
            )
        } else {
            rest.push(l)
        }
    }
}

/// Split every layer mixing braids and generators into a braid part followed
/// by a generator part (bifunctoriality, column by column).
fn isolate_mixed_braid_layers<G: PropSignature>(layers: Vec<Layer<G>>) -> (r: Vec<Layer<G>>)
    ensures
        r@.map_values(|l: Layer<G>| l.atoms@) == isolated(layers@.map_values(|l: Layer<G>| l.atoms@)),
{
    let ghost view = layers@.map_values(|l: Layer<G>| l.atoms@);
    let mut out: Vec<Layer<G>> = Vec::new();
    let mut j: usize = 0;
    while j < layers.len()
        invariant
            j <= layers@.len(),
            view == layers@.map_values(|l: Layer<G>| l.atoms@),
            out@.map_values(|l: Layer<G>| l.atoms@) == isolated(view.take(j as int)),
        decreases layers@.len() - j,
    {
        proof {
            assert(view.take(j + 1).drop_last() =~= view.take(j as int));
            assert(view.take(j + 1).last() == layers@[j as int].atoms@);
        }
        let ghost prev = out@;
        if is_mixed_layer(&layers[j].atoms) {
            let mut upper: Vec<Atom<G>> = Vec::new();
            let mut lower_atoms: Vec<Atom<G>> = Vec::new();
            let mut i: usize = 0;
            while i < layers[j].atoms.len()
                invariant
                    j < layers@.len(),
                    i <= layers@[j as int].atoms@.len(),
                    upper@ == layers@[j as int].atoms@.take(i as int).map_values(|a: Atom<G>| braid_part(a)),
                    lower_atoms@ == layers@[j as int].atoms@.take(i as int).map_values(|a: Atom<G>| generator_part(a)),
                decreases layers@[j as int].atoms@.len() - i,
            {
                match layers[j].atoms[i] {
                    Atom::Braid(m, n) => {
                        upper.push(Atom::Braid(m, n));
                        lower_atoms.push(Atom::Identity(m.wrapping_add(n)));
                    },
                    Atom::Generator(g) => {
                        upper.push(Atom::Identity(g.source()));
                        lower_atoms.push(Atom::Generator(g));
                    },
                    Atom::Identity(k) => {
                        upper.push(Atom::Identity(k));
                        lower_atoms.push(Atom::Identity(k));
                    },
                }
                proof {
                    assert(upper@ =~= layers@[j as int].atoms@.take(i + 1).map_values(|a: Atom<G>| braid_part(a)));
                    assert(lower_atoms@ =~= layers@[j as int].atoms@.take(i + 1).map_values(|a: Atom<G>| generator_part(a)));
                }
                i = i + 1;
            }
            proof {
                assert(layers@[j as int].atoms@.take(layers@[j as int].atoms@.len() as int) =~= layers@[j as int].atoms@);
            }
            let up = merge_adjacent_identities(upper);
            let low = merge_adjacent_identities(lower_atoms);
            out.push(Layer { atoms: up });
            out.push(Layer { atoms: low });
            proof {
                assert(out@.map_values(|l: Layer<G>| l.atoms@) =~= prev.map_values(|l: Layer<G>| l.atoms@).push(up@).push(low@));
            }
        } else {
            let copy = copy_atoms(&layers[j].atoms);
            out.push(Layer { atoms: copy });
            proof {
                assert(out@.map_values(|l: Layer<G>| l.atoms@) =~= prev.map_values(|l: Layer<G>| l.atoms@).push(copy@));
            }
        }
        j = j + 1;
    }
    proof {
        assert(view.take(layers@.len() as int) =~= view);
    }
    out
}

/// The generator layer's atoms with its identities split to unit width when
/// any identity is wider than one wire.
spec fn unit_refined<G: PropSignature>(atoms: Seq<Atom<G>>) -> Seq<Atom<G>> {
    if exists|t: int| 0 <= t < atoms.len() && (#[trigger] atoms[t] matches Atom::Identity(n) && n > 1) {
        exploded(atoms)
    } else {
        atoms
    }
}

/// Atom `k` of `atoms` is a `σ_{1,1}` preceded only by identities, and it
/// starts at wire `q`.
spec fn brick_at_wire<G: PropSignature>(atoms: Seq<Atom<G>>, k: int, q: usize) -> bool {
    &&& 0 <= k < atoms.len()
    &&& atoms[k] == Atom::<G>::Braid(1, 1)
    &&& forall|t: int| 0 <= t < k ==> (#[trigger] atoms[t]) is Identity
    &&& spec_width(atoms.take(k), true) == q
}

/// How many braid atoms `atoms` holds.
spec fn braid_count<G: PropSignature>(atoms: Seq<Atom<G>>) -> nat
    decreases atoms.len(),
{
    if atoms.len() == 0 {
        0
    } else {
        braid_count(atoms.drop_last()) + if atoms.last() is Braid {
            1nat
        } else {
            0nat
        }
    }
}

/// The target widths of the prefixes of `ga` up to `idx` atoms never
/// decrease: no sum wraps around.
spec fn widths_rise<G: PropSignature>(ga: Seq<Atom<G>>, idx: int) -> bool {
    forall|j: int|
        0 <= j < idx ==> spec_width(ga.take(j), true) <= #[trigger] spec_width(ga.take(j + 1), true)
}

/// Atoms `idx` and `idx + 1` of `ga` both end on one wire, the first at wire
/// `q`, with no width wrapping before it.
spec fn swappable_at<G: PropSignature>(ga: Seq<Atom<G>>, idx: int, q: usize) -> bool {
    &&& 0 <= idx && idx + 1 < ga.len()
    &&& spec_width(ga.take(idx), true) == q
    &&& spec_atom_target(ga[idx]) == 1
    &&& spec_atom_target(ga[idx + 1]) == 1
    &&& widths_rise(ga, idx)
}

/// Rising prefix widths are ordered by prefix length.
proof fn lemma_widths_rise_ordered<G: PropSignature>(ga: Seq<Atom<G>>, idx: int, a: int, b: int)
    requires
        widths_rise(ga, idx),
        0 <= a <= b <= idx,
    ensures
        spec_width(ga.take(a), true) <= spec_width(ga.take(b), true),
    decreases b - a,
{
    if a < b {
        lemma_widths_rise_ordered(ga, idx, a, b - 1);
        assert(spec_width(ga.take(b - 1), true) <= spec_width(ga.take((b - 1) + 1), true));
    }
}

/// The source width of `atoms[lo..hi]`, `0` when empty.
spec fn band_width<G: PropSignature>(atoms: Seq<Atom<G>>, lo: int, hi: int) -> usize {
    if lo < hi {
        spec_width(atoms.subrange(lo, hi), false)
    } else {
        0
    }
}

/// The braid layer after sliding: `σ_{s_a, s_b}` on the sources of atoms
/// `idx` and `idx + 1`, padded by the source widths before and after them.
spec fn slid_braid<G: PropSignature>(ga: Seq<Atom<G>>, idx: int) -> Seq<Atom<G>> {
    let pre = band_width(ga, 0, idx);
    let suf = band_width(ga, idx + 2, ga.len() as int);
    (if pre > 0 { seq![Atom::Identity(pre)] } else { Seq::empty() }) + seq![
        Atom::<G>::Braid(spec_atom_source(ga[idx]), spec_atom_source(ga[idx + 1])),
    ] + (if suf > 0 { seq![Atom::Identity(suf)] } else { Seq::empty() })
}

/// One naturality swap `L_gen ; L_braid → L_braid' ; L_gen'`: a single
/// `σ_{1,1}` crossing the targets of two adjacent width-1-target atoms of the
/// generator layer (identities refined to unit width) slides input-ward as
/// `σ_{s_a, s_b}`, and the two atoms trade places.
fn try_naturality_swap<G: PropSignature>(gen_layer: &Layer<G>, braid_layer: &Layer<G>) -> (r: Option<(Layer<G>, Layer<G>)>)
    ensures
        r matches Some((b, g)) ==> {
            let ga = unit_refined(gen_layer.atoms@);
            exists|k: int, idx: int| {
                &&& #[trigger] brick_at_wire(braid_layer.atoms@, k, spec_width(ga.take(idx), true))
                &&& 0 <= idx && idx + 1 < ga.len()
                &&& spec_atom_target(#[trigger] ga[idx]) == 1
                &&& spec_atom_target(ga[idx + 1]) == 1
                &&& b.atoms@ == slid_braid(ga, idx)
                &&& g.atoms@ == merged(ga.update(idx, ga[idx + 1]).update(idx + 1, ga[idx]))
            }
        },
        braid_count(braid_layer.atoms@) <= 1 && (exists|k: int, idx: int|
            #[trigger] brick_at_wire(braid_layer.atoms@, k, spec_width(unit_refined(gen_layer.atoms@).take(idx), true))
                && swappable_at(
                unit_refined(gen_layer.atoms@),
                idx,
                spec_width(unit_refined(gen_layer.atoms@).take(idx), true),
            )) ==> r is Some,
{
    let mut braids: usize = 0;
    let mut i: usize = 0;
    proof {
        assert(braid_layer.atoms@.take(0) =~= Seq::<Atom<G>>::empty());
    }
    while i < braid_layer.atoms.len()
        invariant
            i <= braid_layer.atoms@.len(),
            braids <= i,
            braids == braid_count(braid_layer.atoms@.take(i as int)),
        decreases braid_layer.atoms@.len() - i,
    {
        proof {
            assert(braid_layer.atoms@.take(i + 1).drop_last() =~= braid_layer.atoms@.take(i as int));
        }
        if let Atom::Braid(_, _) = braid_layer.atoms[i] {
            braids = braids + 1;
        }
        i = i + 1;
    }
    proof {
        assert(braid_layer.atoms@.take(i as int) =~= braid_layer.atoms@);
    }
    if braids > 1 {
        return None;
    }
    let mut braid_wire_pos: Option<usize> = None;
    let mut wire_cursor: usize = 0;
    let mut i: usize = 0;
    proof {
        assert(braid_layer.atoms@.take(0) =~= Seq::<Atom<G>>::empty());
    }
    while i < braid_layer.atoms.len()
        invariant_except_break
            braid_wire_pos is None,
        invariant
            i <= braid_layer.atoms@.len(),
            forall|t: int| 0 <= t < i ==> (#[trigger] braid_layer.atoms@[t]) is Identity,
            wire_cursor == spec_width(braid_layer.atoms@.take(i as int), true),
        ensures
            braid_wire_pos matches Some(p) ==> brick_at_wire(braid_layer.atoms@, i as int, p),
            braid_wire_pos is None ==> forall|t: int|
                0 <= t < braid_layer.atoms@.len() ==> (#[trigger] braid_layer.atoms@[t]) is Identity,
        decreases braid_layer.atoms@.len() - i,
    {
        proof {
            assert(braid_layer.atoms@.take(i + 1).drop_last() =~= braid_layer.atoms@.take(i as int));
        }
        match braid_layer.atoms[i] {
            Atom::Identity(n) => {
                wire_cursor = wire_cursor.wrapping_add(n);
            },
            Atom::Braid(m, n) => {
                if m == 1 && n == 1 {
                    braid_wire_pos = Some(wire_cursor);
                    break;
                } else {
                    return None;
                }
            },
            _ => {
                return None;
            },
        }
        i = i + 1;
    }
    let pos = match braid_wire_pos {
        Some(p) => p,
        None => {
            return None;
        },
    };
    let ghost bk: int = i as int;
    let mut wide = false;
    let mut i: usize = 0;
    while i < gen_layer.atoms.len()
        invariant
            i <= gen_layer.atoms@.len(),
            wide == exists|t: int| 0 <= t < i && (#[trigger] gen_layer.atoms@[t] matches Atom::Identity(n) && n > 1),
        decreases gen_layer.atoms@.len() - i,
    {
        if let Atom::Identity(n) = gen_layer.atoms[i] {
            if n > 1 {
                wide = true;
            }
        }
        i = i + 1;
    }
    let gen_atoms = if wide { explode_identities(&gen_layer.atoms) } else { copy_atoms(&gen_layer.atoms) };
    proof {
        assert(gen_atoms@ == unit_refined(gen_layer.atoms@));
        assert(gen_atoms@.take(0) =~= Seq::<Atom<G>>::empty());
    }
    let mut cumulative: usize = 0;
    let mut swap_idx: Option<usize> = None;
    let mut i: usize = 0;
    while i < gen_atoms.len()
        invariant_except_break
            swap_idx is None,
            cumulative == spec_width(gen_atoms@.take(i as int), true),
            cumulative <= pos,
        invariant
            i <= gen_atoms@.len(),
            forall|j: int|
                0 <= j < i ==> !(#[trigger] spec_width(gen_atoms@.take(j), true) == pos && spec_atom_target(
                    gen_atoms@[j],
                ) == 1),
        ensures
            swap_idx matches Some(k) ==> k == i && k + 1 < gen_atoms@.len() && cumulative == pos
                && cumulative == spec_width(gen_atoms@.take(k as int), true)
                && spec_atom_target(gen_atoms@[k as int]) == 1 && spec_atom_target(gen_atoms@[k + 1]) == 1,
            swap_idx is None ==> forall|j: int| !swappable_at(gen_atoms@, j, pos),
        decreases gen_atoms@.len() - i,
    {
        proof {
            assert(gen_atoms@.take(i + 1).drop_last() =~= gen_atoms@.take(i as int));
        }
        let t = atom_target(&gen_atoms[i]);
        if cumulative == pos && t == 1 {
            if i + 1 < gen_atoms.len() && atom_target(&gen_atoms[i + 1]) == 1 {
                swap_idx = Some(i);
            } else {
                proof {
                    assert forall|j: int| !swappable_at(gen_atoms@, j, pos) by {
                        if swappable_at(gen_atoms@, j, pos) && j > i {
                            lemma_widths_rise_ordered(gen_atoms@, j, i + 1, j);
                            assert(spec_width(gen_atoms@.take(i as int), true) <= spec_width(
                                gen_atoms@.take(i + 1),
                                true,
                            ));
                        }
                    }
                }
            }
            break;
        }
        cumulative = cumulative.wrapping_add(t);
        if cumulative > pos {
            proof {
                assert forall|j: int| !swappable_at(gen_atoms@, j, pos) by {
                    if swappable_at(gen_atoms@, j, pos) && j > i {
                        lemma_widths_rise_ordered(gen_atoms@, j, i + 1, j);
                    }
                }
            }
            break;
        }
        i = i + 1;
    }
    let idx = match swap_idx {
        Some(k) => k,
        None => {
            return None;
        },
    };
    if idx >= gen_atoms.len() || idx + 1 >= gen_atoms.len() {
        return None;
    }
    let atom_a = gen_atoms[idx];
    let atom_b = gen_atoms[idx + 1];
    let s_a = atom_source(&atom_a);
    let s_b = atom_source(&atom_b);
    let prefix_src = width_between(&gen_atoms, 0, idx, false);
    let suffix_src = width_between(&gen_atoms, idx + 2, gen_atoms.len(), false);
    let mut new_braid: Vec<Atom<G>> = Vec::new();
    if prefix_src > 0 {
        new_braid.push(Atom::Identity(prefix_src));
    }
    new_braid.push(Atom::Braid(s_a, s_b));
    if suffix_src > 0 {
        new_braid.push(Atom::Identity(suffix_src));
    }
    proof {
        assert(new_braid@ =~= slid_braid(gen_atoms@, idx as int));
    }
    let ghost ga = gen_atoms@;
    let mut new_gen = gen_atoms;
    new_gen.set(idx, atom_b);
    new_gen.set(idx + 1, atom_a);
    let r = Some((Layer { atoms: new_braid }, Layer { atoms: merge_adjacent_identities(new_gen) }));
    proof {
        assert(brick_at_wire(braid_layer.atoms@, bk, spec_width(ga.take(idx as int), true)));
    }
    r
}

/// One atom's effect on `(wire position, permutation)`: identities advance
/// the position, a `σ_{1,1}` swaps the two entries at it (when both are in
/// range) and advances by two, other atoms leave both as they are.
spec fn brick_step<G: PropSignature>(st: (usize, Seq<usize>), a: Atom<G>) -> (usize, Seq<usize>) {
    let (p, perm) = st;
    match a {
        Atom::Identity(n) => (p.wrapping_add(n), perm),
        Atom::Braid(m, n) => if m == 1 && n == 1 {
            let swapped = if p < perm.len() && p + 1 < perm.len() {
                perm.update(p as int, perm[p + 1]).update(p + 1, perm[p as int])
            } else {
                perm
            };
            (p.wrapping_add(2), swapped)
        } else {
            st
        },
        _ => st,
    }
}

/// The state after stepping through `atoms` from position `0`.
spec fn brick_fold<G: PropSignature>(atoms: Seq<Atom<G>>, perm: Seq<usize>) -> (usize, Seq<usize>)
    decreases atoms.len(),
{
    if atoms.len() == 0 {
        (0, perm)
    } else {
        brick_step(brick_fold(atoms.drop_last(), perm), atoms.last())
    }
}

/// Apply each `σ_{1,1}` of a braid layer to `perm` as an adjacent swap.
fn apply_braid_layer_to_perm<G: PropSignature>(layer: &Layer<G>, perm: &mut Vec<usize>)
    ensures
        final(perm)@.len() == old(perm)@.len(),
        final(perm)@ == brick_fold(layer.atoms@, old(perm)@).1,
{
    let mut wire_pos: usize = 0;
    let mut i: usize = 0;
    proof {
        assert(layer.atoms@.take(0) =~= Seq::<Atom<G>>::empty());
    }
    while i < layer.atoms.len()
        invariant
            i <= layer.atoms@.len(),
            perm@.len() == old(perm)@.len(),
            (wire_pos, perm@) == brick_fold(layer.atoms@.take(i as int), old(perm)@),
        decreases layer.atoms@.len() - i,
    {
        proof {
            assert(layer.atoms@.take(i + 1).drop_last() =~= layer.atoms@.take(i as int));
        }
        let ghost before = perm@;
        match layer.atoms[i] {
            Atom::Identity(n) => {
                wire_pos = wire_pos.wrapping_add(n);
            },
            Atom::Braid(m, n) => {
                if m == 1 && n == 1 {
                    if wire_pos < perm.len() && wire_pos + 1 < perm.len() {
                        let a = perm[wire_pos];
                        let b = perm[wire_pos + 1];
                        perm.set(wire_pos, b);
                        perm.set(wire_pos + 1, a);
                        assert(perm@ =~= before.update(wire_pos as int, before[wire_pos + 1]).update(wire_pos + 1, before[wire_pos as int]));
                    }
                    wire_pos = wire_pos.wrapping_add(2);
                }
            },
            _ => {},
        }
        i = i + 1;
    }
    proof {
        assert(layer.atoms@.take(layer.atoms@.len() as int) =~= layer.atoms@);
    }
}

/// A run of braid layers replaced by the canonical bubble-sort word of its
/// permutation (one identity layer when the permutation is trivial).
/// `perm` after the bricks of every layer of `layers`, in order.
spec fn perm_through<G: PropSignature>(layers: Seq<Layer<G>>, perm: Seq<usize>) -> Seq<usize>
    decreases layers.len(),
{
    if layers.len() == 0 {
        perm
    } else {
        brick_fold(layers.last().atoms@, perm_through(layers.drop_last(), perm)).1
    }
}

fn canonicalize_run<G: PropSignature>(run: &Vec<Layer<G>>) -> (r: Vec<Layer<G>>)
    ensures
        run@.len() == 0 ==> r@.len() == 0,
        run@.len() > 0 && spec_width(run@[0].atoms@, false) < 2 ==> r@.len() == 1 && r@[0].atoms@ == run@[0].atoms@,
        run@.len() > 0 && spec_width(run@[0].atoms@, false) >= 2 ==> {
            let total = spec_width(run@[0].atoms@, false);
            let perm = perm_through(run@, Seq::new(total as nat, |k: int| k as usize));
            exists|w: Seq<usize>| {
                &&& swaps_fix_inversions(perm, w)
                &&& is_ascending(apply_swaps(perm, w))
                &&& w.len() == 0 ==> r@.len() == 1 && r@[0].atoms@ == seq![Atom::<G>::Identity(total)]
                &&& w.len() > 0 ==> r@.len() == w.len() && forall|i: int|
                    0 <= i < w.len() ==> #[trigger] r@[i].atoms@ == brick_layer::<G>(w.reverse()[i], total)
            }
        },
{
    let mut out: Vec<Layer<G>> = Vec::new();
    if run.len() == 0 {
        return out;
    }
    let total = width_of(run[0].atoms.as_slice(), false);
    if total < 2 {
        out.push(Layer { atoms: copy_atoms(&run[0].atoms) });
        return out;
    }
    let mut perm: Vec<usize> = Vec::new();
    let mut k: usize = 0;
    while k < total
        invariant
            k <= total,
            perm@ == Seq::new(k as nat, |t: int| t as usize),
        decreases total - k,
    {
        perm.push(k);
        k = k + 1;
        proof {
            assert(perm@ =~= Seq::new(k as nat, |t: int| t as usize));
        }
    }
    let ghost start = perm@;
    let mut j: usize = 0;
    while j < run.len()
        invariant
            j <= run@.len(),
            perm@ == perm_through(run@.take(j as int), start),
        decreases run@.len() - j,
    {
        proof {
            assert(run@.take(j + 1).drop_last() =~= run@.take(j as int));
            assert(run@.take(j + 1).last() == run@[j as int]);
        }
        apply_braid_layer_to_perm(&run[j], &mut perm);
        j = j + 1;
    }
    proof {
        assert(run@.take(run@.len() as int) =~= run@);
    }
    let word = adjacent_swaps(perm.as_slice());
    let swaps = reversed(&word);
    if swaps.len() == 0 {
        out.push(Layer { atoms: vec![Atom::Identity(total)] });
        proof {
            assert(out@[0].atoms@ =~= seq![Atom::<G>::Identity(total)]);
            assert(word@.len() == 0);
        }
    } else {
        let mut i: usize = 0;
        while i < swaps.len()
            invariant
                i <= swaps@.len(),
                out@.len() == i,
                forall|t: int| 0 <= t < i ==> #[trigger] out@[t].atoms@ == brick_layer::<G>(swaps@[t], total),
            decreases swaps@.len() - i,
        {
            out.push(Layer { atoms: braid_at_position::<G>(swaps[i], total) });
            i = i + 1;
        }
    }
    proof {
        assert(swaps_fix_inversions(perm@, word@));
    }
    out
}

/// An identity or a `σ_{1,1}` brick.
spec fn is_brick_or_identity<G: PropSignature>(a: Atom<G>) -> bool {
    a is Identity || a == Atom::<G>::Braid(1, 1)
}

/// A non-empty layer of identities and `σ_{1,1}` bricks.
fn is_brick_or_identity_layer<G: PropSignature>(layer: &Layer<G>) -> (r: bool)
    ensures
        r == (layer.atoms@.len() > 0 && forall|k: int| 0 <= k < layer.atoms@.len() ==> is_brick_or_identity(#[trigger] layer.atoms@[k])),
{
    if layer.atoms.len() == 0 {
        return false;
    }
    let mut i: usize = 0;
    while i < layer.atoms.len()
        invariant
            i <= layer.atoms@.len(),
            layer.atoms@.len() > 0,
            forall|k: int| 0 <= k < i ==> is_brick_or_identity(#[trigger] layer.atoms@[k]),
        decreases layer.atoms@.len() - i,
    {
        match layer.atoms[i] {
            Atom::Identity(_) => {},
            Atom::Braid(m, n) => {
                if m != 1 || n != 1 {
                    return false;
                }
            },
            _ => {
                return false;
            },
        }
        i = i + 1;
    }
    true
}

/// Canonicalize each maximal run of brick-or-identity layers.
fn canonicalize_braid_runs<G: PropSignature>(layers: Vec<Layer<G>>) -> Vec<Layer<G>> {
    let mut out: Vec<Layer<G>> = Vec::new();
    let mut run: Vec<Layer<G>> = Vec::new();
    let mut j: usize = 0;
    while j < layers.len()
        invariant
            j <= layers@.len(),
        decreases layers@.len() - j,
    {
        if is_brick_or_identity_layer(&layers[j]) {
            run.push(Layer { atoms: copy_atoms(&layers[j].atoms) });
        } else {
            if run.len() > 0 {
                let mut c = canonicalize_run(&run);
                out.append(&mut c);
                run = Vec::new();
            }
            out.push(Layer { atoms: copy_atoms(&layers[j].atoms) });
        }
        j = j + 1;
    }
    if run.len() > 0 {
        let mut c = canonicalize_run(&run);
        out.append(&mut c);
    }
    out
}

/// **Step 3**: isolate braids from mixed layers, pre-split braid runs, sweep
/// braids input-ward by naturality until nothing moves, and re-canonicalize
/// the runs the sweep disturbed.
fn collect_braid_prefix<G: PropSignature>(sd: StringDiagram<G>) -> StringDiagram<G> {
    let mut layers = isolate_mixed_braid_layers(sd.layers);
    layers = canonicalize_braid_runs(layers);
    let mut changed = true;
    let mut swapped_any = false;
    let mut fuel: usize = NF_FUEL;
    while changed && fuel > 0
        decreases fuel,
    {
        fuel = fuel - 1;
        changed = false;
        let mut i: usize = 0;
        while i < layers.len() && i + 1 < layers.len()
            invariant
                i <= layers@.len(),
            decreases layers@.len() - i,
        {
            if is_braid_only_layer(&layers[i + 1]) && !is_braid_only_layer(&layers[i]) {
                match try_naturality_swap(&layers[i], &layers[i + 1]) {
                    Some((new_braid, new_gen)) => {
                        layers.set(i, new_braid);
                        layers.set(i + 1, new_gen);
                        changed = true;
                        swapped_any = true;
                    },
                    None => {},
                }
            }
            i = i + 1;
        }
    }
    if swapped_any {
        layers = canonicalize_braid_runs(layers);
    }
    StringDiagram { layers }
}

// -------------------------------------------------------------------------
// Step 4: identity layers; Step 5: units
// -------------------------------------------------------------------------

/// **Step 4**: fuse adjacent identities in each layer, and drop identity-only
/// layers when a non-identity layer remains (keeping one when none does).
/// A non-empty run of identities.
spec fn identity_only<G: PropSignature>(atoms: Seq<Atom<G>>) -> bool {
    atoms.len() > 0 && forall|i: int| 0 <= i < atoms.len() ==> atoms[i] is Identity
}

/// The layers that are not identity-only, in order.
spec fn non_identity_layers<G: PropSignature>(ls: Seq<Seq<Atom<G>>>) -> Seq<Seq<Atom<G>>>
    decreases ls.len(),
{
    if ls.len() == 0 {
        Seq::empty()
    } else {
        let rest = non_identity_layers(ls.drop_last());
        if identity_only(ls.last()) {
            rest
        } else {
            rest.push(ls.last())
        }
    }
}

/// Identities fused in every layer, then the identity-only layers dropped
/// when another layer remains, or all but the first dropped when none does.
spec fn coalesced<G: PropSignature>(ls: Seq<Seq<Atom<G>>>) -> Seq<Seq<Atom<G>>> {
    let fused = ls.map_values(|l: Seq<Atom<G>>| merged(l));
    if exists|j: int| 0 <= j < fused.len() && !identity_only(#[trigger] fused[j]) {
        non_identity_layers(fused)
    } else if fused.len() >= 2 {
        seq![fused[0]]
    } else {
        fused
    }
}

fn coalesce_identity_layers<G: PropSignature>(sd: StringDiagram<G>) -> (r: StringDiagram<G>)
    ensures
        diagram_view(r) == coalesced(diagram_view(sd)),
{
    let ghost fused = diagram_view(sd).map_values(|l: Seq<Atom<G>>| merged(l));
    let mut layers: Vec<Layer<G>> = Vec::new();
    let mut j: usize = 0;
    while j < sd.layers.len()
        invariant
            j <= sd.layers@.len(),
            fused == diagram_view(sd).map_values(|l: Seq<Atom<G>>| merged(l)),
            layers@.len() == j,
            forall|t: int| 0 <= t < j ==> #[trigger] layers@[t].atoms@ == fused[t],
        decreases sd.layers@.len() - j,
    {
        layers.push(Layer { atoms: merge_adjacent_identities(copy_atoms(&sd.layers[j].atoms)) });
        j = j + 1;
    }
    proof {
        assert(layers@.map_values(|l: Layer<G>| l.atoms@) =~= fused);
    }
    let mut has_non_identity = false;
    let mut j: usize = 0;
    while j < layers.len()
        invariant
            j <= layers@.len(),
            layers@.len() == fused.len(),
            forall|t: int| 0 <= t < layers@.len() ==> #[trigger] layers@[t].atoms@ == fused[t],
            has_non_identity == exists|t: int| 0 <= t < j && !identity_only(#[trigger] fused[t]),
        decreases layers@.len() - j,
    {
        if !is_identity_only(&layers[j]) {
            has_non_identity = true;
        }
        proof {
            assert(identity_only(fused[j as int]) == (layers@[j as int].atoms@.len() > 0 && forall|i: int|
                0 <= i < layers@[j as int].atoms@.len() ==> layers@[j as int].atoms@[i] is Identity));
        }
        j = j + 1;
    }
    if has_non_identity {
        let mut kept: Vec<Layer<G>> = Vec::new();
        let mut j: usize = 0;
        while j < layers.len()
            invariant
                j <= layers@.len(),
                layers@.len() == fused.len(),
                forall|t: int| 0 <= t < layers@.len() ==> #[trigger] layers@[t].atoms@ == fused[t],
                kept@.map_values(|l: Layer<G>| l.atoms@) == non_identity_layers(fused.take(j as int)),
            decreases layers@.len() - j,
        {
            proof {
                assert(fused.take(j + 1).drop_last() =~= fused.take(j as int));
                assert(fused.take(j + 1).last() == fused[j as int]);
            }
            let ghost prev = kept@;
            if !is_identity_only(&layers[j]) {
                let copy = copy_atoms(&layers[j].atoms);
                kept.push(Layer { atoms: copy });
                proof {
                    assert(kept@.map_values(|l: Layer<G>| l.atoms@) =~= prev.map_values(|l: Layer<G>| l.atoms@).push(copy@));
                }
            }
            j = j + 1;
        }
        proof {
            assert(fused.take(layers@.len() as int) =~= fused);
        }
        let r = StringDiagram { layers: kept };
        proof {
            assert(diagram_view(r) =~= kept@.map_values(|l: Layer<G>| l.atoms@));
        }
        r
    } else if layers.len() >= 2 {
        let mut first: Vec<Layer<G>> = Vec::new();
        let copy = copy_atoms(&layers[0].atoms);
        first.push(Layer { atoms: copy });
        let r = StringDiagram { layers: first };
        proof {
            assert(diagram_view(r) =~= seq![fused[0]]);
        }
        r
    } else {
        let r = StringDiagram { layers };
        proof {
            assert(diagram_view(r) =~= fused);
        }
        r
    }
}

/// `atoms` without its `Identity(0)` units.
spec fn without_units<G: PropSignature>(atoms: Seq<Atom<G>>) -> Seq<Atom<G>>
    decreases atoms.len(),
{
    if atoms.len() == 0 {
        Seq::empty()
    } else {
        let rest = without_units(atoms.drop_last());
        if atoms.last() == Atom::<G>::Identity(0) {
            rest
        } else {
            rest.push(atoms.last())
        }
    }
}

/// Each layer without its units, and the layers left empty dropped.
spec fn layers_without_units<G: PropSignature>(layers: Seq<Seq<Atom<G>>>) -> Seq<Seq<Atom<G>>>
    decreases layers.len(),
{
    if layers.len() == 0 {
        Seq::empty()
    } else {
        let rest = layers_without_units(layers.drop_last());
        let l = without_units(layers.last());
        if l.len() > 0 {
            rest.push(l)
        } else {
            rest
        }
    }
}

/// **Step 5**: remove `Identity(0)` atoms, then empty layers.
fn simplify_units<G: PropSignature>(sd: StringDiagram<G>) -> (r: StringDiagram<G>)
    ensures
        diagram_view(r) == layers_without_units(diagram_view(sd)),
{
    let mut layers: Vec<Layer<G>> = Vec::new();
    let mut j: usize = 0;
    while j < sd.layers.len()
        invariant
            j <= sd.layers@.len(),
            layers@.map_values(|l: Layer<G>| l.atoms@) == layers_without_units(diagram_view(sd).take(j as int)),
        decreases sd.layers@.len() - j,
    {
        let mut atoms: Vec<Atom<G>> = Vec::new();
        let mut i: usize = 0;
        while i < sd.layers[j].atoms.len()
            invariant
                j < sd.layers@.len(),
                i <= sd.layers@[j as int].atoms@.len(),
                atoms@ == without_units(sd.layers@[j as int].atoms@.take(i as int)),
            decreases sd.layers@[j as int].atoms@.len() - i,
        {
            proof {
                assert(sd.layers@[j as int].atoms@.take(i + 1).drop_last() =~= sd.layers@[j as int].atoms@.take(i as int));
            }
            let a = sd.layers[j].atoms[i];
            let unit = match a {
                Atom::Identity(n) => n == 0,
                _ => false,
            };
            if !unit {
                atoms.push(a);
            }
            i = i + 1;
        }
        proof {
            assert(sd.layers@[j as int].atoms@.take(sd.layers@[j as int].atoms@.len() as int) =~= sd.layers@[j as int].atoms@);
            assert(diagram_view(sd).take(j + 1).drop_last() =~= diagram_view(sd).take(j as int));
            assert(diagram_view(sd).take(j + 1).last() == sd.layers@[j as int].atoms@);
        }
        let ghost prev = layers@;
        if atoms.len() > 0 {
            layers.push(Layer { atoms });
            proof {
                assert(layers@.map_values(|l: Layer<G>| l.atoms@) =~= prev.map_values(|l: Layer<G>| l.atoms@).push(atoms@));
            }
        }
        j = j + 1;
    }
    proof {
        assert(diagram_view(sd).take(sd.layers@.len() as int) =~= diagram_view(sd));
    }
    let r = StringDiagram { layers };
    proof {
        assert(diagram_view(r) =~= layers@.map_values(|l: Layer<G>| l.atoms@));
    }
    r
}

// -------------------------------------------------------------------------
// Step 4(c): sifting generators to their earliest layer
// -------------------------------------------------------------------------

/// Where a sifted generator lands in the preceding layer.
#[derive(Clone, Copy)]
enum Placement {
    /// Inside identity `k`, leaving `pre` wires before and `post` after.
    SplitIdentity { k: usize, pre: usize, post: usize },
    /// At the atom boundary before index `at`.
    Boundary { at: usize },
}

/// One applicable sift move: the generator at `idx` of layer `j` moves to
/// layer `j - 1` at `place`.
struct Sift {
    j: usize,
    idx: usize,
    place: Placement,
}

/// The identity atom of `layer` whose target span covers
/// `[start, start + width)`: its index, start and width.
/// Atom `k` of `atoms` is an identity whose target span contains the span
/// `start .. start + width`.
spec fn covers<G: PropSignature>(atoms: Seq<Atom<G>>, k: int, start: usize, width: usize) -> bool {
    let p = spec_width(atoms.take(k), true);
    &&& atoms[k] is Identity
    &&& p <= start
    &&& start.wrapping_add(width) <= p.wrapping_add(atoms[k]->Identity_0)
}

fn covering_identity<G: PropSignature>(layer: &Layer<G>, start: usize, width: usize) -> (r: Option<(usize, usize, usize)>)
    ensures
        r matches Some((k, p, n)) ==> {
            &&& k < layer.atoms@.len()
            &&& covers(layer.atoms@, k as int, start, width)
            &&& layer.atoms@[k as int] == Atom::<G>::Identity(n)
            &&& p == spec_width(layer.atoms@.take(k as int), true)
            &&& forall|j: int| 0 <= j < k ==> !covers(layer.atoms@, j, start, width)
        },
        r is None ==> forall|j: int| 0 <= j < layer.atoms@.len() ==> !covers(layer.atoms@, j, start, width),
{
    let mut p: usize = 0;
    let mut k: usize = 0;
    proof {
        assert(layer.atoms@.take(0) =~= Seq::<Atom<G>>::empty());
    }
    while k < layer.atoms.len()
        invariant
            k <= layer.atoms@.len(),
            p == spec_width(layer.atoms@.take(k as int), true),
            forall|j: int| 0 <= j < k ==> !covers(layer.atoms@, j, start, width),
        decreases layer.atoms@.len() - k,
    {
        let atom = layer.atoms[k];
        let w = atom_target(&atom);
        proof {
            assert(layer.atoms@.take(k + 1).drop_last() =~= layer.atoms@.take(k as int));
        }
        if let Atom::Identity(n) = atom {
            if p <= start && start.wrapping_add(width) <= p.wrapping_add(n) {
                return Some((k, p, n));
            }
        }
        p = p.wrapping_add(w);
        k = k + 1;
    }
    None
}

/// Atom `k` of `atoms` starts at target coordinate `q` or strictly contains it.
spec fn placement_hit<G: PropSignature>(atoms: Seq<Atom<G>>, q: usize, k: int) -> bool {
    let start = spec_width(atoms.take(k), true);
    start == q || (start < q && q < start.wrapping_add(spec_atom_target(atoms[k])))
}

/// Where a zero-source generator at target coordinate `q` can enter `prev`:
/// the leftmost atom boundary at `q`, or inside the identity strictly
/// containing `q`; never inside another atom's output span.
fn point_placement<G: PropSignature>(prev: &Layer<G>, q: usize) -> (r: Option<Placement>)
    ensures
        ({
            let atoms = prev.atoms@;
            match r {
                Some(Placement::Boundary { at }) => {
                    &&& at <= atoms.len()
                    &&& spec_width(atoms.take(at as int), true) == q
                    &&& forall|j: int| 0 <= j < at ==> !placement_hit(atoms, q, j)
                },
                Some(Placement::SplitIdentity { k, pre, post }) => {
                    let start = spec_width(atoms.take(k as int), true);
                    let end = start.wrapping_add(spec_atom_target(atoms[k as int]));
                    &&& k < atoms.len()
                    &&& start < q && q < end
                    &&& atoms[k as int] is Identity
                    &&& pre == q - start
                    &&& post == end - q
                    &&& forall|j: int| 0 <= j < k ==> !placement_hit(atoms, q, j)
                },
                None => {
                    ||| (forall|j: int| 0 <= j < atoms.len() ==> !placement_hit(atoms, q, j)) && spec_width(
                        atoms,
                        true,
                    ) != q
                    ||| exists|k: int|
                        0 <= k < atoms.len() && #[trigger] placement_hit(atoms, q, k) && spec_width(
                            atoms.take(k),
                            true,
                        ) != q && !(atoms[k] is Identity) && forall|j: int| 0 <= j < k ==> !placement_hit(atoms, q, j)
                },
            }
        }),
{
    let mut p: usize = 0;
    let mut k: usize = 0;
    proof {
        assert(prev.atoms@.take(0) =~= Seq::<Atom<G>>::empty());
    }
    while k < prev.atoms.len()
        invariant
            k <= prev.atoms@.len(),
            p == spec_width(prev.atoms@.take(k as int), true),
            forall|j: int| 0 <= j < k ==> !placement_hit(prev.atoms@, q, j),
        decreases prev.atoms@.len() - k,
    {
        if p == q {
            return Some(Placement::Boundary { at: k });
        }
        let atom = prev.atoms[k];
        let n = atom_target(&atom);
        if p < q && q < p.wrapping_add(n) {
            proof {
                assert(placement_hit(prev.atoms@, q, k as int));
            }
            return match atom {
                Atom::Identity(_) => Some(Placement::SplitIdentity { k, pre: q - p, post: p.wrapping_add(n).wrapping_sub(q) }),
                _ => None,
            };
        }
        proof {
            assert(prev.atoms@.take(k + 1).drop_last() =~= prev.atoms@.take(k as int));
            assert(!placement_hit(prev.atoms@, q, k as int));
        }
        p = p.wrapping_add(n);
        k = k + 1;
    }
    proof {
        assert(prev.atoms@.take(prev.atoms@.len() as int) =~= prev.atoms@);
    }
    if p == q {
        Some(Placement::Boundary { at: prev.atoms.len() })
    } else {
        None
    }
}

/// The first applicable sift at or after layer `start`.
fn find_sift<G: PropSignature>(sd: &StringDiagram<G>, start: usize) -> Option<Sift> {
    let mut j: usize = if start < 1 { 1 } else { start };
    while j < sd.layers.len()
        invariant
            j >= 1,
        decreases sd.layers@.len() - j,
    {
        let prev = &sd.layers[j - 1];
        if !layer_has_braid(&prev.atoms) {
            let cur = &sd.layers[j];
            let mut src_pos: usize = 0;
            let mut idx: usize = 0;
            while idx < cur.atoms.len()
                invariant
                    idx <= cur.atoms@.len(),
                decreases cur.atoms@.len() - idx,
            {
                let atom = cur.atoms[idx];
                let s = atom_source(&atom);
                if let Atom::Generator(_) = atom {
                    if s > 0 {
                        match covering_identity(prev, src_pos, s) {
                            Some((k, p, n)) => {
                                return Some(
                                    Sift {
                                        j,
                                        idx,
                                        place: Placement::SplitIdentity {
                                            k,
                                            pre: src_pos.wrapping_sub(p),
                                            post: p.wrapping_add(n).wrapping_sub(src_pos.wrapping_add(s)),
                                        },
                                    },
                                );
                            },
                            None => {},
                        }
                    } else {
                        match point_placement(prev, src_pos) {
                            Some(place) => {
                                return Some(Sift { j, idx, place });
                            },
                            None => {},
                        }
                    }
                }
                src_pos = src_pos.wrapping_add(s);
                idx = idx + 1;
            }
        }
        j = j + 1;
    }
    None
}

/// `g` put in `atoms` at `place`: inside identity `k` between `pre` and
/// `post` wires of it (each dropped when zero), or before atom `at`; `atoms`
/// itself when the position is out of range.
spec fn placed<G: PropSignature>(atoms: Seq<Atom<G>>, place: Placement, g: Atom<G>) -> Seq<Atom<G>> {
    match place {
        Placement::SplitIdentity { k, pre, post } => if k < atoms.len() {
            atoms.take(k as int) + split_middle(pre, g, post) + atoms.skip(k + 1)
        } else {
            atoms
        },
        Placement::Boundary { at } => if at <= atoms.len() {
            atoms.insert(at as int, g)
        } else {
            atoms
        },
    }
}

/// `id_pre ⊗ g ⊗ id_post`, without zero-width identities.
spec fn split_middle<G: PropSignature>(pre: usize, g: Atom<G>, post: usize) -> Seq<Atom<G>> {
    (if pre > 0 { seq![Atom::Identity(pre)] } else { Seq::empty() }) + seq![g] + (if post > 0 {
        seq![Atom::Identity(post)]
    } else {
        Seq::empty()
    })
}

/// The first `n` atoms of `atoms` with atom `k` split around `g`.
spec fn split_prefix<G: PropSignature>(atoms: Seq<Atom<G>>, k: int, pre: usize, g: Atom<G>, post: usize, n: int) -> Seq<Atom<G>> {
    if n <= k {
        atoms.take(n)
    } else {
        atoms.take(k) + split_middle(pre, g, post) + atoms.subrange(k + 1, n)
    }
}

/// Move the sifted generator into the preceding layer, leaving an identity
/// of its target width behind, and re-fuse both layers.
fn apply_sift<G: PropSignature>(sd: &mut StringDiagram<G>, sift: &Sift)
    ensures
        final(sd).layers@.len() == old(sd).layers@.len(),
        (sift.j == 0 || sift.j >= old(sd).layers@.len() || sift.idx >= old(sd).layers@[sift.j as int].atoms@.len())
            ==> final(sd).layers@ == old(sd).layers@,
        !(sift.j == 0 || sift.j >= old(sd).layers@.len() || sift.idx >= old(sd).layers@[sift.j as int].atoms@.len())
            ==> {
            let j = sift.j as int;
            let g = old(sd).layers@[j].atoms@[sift.idx as int];
            &&& final(sd).layers@[j - 1].atoms@ == merged(placed(old(sd).layers@[j - 1].atoms@, sift.place, g))
            &&& final(sd).layers@[j].atoms@ == merged(
                old(sd).layers@[j].atoms@.update(sift.idx as int, Atom::Identity(spec_atom_target(g))),
            )
            &&& forall|t: int| 0 <= t < old(sd).layers@.len() && t != j && t != j - 1 ==> #[trigger] final(sd).layers@[t]
                == old(sd).layers@[t]
        },
{
    let j = sift.j;
    let idx = sift.idx;
    if j == 0 || j >= sd.layers.len() || idx >= sd.layers[j].atoms.len() {
        return;
    }
    let g = sd.layers[j].atoms[idx];
    let target = atom_target(&g);
    let prev_atoms = copy_atoms(&sd.layers[j - 1].atoms);
    let new_prev = match sift.place {
        Placement::SplitIdentity { k, pre, post } => {
            let mut out: Vec<Atom<G>> = Vec::new();
            let mut kk: usize = 0;
            while kk < prev_atoms.len()
                invariant
                    kk <= prev_atoms@.len(),
                    out@ == split_prefix(prev_atoms@, k as int, pre, g, post, kk as int),
                decreases prev_atoms@.len() - kk,
            {
                proof {
                    assert(prev_atoms@.take(kk + 1) =~= prev_atoms@.take(kk as int).push(prev_atoms@[kk as int]));
                    if kk > k {
                        assert(prev_atoms@.subrange(k + 1, kk + 1) =~= prev_atoms@.subrange(k + 1, kk as int).push(prev_atoms@[kk as int]));
                    }
                    if kk == k {
                        assert(prev_atoms@.subrange(k + 1, kk + 1) =~= Seq::<Atom<G>>::empty());
                    }
                }
                if kk == k {
                    if pre > 0 {
                        out.push(Atom::Identity(pre));
                    }
                    out.push(g);
                    if post > 0 {
                        out.push(Atom::Identity(post));
                    }
                } else {
                    out.push(prev_atoms[kk]);
                }
                kk = kk + 1;
                proof {
                    assert(out@ =~= split_prefix(prev_atoms@, k as int, pre, g, post, kk as int));
                }
            }
            proof {
                assert(prev_atoms@.take(prev_atoms@.len() as int) =~= prev_atoms@);
                assert(prev_atoms@.subrange(k + 1, prev_atoms@.len() as int) =~= prev_atoms@.skip(k + 1));
            }
            out
        },
        Placement::Boundary { at } => {
            let mut out = prev_atoms;
            if at <= out.len() {
                out.insert(at, g);
            }
            out
        },
    };
    proof {
        assert(new_prev@ == placed(old(sd).layers@[j - 1].atoms@, sift.place, g));
    }
    sd.layers.set(j - 1, Layer { atoms: merge_adjacent_identities(new_prev) });
    let mut cur = copy_atoms(&sd.layers[j].atoms);
    if idx < cur.len() {
        cur.set(idx, Atom::Identity(target));
    }
    sd.layers.set(j, Layer { atoms: merge_adjacent_identities(cur) });
}

/// **Step 4(c)**: sift each generator to its earliest braid-free layer,
/// resuming the scan just above the last move.
fn topological_layer_order<G: PropSignature>(sd: StringDiagram<G>) -> StringDiagram<G> {
    let mut sd = sd;
    let mut start: usize = 1;
    let mut fuel: usize = NF_FUEL;
    while fuel > 0
        decreases fuel,
    {
        fuel = fuel - 1;
        match find_sift(&sd, start) {
            Some(sift) => {
                let j = sift.j;
                apply_sift(&mut sd, &sift);
                start = if j >= 2 { j - 1 } else { 1 };
            },
            None => {
                break;
            },
        }
    }
    sd
}

// -------------------------------------------------------------------------
// Connected components and their order
// -------------------------------------------------------------------------

/// A component's boundary attachment: class `0` closed, `1` input-anchored,
/// `2` output-only, and the least attached coordinate on the anchoring
/// boundary (`0` when closed). Ordered by class, then coordinate.
#[derive(Clone, Copy)]
struct CompKey {
    class: u8,
    coord: usize,
}

/// `-1`, `0` or `1` as `a` sorts before, with, or after `b`.
fn key_order(a: CompKey, b: CompKey) -> (r: i8)
    ensures
        r == (if a.class < b.class || (a.class == b.class && a.coord < b.coord) {
            -1i8
        } else if a.class == b.class && a.coord == b.coord {
            0i8
        } else {
            1i8
        }),
{
    if a.class < b.class {
        -1
    } else if a.class > b.class {
        1
    } else if a.coord < b.coord {
        -1
    } else if a.coord > b.coord {
        1
    } else {
        0
    }
}

/// The connected components of a diagram, with each component's key, atom
/// count, interleaving mark and boundary contacts.
struct Components {
    ids: Vec<Vec<usize>>,
    keys: Vec<CompKey>,
    sizes: Vec<usize>,
    interleaved: Vec<bool>,
    touches_input: Vec<bool>,
    touches_output: Vec<bool>,
}

/// Half-open wire intervals of each atom on one side.
fn atom_intervals<G: PropSignature>(atoms: &Vec<Atom<G>>, use_target: bool) -> (r: Vec<(usize, usize)>)
    ensures
        r@.len() == atoms@.len(),
        forall|k: int|
            0 <= k < atoms@.len() ==> #[trigger] r@[k] == (spec_width(atoms@.take(k), use_target), spec_width(
                atoms@.take(k + 1),
                use_target,
            )),
{
    let mut out: Vec<(usize, usize)> = Vec::new();
    let mut p: usize = 0;
    let mut i: usize = 0;
    proof {
        assert(atoms@.take(0) =~= Seq::<Atom<G>>::empty());
    }
    while i < atoms.len()
        invariant
            i <= atoms@.len(),
            out@.len() == i,
            p == spec_width(atoms@.take(i as int), use_target),
            forall|k: int|
                0 <= k < i ==> #[trigger] out@[k] == (spec_width(atoms@.take(k), use_target), spec_width(
                    atoms@.take(k + 1),
                    use_target,
                )),
        decreases atoms@.len() - i,
    {
        let w = if use_target { atom_target(&atoms[i]) } else { atom_source(&atoms[i]) };
        proof {
            assert(atoms@.take(i + 1).drop_last() =~= atoms@.take(i as int));
        }
        let e = p.wrapping_add(w);
        out.push((p, e));
        p = e;
        i = i + 1;
    }
    out
}

/// A union-find forest whose parents never exceed their children.
spec fn parents_descend(parent: Seq<usize>) -> bool {
    forall|x: int| 0 <= x < parent.len() ==> parent[x] <= x
}

/// A root never lies above its node.
proof fn lemma_root_below(parent: Seq<usize>, x: int)
    ensures
        root_of(parent, x) <= x,
    decreases x,
{
    if 0 <= x < parent.len() && parent[x] < x {
        lemma_root_below(parent, parent[x] as int);
    }
}

/// Pointing a root `hi` at a smaller root `lo` sends every class rooted at
/// `hi` to `lo` and leaves the others.
proof fn lemma_relink_root(parent: Seq<usize>, hi: int, lo: int, y: int)
    requires
        parents_descend(parent),
        0 <= lo < hi < parent.len(),
        parent[hi] == hi,
        parent[lo] == lo,
        0 <= y < parent.len(),
    ensures
        root_of(parent.update(hi, lo as usize), y) == if root_of(parent, y) == hi { lo } else { root_of(parent, y) },
    decreases y,
{
    if parent[y] < y {
        lemma_relink_root(parent, hi, lo, parent[y] as int);
    } else if y == hi {
        assert(root_of(parent.update(hi, lo as usize), lo) == lo);
    }
}

/// The root reached from `x` by following parents (which only descend).
spec fn root_of(parent: Seq<usize>, x: int) -> int
    decreases x,
{
    if 0 <= x < parent.len() && parent[x] < x {
        root_of(parent, parent[x] as int)
    } else {
        x
    }
}

/// Halving a path (pointing `x` at its grandparent) keeps every root.
proof fn lemma_halving_keeps_roots(parent: Seq<usize>, x: int, y: int)
    requires
        parents_descend(parent),
        0 <= x < parent.len(),
        0 <= y < parent.len(),
    ensures
        root_of(parent.update(x, parent[parent[x] as int]), y) == root_of(parent, y),
    decreases y,
{
    let q = parent.update(x, parent[parent[x] as int]);
    if parent[y] < y {
        if y == x {
            let g = parent[parent[x] as int] as int;
            if g < y {
                lemma_halving_keeps_roots(parent, x, g);
            }
            if parent[parent[x] as int] < parent[x] {
                assert(root_of(parent, parent[x] as int) == root_of(parent, g));
            }
        } else {
            lemma_halving_keeps_roots(parent, x, parent[y] as int);
        }
    } else if y == x {
        assert(parent[x] == x);
    }
}

/// The root of `x`, halving the path.
fn uf_find(parent: &mut Vec<usize>, x: usize) -> (r: usize)
    requires
        parents_descend(old(parent)@),
        x < old(parent)@.len(),
    ensures
        parents_descend(final(parent)@),
        final(parent)@.len() == old(parent)@.len(),
        r < final(parent)@.len(),
        r == root_of(old(parent)@, x as int),
        final(parent)@[r as int] == r,
        forall|y: int| 0 <= y < old(parent)@.len() ==> root_of(final(parent)@, y) == root_of(old(parent)@, y),
{
    let mut x = x;
    let ghost x0 = x;
    while parent[x] != x
        invariant
            parents_descend(parent@),
            parent@.len() == old(parent)@.len(),
            x < parent@.len(),
            root_of(parent@, x as int) == root_of(old(parent)@, x0 as int),
            forall|y: int| 0 <= y < old(parent)@.len() ==> root_of(parent@, y) == root_of(old(parent)@, y),
        decreases x,
    {
        let grand = parent[parent[x]];
        let ghost before = parent@;
        proof {
            assert forall|y: int| 0 <= y < before.len() implies root_of(before.update(x as int, grand), y)
                == root_of(before, y) by {
                lemma_halving_keeps_roots(before, x as int, y);
            }
        }
        parent.set(x, grand);
        proof {
            assert(root_of(parent@, x as int) == root_of(parent@, parent@[x as int] as int));
        }
        x = parent[x];
    }
    x
}

/// Merge the classes of `a` and `b`, linking the larger root to the smaller.
fn uf_union(parent: &mut Vec<usize>, a: usize, b: usize)
    requires
        parents_descend(old(parent)@),
        a < old(parent)@.len(),
        b < old(parent)@.len(),
    ensures
        parents_descend(final(parent)@),
        final(parent)@.len() == old(parent)@.len(),
        ({
            let ra = root_of(old(parent)@, a as int);
            let rb = root_of(old(parent)@, b as int);
            let lo = if ra < rb { ra } else { rb };
            let hi = if ra < rb { rb } else { ra };
            forall|y: int|
                0 <= y < old(parent)@.len() ==> #[trigger] root_of(final(parent)@, y) == if root_of(
                    old(parent)@,
                    y,
                ) == hi {
                    lo
                } else {
                    root_of(old(parent)@, y)
                }
        }),
{
    let ra = uf_find(parent, a);
    let ghost after1 = parent@;
    let rb = uf_find(parent, b);
    let ghost mid = parent@;
    proof {
        assert(root_of(after1, ra as int) == ra);
        assert(root_of(mid, ra as int) == ra);
        if mid[ra as int] < ra {
            lemma_root_below(mid, mid[ra as int] as int);
        }
        assert(root_of(after1, b as int) == root_of(old(parent)@, b as int));
        if ra != rb {
            let lo = if ra < rb { ra } else { rb };
            let hi = if ra < rb { rb } else { ra };
            assert forall|y: int| 0 <= y < mid.len() implies #[trigger] root_of(mid.update(hi as int, lo), y) == if root_of(
                mid,
                y,
            ) == hi {
                lo as int
            } else {
                root_of(mid, y)
            } by {
                lemma_relink_root(mid, hi as int, lo as int, y);
            }
        }
    }
    if ra < rb {
        parent.set(rb, ra);
    } else if rb < ra {
        parent.set(ra, rb);
    }
}

/// The owners of the wires of the first `n` intervals: interval `i`
/// contributes one entry per wire, naming component `comp_of[offset + i]`,
/// and nothing where that index is out of range.
spec fn owners_of(intervals: Seq<(usize, usize)>, comp_of: Seq<usize>, offset: usize, n: nat) -> Seq<usize>
    decreases n,
{
    if n == 0 {
        Seq::empty()
    } else {
        let (s, e) = intervals[n - 1];
        let at = offset.wrapping_add((n - 1) as usize);
        let wires: nat = if s < e { (e - s) as nat } else { 0 };
        owners_of(intervals, comp_of, offset, (n - 1) as nat) + if at < comp_of.len() {
            Seq::new(wires, |w: int| comp_of[at as int])
        } else {
            Seq::empty()
        }
    }
}

/// Component of each wire on a boundary, left to right.
fn wire_owners(intervals: &Vec<(usize, usize)>, comp_of: &Vec<usize>, offset: usize) -> (r: Vec<usize>)
    ensures
        r@ == owners_of(intervals@, comp_of@, offset, intervals@.len()),
{
    let mut out: Vec<usize> = Vec::new();
    let mut i: usize = 0;
    while i < intervals.len()
        invariant
            i <= intervals@.len(),
            out@ == owners_of(intervals@, comp_of@, offset, i as nat),
        decreases intervals@.len() - i,
    {
        let (s, e) = intervals[i];
        let at = offset.wrapping_add(i);
        let ghost base = out@;
        if at < comp_of.len() {
            let c = comp_of[at];
            let mut w: usize = s;
            while w < e
                invariant
                    s <= w,
                    w <= e || w == s,
                    out@ == base + Seq::new((w - s) as nat, |t: int| c),
                decreases e - w,
            {
                out.push(c);
                proof {
                    assert(out@ =~= base + Seq::new((w + 1 - s) as nat, |t: int| c));
                }
                w = w + 1;
            }
            proof {
                let wires: nat = if s < e { (e - s) as nat } else { 0 };
                assert(out@ =~= base + Seq::new(wires, |t: int| comp_of@[at as int]));
            }
        } else {
            proof {
                assert(out@ =~= base + Seq::<usize>::empty());
            }
        }
        proof {
            assert(owners_of(intervals@, comp_of@, offset, (i + 1) as nat) == base + (if at < comp_of@.len() {
                Seq::new(if s < e { (e - s) as nat } else { 0 }, |t: int| comp_of@[at as int])
            } else {
                Seq::empty()
            }));
        }
        i = i + 1;
    }
    out
}

/// `s` with each run of equal adjacent entries collapsed to one entry.
spec fn collapsed(s: Seq<usize>) -> Seq<usize>
    decreases s.len(),
{
    if s.len() == 0 {
        Seq::empty()
    } else {
        let r = collapsed(s.drop_last());
        if r.len() > 0 && r.last() == s.last() {
            r
        } else {
            r.push(s.last())
        }
    }
}

/// Run `b` of `runs`, owned by `c`, lies within a span `a..=d` whose two ends
/// belong to one component (`a < d`).
spec fn in_span(runs: Seq<usize>, a: int, b: int, d: int, c: usize) -> bool {
    &&& 0 <= a <= b <= d < runs.len()
    &&& a < d
    &&& runs[a] == runs[d]
    &&& runs[b] == c
}

/// Some span witness for `c` comes before `(i, k, m)` in the order in which
/// the spans are visited: by start, then end, then inner run.
spec fn marked_before(runs: Seq<usize>, c: usize, i: int, k: int, m: int) -> bool {
    exists|a: int, b: int, d: int|
        #[trigger] in_span(runs, a, b, d, c) && (a < i || (a == i && (d < k || (d == k && b < m))))
}

/// Mark every component whose wires on this boundary are split by another
/// component or sit inside another component's span.
fn mark_interleaved(owners: &Vec<usize>, interleaved: &mut Vec<bool>)
    ensures
        final(interleaved)@.len() == old(interleaved)@.len(),
        forall|c: int|
            0 <= c < old(interleaved)@.len() ==> #[trigger] final(interleaved)@[c] == (old(interleaved)@[c]
                || exists|a: int, b: int, d: int| #[trigger] in_span(collapsed(owners@), a, b, d, c as usize)),
{
    let mut runs: Vec<usize> = Vec::new();
    let mut i: usize = 0;
    while i < owners.len()
        invariant
            i <= owners@.len(),
            runs@ == collapsed(owners@.take(i as int)),
        decreases owners@.len() - i,
    {
        proof {
            assert(owners@.take(i + 1).drop_last() =~= owners@.take(i as int));
        }
        let c = owners[i];
        let len = runs.len();
        if len == 0 || runs[len - 1] != c {
            runs.push(c);
        }
        i = i + 1;
    }
    proof {
        assert(owners@.take(owners@.len() as int) =~= owners@);
    }
    let ghost r = runs@;
    let ghost before = interleaved@;
    let rl = runs.len();
    let mut i: usize = 0;
    while i < runs.len()
        invariant
            i <= runs@.len(),
            rl == runs@.len(),
            r == runs@,
            interleaved@.len() == before.len(),
            before == old(interleaved)@,
            forall|c: int|
                0 <= c < before.len() ==> #[trigger] interleaved@[c] == (before[c] || marked_before(r, c as usize, i as int, 0, 0)),
        decreases runs@.len() - i,
    {
        proof {
            assert forall|c: int| 0 <= c < before.len() implies #[trigger] interleaved@[c] == (before[c] || marked_before(
                r,
                c as usize,
                i as int,
                i + 1,
                0,
            )) by {
                if marked_before(r, c as usize, i as int, i + 1, 0) {
                    let (a, b, d) = choose|a: int, b: int, d: int|
                        #[trigger] in_span(r, a, b, d, c as usize) && (a < i || (a == i && (d < i + 1 || (d == i + 1 && b < 0))));
                    assert(in_span(r, a, b, d, c as usize) && (a < i || (a == i && (d < 0 || (d == 0 && b < 0)))));
                }
                if marked_before(r, c as usize, i as int, 0, 0) {
                    let (a, b, d) = choose|a: int, b: int, d: int|
                        #[trigger] in_span(r, a, b, d, c as usize) && (a < i || (a == i && (d < 0 || (d == 0 && b < 0))));
                    assert(in_span(r, a, b, d, c as usize) && (a < i || (a == i && (d < i + 1 || (d == i + 1 && b < 0)))));
                }
            }
        }
        let mut k: usize = i + 1;
        while k < runs.len()
            invariant
                i < runs@.len(),
                rl == runs@.len(),
                r == runs@,
                i < k <= runs@.len(),
                interleaved@.len() == before.len(),
                forall|c: int|
                    0 <= c < before.len() ==> #[trigger] interleaved@[c] == (before[c] || marked_before(r, c as usize, i as int, k as int, 0)),
            decreases runs@.len() - k,
        {
            if runs[i] == runs[k] {
                let mut m: usize = i;
                while m <= k
                    invariant
                        i <= m <= k + 1,
                        i < k < runs@.len(),
                        rl == runs@.len(),
                        r == runs@,
                        r[i as int] == r[k as int],
                        interleaved@.len() == before.len(),
                        forall|c: int|
                            0 <= c < before.len() ==> #[trigger] interleaved@[c] == (before[c] || marked_before(r, c as usize, i as int, k as int, m as int)),
                    decreases k + 1 - m,
                {
                    let ghost prev = interleaved@;
                    let c = runs[m];
                    if c < interleaved.len() {
                        interleaved.set(c, true);
                    }
                    proof {
                        assert(in_span(r, i as int, m as int, k as int, c));
                        assert forall|x: int| 0 <= x < before.len() implies #[trigger] interleaved@[x] == (before[x] || marked_before(
                            r,
                            x as usize,
                            i as int,
                            k as int,
                            m + 1,
                        )) by {
                            if x == c as int {
                                assert(marked_before(r, x as usize, i as int, k as int, m + 1));
                            } else {
                                assert(interleaved@[x] == prev[x]);
                                if marked_before(r, x as usize, i as int, k as int, m + 1) {
                                    let (a, b, d) = choose|a: int, b: int, d: int|
                                        #[trigger] in_span(r, a, b, d, x as usize) && (a < i || (a == i && (d < k || (d == k && b < m + 1))));
                                    assert(in_span(r, a, b, d, x as usize) && (a < i || (a == i && (d < k || (d == k && b < m)))));
                                }
                                if marked_before(r, x as usize, i as int, k as int, m as int) {
                                    let (a, b, d) = choose|a: int, b: int, d: int|
                                        #[trigger] in_span(r, a, b, d, x as usize) && (a < i || (a == i && (d < k || (d == k && b < m))));
                                    assert(in_span(r, a, b, d, x as usize) && (a < i || (a == i && (d < k || (d == k && b < m + 1)))));
                                }
                            }
                        }
                    }
                    m = m + 1;
                }
            }
            proof {
                assert forall|x: int| 0 <= x < before.len() implies #[trigger] interleaved@[x] == (before[x] || marked_before(
                    r,
                    x as usize,
                    i as int,
                    k + 1,
                    0,
                )) by {
                    let m_end: int = if r[i as int] == r[k as int] { k + 1 } else { 0 };
                    assert(interleaved@[x] == (before[x] || marked_before(r, x as usize, i as int, k as int, m_end)));
                    if marked_before(r, x as usize, i as int, k + 1, 0) {
                        let (a, b, d) = choose|a: int, b: int, d: int|
                            #[trigger] in_span(r, a, b, d, x as usize) && (a < i || (a == i && (d < k + 1 || (d == k + 1 && b < 0))));
                        assert(in_span(r, a, b, d, x as usize) && (a < i || (a == i && (d < k || (d == k && b < m_end)))));
                    }
                    if marked_before(r, x as usize, i as int, k as int, m_end) {
                        let (a, b, d) = choose|a: int, b: int, d: int|
                            #[trigger] in_span(r, a, b, d, x as usize) && (a < i || (a == i && (d < k || (d == k && b < m_end))));
                        assert(in_span(r, a, b, d, x as usize) && (a < i || (a == i && (d < k + 1 || (d == k + 1 && b < 0)))));
                    }
                }
            }
            k = k + 1;
        }
        proof {
            assert forall|x: int| 0 <= x < before.len() implies #[trigger] interleaved@[x] == (before[x] || marked_before(
                r,
                x as usize,
                i + 1,
                0,
                0,
            )) by {
                if marked_before(r, x as usize, i + 1, 0, 0) {
                    let (a, b, d) = choose|a: int, b: int, d: int|
                        #[trigger] in_span(r, a, b, d, x as usize) && (a < i + 1 || (a == i + 1 && (d < 0 || (d == 0 && b < 0))));
                    assert(in_span(r, a, b, d, x as usize) && (a < i || (a == i && (d < k || (d == k && b < 0)))));
                }
                if marked_before(r, x as usize, i as int, k as int, 0) {
                    let (a, b, d) = choose|a: int, b: int, d: int|
                        #[trigger] in_span(r, a, b, d, x as usize) && (a < i || (a == i && (d < k || (d == k && b < 0))));
                    assert(in_span(r, a, b, d, x as usize) && (a < i + 1 || (a == i + 1 && (d < 0 || (d == 0 && b < 0)))));
                }
            }
        }
        i = i + 1;
    }
    proof {
        assert forall|x: int| 0 <= x < before.len() implies #[trigger] interleaved@[x] == (before[x] || exists|a: int, b: int, d: int|
            #[trigger] in_span(collapsed(owners@), a, b, d, x as usize)) by {
            if exists|a: int, b: int, d: int| #[trigger] in_span(collapsed(owners@), a, b, d, x as usize) {
                let (a, b, d) = choose|a: int, b: int, d: int| #[trigger] in_span(collapsed(owners@), a, b, d, x as usize);
                assert(in_span(r, a, b, d, x as usize) && (a < i || (a == i && (d < 0 || (d == 0 && b < 0)))));
            }
        }
    }
}

/// Union-find the atoms into connected components (two atoms connect when
/// their intervals at a shared boundary share a wire; an empty interval
/// connects to nothing) and classify each by its boundary attachment.
fn analyze_components<G: PropSignature>(sd: &StringDiagram<G>) -> (r: Components)
    ensures
        r.ids@.len() == sd.layers@.len(),
        forall|j: int| 0 <= j < sd.layers@.len() ==> (#[trigger] r.ids@[j])@.len() == sd.layers@[j].atoms@.len(),
        r.sizes@.len() == r.keys@.len(),
        r.interleaved@.len() == r.keys@.len(),
        r.touches_input@.len() == r.keys@.len(),
        r.touches_output@.len() == r.keys@.len(),
        forall|c: int|
            0 <= c < r.keys@.len() ==> (#[trigger] r.keys@[c]).class == (if r.touches_input@[c] {
                1u8
            } else if r.touches_output@[c] {
                2u8
            } else {
                0u8
            }),
        forall|c: int| 0 <= c < r.keys@.len() ==> (#[trigger] r.keys@[c]).class == 0 ==> r.keys@[c].coord == 0,
{
    let mut offsets: Vec<usize> = Vec::new();
    let mut total: usize = 0;
    let mut j: usize = 0;
    while j < sd.layers.len()
        invariant
            j <= sd.layers@.len(),
            offsets@.len() == j,
        decreases sd.layers@.len() - j,
    {
        offsets.push(total);
        total = total.wrapping_add(sd.layers[j].atoms.len());
        j = j + 1;
    }
    offsets.push(total);
    let mut parent: Vec<usize> = Vec::new();
    let mut x: usize = 0;
    while x < total
        invariant
            x <= total,
            parent@.len() == x,
            parents_descend(parent@),
        decreases total - x,
    {
        parent.push(x);
        x = x + 1;
    }
    let mut j: usize = 1;
    while j < sd.layers.len()
        invariant
            j >= 1,
            offsets@.len() == sd.layers@.len() + 1,
            parent@.len() == total,
            parents_descend(parent@),
        decreases sd.layers@.len() - j,
    {
        let ups = atom_intervals(&sd.layers[j - 1].atoms, true);
        let downs = atom_intervals(&sd.layers[j].atoms, false);
        let mut a: usize = 0;
        let mut b: usize = 0;
        while a < ups.len() && b < downs.len()
            invariant
                a <= ups@.len(),
                b <= downs@.len(),
                parent@.len() == total,
                parents_descend(parent@),
                1 <= j < offsets@.len(),
            decreases ups@.len() + downs@.len() - a - b,
        {
            let (a_start, a_end) = ups[a];
            let (b_start, b_end) = downs[b];
            let shares = a_start < a_end && b_start < b_end && a_start < b_end && b_start < a_end;
            if shares {
                let u = offsets[j - 1].wrapping_add(a);
                let v = offsets[j].wrapping_add(b);
                if u < parent.len() && v < parent.len() {
                    uf_union(&mut parent, u, v);
                }
            }
            if a_end <= b_end {
                a = a + 1;
            } else {
                b = b + 1;
            }
        }
        j = j + 1;
    }
    let mut roots: Vec<usize> = Vec::new();
    let mut x: usize = 0;
    while x < total
        invariant
            x <= total,
            parent@.len() == total,
            parents_descend(parent@),
            roots@.len() == x,
            forall|k: int| 0 <= k < x ==> roots@[k] < total,
        decreases total - x,
    {
        let r = uf_find(&mut parent, x);
        roots.push(r);
        x = x + 1;
    }
    let mut label: Vec<usize> = Vec::new();
    let mut x: usize = 0;
    while x < total
        invariant
            x <= total,
            label@.len() == x,
            forall|k: int| 0 <= k < x ==> label@[k] == usize::MAX,
        decreases total - x,
    {
        label.push(usize::MAX);
        x = x + 1;
    }
    let mut ncomp: usize = 0;
    let mut x: usize = 0;
    while x < total
        invariant
            x <= total,
            label@.len() == total,
            roots@.len() == total,
            forall|k: int| 0 <= k < total ==> roots@[k] < total,
            ncomp <= x,
            forall|k: int| 0 <= k < total ==> label@[k] == usize::MAX || label@[k] < ncomp,
        decreases total - x,
    {
        let r = roots[x];
        if label[r] == usize::MAX {
            label.set(r, ncomp);
            ncomp = ncomp + 1;
        }
        x = x + 1;
    }
    let mut comp_of: Vec<usize> = Vec::new();
    let mut x: usize = 0;
    while x < total
        invariant
            x <= total,
            label@.len() == total,
            roots@.len() == total,
            forall|k: int| 0 <= k < total ==> roots@[k] < total,
            comp_of@.len() == x,
        decreases total - x,
    {
        comp_of.push(label[roots[x]]);
        x = x + 1;
    }
    let mut sizes: Vec<usize> = Vec::new();
    let mut in_min: Vec<usize> = Vec::new();
    let mut out_min: Vec<usize> = Vec::new();
    let mut interleaved: Vec<bool> = Vec::new();
    let mut c: usize = 0;
    while c < ncomp
        invariant
            c <= ncomp,
            sizes@.len() == c,
            in_min@.len() == c,
            out_min@.len() == c,
            interleaved@.len() == c,
        decreases ncomp - c,
    {
        sizes.push(0);
        in_min.push(usize::MAX);
        out_min.push(usize::MAX);
        interleaved.push(false);
        c = c + 1;
    }
    let mut x: usize = 0;
    while x < comp_of.len()
        invariant
            x <= comp_of@.len(),
            sizes@.len() == ncomp,
        decreases comp_of@.len() - x,
    {
        let c = comp_of[x];
        if c < sizes.len() {
            sizes.set(c, sizes[c].wrapping_add(1));
        }
        x = x + 1;
    }
    let n_layers = sd.layers.len();
    if n_layers > 0 {
        let owners = wire_owners(&atom_intervals(&sd.layers[0].atoms, false), &comp_of, offsets[0]);
        let mut w: usize = 0;
        while w < owners.len()
            invariant
                w <= owners@.len(),
                in_min@.len() == ncomp,
            decreases owners@.len() - w,
        {
            let c = owners[w];
            if c < in_min.len() && w < in_min[c] {
                in_min.set(c, w);
            }
            w = w + 1;
        }
        mark_interleaved(&owners, &mut interleaved);
        let owners = wire_owners(&atom_intervals(&sd.layers[n_layers - 1].atoms, true), &comp_of, offsets[n_layers - 1]);
        let mut w: usize = 0;
        while w < owners.len()
            invariant
                w <= owners@.len(),
                out_min@.len() == ncomp,
            decreases owners@.len() - w,
        {
            let c = owners[w];
            if c < out_min.len() && w < out_min[c] {
                out_min.set(c, w);
            }
            w = w + 1;
        }
        mark_interleaved(&owners, &mut interleaved);
    }
    let mut keys: Vec<CompKey> = Vec::new();
    let mut touches_input: Vec<bool> = Vec::new();
    let mut touches_output: Vec<bool> = Vec::new();
    let mut c: usize = 0;
    while c < ncomp
        invariant
            c <= ncomp,
            in_min@.len() == ncomp,
            out_min@.len() == ncomp,
            keys@.len() == c,
            touches_input@.len() == c,
            touches_output@.len() == c,
            forall|t: int|
                0 <= t < c ==> (#[trigger] keys@[t]).class == (if touches_input@[t] {
                    1u8
                } else if touches_output@[t] {
                    2u8
                } else {
                    0u8
                }),
            forall|t: int| 0 <= t < c ==> (#[trigger] keys@[t]).class == 0 ==> keys@[t].coord == 0,
        decreases ncomp - c,
    {
        let key = if in_min[c] != usize::MAX {
            CompKey { class: 1, coord: in_min[c] }
        } else if out_min[c] != usize::MAX {
            CompKey { class: 2, coord: out_min[c] }
        } else {
            CompKey { class: 0, coord: 0 }
        };
        keys.push(key);
        touches_input.push(in_min[c] != usize::MAX);
        touches_output.push(out_min[c] != usize::MAX);
        c = c + 1;
    }
    let mut ids: Vec<Vec<usize>> = Vec::new();
    let mut j: usize = 0;
    while j < n_layers
        invariant
            j <= n_layers,
            n_layers == sd.layers@.len(),
            offsets@.len() == n_layers + 1,
            ids@.len() == j,
            forall|t: int| 0 <= t < j ==> (#[trigger] ids@[t])@.len() == sd.layers@[t].atoms@.len(),
        decreases n_layers - j,
    {
        let mut row: Vec<usize> = Vec::new();
        let mut i: usize = 0;
        while i < sd.layers[j].atoms.len()
            invariant
                j < sd.layers@.len(),
                i <= sd.layers@[j as int].atoms@.len(),
                j < offsets@.len(),
                row@.len() == i,
            decreases sd.layers@[j as int].atoms@.len() - i,
        {
            let at = offsets[j].wrapping_add(i);
            row.push(if at < comp_of.len() { comp_of[at] } else { 0 });
            i = i + 1;
        }
        ids.push(row);
        j = j + 1;
    }
    Components { ids, keys, sizes, interleaved, touches_input, touches_output }
}

/// The atoms among the first `n` of `atoms` whose owner in `row` is `c`.
spec fn row_reading<G: PropSignature>(row: Seq<usize>, atoms: Seq<Atom<G>>, c: usize, n: nat) -> Seq<Atom<G>>
    decreases n,
{
    if n == 0 {
        Seq::empty()
    } else {
        let before = row_reading(row, atoms, c, (n - 1) as nat);
        if row[n - 1] == c {
            before.push(atoms[n - 1])
        } else {
            before
        }
    }
}

/// The atoms of component `c` in the first `m` layers, in layer order and
/// left to right.
spec fn reading_of<G: PropSignature>(ids: Seq<Vec<usize>>, layers: Seq<Layer<G>>, c: usize, m: nat) -> Seq<Atom<G>>
    decreases m,
{
    if m == 0 {
        Seq::empty()
    } else {
        let row = ids[m - 1]@;
        let atoms = layers[m - 1].atoms@;
        let n = if row.len() < atoms.len() { row.len() } else { atoms.len() };
        reading_of(ids, layers, c, (m - 1) as nat) + row_reading(row, atoms, c, n)
    }
}

/// The atoms of component `c`, in layer order and left to right.
fn component_reading<G: PropSignature>(sd: &StringDiagram<G>, ids: &Vec<Vec<usize>>, c: usize) -> (r: Vec<Atom<G>>)
    ensures
        r@ == reading_of(ids@, sd.layers@, c, if ids@.len() < sd.layers@.len() { ids@.len() } else { sd.layers@.len() }),
{
    let mut out: Vec<Atom<G>> = Vec::new();
    let mut j: usize = 0;
    while j < ids.len() && j < sd.layers.len()
        invariant
            j <= ids@.len(),
            j <= sd.layers@.len(),
            out@ == reading_of(ids@, sd.layers@, c, j as nat),
        decreases ids@.len() - j,
    {
        let ghost base = out@;
        let mut i: usize = 0;
        while i < ids[j].len() && i < sd.layers[j].atoms.len()
            invariant
                j < ids@.len(),
                j < sd.layers@.len(),
                i <= ids@[j as int]@.len(),
                i <= sd.layers@[j as int].atoms@.len(),
                out@ == base + row_reading(ids@[j as int]@, sd.layers@[j as int].atoms@, c, i as nat),
            decreases ids@[j as int]@.len() - i,
        {
            if ids[j][i] == c {
                out.push(sd.layers[j].atoms[i]);
            }
            proof {
                assert(out@ =~= base + row_reading(ids@[j as int]@, sd.layers@[j as int].atoms@, c, (i + 1) as nat));
            }
            i = i + 1;
        }
        proof {
            assert(out@ =~= reading_of(ids@, sd.layers@, c, (j + 1) as nat));
        }
        j = j + 1;
    }
    out
}

/// Order on atoms of a reading: identities, then braids, then generators;
/// widths numerically, generators by the signature's order.
fn reading_atom_order<G: PropSignature>(a: &Atom<G>, b: &Atom<G>) -> (r: i8)
    requires
        gens_are_structural::<G>(),
    ensures
        r == 0 <==> *a == *b,
        -1 <= r <= 1,
        (*a is Identity && !(*b is Identity)) ==> r == -1,
        (!(*a is Identity) && *b is Identity) ==> r == 1,
        (*a is Braid && *b is Generator) ==> r == -1,
        (*a is Generator && *b is Braid) ==> r == 1,
        match (*a, *b) {
            (Atom::Identity(x), Atom::Identity(y)) => r == (if x < y {
                -1i8
            } else if x > y {
                1i8
            } else {
                0i8
            }),
            (Atom::Braid(x1, x2), Atom::Braid(y1, y2)) => r == (if x1 < y1 || (x1 == y1 && x2 < y2) {
                -1i8
            } else if x1 == y1 && x2 == y2 {
                0i8
            } else {
                1i8
            }),
            _ => true,
        },
{
    match (a, b) {
        (Atom::Identity(x), Atom::Identity(y)) => if *x < *y { -1 } else if *x > *y { 1 } else { 0 },
        (Atom::Identity(_), _) => -1,
        (_, Atom::Identity(_)) => 1,
        (Atom::Braid(x1, x2), Atom::Braid(y1, y2)) => {
            if *x1 < *y1 {
                -1
            } else if *x1 > *y1 {
                1
            } else if *x2 < *y2 {
                -1
            } else if *x2 > *y2 {
                1
            } else {
                0
            }
        },
        (Atom::Braid(_, _), _) => -1,
        (_, Atom::Braid(_, _)) => 1,
        (Atom::Generator(g), Atom::Generator(h)) => {
            let same = *g == *h;
            proof {
                reveal(obeys_concrete_eq);
            }
            if same {
                0
            } else if *g < *h {
                -1
            } else {
                1
            }
        },
    }
}

/// Rank of an atom's kind in a reading: identities, braids, generators.
spec fn kind_rank<G: PropSignature>(a: Atom<G>) -> int {
    match a {
        Atom::Identity(_) => 0,
        Atom::Braid(_, _) => 1,
        Atom::Generator(_) => 2,
    }
}

/// `a` precedes `b` in the reading order, where that order does not depend
/// on the signature: by kind, then identities by width and braids by
/// `(m, n)`.
spec fn atom_precedes<G: PropSignature>(a: Atom<G>, b: Atom<G>) -> bool {
    ||| kind_rank(a) < kind_rank(b)
    ||| (a matches Atom::Identity(x) && b matches Atom::Identity(y) && x < y)
    ||| (a matches Atom::Braid(x1, x2) && b matches Atom::Braid(y1, y2) && (x1 < y1 || (x1 == y1 && x2 < y2)))
}

/// Whether reading `a` sorts strictly before reading `b` lexicographically.
fn reading_before<G: PropSignature>(a: &Vec<Atom<G>>, b: &Vec<Atom<G>>) -> (r: bool)
    requires
        gens_are_structural::<G>(),
    ensures
        forall|i: int|
            0 <= i < a@.len() && i < b@.len() && a@.take(i) == b@.take(i) && a@[i] != b@[i] && !(a@[i] is Generator
                && b@[i] is Generator) ==> r == atom_precedes(#[trigger] a@[i], b@[i]),
        a@.len() <= b@.len() && a@ == b@.take(a@.len() as int) ==> r == (a@.len() < b@.len()),
        b@.len() <= a@.len() && b@ == a@.take(b@.len() as int) ==> !r,
{
    let mut i: usize = 0;
    while i < a.len() && i < b.len()
        invariant
            gens_are_structural::<G>(),
            i <= a@.len(),
            i <= b@.len(),
            a@.take(i as int) == b@.take(i as int),
        decreases a@.len() - i,
    {
        let o = reading_atom_order(&a[i], &b[i]);
        if o != 0 {
            proof {
                assert forall|t: int| 0 <= t < a@.len() && t < b@.len() && a@.take(t) == b@.take(t) && a@[t] != b@[t]
                    implies t == i by {
                    if t < i {
                        assert(a@.take(i as int)[t] == b@.take(i as int)[t]);
                    } else if t > i {
                        assert(a@.take(t)[i as int] == b@.take(t)[i as int]);
                    }
                }
                if b@.len() <= a@.len() && b@ == a@.take(b@.len() as int) {
                    assert(a@.take(b@.len() as int)[i as int] == b@[i as int]);
                }
                if a@.len() <= b@.len() && a@ == b@.take(a@.len() as int) {
                    assert(b@.take(a@.len() as int)[i as int] == a@[i as int]);
                }
            }
        }
        if o < 0 {
            return true;
        }
        if o > 0 {
            return false;
        }
        proof {
            assert(a@.take(i + 1) =~= a@.take(i as int).push(a@[i as int]));
            assert(b@.take(i + 1) =~= b@.take(i as int).push(b@[i as int]));
        }
        i = i + 1;
    }
    proof {
        if i == a@.len() {
            assert(a@.take(i as int) =~= a@);
        }
        if i == b@.len() {
            assert(b@.take(i as int) =~= b@);
        }
        assert forall|t: int| 0 <= t < a@.len() && t < b@.len() && a@.take(t) == b@.take(t) && a@[t] != b@[t]
            implies false by {
            assert(a@.take(i as int)[t] == b@.take(i as int)[t]);
        }
    }
    a.len() < b.len()
}

/// Does component `b` sort strictly before `a`: by key, then, between two
/// closed components, by their in-situ readings.
fn block_sorts_before<G: PropSignature>(sd: &StringDiagram<G>, comps: &Components, ids: &Vec<Vec<usize>>, b: usize, a: usize) -> (r: bool)
    requires
        gens_are_structural::<G>(),
    ensures
        !(b < comps.keys@.len() && a < comps.keys@.len()) ==> !r,
        ({
            let kb = comps.keys@[b as int];
            let ka = comps.keys@[a as int];
            b < comps.keys@.len() && a < comps.keys@.len() ==> {
                &&& (kb.class < ka.class || (kb.class == ka.class && kb.coord < ka.coord)) ==> r
                &&& (kb.class > ka.class || (kb.class == ka.class && kb.coord > ka.coord)) ==> !r
            }
        }),
{
    if b >= comps.keys.len() || a >= comps.keys.len() {
        return false;
    }
    let o = key_order(comps.keys[b], comps.keys[a]);
    if o < 0 {
        true
    } else if o > 0 {
        false
    } else {
        reading_before(&component_reading(sd, ids, b), &component_reading(sd, ids, a))
    }
}

// -------------------------------------------------------------------------
// Step 7: free component blocks; Step 6½: zero-arity columns
// -------------------------------------------------------------------------

/// Atom `i` of layer `j` is a braid, and `ids` gives it to component `c`.
spec fn owns_braid<G: PropSignature>(layers: Seq<Layer<G>>, ids: Seq<Vec<usize>>, c: int, j: int, i: int) -> bool {
    &&& 0 <= j < ids.len()
    &&& j < layers.len()
    &&& 0 <= i < ids[j]@.len()
    &&& i < layers[j].atoms@.len()
    &&& layers[j].atoms@[i] is Braid
    &&& ids[j]@[i] == c
}

/// Component `c` owns a braid at a position before `(j, i)` in layer-major
/// order.
spec fn owns_braid_before<G: PropSignature>(layers: Seq<Layer<G>>, ids: Seq<Vec<usize>>, c: int, j: int, i: int) -> bool {
    exists|jj: int, ii: int| #[trigger] owns_braid(layers, ids, c, jj, ii) && (jj < j || (jj == j && ii < i))
}

/// Components owning a braid atom.
fn braid_bearing_components<G: PropSignature>(sd: &StringDiagram<G>, comps: &Components) -> (r: Vec<bool>)
    ensures
        r@.len() == comps.keys@.len(),
        forall|c: int|
            0 <= c < r@.len() ==> #[trigger] r@[c] == exists|j: int, i: int| #[trigger] owns_braid(sd.layers@, comps.ids@, c, j, i),
{
    let mut out: Vec<bool> = Vec::new();
    let mut c: usize = 0;
    while c < comps.keys.len()
        invariant
            c <= comps.keys@.len(),
            out@.len() == c,
            forall|t: int| 0 <= t < c ==> !(#[trigger] out@[t]),
        decreases comps.keys@.len() - c,
    {
        out.push(false);
        c = c + 1;
    }
    let ghost layers = sd.layers@;
    let ghost ids = comps.ids@;
    let mut j: usize = 0;
    while j < comps.ids.len() && j < sd.layers.len()
        invariant
            layers == sd.layers@,
            ids == comps.ids@,
            j <= comps.ids@.len(),
            j <= sd.layers@.len(),
            out@.len() == comps.keys@.len(),
            forall|t: int| 0 <= t < out@.len() ==> #[trigger] out@[t] == owns_braid_before(layers, ids, t, j as int, 0),
        decreases comps.ids@.len() - j,
    {
        let mut i: usize = 0;
        while i < comps.ids[j].len() && i < sd.layers[j].atoms.len()
            invariant
                layers == sd.layers@,
                ids == comps.ids@,
                j < comps.ids@.len(),
                j < sd.layers@.len(),
                i <= comps.ids@[j as int]@.len(),
                out@.len() == comps.keys@.len(),
                forall|t: int| 0 <= t < out@.len() ==> #[trigger] out@[t] == owns_braid_before(layers, ids, t, j as int, i as int),
            decreases comps.ids@[j as int]@.len() - i,
        {
            let ghost prev = out@;
            let is_braid = match sd.layers[j].atoms[i] {
                Atom::Braid(_, _) => true,
                _ => false,
            };
            if is_braid {
                let c = comps.ids[j][i];
                if c < out.len() {
                    out.set(c, true);
                }
            }
            proof {
                assert forall|t: int| 0 <= t < out@.len() implies #[trigger] out@[t] == owns_braid_before(layers, ids, t, j as int, i + 1) by {
                    if owns_braid(layers, ids, t, j as int, i as int) {
                        assert(out@[t]);
                    } else {
                        assert(out@[t] == prev[t]);
                        if owns_braid_before(layers, ids, t, j as int, i + 1) {
                            let (jj, ii) = choose|jj: int, ii: int| #[trigger] owns_braid(layers, ids, t, jj, ii) && (jj < j || (jj == j && ii < i + 1));
                            assert(owns_braid(layers, ids, t, jj, ii) && (jj < j || (jj == j && ii < i)));
                        }
                        if owns_braid_before(layers, ids, t, j as int, i as int) {
                            let (jj, ii) = choose|jj: int, ii: int| #[trigger] owns_braid(layers, ids, t, jj, ii) && (jj < j || (jj == j && ii < i));
                            assert(owns_braid(layers, ids, t, jj, ii) && (jj < j || (jj == j && ii < i + 1)));
                        }
                    }
                }
            }
            i = i + 1;
        }
        proof {
            assert forall|t: int| 0 <= t < out@.len() implies #[trigger] out@[t] == owns_braid_before(layers, ids, t, j + 1, 0) by {
                if owns_braid_before(layers, ids, t, j + 1, 0) {
                    let (jj, ii) = choose|jj: int, ii: int| #[trigger] owns_braid(layers, ids, t, jj, ii) && (jj < j + 1 || (jj == j + 1 && ii < 0));
                    assert(owns_braid(layers, ids, t, jj, ii) && (jj < j || (jj == j && ii < i)));
                }
                if owns_braid_before(layers, ids, t, j as int, i as int) {
                    let (jj, ii) = choose|jj: int, ii: int| #[trigger] owns_braid(layers, ids, t, jj, ii) && (jj < j || (jj == j && ii < i));
                    assert(owns_braid(layers, ids, t, jj, ii) && (jj < j + 1 || (jj == j + 1 && ii < 0)));
                }
            }
        }
        j = j + 1;
    }
    proof {
        assert forall|t: int| 0 <= t < out@.len() implies #[trigger] out@[t] == exists|jj: int, ii: int| #[trigger] owns_braid(sd.layers@, comps.ids@, t, jj, ii) by {
            if exists|jj: int, ii: int| #[trigger] owns_braid(sd.layers@, comps.ids@, t, jj, ii) {
                let (jj, ii) = choose|jj: int, ii: int| #[trigger] owns_braid(sd.layers@, comps.ids@, t, jj, ii);
                assert(owns_braid(layers, ids, t, jj, ii) && (jj < j || (jj == j && ii < 0)));
            }
        }
    }
    out
}

/// `[first, last + 1)` when the entries equal to `c` in `row` form one
/// contiguous run.
/// The occurrences of `c` in `row` are exactly the positions `f..e`, and
/// there is at least one.
spec fn is_run(row: Seq<usize>, c: usize, f: int, e: int) -> bool {
    &&& 0 <= f < e <= row.len()
    &&& forall|k: int| 0 <= k < row.len() ==> (row[k] == c <==> f <= k < e)
}

fn contiguous_run(row: &Vec<usize>, c: usize) -> (r: Option<(usize, usize)>)
    ensures
        r matches Some((f, e)) ==> is_run(row@, c, f as int, e as int),
        r is None ==> !(exists|f: int, e: int| #[trigger] is_run(row@, c, f, e)),
{
    let mut first: Option<usize> = None;
    let mut last: usize = 0;
    let mut i: usize = 0;
    while i < row.len()
        invariant
            i <= row@.len(),
            last < row@.len() || first is None,
            first matches Some(f) ==> f <= last && last < i && row@[f as int] == c && row@[last as int] == c
                && (forall|k: int| 0 <= k < f ==> row@[k] != c) && (forall|k: int| last < k < i ==> row@[k] != c),
            first is None ==> forall|k: int| 0 <= k < i ==> row@[k] != c,
        decreases row@.len() - i,
    {
        if row[i] == c {
            if first.is_none() {
                first = Some(i);
            }
            last = i;
        }
        i = i + 1;
    }
    let f = match first {
        Some(f) => f,
        None => {
            proof {
                assert forall|a: int, b: int| !#[trigger] is_run(row@, c, a, b) by {
                    if is_run(row@, c, a, b) {
                        assert(row@[a] == c);
                    }
                }
            }
            return None;
        },
    };
    let n = row.len();
    let mut k: usize = f;
    while k <= last
        invariant
            f <= k <= last + 1,
            last < row@.len(),
            row@[f as int] == c,
            row@[last as int] == c,
            forall|j: int| 0 <= j < f ==> row@[j] != c,
            forall|j: int| last < j < row@.len() ==> row@[j] != c,
            n == row@.len(),
            forall|j: int| f <= j < k ==> row@[j] == c,
        decreases last + 1 - k,
    {
        if row[k] != c {
            proof {
                assert forall|a: int, b: int| !#[trigger] is_run(row@, c, a, b) by {
                    if is_run(row@, c, a, b) {
                        assert(row@[f as int] == c);
                        assert(row@[last as int] == c);
                        assert(row@[k as int] != c);
                    }
                }
            }
            return None;
        }
        k = k + 1;
    }
    Some((f, last + 1))
}

/// `row` mentions component `c`.
fn layer_holds(row: &Vec<usize>, c: usize) -> (r: bool)
    ensures
        r == row@.contains(c),
{
    let mut i: usize = 0;
    while i < row.len()
        invariant
            i <= row@.len(),
            forall|k: int| 0 <= k < i ==> row@[k] != c,
        decreases row@.len() - i,
    {
        if row[i] == c {
            proof {
                assert(row@[i as int] == c);
            }
            return true;
        }
        i = i + 1;
    }
    false
}

/// Neither component is braid-bound by the boundaries: distinct, at least
/// one multi-atom, neither interleaved, not both on the input boundary and
/// not both on the output boundary.
fn block_pair_is_free(comps: &Components, c1: usize, c2: usize) -> (r: bool)
    ensures
        r == (c1 < comps.sizes@.len() && c2 < comps.sizes@.len() && c1 < comps.interleaved@.len() && c2
            < comps.interleaved@.len() && c1 < comps.touches_input@.len() && c2 < comps.touches_input@.len()
            && c1 < comps.touches_output@.len() && c2 < comps.touches_output@.len() && c1 != c2 && (
        comps.sizes@[c1 as int] > 1 || comps.sizes@[c2 as int] > 1) && !comps.interleaved@[c1 as int]
            && !comps.interleaved@[c2 as int] && !(comps.touches_input@[c1 as int]
            && comps.touches_input@[c2 as int]) && !(comps.touches_output@[c1 as int]
            && comps.touches_output@[c2 as int])),
{
    if c1 >= comps.sizes.len() || c2 >= comps.sizes.len() || c1 >= comps.interleaved.len() || c2
        >= comps.interleaved.len() || c1 >= comps.touches_input.len() || c2 >= comps.touches_input.len()
        || c1 >= comps.touches_output.len() || c2 >= comps.touches_output.len() {
        return false;
    }
    c1 != c2 && (comps.sizes[c1] > 1 || comps.sizes[c2] > 1) && !comps.interleaved[c1]
        && !comps.interleaved[c2] && !(comps.touches_input[c1] && comps.touches_input[c2])
        && !(comps.touches_output[c1] && comps.touches_output[c2])
}

/// In every layer holding both, `c1`'s run ends exactly where `c2`'s begins.
/// Where a row holds both components, each occupies one contiguous run and
/// `c1`'s run ends where `c2`'s begins.
spec fn adjacent_in(row: Seq<usize>, c1: usize, c2: usize) -> bool {
    (row.contains(c1) && row.contains(c2)) ==> exists|a: int, m: int, e: int|
        #[trigger] is_run(row, c1, a, m) && #[trigger] is_run(row, c2, m, e)
}

/// A run, when there is one, is unique.
proof fn lemma_run_unique(row: Seq<usize>, c: usize, f: int, e: int, f2: int, e2: int)
    requires
        is_run(row, c, f, e),
        is_run(row, c, f2, e2),
    ensures
        f == f2 && e == e2,
{
    if f < f2 {
        assert(row[f] == c);
    } else if f2 < f {
        assert(row[f2] == c);
    }
    if e < e2 {
        assert(row[e] == c);
    } else if e2 < e {
        assert(row[e2] == c);
    }
}

fn blocks_are_adjacent(ids: &Vec<Vec<usize>>, c1: usize, c2: usize) -> (r: bool)
    ensures
        r == forall|j: int| 0 <= j < ids@.len() ==> adjacent_in(#[trigger] ids@[j]@, c1, c2),
{
    let mut j: usize = 0;
    while j < ids.len()
        invariant
            j <= ids@.len(),
            forall|k: int| 0 <= k < j ==> adjacent_in(#[trigger] ids@[k]@, c1, c2),
        decreases ids@.len() - j,
    {
        let row = &ids[j];
        if layer_holds(row, c1) && layer_holds(row, c2) {
            match (contiguous_run(row, c1), contiguous_run(row, c2)) {
                (Some((a1, b1)), Some((a2, e2))) => {
                    if b1 != a2 {
                        proof {
                            assert(!adjacent_in(ids@[j as int]@, c1, c2)) by {
                                if adjacent_in(row@, c1, c2) {
                                    let (a, m, e) = choose|a: int, m: int, e: int|
                                        #[trigger] is_run(row@, c1, a, m) && #[trigger] is_run(row@, c2, m, e);
                                    lemma_run_unique(row@, c1, a1 as int, b1 as int, a, m);
                                    lemma_run_unique(row@, c2, a2 as int, e2 as int, m, e);
                                }
                            }
                        }
                        return false;
                    }
                    proof {
                        assert(is_run(row@, c1, a1 as int, b1 as int) && is_run(row@, c2, b1 as int, e2 as int));
                    }
                },
                (r1, r2) => {
                    proof {
                        assert(!adjacent_in(ids@[j as int]@, c1, c2)) by {
                            if adjacent_in(row@, c1, c2) {
                                let (a, m, e) = choose|a: int, m: int, e: int|
                                    #[trigger] is_run(row@, c1, a, m) && #[trigger] is_run(row@, c2, m, e);
                                if r1 is None {
                                    assert(!is_run(row@, c1, a, m));
                                } else {
                                    assert(!is_run(row@, c2, m, e));
                                }
                            }
                        }
                    }
                    return false;
                },
            }
        }
        j = j + 1;
    }
    true
}

/// The first adjacent pair `(c1, c2)` of free, braid-free, adjacent blocks
/// with `c2` sorting before `c1`.
fn find_block_transposition<G: PropSignature>(sd: &StringDiagram<G>, comps: &Components, ids: &Vec<Vec<usize>>, has_braid: &Vec<bool>) -> Option<(usize, usize)>
    requires
        gens_are_structural::<G>(),
{
    let mut j: usize = 0;
    while j < ids.len()
        invariant
            j <= ids@.len(),
            gens_are_structural::<G>(),
        decreases ids@.len() - j,
    {
        let mut p: usize = 0;
        while p < ids[j].len() && p + 1 < ids[j].len()
            invariant
                j < ids@.len(),
                gens_are_structural::<G>(),
            decreases ids@[j as int]@.len() - p,
        {
            let c1 = ids[j][p];
            let c2 = ids[j][p + 1];
            let ok = c1 != c2 && c1 < comps.keys.len() && c2 < comps.keys.len() && c1 < has_braid.len() && c2
                < has_braid.len() && key_order(comps.keys[c2], comps.keys[c1]) <= 0 && !has_braid[c1]
                && !has_braid[c2] && block_pair_is_free(comps, c1, c2) && blocks_are_adjacent(ids, c1, c2)
                && block_sorts_before(sd, comps, ids, c2, c1);
            if ok {
                return Some((c1, c2));
            }
            p = p + 1;
        }
        j = j + 1;
    }
    None
}

/// `v[lo..hi]` rotated left by `by`, the rest unchanged.
fn rotate_range<T: Copy>(v: &mut Vec<T>, lo: usize, hi: usize, by: usize)
    ensures
        final(v)@.len() == old(v)@.len(),
        (lo > hi || hi > old(v)@.len() || by > hi - lo) ==> final(v)@ == old(v)@,
        !(lo > hi || hi > old(v)@.len() || by > hi - lo) ==> final(v)@ == old(v)@.subrange(0, lo as int)
            + old(v)@.subrange(lo + by, hi as int) + old(v)@.subrange(lo as int, lo + by) + old(v)@.subrange(
            hi as int,
            old(v)@.len() as int,
        ),
{
    if lo > hi || hi > v.len() || by > hi - lo {
        return;
    }
    let ghost orig = v@;
    let mut seg: Vec<T> = Vec::new();
    let mut k: usize = lo + by;
    while k < hi
        invariant
            lo + by <= k <= hi,
            hi <= v@.len(),
            v@ == orig,
            seg@ == orig.subrange(lo + by, k as int),
        decreases hi - k,
    {
        seg.push(v[k]);
        k = k + 1;
        proof {
            assert(seg@ =~= orig.subrange(lo + by, k as int));
        }
    }
    let mut k: usize = lo;
    while k < lo + by
        invariant
            lo <= k <= lo + by,
            lo + by <= hi,
            hi <= v@.len(),
            v@ == orig,
            seg@ == orig.subrange(lo + by, hi as int) + orig.subrange(lo as int, k as int),
        decreases lo + by - k,
    {
        seg.push(v[k]);
        k = k + 1;
        proof {
            assert(seg@ =~= orig.subrange(lo + by, hi as int) + orig.subrange(lo as int, k as int));
        }
    }
    let ghost want = orig.subrange(0, lo as int) + seg@ + orig.subrange(hi as int, orig.len() as int);
    let mut k: usize = 0;
    while k < seg.len() && k < hi - lo
        invariant
            v@.len() == orig.len(),
            lo <= hi,
            hi <= v@.len(),
            seg@.len() == hi - lo,
            k <= seg@.len(),
            want == orig.subrange(0, lo as int) + seg@ + orig.subrange(hi as int, orig.len() as int),
            forall|j: int| 0 <= j < v@.len() ==> #[trigger] v@[j] == if lo <= j < lo + k { want[j] } else { orig[j] },
        decreases seg@.len() - k,
    {
        v.set(lo + k, seg[k]);
        k = k + 1;
    }
    proof {
        assert(v@ =~= want);
    }
}

/// The band rotation that swaps the runs of `c1` and `c2` in `row`: from
/// the start of `c1`'s run to the end of `c2`'s, by the length of `c1`'s run;
/// none unless both are single runs with `c1`'s ending no later.
spec fn block_rotation(row: Seq<usize>, c1: usize, c2: usize) -> Option<(int, int, int)> {
    if (exists|f: int, e: int| is_run(row, c1, f, e)) && (exists|f: int, e: int| is_run(row, c2, f, e)) {
        let (f1, e1) = choose|f: int, e: int| is_run(row, c1, f, e);
        let (f2, e2) = choose|f: int, e: int| is_run(row, c2, f, e);
        if e1 <= e2 {
            Some((f1, e2, e1 - f1))
        } else {
            None
        }
    } else {
        None
    }
}

/// `s` rotated by `rot`, or `s` itself when there is none.
spec fn rotated_by<T>(s: Seq<T>, rot: Option<(int, int, int)>) -> Seq<T> {
    match rot {
        Some((lo, hi, by)) => rotated(s, lo, hi, by),
        None => s,
    }
}

/// Layer `j` and its row are the old ones with the runs of `c1` and `c2`
/// swapped (or unchanged when there is no such swap).
spec fn blocks_swapped_at<G: PropSignature>(
    layers: Seq<Layer<G>>,
    rows: Seq<Vec<usize>>,
    old_layers: Seq<Layer<G>>,
    old_rows: Seq<Vec<usize>>,
    c1: usize,
    c2: usize,
    j: int,
) -> bool {
    let rot = block_rotation(old_rows[j]@, c1, c2);
    &&& layers[j].atoms@ == rotated_by(old_layers[j].atoms@, rot)
    &&& rows[j]@ == rotated_by(old_rows[j]@, rot)
}

/// Swap the runs of `c1` and `c2` in every layer holding both.
fn apply_block_transposition<G: PropSignature>(sd: &mut StringDiagram<G>, ids: &mut Vec<Vec<usize>>, c1: usize, c2: usize)
    ensures
        final(sd).layers@.len() == old(sd).layers@.len(),
        final(ids)@.len() == old(ids)@.len(),
        forall|j: int|
            0 <= j < old(sd).layers@.len() && j < old(ids)@.len() ==> #[trigger] blocks_swapped_at(
                final(sd).layers@,
                final(ids)@,
                old(sd).layers@,
                old(ids)@,
                c1,
                c2,
                j,
            ),
        forall|j: int|
            0 <= j < old(sd).layers@.len() && j >= old(ids)@.len() ==> #[trigger] final(sd).layers@[j] == old(
                sd,
            ).layers@[j],
        forall|j: int|
            0 <= j < old(ids)@.len() && j >= old(sd).layers@.len() ==> #[trigger] final(ids)@[j] == old(ids)@[j],
{
    let mut j: usize = 0;
    while j < ids.len() && j < sd.layers.len()
        invariant
            sd.layers@.len() == old(sd).layers@.len(),
            ids@.len() == old(ids)@.len(),
            j <= ids@.len(),
            j <= sd.layers@.len(),
            forall|jj: int|
                0 <= jj < j ==> #[trigger] blocks_swapped_at(sd.layers@, ids@, old(sd).layers@, old(ids)@, c1, c2, jj),
            forall|jj: int| j <= jj < sd.layers@.len() ==> #[trigger] sd.layers@[jj] == old(sd).layers@[jj],
            forall|jj: int| j <= jj < ids@.len() ==> #[trigger] ids@[jj] == old(ids)@[jj],
        decreases ids@.len() - j,
    {
        let ghost pre_layers = sd.layers@;
        let ghost pre_ids = ids@;
        let ghost old_row = old(ids)@[j as int]@;
        let ghost rot = block_rotation(old_row, c1, c2);
        proof {
            assert(pre_ids[j as int] == old(ids)@[j as int]);
            assert(pre_layers[j as int] == old(sd).layers@[j as int]);
        }
        let mut row = copy_usize_vec(&ids[j]);
        let mut changed = false;
        if layer_holds(&row, c1) && layer_holds(&row, c2) {
            match (contiguous_run(&row, c1), contiguous_run(&row, c2)) {
                (Some((a1, b1)), Some((_a2, b2))) => {
                    proof {
                        let (f1, e1) = choose|f: int, e: int| is_run(old_row, c1, f, e);
                        let (f2, e2) = choose|f: int, e: int| is_run(old_row, c2, f, e);
                        lemma_run_unique(old_row, c1, a1 as int, b1 as int, f1, e1);
                        lemma_run_unique(old_row, c2, _a2 as int, b2 as int, f2, e2);
                        assert(rot == if b1 <= b2 { Some((a1 as int, b2 as int, b1 - a1)) } else { None });
                    }
                    if a1 <= b1 && b1 <= b2 {
                        let mut atoms = copy_atoms(&sd.layers[j].atoms);
                        rotate_range(&mut atoms, a1, b2, b1 - a1);
                        rotate_range(&mut row, a1, b2, b1 - a1);
                        sd.layers.set(j, Layer { atoms });
                        ids.set(j, row);
                        changed = true;
                    }
                },
                (None, _) => {
                    proof {
                        assert(!(exists|f: int, e: int| is_run(old_row, c1, f, e)));
                    }
                },
                (_, None) => {
                    proof {
                        assert(!(exists|f: int, e: int| is_run(old_row, c2, f, e)));
                    }
                },
            }
        } else {
            proof {
                if exists|f: int, e: int| is_run(old_row, c1, f, e) {
                    let (f, e) = choose|f: int, e: int| is_run(old_row, c1, f, e);
                    assert(old_row[f] == c1);
                }
                if exists|f: int, e: int| is_run(old_row, c2, f, e) {
                    let (f, e) = choose|f: int, e: int| is_run(old_row, c2, f, e);
                    assert(old_row[f] == c2);
                }
            }
        }
        proof {
            if !changed {
                assert(rot is None);
                assert(sd.layers@ == pre_layers);
                assert(ids@ == pre_ids);
            }
            assert(sd.layers@[j as int].atoms@ == rotated_by(old(sd).layers@[j as int].atoms@, rot));
            assert(ids@[j as int]@ == rotated_by(old(ids)@[j as int]@, rot));
            assert forall|jj: int| 0 <= jj < j + 1 implies #[trigger] blocks_swapped_at(
                sd.layers@,
                ids@,
                old(sd).layers@,
                old(ids)@,
                c1,
                c2,
                jj,
            ) by {
                if jj < j {
                    assert(sd.layers@[jj] == pre_layers[jj]);
                    assert(ids@[jj] == pre_ids[jj]);
                    assert(blocks_swapped_at(pre_layers, pre_ids, old(sd).layers@, old(ids)@, c1, c2, jj));
                }
            }
            assert forall|jj: int| j + 1 <= jj < sd.layers@.len() implies #[trigger] sd.layers@[jj] == old(sd).layers@[jj] by {
                assert(sd.layers@[jj] == pre_layers[jj]);
            }
            assert forall|jj: int| j + 1 <= jj < ids@.len() implies #[trigger] ids@[jj] == old(ids)@[jj] by {
                assert(ids@[jj] == pre_ids[jj]);
            }
        }
        j = j + 1;
    }
}

/// A copy of an index vector.
fn copy_usize_vec(v: &Vec<usize>) -> (r: Vec<usize>)
    ensures
        r@ == v@,
{
    let mut r: Vec<usize> = Vec::new();
    let mut i: usize = 0;
    while i < v.len()
        invariant
            i <= v@.len(),
            r@ == v@.take(i as int),
        decreases v@.len() - i,
    {
        r.push(v[i]);
        i = i + 1;
        proof {
            assert(r@ =~= v@.take(i as int));
        }
    }
    proof {
        assert(v@.take(v@.len() as int) =~= v@);
    }
    r
}

/// **Step 7**: transpose free component blocks into component order until
/// none is out of order.
fn reorder_component_blocks<G: PropSignature>(refined: &mut StringDiagram<G>, ids: &mut Vec<Vec<usize>>, comps: &Components, has_braid: &Vec<bool>) -> bool
    requires
        gens_are_structural::<G>(),
{
    let mut swapped = false;
    let mut fuel: usize = NF_FUEL;
    while fuel > 0
        invariant
            gens_are_structural::<G>(),
        decreases fuel,
    {
        fuel = fuel - 1;
        match find_block_transposition(refined, comps, ids, has_braid) {
            Some((c1, c2)) => {
                apply_block_transposition(refined, ids, c1, c2);
                swapped = true;
            },
            None => {
                break;
            },
        }
    }
    swapped
}

/// Where `c`'s run ending at `p` starts: `(start, p + 1)`.
fn run_ending_at(row: &Vec<usize>, p: usize, c: usize) -> (r: (usize, usize))
    ensures
        r.1 == p.wrapping_add(1),
        r.0 <= p,
        forall|k: int| r.0 <= k && k < p ==> row@[k] == c,
        p <= row@.len() || r.0 == p,
        !(r.0 > 0 && r.0 - 1 < row@.len() && row@[r.0 - 1] == c),
{
    let mut start = p;
    let n = row.len();
    while start > 0 && start - 1 < n && row[start - 1] == c
        invariant
            n == row@.len(),
            start <= p,
            start < p ==> p <= n,
            forall|k: int| start <= k && k < p ==> row@[k] == c,
        decreases start,
    {
        start = start - 1;
    }
    (start, p.wrapping_add(1))
}

/// The cut `(left, mid, right)` where `c1`'s run `[left, mid)` is directly
/// followed by `c2`'s contiguous run `[mid, right)`.
fn adjacent_column_cuts(row: &Vec<usize>, c1: usize, c2: usize) -> (r: Option<(usize, usize, usize)>)
    ensures
        r matches Some((left, mid, right)) ==> {
            &&& is_run(row@, c2, mid as int, right as int)
            &&& left < mid
            &&& forall|k: int| left <= k < mid ==> row@[k] == c1
            &&& !(left > 0 && row@[left - 1] == c1)
        },
        r is None ==> !(exists|m: int, e: int| #[trigger] is_run(row@, c2, m, e) && m > 0 && row@[m - 1] == c1),
{
    let (mid, right) = match contiguous_run(row, c2) {
        Some(run) => run,
        None => {
            return None;
        },
    };
    if mid == 0 || mid - 1 >= row.len() || row[mid - 1] != c1 {
        proof {
            assert forall|m: int, e: int| #[trigger] is_run(row@, c2, m, e) implies !(m > 0 && row@[m - 1] == c1) by {
                lemma_run_unique(row@, c2, mid as int, right as int, m, e);
            }
        }
        return None;
    }
    let (left, _) = run_ending_at(row, mid - 1, c1);
    Some((left, mid, right))
}

/// Per layer, the cumulative source and target widths before each atom.
struct LayerPrefixes {
    src: Vec<usize>,
    tgt: Vec<usize>,
}

/// `p` holds the cumulative source and target widths before each atom of
/// `atoms`, and after the last.
spec fn prefixes_of<G: PropSignature>(p: LayerPrefixes, atoms: Seq<Atom<G>>) -> bool {
    &&& p.src@.len() == atoms.len() + 1
    &&& p.tgt@.len() == atoms.len() + 1
    &&& forall|k: int|
        0 <= k <= atoms.len() ==> #[trigger] p.src@[k] == spec_width(atoms.take(k), false) && p.tgt@[k]
            == spec_width(atoms.take(k), true)
}

fn layer_prefixes<G: PropSignature>(sd: &StringDiagram<G>) -> (r: Vec<LayerPrefixes>)
    ensures
        r@.len() == sd.layers@.len(),
        forall|j: int| 0 <= j < sd.layers@.len() ==> prefixes_of(#[trigger] r@[j], sd.layers@[j].atoms@),
{
    let mut out: Vec<LayerPrefixes> = Vec::new();
    let mut j: usize = 0;
    while j < sd.layers.len()
        invariant
            j <= sd.layers@.len(),
            out@.len() == j,
            forall|i: int| 0 <= i < j ==> prefixes_of(#[trigger] out@[i], sd.layers@[i].atoms@),
        decreases sd.layers@.len() - j,
    {
        let src = wire_boundaries(&sd.layers[j].atoms, false);
        let tgt = wire_boundaries(&sd.layers[j].atoms, true);
        let p = LayerPrefixes { src, tgt };
        proof {
            assert(prefixes_of(p, sd.layers@[j as int].atoms@));
        }
        out.push(p);
        j = j + 1;
    }
    out
}

/// Entry `i` of `v`, `0` when out of range.
fn entry(v: &Vec<usize>, i: usize) -> (r: usize)
    ensures
        r == if i < v@.len() { v@[i as int] } else { 0 },
{
    if i < v.len() {
        v[i]
    } else {
        0
    }
}

/// The two columns over layers `j0..j0 + cuts.len()` can be transposed:
/// at the top one side has zero source width and at the bottom one side has
/// zero target width, and every internal boundary's cut coordinates agree.
/// Entry `i` of `v`, `0` when out of range.
spec fn entry_or_zero(v: Seq<usize>, i: usize) -> usize {
    if i < v.len() {
        v[i as int]
    } else {
        0
    }
}

/// One side of the cut `(left, mid, right)` on boundary `v` has zero width.
spec fn one_side_empty(v: Seq<usize>, cut: (usize, usize, usize)) -> bool {
    let (left, mid, right) = cut;
    entry_or_zero(v, mid).wrapping_sub(entry_or_zero(v, left)) == 0 || entry_or_zero(v, right).wrapping_sub(
        entry_or_zero(v, mid),
    ) == 0
}

/// The cut `up` on the target boundary of one layer meets the cut `down` on
/// the source boundary of the next at the same three coordinates.
spec fn cuts_meet(up: LayerPrefixes, down: LayerPrefixes, cu: (usize, usize, usize), cd: (usize, usize, usize)) -> bool {
    &&& entry_or_zero(up.tgt@, cu.0) == entry_or_zero(down.src@, cd.0)
    &&& entry_or_zero(up.tgt@, cu.1) == entry_or_zero(down.src@, cd.1)
    &&& entry_or_zero(up.tgt@, cu.2) == entry_or_zero(down.src@, cd.2)
}

fn column_pair_is_transposable(prefixes: &Vec<LayerPrefixes>, j0: usize, cuts: &Vec<(usize, usize, usize)>) -> (r: bool)
    ensures
        r == (cuts@.len() > 0 && j0 < prefixes@.len() && cuts@.len() - 1 < prefixes@.len() - j0 && one_side_empty(
            prefixes@[j0 as int].src@,
            cuts@[0],
        ) && one_side_empty(prefixes@[j0 + cuts@.len() - 1].tgt@, cuts@[cuts@.len() - 1]) && forall|t: int|
            1 <= t < cuts@.len() ==> cuts_meet(
                prefixes@[j0 + t - 1],
                prefixes@[j0 + t],
                #[trigger] cuts@[t - 1],
                cuts@[t],
            )),
{
    let n = cuts.len();
    if n == 0 || j0 >= prefixes.len() || n - 1 >= prefixes.len() - j0 {
        return false;
    }
    let (top_left, top_mid, top_right) = cuts[0];
    let top = &prefixes[j0];
    let src_x = entry(&top.src, top_mid).wrapping_sub(entry(&top.src, top_left));
    let src_b = entry(&top.src, top_right).wrapping_sub(entry(&top.src, top_mid));
    let (bot_left, bot_mid, bot_right) = cuts[n - 1];
    let bottom = &prefixes[j0 + (n - 1)];
    let tgt_x = entry(&bottom.tgt, bot_mid).wrapping_sub(entry(&bottom.tgt, bot_left));
    let tgt_b = entry(&bottom.tgt, bot_right).wrapping_sub(entry(&bottom.tgt, bot_mid));
    if !((src_x == 0 || src_b == 0) && (tgt_x == 0 || tgt_b == 0)) {
        return false;
    }
    let pl = prefixes.len();
    let mut t: usize = 1;
    while t < n
        invariant
            1 <= t,
            t <= n,
            n == cuts@.len(),
            pl == prefixes@.len(),
            j0 < prefixes@.len(),
            n - 1 < prefixes@.len() - j0,
            forall|u: int| 1 <= u < t ==> cuts_meet(prefixes@[j0 + u - 1], prefixes@[j0 + u], #[trigger] cuts@[u - 1], cuts@[u]),
        decreases n - t,
    {
        let up = &prefixes[j0 + t - 1];
        let down = &prefixes[j0 + t];
        let (au, mu, bu) = cuts[t - 1];
        let (ad, md, bd) = cuts[t];
        if !(entry(&up.tgt, au) == entry(&down.src, ad) && entry(&up.tgt, mu) == entry(&down.src, md)
            && entry(&up.tgt, bu) == entry(&down.src, bd)) {
            return false;
        }
        t = t + 1;
    }
    true
}

/// Distinct, at least one multi-atom, neither interleaved nor braid-bearing.
fn column_pair_is_admissible(comps: &Components, has_braid: &Vec<bool>, c1: usize, c2: usize) -> (r: bool)
    ensures
        r == (c1 < comps.sizes@.len() && c2 < comps.sizes@.len() && c1 < comps.interleaved@.len() && c2
            < comps.interleaved@.len() && c1 < has_braid@.len() && c2 < has_braid@.len() && c1 != c2 && (
        comps.sizes@[c1 as int] > 1 || comps.sizes@[c2 as int] > 1) && !comps.interleaved@[c1 as int]
            && !comps.interleaved@[c2 as int] && !has_braid@[c1 as int] && !has_braid@[c2 as int]),
{
    if c1 >= comps.sizes.len() || c2 >= comps.sizes.len() || c1 >= comps.interleaved.len() || c2
        >= comps.interleaved.len() || c1 >= has_braid.len() || c2 >= has_braid.len() {
        return false;
    }
    c1 != c2 && (comps.sizes[c1] > 1 || comps.sizes[c2] > 1) && !comps.interleaved[c1]
        && !comps.interleaved[c2] && !has_braid[c1] && !has_braid[c2]
}

/// A column transposition: the cuts of layers `j0..j0 + cuts.len()`.
struct ColumnSwap {
    j0: usize,
    cuts: Vec<(usize, usize, usize)>,
}

/// The first adjacent column pair out of component order whose columns,
/// over the longest admissible band of layers containing it, can be
/// transposed.
fn find_column_transposition<G: PropSignature>(sd: &StringDiagram<G>, comps: &Components, ids: &Vec<Vec<usize>>, has_braid: &Vec<bool>) -> Option<ColumnSwap> {
    let prefixes = layer_prefixes(sd);
    let mut j: usize = 0;
    while j < ids.len()
        invariant
            j <= ids@.len(),
        decreases ids@.len() - j,
    {
        let row = &ids[j];
        let mut p: usize = 0;
        while p < row.len() && p + 1 < row.len()
            invariant
                j < ids@.len(),
                *row == ids@[j as int],
            decreases row@.len() - p,
        {
            let c1 = row[p];
            let c2 = row[p + 1];
            let ordered = c1 < comps.keys.len() && c2 < comps.keys.len() && key_order(comps.keys[c2], comps.keys[c1]) < 0;
            if column_pair_is_admissible(comps, has_braid, c1, c2) && ordered {
                match adjacent_column_cuts(row, c1, c2) {
                    Some(seed) => {
                        let mut all: Vec<(usize, usize, usize)> = Vec::new();
                        all.push(seed);
                        let mut lo: usize = j;
                        while lo > 0
                            invariant
                                lo <= j,
                                j < ids@.len(),
                            decreases lo,
                        {
                            match adjacent_column_cuts(&ids[lo - 1], c1, c2) {
                                Some(cuts) => {
                                    all.insert(0, cuts);
                                    lo = lo - 1;
                                },
                                None => {
                                    break;
                                },
                            }
                        }
                        while lo < ids.len() && all.len() < ids.len() - lo
                            invariant
                                lo < ids@.len() || all@.len() >= 0,
                            decreases ids@.len() - all@.len(),
                        {
                            match adjacent_column_cuts(&ids[lo + all.len()], c1, c2) {
                                Some(cuts) => {
                                    all.push(cuts);
                                },
                                None => {
                                    break;
                                },
                            }
                        }
                        let total = all.len();
                        let mut len: usize = total;
                        while len >= 1
                            invariant
                                len <= total,
                                total == all@.len(),
                            decreases len,
                        {
                            let hi = lo.wrapping_add(total - len);
                            let mut j0: usize = lo;
                            while j0 <= hi
                                invariant
                                    len <= total,
                                    total == all@.len(),
                                decreases hi + 1 - j0,
                            {
                                if j0 <= j && j < j0.wrapping_add(len) && j0 >= lo && j0 - lo <= total - len {
                                    let start = j0 - lo;
                                    let mut cuts: Vec<(usize, usize, usize)> = Vec::new();
                                    let mut q: usize = start;
                                    while q < start + len
                                        invariant
                                            start + len <= total,
                                            total == all@.len(),
                                        decreases start + len - q,
                                    {
                                        cuts.push(all[q]);
                                        q = q + 1;
                                    }
                                    if column_pair_is_transposable(&prefixes, j0, &cuts) {
                                        return Some(ColumnSwap { j0, cuts });
                                    }
                                }
                                if j0 == usize::MAX {
                                    break;
                                }
                                j0 = j0 + 1;
                            }
                            len = len - 1;
                        }
                    },
                    None => {},
                }
            }
            p = p + 1;
        }
        j = j + 1;
    }
    None
}

/// `s[lo..hi]` rotated left by `by`, the rest unchanged; `s` itself when
/// the band is not within `s` or `by` exceeds it.
spec fn rotated<T>(s: Seq<T>, lo: int, hi: int, by: int) -> Seq<T> {
    if lo > hi || hi > s.len() || by > hi - lo {
        s
    } else {
        s.subrange(0, lo) + s.subrange(lo + by, hi) + s.subrange(lo, lo + by) + s.subrange(hi, s.len() as int)
    }
}

/// The layer and row of cut `t` of `swap` are the old ones with the cut's
/// band rotated so its second column comes first.
spec fn band_rotated<G: PropSignature>(
    layers: Seq<Layer<G>>,
    old_layers: Seq<Layer<G>>,
    rows: Seq<Vec<usize>>,
    old_rows: Seq<Vec<usize>>,
    swap: ColumnSwap,
    t: int,
) -> bool {
    let j = swap.j0.wrapping_add(t as usize) as int;
    let (left, mid, right) = swap.cuts@[t];
    &&& layers[j].atoms@ == rotated(old_layers[j].atoms@, left as int, right as int, mid - left)
    &&& rows[j]@ == rotated(old_rows[j]@, left as int, right as int, mid - left)
}

/// Cut `t` of `swap` applies to its layer: the layer exists in a diagram of
/// `n_layers` layers and `n_rows` rows, and the cut is ordered.
spec fn cut_applies(swap: ColumnSwap, t: int, n_layers: nat, n_rows: nat) -> bool {
    let j = swap.j0.wrapping_add(t as usize);
    &&& j < n_layers
    &&& j < n_rows
    &&& swap.cuts@[t].0 <= swap.cuts@[t].1
}

/// Rotate each cut band so the second column precedes the first.
fn apply_column_transposition<G: PropSignature>(sd: &mut StringDiagram<G>, ids: &mut Vec<Vec<usize>>, swap: &ColumnSwap)
    ensures
        final(sd).layers@.len() == old(sd).layers@.len(),
        final(ids)@.len() == old(ids)@.len(),
        forall|t: int|
            0 <= t < swap.cuts@.len() && cut_applies(*swap, t, old(sd).layers@.len(), old(ids)@.len())
                ==> #[trigger] band_rotated(final(sd).layers@, old(sd).layers@, final(ids)@, old(ids)@, *swap, t),
        forall|j: int|
            0 <= j < old(sd).layers@.len() && (forall|t: int|
                0 <= t < swap.cuts@.len() && cut_applies(*swap, t, old(sd).layers@.len(), old(ids)@.len())
                    ==> swap.j0.wrapping_add(t as usize) != j) ==> #[trigger] final(sd).layers@[j] == old(sd).layers@[j],
        forall|j: int|
            0 <= j < old(ids)@.len() && (forall|t: int|
                0 <= t < swap.cuts@.len() && cut_applies(*swap, t, old(sd).layers@.len(), old(ids)@.len())
                    ==> swap.j0.wrapping_add(t as usize) != j) ==> #[trigger] final(ids)@[j] == old(ids)@[j],
{
    let ghost nl = sd.layers@.len();
    let ghost nr = ids@.len();
    let mut t: usize = 0;
    while t < swap.cuts.len()
        invariant
            sd.layers@.len() == old(sd).layers@.len(),
            ids@.len() == old(ids)@.len(),
            nl == old(sd).layers@.len(),
            nr == old(ids)@.len(),
            t <= swap.cuts@.len(),
            forall|u: int|
                0 <= u < t && cut_applies(*swap, u, nl, nr) ==> #[trigger] band_rotated(sd.layers@, old(sd).layers@, ids@, old(ids)@, *swap, u),
            forall|j: int|
                0 <= j < nl && (forall|u: int| 0 <= u < t && cut_applies(*swap, u, nl, nr) ==> swap.j0.wrapping_add(u as usize) != j)
                    ==> #[trigger] sd.layers@[j] == old(sd).layers@[j],
            forall|j: int|
                0 <= j < nr && (forall|u: int| 0 <= u < t && cut_applies(*swap, u, nl, nr) ==> swap.j0.wrapping_add(u as usize) != j)
                    ==> #[trigger] ids@[j] == old(ids)@[j],
        decreases swap.cuts@.len() - t,
    {
        let (left, mid, right) = swap.cuts[t];
        let j = swap.j0.wrapping_add(t);
        let ghost pre_layers = sd.layers@;
        let ghost pre_ids = ids@;
        proof {
            assert forall|u: int| 0 <= u < t implies #[trigger] swap.j0.wrapping_add(u as usize) != j by {}
        }
        if j < sd.layers.len() && j < ids.len() && left <= mid {
            proof {
                assert(cut_applies(*swap, t as int, nl, nr));
                assert(pre_layers[j as int] == old(sd).layers@[j as int]);
                assert(pre_ids[j as int] == old(ids)@[j as int]);
            }
            let mut atoms = copy_atoms(&sd.layers[j].atoms);
            rotate_range(&mut atoms, left, right, mid - left);
            let ghost new_atoms = atoms@;
            sd.layers.set(j, Layer { atoms });
            let mut row = copy_usize_vec(&ids[j]);
            rotate_range(&mut row, left, right, mid - left);
            let ghost new_row = row@;
            ids.set(j, row);
            proof {
                assert(new_atoms == rotated(old(sd).layers@[j as int].atoms@, left as int, right as int, mid - left));
                assert(new_row == rotated(old(ids)@[j as int]@, left as int, right as int, mid - left));
                assert forall|u: int| 0 <= u < t + 1 && cut_applies(*swap, u, nl, nr) implies #[trigger] band_rotated(
                    sd.layers@,
                    old(sd).layers@,
                    ids@,
                    old(ids)@,
                    *swap,
                    u,
                ) by {
                    if u < t {
                        let jj = swap.j0.wrapping_add(u as usize) as int;
                        assert(jj != j);
                        assert(sd.layers@[jj] == pre_layers[jj]);
                        assert(ids@[jj] == pre_ids[jj]);
                        assert(band_rotated(pre_layers, old(sd).layers@, pre_ids, old(ids)@, *swap, u));
                    }
                }
                assert forall|jj: int|
                    0 <= jj < nl && (forall|u: int| 0 <= u < t + 1 && cut_applies(*swap, u, nl, nr) ==> swap.j0.wrapping_add(u as usize) != jj)
                        implies #[trigger] sd.layers@[jj] == old(sd).layers@[jj] by {
                    assert(jj != j);
                    assert(sd.layers@[jj] == pre_layers[jj]);
                }
                assert forall|jj: int|
                    0 <= jj < nr && (forall|u: int| 0 <= u < t + 1 && cut_applies(*swap, u, nl, nr) ==> swap.j0.wrapping_add(u as usize) != jj)
                        implies #[trigger] ids@[jj] == old(ids)@[jj] by {
                    assert(jj != j);
                    assert(ids@[jj] == pre_ids[jj]);
                }
            }
        } else {
            proof {
                assert(!cut_applies(*swap, t as int, nl, nr));
            }
        }
        t = t + 1;
    }
}

/// **Step 6½**: transpose zero-arity columns into component order until
/// none is out of order.
fn reorder_zero_arity_columns<G: PropSignature>(refined: &mut StringDiagram<G>, ids: &mut Vec<Vec<usize>>, comps: &Components, has_braid: &Vec<bool>) -> bool {
    let mut swapped = false;
    let mut fuel: usize = NF_FUEL;
    while fuel > 0
        decreases fuel,
    {
        fuel = fuel - 1;
        match find_column_transposition(refined, comps, ids, has_braid) {
            Some(swap) => {
                apply_column_transposition(refined, ids, &swap);
                swapped = true;
            },
            None => {
                break;
            },
        }
    }
    swapped
}

/// Steps 7 and 6½ on the unit-refined diagram, re-fused when anything moved.
fn reorder_blocks_and_columns<G: PropSignature>(sd: StringDiagram<G>) -> StringDiagram<G>
    requires
        gens_are_structural::<G>(),
{
    let mut wide = false;
    let mut j: usize = 0;
    while j < sd.layers.len()
        invariant
            j <= sd.layers@.len(),
        decreases sd.layers@.len() - j,
    {
        if sd.layers[j].atoms.len() >= 2 {
            wide = true;
        }
        j = j + 1;
    }
    if !wide {
        return sd;
    }
    let mut layers: Vec<Layer<G>> = Vec::new();
    let mut j: usize = 0;
    while j < sd.layers.len()
        invariant
            j <= sd.layers@.len(),
        decreases sd.layers@.len() - j,
    {
        layers.push(Layer { atoms: explode_identities(&sd.layers[j].atoms) });
        j = j + 1;
    }
    let mut refined = StringDiagram { layers };
    let comps = analyze_components(&refined);
    let has_braid = braid_bearing_components(&refined, &comps);
    let mut ids: Vec<Vec<usize>> = Vec::new();
    let mut j: usize = 0;
    while j < comps.ids.len()
        invariant
            j <= comps.ids@.len(),
        decreases comps.ids@.len() - j,
    {
        ids.push(copy_usize_vec(&comps.ids[j]));
        j = j + 1;
    }
    let blocks_moved = reorder_component_blocks(&mut refined, &mut ids, &comps, &has_braid);
    let columns_moved = reorder_zero_arity_columns(&mut refined, &mut ids, &comps, &has_braid);
    if !blocks_moved && !columns_moved {
        return sd;
    }
    let mut out: Vec<Layer<G>> = Vec::new();
    let mut j: usize = 0;
    while j < refined.layers.len()
        invariant
            j <= refined.layers@.len(),
        decreases refined.layers@.len() - j,
    {
        out.push(Layer { atoms: merge_adjacent_identities(copy_atoms(&refined.layers[j].atoms)) });
        j = j + 1;
    }
    StringDiagram { layers: out }
}

// -------------------------------------------------------------------------
// Step 6: strictly commuting zero-arity atoms
// -------------------------------------------------------------------------

/// Two atoms commute within a layer regardless of wiring: one has no source
/// and one has no target.
fn strictly_commute<G: PropSignature>(a: &Atom<G>, b: &Atom<G>) -> (r: bool)
    ensures
        r == ((spec_atom_source(*a) == 0 || spec_atom_source(*b) == 0) && (spec_atom_target(*a) == 0
            || spec_atom_target(*b) == 0)),
{
    (atom_source(a) == 0 || atom_source(b) == 0) && (atom_target(a) == 0 || atom_target(b) == 0)
}

/// `0` scalar (`0 → 0`), `1` source (`0 → n`), `2` sink (`n → 0`), `3`
/// solid.
fn zero_arity_class<G: PropSignature>(a: &Atom<G>) -> (r: u8)
    ensures
        r == spec_zero_arity_class(*a),
{
    let s = atom_source(a);
    let t = atom_target(a);
    if s == 0 && t == 0 {
        0
    } else if s == 0 {
        1
    } else if t == 0 {
        2
    } else {
        3
    }
}

/// Atom `b` sorts before `a`: by class, then two scalar generators by the
/// signature's order.
/// The zero-arity class of an atom: `0` for `0 → 0`, `1` for `0 → n`, `2`
/// for `n → 0`, `3` otherwise.
spec fn spec_zero_arity_class<G: PropSignature>(a: Atom<G>) -> u8 {
    if spec_atom_source(a) == 0 && spec_atom_target(a) == 0 {
        0
    } else if spec_atom_source(a) == 0 {
        1
    } else if spec_atom_target(a) == 0 {
        2
    } else {
        3
    }
}

fn tie_sorts_before<G: PropSignature>(b: &Atom<G>, a: &Atom<G>) -> (r: bool)
    ensures
        spec_zero_arity_class(*b) != spec_zero_arity_class(*a) ==> r == (spec_zero_arity_class(*b)
            < spec_zero_arity_class(*a)),
        spec_zero_arity_class(*b) == spec_zero_arity_class(*a) && !(*b is Generator && *a is Generator) ==> !r,
        r && spec_zero_arity_class(*b) == spec_zero_arity_class(*a) ==> spec_zero_arity_class(*b) == 0,
{
    let class_b = zero_arity_class(b);
    let class_a = zero_arity_class(a);
    if class_b != class_a {
        return class_b < class_a;
    }
    match (b, a) {
        (Atom::Generator(gb), Atom::Generator(ga)) => class_b == 0 && *gb < *ga,
        _ => false,
    }
}

/// **Step 6**: bubble strictly commuting adjacent atoms into the order
/// `scalar < η < ε < solid`, then the signature's order.
fn reorder_tied_zero_arity<G: PropSignature>(sd: StringDiagram<G>) -> StringDiagram<G> {
    let mut any = false;
    let mut j: usize = 0;
    while j < sd.layers.len()
        invariant
            j <= sd.layers@.len(),
        decreases sd.layers@.len() - j,
    {
        let atoms = &sd.layers[j].atoms;
        let mut i: usize = 0;
        while i < atoms.len() && i + 1 < atoms.len()
            decreases atoms@.len() - i,
        {
            if strictly_commute(&atoms[i], &atoms[i + 1]) {
                any = true;
            }
            i = i + 1;
        }
        j = j + 1;
    }
    if !any {
        return sd;
    }
    let mut layers: Vec<Layer<G>> = Vec::new();
    let mut j: usize = 0;
    while j < sd.layers.len()
        invariant
            j <= sd.layers@.len(),
        decreases sd.layers@.len() - j,
    {
        let mut atoms = copy_atoms(&sd.layers[j].atoms);
        let mut swapped_any = false;
        let mut fuel: usize = NF_FUEL;
        while fuel > 0
            decreases fuel,
        {
            fuel = fuel - 1;
            let mut changed = false;
            let mut i: usize = 0;
            while i < atoms.len() && i + 1 < atoms.len()
                invariant
                    atoms@.len() == atoms@.len(),
                decreases atoms@.len() - i,
            {
                let a = atoms[i];
                let b = atoms[i + 1];
                if strictly_commute(&a, &b) && tie_sorts_before(&b, &a) {
                    atoms.set(i, b);
                    atoms.set(i + 1, a);
                    changed = true;
                }
                i = i + 1;
            }
            if !changed {
                break;
            }
            swapped_any = true;
        }
        if swapped_any {
            atoms = merge_adjacent_identities(atoms);
        }
        layers.push(Layer { atoms });
        j = j + 1;
    }
    StringDiagram { layers }
}

// -------------------------------------------------------------------------
// The normal form
// -------------------------------------------------------------------------

/// Normalize `expr` to a canonical [`StringDiagram`]: lower it, then run the
/// rewrite steps in order (empty braids, hexagon expansion, layer merging,
/// braids to the input side, identity absorption, generator sifting, unit
/// removal, block and column order, within-layer order) until a pass
/// changes nothing.
///
/// Every step is SMC-sound: equal normal forms mean SMC-equal expressions.
pub fn nf<G: PropSignature>(expr: &PropExpr<G>) -> (r: StringDiagram<G>)
    requires
        gens_are_structural::<G>(),
{
    let mut sd = lower(expr);
    let mut fuel: usize = NF_FUEL;
    while fuel > 0
        invariant
            gens_are_structural::<G>(),
        decreases fuel,
    {
        fuel = fuel - 1;
        let prev = copy_diagram(&sd);
        sd = normalize_empty_braids(sd);
        sd = hexagon_expand(sd);
        sd = reduce_involution(sd);
        sd = collect_braid_prefix(sd);
        sd = coalesce_identity_layers(sd);
        sd = topological_layer_order(sd);
        sd = simplify_units(sd);
        sd = reorder_blocks_and_columns(sd);
        sd = reorder_tied_zero_arity(sd);
        if diagram_eq(&sd, &prev) {
            break;
        }
    }
    sd
}

/// Whether two normal forms are equal.
pub fn diagrams_equal<G: PropSignature>(a: &StringDiagram<G>, b: &StringDiagram<G>) -> (r: bool)
    requires
        gens_are_structural::<G>(),
    ensures
        r == (diagram_view(*a) == diagram_view(*b)),
{
    diagram_eq(a, b)
}

} // verus!
