use catgraph_applied::prop::{adjacent_swaps, Free, Primitive, PropExpr};

type Sig = Primitive;

const F: Primitive = Primitive { label: 0, source: 1, target: 1 };
const COPY: Primitive = Primitive { label: 1, source: 1, target: 2 };


/// Apply a swap sequence to `perm` left-to-right and return the result.
fn apply_swaps(perm: &[usize], swaps: &[usize]) -> Vec<usize> {
    let mut arr = perm.to_vec();
    for &t in swaps {
        arr.swap(t, t + 1);
    }
    arr
}

#[test]
fn empty_perm_has_no_swaps() {
    assert_eq!(adjacent_swaps(&[]), Vec::<usize>::new());
}

#[test]
fn single_element_has_no_swaps() {
    assert_eq!(adjacent_swaps(&[0]), Vec::<usize>::new());
}

#[test]
fn already_sorted_has_no_swaps() {
    assert_eq!(adjacent_swaps(&[0, 1, 2, 3]), Vec::<usize>::new());
}

#[test]
fn full_reversal() {
    assert_eq!(adjacent_swaps(&[2, 1, 0]), vec![0, 1, 0]);
}

#[test]
fn transpose_riffle_perm() {
    let mut perm = vec![0usize; 6];
    for i in 0..2 {
        for j in 0..3 {
            perm[i * 3 + j] = j * 2 + i;
        }
    }
    assert_eq!(perm, vec![0, 2, 4, 1, 3, 5]);
    let swaps = adjacent_swaps(&perm);
    assert_eq!(apply_swaps(&perm, &swaps), vec![0, 1, 2, 3, 4, 5]);
}

#[test]
fn swaps_sort_the_permutation() {
    let cases: &[&[usize]] = &[
        &[],
        &[0],
        &[1, 0],
        &[2, 0, 1],
        &[3, 2, 1, 0],
        &[0, 2, 4, 1, 3, 5],
        &[4, 3, 2, 1, 0],
    ];
    for &perm in cases {
        let mut sorted = perm.to_vec();
        sorted.sort_unstable();
        let swaps = adjacent_swaps(perm);
        assert_eq!(apply_swaps(perm, &swaps), sorted, "perm = {perm:?}");
    }
}

#[test]
fn compose_refuses_mismatched_arities() {
    let copy = Free::<Sig>::generator(COPY);
    let f = Free::<Sig>::generator(F);
    assert!(Free::compose(copy.clone(), f.clone()).is_err());
    let ok = Free::compose(f.clone(), copy.clone()).expect("1 → 1 ; 1 → 2");
    assert_eq!(ok.source(), 1);
    assert_eq!(ok.target(), 2);
}

#[test]
fn tensor_adds_arities_and_braids_saturate() {
    let copy = Free::<Sig>::generator(COPY);
    let t = Free::tensor(copy.clone(), Free::identity(3));
    assert_eq!(t.source(), 4);
    assert_eq!(t.target(), 5);
    let wide: PropExpr<Sig> = PropExpr::Braid(usize::MAX, 1);
    assert_eq!(wide.source(), usize::MAX);
    assert_eq!(wide.checked_arities(), None);
    assert!(!wide.arities_fit());
    assert_eq!(Free::<Sig>::braid(2, 1).checked_arities(), Some((3, 3)));
}

#[test]
fn adjacent_swaps_count_the_inversions() {
    assert_eq!(adjacent_swaps(&[2, 1, 0]).len(), 3);
    assert_eq!(adjacent_swaps(&[0, 2, 4, 1, 3, 5]).len(), 3);
    assert_eq!(adjacent_swaps(&[3, 2, 1, 0]).len(), 6);
    assert_eq!(adjacent_swaps(&[1, 0, 3, 2]).len(), 2);
}
