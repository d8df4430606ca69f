use catgraph_applied::temperley_lieb::{Pair, PerfectMatching};

#[test]
fn pair_contains_is_strict_betweenness_in_either_order() {
    for a in 0..6usize {
        for b in 0..6usize {
            for x in 0..6usize {
                let want = x > a.min(b) && x < a.max(b);
                assert_eq!(Pair(a, b).contains(x), want, "Pair({a}, {b}).contains({x})");
            }
        }
    }
}

fn boundary_walk_planar(pairs: &[Pair], source: usize, target: usize) -> bool {
    let points = source + target;
    let walk_position = |v: usize| {
        if v < source {
            v
        } else {
            source + (points - 1 - v)
        }
    };
    let mut partner = vec![usize::MAX; points];
    for p in pairs {
        let (a, b) = (walk_position(p.0), walk_position(p.1));
        partner[a] = b;
        partner[b] = a;
    }
    let mut stack: Vec<usize> = Vec::with_capacity(points);
    for i in 0..points {
        if stack.last().is_some_and(|&top| partner[top] == i) {
            stack.pop();
        } else {
            stack.push(i);
        }
    }
    stack.is_empty()
}

fn all_matchings(k: usize) -> Vec<Vec<Pair>> {
    fn go(remaining: &[usize], acc: &mut Vec<Pair>, out: &mut Vec<Vec<Pair>>) {
        let Some((first, rest)) = remaining.split_first() else {
            out.push(acc.clone());
            return;
        };
        for (i, &other) in rest.iter().enumerate() {
            acc.push(Pair(*first, other));
            let mut narrowed: Vec<usize> = rest.to_vec();
            narrowed.remove(i);
            go(&narrowed, acc, out);
            acc.pop();
        }
    }
    let points: Vec<usize> = (0..2 * k).collect();
    let mut out = Vec::new();
    go(&points, &mut Vec::new(), &mut out);
    out
}

fn perfect_matching_count(k: usize) -> usize {
    (1..=k).map(|i| 2 * i - 1).product()
}

fn catalan(k: usize) -> usize {
    let mut c = vec![0usize; k + 1];
    c[0] = 1;
    for i in 1..=k {
        for j in 0..i {
            c[i] += c[j] * c[i - 1 - j];
        }
    }
    c[k]
}

#[test]
fn non_crossing_exhaustive_to_ten_points() {
    for k in 1..=5 {
        let matchings: Vec<PerfectMatching> = all_matchings(k)
            .into_iter()
            .map(PerfectMatching::new)
            .collect();
        let distinct: std::collections::BTreeSet<Vec<Pair>> =
            matchings.iter().map(|m| m.pairs().to_vec()).collect();
        assert_eq!(distinct.len(), perfect_matching_count(k));
        let expected_planar = catalan(k);
        for source in 0..=2 * k {
            let target = 2 * k - source;
            let mut planar = 0usize;
            for m in &matchings {
                let got = m.non_crossing(source, target);
                let want = boundary_walk_planar(m.pairs(), source, target);
                assert_eq!(got, want, "{:?} in Hom({source}, {target})", m.pairs());
                planar += usize::from(got);
            }
            assert_eq!(planar, expected_planar);
        }
    }
}

#[test]
fn pair_helpers_compute_what_they_say() {
    let p = Pair(5, 2);
    assert_eq!(p.sort(), Pair(2, 5));
    assert_eq!(Pair::sorted(1, 0), Pair(0, 1));
    assert_eq!(p.iter(), vec![5, 2]);
    assert_eq!(p.map(|v| v + 1), Pair(6, 3));
    assert!(p.all(|v| v > 1));
    assert!(!p.all(|v| v > 2));
    assert!(p.any(|v| v == 2));
    assert!(!p.any(|v| v == 3));
    assert_eq!(Pair::from((3, 4)), Pair(3, 4));
    assert_eq!(Pair(0, 3).flip_upside_down(2, 2), Pair(2, 1));
}

#[test]
fn canonical_matching_sorts_its_arcs() {
    let m = PerfectMatching::new(vec![Pair(3, 2), Pair(1, 0)]);
    assert_eq!(m.pairs(), &[Pair(0, 1), Pair(2, 3)]);
    assert_eq!(m.flip_upside_down(2, 2), vec![Pair(2, 3), Pair(0, 1)]);
}

/// A small linear congruential generator, for reproducible samples.
struct Lcg(u64);

impl Lcg {
    fn new(seed: u64) -> Self {
        Lcg(seed)
    }

    /// A value in `lo..=hi`.
    fn next_usize(&mut self, lo: usize, hi: usize) -> usize {
        self.0 = self.0.wrapping_mul(6364136223846793005).wrapping_add(1442695040888963407);
        let span = (hi - lo + 1) as u64;
        lo + ((self.0 >> 33) % span) as usize
    }
}

/// A matching of `points`, drawn by repeatedly pairing two of them at random.
fn seeded_matching_on(points: &[usize], rng: &mut Lcg, out: &mut Vec<Pair>) {
    let mut pool: Vec<usize> = points.to_vec();
    while !pool.is_empty() {
        let a = pool.swap_remove(rng.next_usize(0, pool.len() - 1));
        let b = pool.swap_remove(rng.next_usize(0, pool.len() - 1));
        out.push(Pair::sorted(a, b));
    }
}

/// A planar matching of `points`, given in boundary order: pair the first
/// point with one at an odd offset, then recurse inside and outside.
fn seeded_planar_matching_on(points: &[usize], rng: &mut Lcg, out: &mut Vec<Pair>) {
    if points.is_empty() {
        return;
    }
    let partner_slot = 2 * rng.next_usize(0, points.len() / 2 - 1) + 1;
    out.push(Pair::sorted(points[0], points[partner_slot]));
    seeded_planar_matching_on(&points[1..partner_slot], rng, out);
    seeded_planar_matching_on(&points[partner_slot + 1..], rng, out);
}

#[test]
fn non_crossing_parallel_arms_seeded() {
    let mut rng = Lcg::new(0x0002_945e_ed00_0001);
    for _ in 0..64 {
        for (domain_planar, codomain_planar) in
            [(false, false), (false, true), (true, false), (true, true)]
        {
            for (source, target) in [(16usize, 16usize), (17, 17)] {
                let mut pairs: Vec<Pair> = Vec::new();
                let mut domain_points: Vec<usize> = (0..source).collect();
                let mut codomain_points: Vec<usize> = (source..source + target).collect();
                if source % 2 == 1 {
                    let d = domain_points.remove(rng.next_usize(0, domain_points.len() - 1));
                    let c = codomain_points.remove(rng.next_usize(0, codomain_points.len() - 1));
                    pairs.push(Pair::sorted(d, c));
                }
                for (planar, block) in [(domain_planar, &domain_points), (codomain_planar, &codomain_points)] {
                    if planar {
                        seeded_planar_matching_on(block, &mut rng, &mut pairs);
                    } else {
                        seeded_matching_on(block, &mut rng, &mut pairs);
                    }
                }
                let matching = PerfectMatching::new(pairs);
                let got = matching.non_crossing(source, target);
                let want = boundary_walk_planar(matching.pairs(), source, target);
                if domain_planar && codomain_planar && source % 2 == 0 {
                    assert!(want, "must be planar by construction");
                }
                assert_eq!(got, want, "{:?} in Hom({source}, {target})", matching.pairs());
            }
        }
    }
}
