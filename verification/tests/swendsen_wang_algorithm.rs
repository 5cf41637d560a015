use rand::rngs::SmallRng;
use rand::SeedableRng;
use swendsen_wang::swendsen_wang_algorithm::draw_site_bonds;
use swendsen_wang::{BondProbability, IsingArray2D, SiteBonds, SwendsenWangAlgorithm};

fn never() -> BondProbability {
    BondProbability::from_ratio(0, 1).unwrap()
}

fn always() -> BondProbability {
    BondProbability::from_ratio(1, 1).unwrap()
}

fn no_bonds() -> SiteBonds {
    SiteBonds { left: false, above: false, wrap_down: false, wrap_right: false }
}

fn clusters(algorithm: &SwendsenWangAlgorithm, rows: i32, cols: i32) -> Vec<usize> {
    (0..rows).flat_map(|y| (0..cols).map(move |x| (y, x))).map(|pos| algorithm.cluster_at(pos)).collect()
}

fn lattice(rows: usize, cols: usize, downs: &[(i32, i32)]) -> IsingArray2D {
    let mut spins = IsingArray2D::new_polarized(rows, cols);
    for &(y, x) in downs {
        spins.flip_at(y, x);
    }
    spins
}

#[test]
fn energy_of_a_polarized_two_by_two_lattice() {
    let spins = IsingArray2D::new_polarized(2, 2);
    let mut algorithm = SwendsenWangAlgorithm::new(2, 2);
    let mut rng = SmallRng::seed_from_u64(0);
    let half = BondProbability::from_ratio(1, 2).unwrap();
    let (energy, magnetization) = algorithm.perform_swendsen_wang_all(&spins, &mut rng, half);
    // Four sites, each with a bond to the right and one below, all aligned.
    assert_eq!(energy, -8);
    assert_eq!(magnetization, 4);
}

#[test]
fn energy_counts_every_bond_once() {
    // A single down spin on a 3 by 3 lattice breaks its four bonds:
    // 18 bonds, 14 aligned and 4 not.
    let spins = lattice(3, 3, &[(1, 1)]);
    let mut algorithm = SwendsenWangAlgorithm::new(3, 3);
    let mut rng = SmallRng::seed_from_u64(0);
    let (energy, magnetization) = algorithm.perform_swendsen_wang_all(&spins, &mut rng, never());
    assert_eq!(energy, -10);
    assert_eq!(magnetization, 7);
}

#[test]
fn energy_of_an_alternating_lattice_is_maximal() {
    let spins = lattice(2, 2, &[(0, 1), (1, 0)]);
    let mut algorithm = SwendsenWangAlgorithm::new(2, 2);
    let mut rng = SmallRng::seed_from_u64(0);
    let (energy, magnetization) = algorithm.perform_swendsen_wang_all(&spins, &mut rng, always());
    assert_eq!(energy, 8);
    assert_eq!(magnetization, 0);
}

#[test]
fn magnetization_is_reported_without_sign() {
    let all: Vec<(i32, i32)> = (0..3).flat_map(|y| (0..4).map(move |x| (y, x))).collect();
    let spins = lattice(3, 4, &all);
    let mut algorithm = SwendsenWangAlgorithm::new(3, 4);
    let mut rng = SmallRng::seed_from_u64(0);
    let (energy, magnetization) = algorithm.perform_swendsen_wang_all(&spins, &mut rng, always());
    assert_eq!(energy, -24);
    assert_eq!(magnetization, 12);
    let mostly_down = lattice(2, 2, &[(0, 0), (0, 1), (1, 1)]);
    let mut small = SwendsenWangAlgorithm::new(2, 2);
    let (_, m) = small.perform_swendsen_wang_all(&mostly_down, &mut rng, never());
    assert_eq!(m, 2);
}

#[test]
fn probability_zero_gives_singletons() {
    for seed in 0..5 {
        let mut rng = SmallRng::seed_from_u64(seed);
        let spins = IsingArray2D::new_randomized(&mut rng, 4, 5);
        let mut algorithm = SwendsenWangAlgorithm::new(4, 5);
        algorithm.perform_swendsen_wang_all(&spins, &mut rng, never());
        let expected: Vec<usize> = (1..=20).collect();
        assert_eq!(clusters(&algorithm, 4, 5), expected);
    }
}

#[test]
fn probability_one_merges_every_equal_neighbour_pair() {
    for seed in 0..5 {
        let mut rng = SmallRng::seed_from_u64(seed);
        let spins = IsingArray2D::new_randomized(&mut rng, 5, 4);
        let mut algorithm = SwendsenWangAlgorithm::new(5, 4);
        algorithm.perform_swendsen_wang_all(&spins, &mut rng, always());
        for y in 0..5 {
            for x in 0..4 {
                let here = algorithm.cluster_at((y, x));
                for (ny, nx) in [((y + 1) % 5, x), (y, (x + 1) % 4)] {
                    let there = algorithm.cluster_at((ny, nx));
                    if spins.at(y, x) == spins.at(ny, nx) {
                        assert_eq!(here, there);
                    } else {
                        assert_ne!(here, there);
                    }
                }
            }
        }
    }
}

#[test]
fn clusters_never_mix_spins() {
    let half = BondProbability::from_ratio(1, 2).unwrap();
    for seed in 0..5 {
        let mut rng = SmallRng::seed_from_u64(seed);
        let spins = IsingArray2D::new_randomized(&mut rng, 6, 6);
        let mut algorithm = SwendsenWangAlgorithm::new(6, 6);
        algorithm.perform_swendsen_wang_all(&spins, &mut rng, half);
        let ids = clusters(&algorithm, 6, 6);
        for a in 0..36 {
            for b in 0..36 {
                if ids[a] == ids[b] {
                    assert_eq!(spins.at(a as i32 / 6, a as i32 % 6), spins.at(b as i32 / 6, b as i32 % 6));
                }
            }
        }
    }
}

#[test]
fn end_to_end_sweep_on_a_polarized_lattice() {
    // T = 1, J = 1: the bond probability is 1 - exp(-2), about 0.8647.
    let proba_add = BondProbability::from_ratio(3_713_664_938, u32::MAX).unwrap();
    let mut spins = IsingArray2D::new_polarized(4, 4);
    let mut algorithm = SwendsenWangAlgorithm::new(4, 4);
    let mut rng = SmallRng::seed_from_u64(2024);
    let (energy, magnetization) = algorithm.perform_swendsen_wang_all(&spins, &mut rng, proba_add);
    assert_eq!(energy, -32);
    assert_eq!(magnetization, 16);
    algorithm.flip_cluster_and_take_fourier(&mut spins, &mut rng);
    algorithm.reset();
    // The same seed gives the same lattice after the sweep.
    let mut spins_again = IsingArray2D::new_polarized(4, 4);
    let mut algorithm_again = SwendsenWangAlgorithm::new(4, 4);
    let mut rng_again = SmallRng::seed_from_u64(2024);
    algorithm_again.perform_swendsen_wang_all(&spins_again, &mut rng_again, proba_add);
    algorithm_again.flip_cluster_and_take_fourier(&mut spins_again, &mut rng_again);
    for y in 0..4 {
        for x in 0..4 {
            assert_eq!(spins.at(y, x), spins_again.at(y, x));
        }
    }
}

#[test]
fn a_uniform_lattice_flips_as_a_whole() {
    let mut spins = IsingArray2D::new_polarized(5, 3);
    let mut algorithm = SwendsenWangAlgorithm::new(5, 3);
    let mut rng = SmallRng::seed_from_u64(4);
    let mut seen_up = false;
    let mut seen_down = false;
    for _ in 0..40 {
        let (energy, magnetization) = algorithm.perform_swendsen_wang_all(&spins, &mut rng, always());
        assert_eq!(energy, -30);
        assert_eq!(magnetization, 15);
        assert_eq!(clusters(&algorithm, 5, 3), vec![1; 15]);
        algorithm.flip_cluster_and_take_fourier(&mut spins, &mut rng);
        algorithm.reset();
        let first = spins.at(0, 0);
        for y in 0..5 {
            for x in 0..3 {
                assert_eq!(spins.at(y, x), first);
            }
        }
        seen_up |= first == 1;
        seen_down |= first == -1;
    }
    assert!(seen_up && seen_down);
}

#[test]
fn linking_sites_by_hand_builds_the_components() {
    // 2 by 3 lattice; bonds: (0,1)-(0,0), (1,1)-(0,1), (1,2)-(1,1), and (1,2) wraps to (0,2).
    let mut algorithm = SwendsenWangAlgorithm::new(2, 3);
    algorithm.link_site((0, 0), no_bonds());
    algorithm.link_site((0, 1), SiteBonds { left: true, ..no_bonds() });
    algorithm.link_site((0, 2), no_bonds());
    algorithm.link_site((1, 0), no_bonds());
    assert_eq!(clusters(&algorithm, 2, 3)[..4], [1, 1, 2, 3]);
    algorithm.link_site((1, 1), SiteBonds { above: true, ..no_bonds() });
    algorithm.link_site((1, 2), SiteBonds { left: true, wrap_down: true, ..no_bonds() });
    assert_eq!(clusters(&algorithm, 2, 3), vec![1, 1, 1, 3, 1, 1]);
}

#[test]
fn two_bonds_merge_two_clusters() {
    // 2 by 2 lattice: (0,0) and (0,1) apart, (1,0) under (0,0), (1,1) joins left and above.
    let mut algorithm = SwendsenWangAlgorithm::new(2, 2);
    algorithm.link_site((0, 0), no_bonds());
    algorithm.link_site((0, 1), no_bonds());
    algorithm.link_site((1, 0), SiteBonds { above: true, ..no_bonds() });
    assert_eq!(clusters(&algorithm, 2, 2)[..3], [1, 2, 1]);
    algorithm.link_site((1, 1), SiteBonds { left: true, above: true, ..no_bonds() });
    assert_eq!(clusters(&algorithm, 2, 2), vec![1, 1, 1, 1]);
}

#[test]
fn the_right_edge_wraps_to_the_left_edge() {
    let mut algorithm = SwendsenWangAlgorithm::new(2, 3);
    algorithm.link_site((0, 0), no_bonds());
    algorithm.link_site((0, 1), no_bonds());
    algorithm.link_site((0, 2), SiteBonds { wrap_right: true, ..no_bonds() });
    algorithm.link_site((1, 0), no_bonds());
    algorithm.link_site((1, 1), no_bonds());
    algorithm.link_site((1, 2), SiteBonds { wrap_down: true, wrap_right: true, ..no_bonds() });
    // (0,2) joined (0,0); (1,2) joined (0,2) and (1,0).
    assert_eq!(clusters(&algorithm, 2, 3), vec![1, 2, 1, 1, 5, 1]);
}

#[test]
fn a_single_row_wraps_onto_itself() {
    let spins = IsingArray2D::new_polarized(1, 3);
    let mut algorithm = SwendsenWangAlgorithm::new(1, 3);
    let mut rng = SmallRng::seed_from_u64(8);
    let (energy, magnetization) = algorithm.perform_swendsen_wang_all(&spins, &mut rng, always());
    assert_eq!(energy, -6);
    assert_eq!(magnetization, 3);
    assert_eq!(clusters(&algorithm, 1, 3), vec![1, 1, 1]);
}

#[test]
fn a_single_site_is_one_cluster() {
    let mut spins = IsingArray2D::new_polarized(1, 1);
    let mut algorithm = SwendsenWangAlgorithm::new(1, 1);
    let mut rng = SmallRng::seed_from_u64(8);
    let (energy, magnetization) = algorithm.perform_swendsen_wang_all(&spins, &mut rng, always());
    assert_eq!(energy, -2);
    assert_eq!(magnetization, 1);
    assert_eq!(algorithm.cluster_at((0, 0)), 1);
    algorithm.take_fourier_transform = true;
    let sums = algorithm.flip_cluster_and_take_fourier(&mut spins, &mut rng);
    assert_eq!(sums, vec![spins.at(0, 0) as i64]);
}

#[test]
fn an_empty_lattice_has_nothing_to_do() {
    let mut spins = IsingArray2D::new_polarized(0, 3);
    let mut algorithm = SwendsenWangAlgorithm::new(0, 3);
    let mut rng = SmallRng::seed_from_u64(8);
    assert_eq!(algorithm.perform_swendsen_wang_all(&spins, &mut rng, always()), (0, 0));
    assert!(algorithm.flip_cluster_and_take_fourier(&mut spins, &mut rng).is_empty());
}

#[test]
fn drawing_bonds_respects_the_spins() {
    let spins = lattice(2, 2, &[(0, 1)]);
    let mut rng = SmallRng::seed_from_u64(1);
    assert_eq!(draw_site_bonds(&spins, &mut rng, always(), (0, 0)), no_bonds());
    // (0,1) is down: no equal neighbour on its left, and (0,0) at the left edge is up.
    assert_eq!(draw_site_bonds(&spins, &mut rng, always(), (0, 1)), no_bonds());
    // (1,0): above is (0,0), up; bottom row wraps to the top row.
    assert_eq!(
        draw_site_bonds(&spins, &mut rng, always(), (1, 0)),
        SiteBonds { left: false, above: true, wrap_down: true, wrap_right: false }
    );
    // (1,1): left is up, above is down; wraps to (0,1), down, and to (1,0), up.
    assert_eq!(
        draw_site_bonds(&spins, &mut rng, always(), (1, 1)),
        SiteBonds { left: true, above: false, wrap_down: false, wrap_right: true }
    );
    assert_eq!(draw_site_bonds(&spins, &mut rng, never(), (1, 1)), no_bonds());
}

#[test]
fn drawing_costs_one_draw_per_equal_neighbour() {
    let spins = IsingArray2D::new_polarized(3, 3);
    let half = BondProbability::from_ratio(1, 2).unwrap();
    // The site in the middle tests left and above: two draws.
    let mut rng = SmallRng::seed_from_u64(21);
    let bonds = draw_site_bonds(&spins, &mut rng, half, (1, 1));
    let mut reference = SmallRng::seed_from_u64(21);
    let left = half.draw(&mut reference);
    let above = half.draw(&mut reference);
    assert_eq!(bonds, SiteBonds { left, above, wrap_down: false, wrap_right: false });
    assert_eq!(half.draw(&mut rng), half.draw(&mut reference));
    // The first site tests nothing: no draw.
    let mut rng = SmallRng::seed_from_u64(22);
    let mut reference = SmallRng::seed_from_u64(22);
    assert_eq!(draw_site_bonds(&spins, &mut rng, half, (0, 0)), no_bonds());
    assert_eq!(half.draw(&mut rng), half.draw(&mut reference));
    // The last site tests all four, bottom before right.
    let mut rng = SmallRng::seed_from_u64(23);
    let bonds = draw_site_bonds(&spins, &mut rng, half, (2, 2));
    let mut reference = SmallRng::seed_from_u64(23);
    let left = half.draw(&mut reference);
    let above = half.draw(&mut reference);
    let wrap_down = half.draw(&mut reference);
    let wrap_right = half.draw(&mut reference);
    assert_eq!(bonds, SiteBonds { left, above, wrap_down, wrap_right });
}

#[test]
fn sites_of_one_cluster_flip_together() {
    let half = BondProbability::from_ratio(1, 2).unwrap();
    for seed in 0..10 {
        let mut rng = SmallRng::seed_from_u64(seed);
        let mut spins = IsingArray2D::new_randomized(&mut rng, 5, 5);
        let before: Vec<i8> = (0..25).map(|k| spins.at(k / 5, k % 5)).collect();
        let mut algorithm = SwendsenWangAlgorithm::new(5, 5);
        algorithm.perform_swendsen_wang_all(&spins, &mut rng, half);
        algorithm.flip_cluster_and_take_fourier(&mut spins, &mut rng);
        let ids = clusters(&algorithm, 5, 5);
        for a in 0..25usize {
            let now_a = spins.at(a as i32 / 5, a as i32 % 5);
            assert!(now_a == before[a] || now_a == -before[a]);
            for b in 0..25usize {
                if ids[a] == ids[b] {
                    let now_b = spins.at(b as i32 / 5, b as i32 % 5);
                    assert_eq!(now_a == before[a], now_b == before[b]);
                }
            }
        }
    }
}

#[test]
fn decisions_are_kept_until_reset() {
    let mut spins = IsingArray2D::new_polarized(3, 3);
    let mut algorithm = SwendsenWangAlgorithm::new(3, 3);
    let mut rng = SmallRng::seed_from_u64(5);
    algorithm.perform_swendsen_wang_all(&spins, &mut rng, always());
    algorithm.flip_cluster_and_take_fourier(&mut spins, &mut rng);
    let first = spins.at(0, 0);
    // Without a reset the one cluster keeps its decision: a second pass
    // undoes the first if it flipped, and changes nothing otherwise.
    algorithm.flip_cluster_and_take_fourier(&mut spins, &mut rng);
    let second = spins.at(0, 0);
    assert_eq!(second, 1);
    for y in 0..3 {
        for x in 0..3 {
            assert_eq!(spins.at(y, x), second);
        }
    }
}

#[test]
fn flipping_before_any_labelling_treats_the_lattice_as_one_cluster() {
    let mut spins = lattice(2, 2, &[(0, 1)]);
    let mut algorithm = SwendsenWangAlgorithm::new(2, 2);
    let mut rng = SmallRng::seed_from_u64(5);
    algorithm.flip_cluster_and_take_fourier(&mut spins, &mut rng);
    let flipped = spins.at(0, 0) == -1;
    assert_eq!(spins.at(0, 1) == 1, flipped);
    assert_eq!(spins.at(1, 0) == -1, flipped);
    assert_eq!(spins.at(1, 1) == -1, flipped);
}

#[test]
fn measuring_returns_the_column_sums() {
    let mut spins = lattice(3, 4, &[(0, 1), (1, 1), (2, 3)]);
    let mut algorithm = SwendsenWangAlgorithm::new(3, 4);
    algorithm.take_fourier_transform = true;
    let mut rng = SmallRng::seed_from_u64(12);
    algorithm.perform_swendsen_wang_all(&spins, &mut rng, never());
    let sums = algorithm.flip_cluster_and_take_fourier(&mut spins, &mut rng);
    let expected: Vec<i64> =
        (0..4).map(|x| (0..3).map(|y| spins.at(y, x) as i64).sum()).collect();
    assert_eq!(sums, expected);
}

#[test]
fn without_measuring_nothing_is_returned() {
    let mut spins = IsingArray2D::new_polarized(3, 4);
    let mut algorithm = SwendsenWangAlgorithm::new(3, 4);
    assert!(!algorithm.take_fourier_transform);
    let mut rng = SmallRng::seed_from_u64(12);
    algorithm.perform_swendsen_wang_all(&spins, &mut rng, never());
    assert!(algorithm.flip_cluster_and_take_fourier(&mut spins, &mut rng).is_empty());
}

#[test]
fn reset_algorithm_equals_a_new_one() {
    let half = BondProbability::from_ratio(1, 2).unwrap();
    let mut used = SwendsenWangAlgorithm::new(4, 4);
    let mut spins = IsingArray2D::new_randomized(&mut SmallRng::seed_from_u64(1), 4, 4);
    let mut rng = SmallRng::seed_from_u64(2);
    used.perform_swendsen_wang_all(&spins, &mut rng, half);
    used.flip_cluster_and_take_fourier(&mut spins, &mut rng);
    used.reset();
    let mut fresh = SwendsenWangAlgorithm::new(4, 4);
    assert_eq!(clusters(&used, 4, 4), clusters(&fresh, 4, 4));
    assert_eq!(clusters(&used, 4, 4), vec![16; 16]);
    // Both continue alike from the same lattice and the same random stream.
    let mut spins_used = IsingArray2D::new_randomized(&mut SmallRng::seed_from_u64(3), 4, 4);
    let mut spins_fresh = IsingArray2D::new_randomized(&mut SmallRng::seed_from_u64(3), 4, 4);
    let mut rng_used = SmallRng::seed_from_u64(4);
    let mut rng_fresh = SmallRng::seed_from_u64(4);
    assert_eq!(
        used.perform_swendsen_wang_all(&spins_used, &mut rng_used, half),
        fresh.perform_swendsen_wang_all(&spins_fresh, &mut rng_fresh, half)
    );
    assert_eq!(clusters(&used, 4, 4), clusters(&fresh, 4, 4));
    used.flip_cluster_and_take_fourier(&mut spins_used, &mut rng_used);
    fresh.flip_cluster_and_take_fourier(&mut spins_fresh, &mut rng_fresh);
    for y in 0..4 {
        for x in 0..4 {
            assert_eq!(spins_used.at(y, x), spins_fresh.at(y, x));
        }
    }
}

#[test]
fn reset_keeps_the_choice_to_measure() {
    let mut algorithm = SwendsenWangAlgorithm::new(2, 2);
    algorithm.take_fourier_transform = true;
    algorithm.reset();
    assert!(algorithm.take_fourier_transform);
}
