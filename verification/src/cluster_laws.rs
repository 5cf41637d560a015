//! What the cluster update guarantees beyond the contract of each pass.

use crate::cluster_graph::{
    connected,
    lemma_bonded_connected,
    lemma_connected_keeps_id,
    links,
};
use crate::ising_array_2d::{
    lemma_site_index_in_range,
    lemma_site_of_offset,
    site_index,
    IsingArray2D,
};
use crate::swendsen_wang_algorithm::{
    candidate_bonds,
    lemma_row_col_of_site,
    SwendsenWangAlgorithm,
};
use vstd::arithmetic::div_mod::{lemma_mod_self_0, lemma_small_mod};
use vstd::prelude::*;

verus! {

/// Across an activated bond the two spins are equal.
proof fn lemma_links_join_equal_spins(
    algorithm: &SwendsenWangAlgorithm,
    spins: &IsingArray2D,
    u: int,
    v: int,
)
    requires
        algorithm.fits_lattice(spins),
        algorithm.bonds_respect_spins(spins),
        links(algorithm.spec_cols(), algorithm.bonds(), u, v),
    ensures
        spins@[u] == spins@[v],
{
    let rows = spins.spec_rows();
    let cols = spins.spec_cols();
    lemma_site_of_offset(rows, cols, u);
    let y = u / cols;
    let x = u % cols;
    assert((y - 1) * cols == y * cols - cols) by (nonlinear_arith);
    assert(site_index(cols, y - 1, x) == u - cols);
    assert(site_index(cols, 0, x) == x);
    assert(site_index(cols, y, 0) == u - x);
}

/// A cluster never mixes spins: two visited sites in the same cluster carry
/// the same spin, whatever the draws were.
pub proof fn lemma_clusters_are_uniform(
    algorithm: &SwendsenWangAlgorithm,
    spins: &IsingArray2D,
    a: int,
    b: int,
)
    requires
        algorithm.fits_lattice(spins),
        algorithm.bonds_respect_spins(spins),
        0 <= a < algorithm.bonds().len(),
        0 <= b < algorithm.bonds().len(),
        algorithm.same_cluster(a, b),
    ensures
        spins@[a] == spins@[b],
{
    let cols = algorithm.spec_cols();
    let bonds = algorithm.bonds();
    let ids = Seq::new(bonds.len(), |k: int| spins@[k] as int);
    assert forall|u: int, v: int| #[trigger] links(cols, bonds, u, v) implies ids[u] == ids[v] by {
        lemma_links_join_equal_spins(algorithm, spins, u, v);
    }
    assert(algorithm.cluster_ids()[a] == algorithm.cluster_ids()[b]);
    assert(connected(cols, bonds, a, b));
    lemma_connected_keeps_id(cols, bonds, ids, a, b);
}

/// With bond probability zero the pass leaves as many clusters as sites: no
/// two sites share a cluster.
pub proof fn lemma_no_bonds_give_singletons(algorithm: &SwendsenWangAlgorithm, spins: &IsingArray2D)
    requires
        algorithm.fits_lattice(spins),
        algorithm.no_bond_active(spins),
    ensures
        algorithm.all_singletons(),
{
    let cols = algorithm.spec_cols();
    let bonds = algorithm.bonds();
    assert forall|a: int, b: int|
        0 <= a < algorithm.num_sites() && 0 <= b < algorithm.num_sites() && a
            != b implies !#[trigger] algorithm.same_cluster(
        a,
        b,
    ) by {
        if algorithm.same_cluster(a, b) {
            assert(algorithm.cluster_ids()[a] == algorithm.cluster_ids()[b]);
            assert(connected(cols, bonds, a, b));
        }
    }
}

/// The two ends of an activated bond are in the same cluster.
proof fn lemma_links_share_cluster(algorithm: &SwendsenWangAlgorithm, u: int, v: int)
    requires
        algorithm.wf(),
        links(algorithm.spec_cols(), algorithm.bonds(), u, v),
    ensures
        algorithm.same_cluster(u, v),
{
    lemma_bonded_connected(algorithm.spec_cols(), algorithm.bonds(), u, v);
}

/// With bond probability one every two periodic neighbours with equal spins
/// end up in the same cluster.
pub proof fn lemma_all_bonds_merge_equal_neighbours(
    algorithm: &SwendsenWangAlgorithm,
    spins: &IsingArray2D,
)
    requires
        algorithm.fits_lattice(spins),
        algorithm.every_bond_active(spins),
    ensures
        algorithm.equal_neighbours_merged(spins),
{
    let rows = spins.spec_rows();
    let cols = spins.spec_cols();
    let bonds = algorithm.bonds();
    assert forall|y: int, x: int|
        #![trigger site_index(spins.spec_cols(), y, x)]
        spins.in_range(y, x) implies {
        &&& spins.spin(y, x) == spins.spin_periodic(y, x + 1) ==> algorithm.same_cluster(
            site_index(spins.spec_cols(), y, x),
            site_index(spins.spec_cols(), y, (x + 1) % spins.spec_cols()),
        )
        &&& spins.spin(y, x) == spins.spin_periodic(y + 1, x) ==> algorithm.same_cluster(
            site_index(spins.spec_cols(), y, x),
            site_index(spins.spec_cols(), (y + 1) % spins.spec_rows(), x),
        )
    } by {
        let k = site_index(cols, y, x);
        lemma_site_index_in_range(rows, cols, y, x);
        lemma_row_col_of_site(cols, y, x);
        lemma_small_mod(y as nat, rows as nat);
        lemma_small_mod(x as nat, cols as nat);
        if spins.spin(y, x) == spins.spin_periodic(y, x + 1) {
            if x + 1 < cols {
                lemma_small_mod((x + 1) as nat, cols as nat);
                lemma_row_col_of_site(cols, y, x + 1);
                lemma_site_index_in_range(rows, cols, y, x + 1);
                assert(bonds[k + 1] == candidate_bonds(spins, k + 1));
                assert(links(cols, bonds, k + 1, k));
                lemma_links_share_cluster(algorithm, k + 1, k);
            } else {
                lemma_mod_self_0(cols);
                assert(links(cols, bonds, k, k - x));
                lemma_links_share_cluster(algorithm, k, k - x);
            }
        }
        if spins.spin(y, x) == spins.spin_periodic(y + 1, x) {
            if y + 1 < rows {
                lemma_small_mod((y + 1) as nat, rows as nat);
                lemma_row_col_of_site(cols, y + 1, x);
                lemma_site_index_in_range(rows, cols, y + 1, x);
                assert((y + 1) * cols == y * cols + cols) by (nonlinear_arith);
                assert(bonds[k + cols] == candidate_bonds(spins, k + cols));
                assert(links(cols, bonds, k + cols, k));
                lemma_links_share_cluster(algorithm, k + cols, k);
            } else {
                lemma_mod_self_0(rows);
                assert(links(cols, bonds, k, x));
                lemma_links_share_cluster(algorithm, k, x);
            }
        }
    }
}

/// On a lattice of equal spins with every bond activated, each site is in
/// the cluster of the first site.
proof fn lemma_uniform_site_joins_first(
    algorithm: &SwendsenWangAlgorithm,
    spins: &IsingArray2D,
    a: int,
)
    requires
        algorithm.fits_lattice(spins),
        algorithm.every_bond_active(spins),
        spins.is_uniform(),
        0 <= a < spins.num_sites(),
    ensures
        algorithm.same_cluster(a, 0),
    decreases a,
{
    if a > 0 {
        let rows = spins.spec_rows();
        let cols = spins.spec_cols();
        let bonds = algorithm.bonds();
        lemma_site_of_offset(rows, cols, a);
        let y = a / cols;
        let x = a % cols;
        assert(bonds[a] == candidate_bonds(spins, a));
        assert((y - 1) * cols == y * cols - cols) by (nonlinear_arith);
        if x > 0 {
            assert(site_index(cols, y, x - 1) == a - 1);
            assert(spins@[a] == spins@[0] && spins@[a - 1] == spins@[0]);
            lemma_links_share_cluster(algorithm, a, a - 1);
            lemma_uniform_site_joins_first(algorithm, spins, a - 1);
        } else {
            assert(site_index(cols, y - 1, x) == a - cols);
            assert(0 <= (y - 1) * cols) by (nonlinear_arith)
                requires
                    y >= 1,
                    cols >= 0,
            ;
            lemma_links_share_cluster(algorithm, a, a - cols);
            lemma_uniform_site_joins_first(algorithm, spins, a - cols);
        }
    }
}

/// A lattice of equal spins with every bond activated is a single cluster.
pub proof fn lemma_uniform_lattice_is_one_cluster(
    algorithm: &SwendsenWangAlgorithm,
    spins: &IsingArray2D,
)
    requires
        algorithm.fits_lattice(spins),
        algorithm.every_bond_active(spins),
        spins.is_uniform(),
    ensures
        forall|a: int, b: int|
            0 <= a < spins.num_sites() && 0 <= b < spins.num_sites()
                ==> #[trigger] algorithm.same_cluster(a, b),
{
    assert forall|a: int, b: int|
        0 <= a < spins.num_sites() && 0 <= b
            < spins.num_sites() implies #[trigger] algorithm.same_cluster(
        a,
        b,
    ) by {
        lemma_uniform_site_joins_first(algorithm, spins, a);
        lemma_uniform_site_joins_first(algorithm, spins, b);
    }
}

/// The sum over the first `m` spins of a lattice of equal spins.
proof fn lemma_uniform_spin_sum(spins: &IsingArray2D, m: int)
    requires
        spins.wf(),
        spins.is_uniform(),
        0 <= m <= spins.num_sites(),
    ensures
        spins.spin_sum_upto(m) == m * spins@[0],
    decreases m,
{
    if m > 0 {
        lemma_uniform_spin_sum(spins, m - 1);
        assert(spins@[m - 1] == spins@[0]);
        assert((m - 1) * spins@[0] + spins@[0] == m * spins@[0]) by (nonlinear_arith);
    }
}

/// The total spin of a lattice of equal spins has as magnitude the number of
/// sites.
pub proof fn lemma_uniform_magnetization(spins: &IsingArray2D)
    requires
        spins.wf(),
        spins.is_uniform(),
    ensures
        vstd::math::abs(spins.total_spin()) == spins.num_sites(),
{
    let n = spins.num_sites();
    lemma_uniform_spin_sum(spins, n);
    if n > 0 {
        assert(spins@[0] == 1 || spins@[0] == -1);
    }
}

/// A sweep at bond probability one keeps a lattice of equal spins a lattice
/// of equal spins: it forms one cluster, which flips as a whole or not at
/// all, so the magnitude of the total spin stays the number of sites.
pub proof fn lemma_uniform_lattice_flips_as_a_whole(
    algorithm: &SwendsenWangAlgorithm,
    before: &IsingArray2D,
    after: &IsingArray2D,
)
    requires
        algorithm.fits_lattice(before),
        algorithm.every_bond_active(before),
        before.is_uniform(),
        after.wf(),
        algorithm.flipped(before, after),
    ensures
        after.is_uniform(),
        vstd::math::abs(after.total_spin()) == after.num_sites(),
        vstd::math::abs(after.total_spin()) == vstd::math::abs(before.total_spin()),
{
    lemma_uniform_lattice_is_one_cluster(algorithm, before);
    assert forall|k: int| 0 <= k < after@.len() implies #[trigger] after@[k] == after@[0] by {
        assert(algorithm.same_cluster(k, 0));
    }
    lemma_uniform_magnetization(after);
    lemma_uniform_magnetization(before);
}

/// Sites of one cluster flip together: either both are negated or neither.
pub proof fn lemma_cluster_flips_together(
    algorithm: &SwendsenWangAlgorithm,
    before: &IsingArray2D,
    after: &IsingArray2D,
    a: int,
    b: int,
)
    requires
        before.wf(),
        algorithm.flipped(before, after),
        0 <= a < before.num_sites(),
        0 <= b < before.num_sites(),
        algorithm.same_cluster(a, b),
    ensures
        after@[a] == -before@[a] <==> after@[b] == -before@[b],
        after@[a] == before@[a] <==> after@[b] == before@[b],
{
}

/// Energy of the bonds owned by the first `m` sites of a lattice of spins
/// that are all up.
proof fn lemma_polarized_energy_upto(spins: &IsingArray2D, m: int)
    requires
        spins.wf(),
        spins.is_polarized(),
        0 <= m <= spins.num_sites(),
    ensures
        spins.energy_upto(m) == -2 * m,
    decreases m,
{
    if m > 0 {
        lemma_polarized_energy_upto(spins, m - 1);
        let rows = spins.spec_rows();
        let cols = spins.spec_cols();
        let k = m - 1;
        lemma_site_of_offset(rows, cols, k);
        let y = k / cols;
        let x = k % cols;
        vstd::arithmetic::div_mod::lemma_mod_bound(x + 1, cols);
        vstd::arithmetic::div_mod::lemma_mod_bound(y, rows);
        vstd::arithmetic::div_mod::lemma_mod_bound(x, cols);
        lemma_site_index_in_range(rows, cols, (y + 1) % rows, x % cols);
        lemma_site_index_in_range(rows, cols, y % rows, (x + 1) % cols);
    }
}

/// A lattice of spins that are all up has two aligned bonds per site: its
/// energy is minus twice the number of sites, in units of the coupling
/// constant, and its total spin is the number of sites.
pub proof fn lemma_polarized_observables(spins: &IsingArray2D)
    requires
        spins.wf(),
        spins.is_polarized(),
    ensures
        spins.total_energy() == -2 * spins.num_sites(),
        spins.total_spin() == spins.num_sites(),
{
    let n = spins.num_sites();
    lemma_polarized_energy_upto(spins, n);
    lemma_uniform_spin_sum(spins, n);
    if n > 0 {
        assert(spins@[0] == 1);
    }
}

} // verus!
