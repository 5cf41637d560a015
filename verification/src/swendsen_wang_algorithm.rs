//! The Swendsen-Wang update: cluster building in one raster pass over the
//! lattice, and cluster-wise flipping.

use crate::cluster_graph::{
    lemma_add_bond,
    lemma_add_bonded_site,
    lemma_add_isolated_site,
    links,
    partition_matches,
    SiteBonds,
};
use crate::equivalence_class::lemma_root_of_is_root;
use crate::ising_array_2d::site_index;
use crate::random_source::{draw_coin, BondProbability};
use vstd::arithmetic::div_mod::{
    lemma_fundamental_div_mod_converse_div,
    lemma_fundamental_div_mod_converse_mod,
};
use vstd::prelude::*;

pub use crate::cluster_labels::ClusterLabels;
pub use crate::equivalence_class::EquivalenceClass;
pub use crate::ising_array_2d::IsingArray2D;

verus! {

/// The bonds that the site with offset `k` may activate: those to the
/// neighbours that carry the same spin.
pub open spec fn candidate_bonds(spins: &IsingArray2D, k: int) -> SiteBonds {
    let y = spins.row_of(k);
    let x = spins.col_of(k);
    SiteBonds {
        left: x > 0 && spins.spin(y, x) == spins.spin(y, x - 1),
        above: y > 0 && spins.spin(y, x) == spins.spin(y - 1, x),
        wrap_down: y == spins.spec_rows() - 1 && spins.spin(y, x) == spins.spin(0, x),
        wrap_right: x == spins.spec_cols() - 1 && spins.spin(y, x) == spins.spin(y, 0),
    }
}

/// A site with offset `y * cols + x` lies in row `y` and column `x`.
pub proof fn lemma_row_col_of_site(cols: int, y: int, x: int)
    requires
        0 <= x < cols,
    ensures
        site_index(cols, y, x) / cols == y,
        site_index(cols, y, x) % cols == x,
{
    lemma_fundamental_div_mod_converse_div(site_index(cols, y, x), cols, y, x);
    lemma_fundamental_div_mod_converse_mod(site_index(cols, y, x), cols, y, x);
}

/// Draws the bonds of the site at `pos`: one draw for each neighbour with
/// the same spin, in the order left, above, bottom to top, right edge to left
/// edge.  A neighbour with the other spin costs no draw.
pub fn draw_site_bonds(
    spins: &IsingArray2D,
    rng: &mut rand::rngs::SmallRng,
    proba_add: BondProbability,
    pos: (i32, i32),
) -> (bonds: SiteBonds)
    requires
        spins.wf(),
        spins.in_range(pos.0 as int, pos.1 as int),
        proba_add.wf(),
    ensures
        bonds.within(
            candidate_bonds(spins, site_index(spins.spec_cols(), pos.0 as int, pos.1 as int)),
        ),
        proba_add.is_never() ==> bonds.is_none(),
        proba_add.is_always() ==> bonds == candidate_bonds(
            spins,
            site_index(spins.spec_cols(), pos.0 as int, pos.1 as int),
        ),
{
    proof {
        lemma_row_col_of_site(spins.spec_cols(), pos.0 as int, pos.1 as int);
    }
    let (ly, lx) = spins.shape();
    let s = spins.at_pos(pos);

    let left = (pos.0, pos.1 - 1);
    let above = (pos.0 - 1, pos.1);
    let left_edge = (pos.0, 0);
    let top = (0, pos.1);

    let left_spin: i8 = if pos.1 > 0 { spins.at_pos(left) } else { 0 };
    let above_spin: i8 = if pos.0 > 0 { spins.at_pos(above) } else { 0 };
    let top_spin = spins.at_pos(top);
    let left_edge_spin = spins.at_pos(left_edge);

    let mut bonds = SiteBonds::inactive();
    if s == left_spin {
        bonds.left = proba_add.draw(rng);
    }
    if s == above_spin {
        bonds.above = proba_add.draw(rng);
    }
    if pos.0 == ly - 1 && s == top_spin {
        bonds.wrap_down = proba_add.draw(rng);
    }
    if pos.1 == lx - 1 && s == left_edge_spin {
        bonds.wrap_right = proba_add.draw(rng);
    }
    bonds
}

/// State of the cluster update of one lattice: the label of every site, the
/// classes of the labels, and one flip decision per cluster.
pub struct SwendsenWangAlgorithm {
    labels: ClusterLabels,
    eq_classes: EquivalenceClass,
    cluster_flip_choices: Vec<Option<bool>>,
    /// Whether the flip pass also returns the column sums of the spins, from
    /// which the Fourier amplitudes along a row follow.
    pub take_fourier_transform: bool,
    bonds: Ghost<Seq<SiteBonds>>,
}

impl SwendsenWangAlgorithm {
    /// The label of every site.
    pub closed spec fn labels(&self) -> ClusterLabels {
        self.labels
    }

    /// The classes into which the labels have been merged.
    pub closed spec fn classes(&self) -> EquivalenceClass {
        self.eq_classes
    }

    /// The flip decision of every cluster, by its canonical label minus one;
    /// `None` where none has been drawn.
    pub closed spec fn flip_choices(&self) -> Seq<Option<bool>> {
        self.cluster_flip_choices@
    }

    /// The bonds activated at the sites labelled so far in this sweep, in
    /// row-major order.
    pub closed spec fn bonds(&self) -> Seq<SiteBonds> {
        self.bonds@
    }

    /// Whether the flip pass is set to measure.
    pub closed spec fn measures(&self) -> bool {
        self.take_fourier_transform
    }

    /// Number of rows of the lattice.
    pub open spec fn spec_rows(&self) -> int {
        self.labels().spec_rows() as int
    }

    /// Number of columns of the lattice.
    pub open spec fn spec_cols(&self) -> int {
        self.labels().spec_cols() as int
    }

    /// Number of sites of the lattice.
    pub open spec fn num_sites(&self) -> int {
        self.labels().num_sites() as int
    }

    /// Canonical label of the cluster of the site with offset `k`.
    pub open spec fn cluster_of(&self, k: int) -> int {
        self.classes().root(self.labels()@[k] as int)
    }

    /// The two sites belong to the same cluster.
    pub open spec fn same_cluster(&self, a: int, b: int) -> bool {
        self.cluster_of(a) == self.cluster_of(b)
    }

    /// Canonical labels of the sites labelled so far in this sweep.
    pub open spec fn cluster_ids(&self) -> Seq<int> {
        Seq::new(self.bonds().len(), |k: int| self.cluster_of(k))
    }

    /// The state is consistent: every site holds a label of the forest, only
    /// created labels have been merged, the sites labelled in this sweep hold
    /// created labels, and two of them are in the same cluster exactly when
    /// a chain of activated bonds joins them.
    pub open spec fn wf(&self) -> bool {
        &&& self.labels().wf()
        &&& self.classes().wf()
        &&& self.classes().is_tidy()
        &&& self.classes().capacity() == self.num_sites()
        &&& self.flip_choices().len() == self.num_sites()
        &&& forall|k: int|
            0 <= k < self.num_sites() ==> self.classes().is_label(
                #[trigger] self.labels()@[k] as int,
            )
        &&& self.bonds().len() <= self.num_sites()
        &&& self.classes().num_classes() <= self.bonds().len()
        &&& forall|k: int|
            0 <= k < self.bonds().len() ==> self.classes().is_created(
                #[trigger] self.labels()@[k] as int,
            )
        &&& partition_matches(self.cluster_ids(), self.spec_cols(), self.bonds())
    }

    /// Nothing has been labelled and no flip decision drawn: the state right
    /// after construction.
    pub open spec fn is_reset(&self) -> bool {
        &&& self.labels().is_unlabeled()
        &&& self.classes().is_fresh()
        &&& self.flip_choices() =~= Seq::new(self.num_sites() as nat, |c: int| None::<bool>)
        &&& self.bonds() =~= Seq::<SiteBonds>::empty()
    }

    /// The state is consistent and belongs to a lattice of the shape of
    /// `spins`.
    pub open spec fn fits_lattice(&self, spins: &IsingArray2D) -> bool {
        &&& self.wf()
        &&& spins.wf()
        &&& self.spec_rows() == spins.spec_rows()
        &&& self.spec_cols() == spins.spec_cols()
    }

    /// The bonds activated so far were all drawn between equal spins of
    /// `spins`.
    pub open spec fn bonds_respect_spins(&self, spins: &IsingArray2D) -> bool {
        forall|k: int|
            0 <= k < self.bonds().len() ==> (#[trigger] self.bonds()[k]).within(
                candidate_bonds(spins, k),
            )
    }

    /// Every site of `spins` has been visited and no bond was activated.
    pub open spec fn no_bond_active(&self, spins: &IsingArray2D) -> bool {
        &&& self.bonds().len() == spins.num_sites()
        &&& forall|k: int| 0 <= k < self.bonds().len() ==> (#[trigger] self.bonds()[k]).is_none()
    }

    /// Every site of `spins` has been visited and every bond between equal
    /// neighbouring spins was activated.
    pub open spec fn every_bond_active(&self, spins: &IsingArray2D) -> bool {
        &&& self.bonds().len() == spins.num_sites()
        &&& forall|k: int|
            0 <= k < self.bonds().len() ==> #[trigger] self.bonds()[k] == candidate_bonds(spins, k)
    }

    /// Every site is a cluster of its own.
    pub open spec fn all_singletons(&self) -> bool {
        forall|a: int, b: int|
            0 <= a < self.num_sites() && 0 <= b < self.num_sites() && a != b
                ==> !#[trigger] self.same_cluster(a, b)
    }

    /// Every two periodic neighbours with equal spins are in the same
    /// cluster.
    pub open spec fn equal_neighbours_merged(&self, spins: &IsingArray2D) -> bool {
        forall|y: int, x: int|
            #![trigger site_index(spins.spec_cols(), y, x)]
            spins.in_range(y, x) ==> {
                &&& spins.spin(y, x) == spins.spin_periodic(y, x + 1) ==> self.same_cluster(
                    site_index(spins.spec_cols(), y, x),
                    site_index(spins.spec_cols(), y, (x + 1) % spins.spec_cols()),
                )
                &&& spins.spin(y, x) == spins.spin_periodic(y + 1, x) ==> self.same_cluster(
                    site_index(spins.spec_cols(), y, x),
                    site_index(spins.spec_cols(), (y + 1) % spins.spec_rows(), x),
                )
            }
    }

    /// Index of the flip decision that governs the site with offset `k`:
    /// the canonical label of its cluster, counted from zero.
    pub open spec fn cluster_index(&self, k: int) -> int {
        self.cluster_of(k) - 1
    }

    /// The flip decision drawn for the cluster of the site with offset `k`.
    pub open spec fn flip_choice_of(&self, k: int) -> Option<bool> {
        self.flip_choices()[self.cluster_index(k)]
    }

    /// `after` is `before` with exactly those sites negated whose cluster
    /// holds the decision to flip.
    pub open spec fn flipped(&self, before: &IsingArray2D, after: &IsingArray2D) -> bool {
        &&& after.spec_rows() == before.spec_rows()
        &&& after.spec_cols() == before.spec_cols()
        &&& forall|k: int|
            0 <= k < before.num_sites() ==> #[trigger] after@[k] == if self.flip_choice_of(k)
                == Some(true) {
                -before@[k]
            } else {
                before@[k] as int
            }
    }

    /// The site in row `y` and column `x` is the next one to label in
    /// row-major order.
    pub open spec fn is_next_site(&self, y: int, x: int) -> bool {
        &&& 0 <= y < self.spec_rows()
        &&& 0 <= x < self.spec_cols()
        &&& self.bonds().len() == site_index(self.spec_cols(), y, x)
    }

    /// Everything but the labelling of the current sweep is as in `before`.
    pub open spec fn same_setup_as(&self, before: &Self) -> bool {
        &&& self.spec_rows() == before.spec_rows()
        &&& self.spec_cols() == before.spec_cols()
        &&& self.flip_choices() == before.flip_choices()
        &&& self.measures() == before.measures()
    }

    /// A state that was reset cannot be told from a new one for the same
    /// lattice: labels, classes, flip decisions and bonds are the same.
    pub proof fn lemma_reset_states_agree(&self, other: &Self)
        requires
            self.wf(),
            other.wf(),
            self.is_reset(),
            other.is_reset(),
            self.spec_rows() == other.spec_rows(),
            self.spec_cols() == other.spec_cols(),
        ensures
            self.labels()@ == other.labels()@,
            self.classes()@ == other.classes()@,
            self.flip_choices() == other.flip_choices(),
            self.bonds() == other.bonds(),
            forall|k: int| self.cluster_of(k) == other.cluster_of(k),
    {
        self.labels().lemma_unlabeled_grids_agree(&other.labels());
        self.classes().lemma_fresh_forests_agree(&other.classes());
    }

    /// State for a lattice of `rows` by `cols` sites, with nothing labelled.
    pub fn new(rows: usize, cols: usize) -> (algorithm: Self)
        requires
            rows * cols < usize::MAX,
        ensures
            algorithm.wf(),
            algorithm.spec_rows() == rows,
            algorithm.spec_cols() == cols,
            algorithm.is_reset(),
            !algorithm.measures(),
    {
        let labels = ClusterLabels::new(rows, cols);
        let eq_classes = EquivalenceClass::new(rows * cols);

        let cluster_flip_choices: Vec<Option<bool>> = Self::unset_choices(rows * cols);
        let take_fourier_transform = false;

        let algorithm = Self {
            labels,
            eq_classes,
            cluster_flip_choices,
            take_fourier_transform,
            bonds: Ghost(Seq::empty()),
        };
        proof {
            Self::lemma_empty_partition(cols as int);
        }
        algorithm
    }

    /// `len` flip decisions, none of them drawn.
    fn unset_choices(len: usize) -> (choices: Vec<Option<bool>>)
        ensures
            choices@ =~= Seq::new(len as nat, |c: int| None::<bool>),
    {
        let mut choices: Vec<Option<bool>> = Vec::new();
        let mut c: usize = 0;
        while c < len
            invariant
                c <= len,
                choices@.len() == c,
                forall|i: int| 0 <= i < c ==> choices@[i] == None::<bool>,
            decreases len - c,
        {
            choices.push(None);
            c += 1;
        }
        choices
    }

    /// Before any site is visited there is nothing to connect.
    proof fn lemma_empty_partition(cols: int)
        ensures
            partition_matches(Seq::<int>::empty(), cols, Seq::<SiteBonds>::empty()),
    {
    }

    /// Forgets all decisions drawn for the clusters.
    #[inline(always)]
    fn reset_cluster_flip_probabilities(&mut self)
        ensures
            final(self).cluster_flip_choices@ =~= Seq::new(
                old(self).cluster_flip_choices@.len(),
                |c: int| None::<bool>,
            ),
            final(self).labels == old(self).labels,
            final(self).eq_classes == old(self).eq_classes,
            final(self).bonds == old(self).bonds,
            final(self).take_fourier_transform == old(self).take_fourier_transform,
    {
        let len: usize = self.cluster_flip_choices.len();
        let mut c: usize = 0;
        while c < len
            invariant
                c <= len,
                self.cluster_flip_choices@.len() == len,
                forall|i: int| 0 <= i < c ==> self.cluster_flip_choices@[i] == None::<bool>,
                self.labels == old(self).labels,
                self.eq_classes == old(self).eq_classes,
                self.bonds == old(self).bonds,
                self.take_fourier_transform == old(self).take_fourier_transform,
            decreases len - c,
        {
            self.cluster_flip_choices.set(c, None);
            c += 1;
        }
    }

    /// The next site joins the cluster of the site above it.
    #[inline(always)]
    fn merge_clusters_above(&mut self, pos: (i32, i32), above: (i32, i32))
        requires
            old(self).wf(),
            old(self).is_next_site(pos.0 as int, pos.1 as int),
            pos.0 > 0,
            above.0 == pos.0 - 1,
            above.1 == pos.1,
        ensures
            final(self).wf(),
            final(self).same_setup_as(old(self)),
            final(self).bonds() == old(self).bonds().push(
                (SiteBonds { left: false, above: true, wrap_down: false, wrap_right: false }),
            ),
    {
        let ghost cols = self.spec_cols();
        let ghost k = site_index(cols, pos.0 as int, pos.1 as int);
        proof {
            crate::ising_array_2d::lemma_site_index_in_range(
                self.spec_rows(),
                cols,
                pos.0 as int,
                pos.1 as int,
            );
            assert((pos.0 - 1) * cols == pos.0 * cols - cols) by (nonlinear_arith);
        }
        let above_label = self.labels.at_pos(above);
        let cluster_label = self.eq_classes.find(above_label);
        self.labels.set(pos, cluster_label);
        proof {
            self.lemma_site_joins(old(self), k - cols, SiteBonds {
                left: false,
                above: true,
                wrap_down: false,
                wrap_right: false,
            });
        }
        self.bonds = Ghost(
            self.bonds@.push(
                SiteBonds { left: false, above: true, wrap_down: false, wrap_right: false },
            ),
        );
    }

    /// The next site joins the cluster of the site to its left, whose label
    /// is `left_label`.
    #[inline(always)]
    fn merge_clusters_left(&mut self, pos: (i32, i32), left_label: usize)
        requires
            old(self).wf(),
            old(self).is_next_site(pos.0 as int, pos.1 as int),
            pos.1 > 0,
            left_label == old(self).labels()@[old(self).bonds().len() - 1],
        ensures
            final(self).wf(),
            final(self).same_setup_as(old(self)),
            final(self).bonds() == old(self).bonds().push(
                (SiteBonds { left: true, above: false, wrap_down: false, wrap_right: false }),
            ),
    {
        let ghost cols = self.spec_cols();
        let ghost k = site_index(cols, pos.0 as int, pos.1 as int);
        proof {
            crate::ising_array_2d::lemma_site_index_in_range(
                self.spec_rows(),
                cols,
                pos.0 as int,
                pos.1 as int,
            );
        }
        let cluster_label = self.eq_classes.find(left_label);
        self.labels.set(pos, cluster_label);
        proof {
            self.lemma_site_joins(old(self), k - 1, SiteBonds {
                left: true,
                above: false,
                wrap_down: false,
                wrap_right: false,
            });
        }
        self.bonds = Ghost(
            self.bonds@.push(
                SiteBonds { left: true, above: false, wrap_down: false, wrap_right: false },
            ),
        );
    }

    /// After the next site received the canonical label of the earlier site
    /// `v`, to which alone `site_bonds` links it, the state extended by
    /// `site_bonds` is consistent.
    proof fn lemma_site_joins(&self, before: &Self, v: int, site_bonds: SiteBonds)
        requires
            before.wf(),
            before.bonds().len() < before.num_sites(),
            0 <= v < before.bonds().len(),
            self.classes() == before.classes(),
            self.labels().wf(),
            self.labels().spec_rows() == before.labels().spec_rows(),
            self.labels().spec_cols() == before.labels().spec_cols(),
            self.labels()@ == before.labels()@.update(
                before.bonds().len() as int,
                before.cluster_of(v) as usize,
            ),
            self.flip_choices() == before.flip_choices(),
            self.bonds() == before.bonds(),
            forall|p: int| #[trigger]
                links(
                    before.spec_cols(),
                    before.bonds().push(site_bonds),
                    before.bonds().len() as int,
                    p,
                ) <==> p == v,
        ensures
            ({
                let after = Self {
                    labels: self.labels,
                    eq_classes: self.eq_classes,
                    cluster_flip_choices: self.cluster_flip_choices,
                    take_fourier_transform: self.take_fourier_transform,
                    bonds: Ghost(before.bonds().push(site_bonds)),
                };
                after.wf()
            }),
    {
        let after = Self {
            labels: self.labels,
            eq_classes: self.eq_classes,
            cluster_flip_choices: self.cluster_flip_choices,
            take_fourier_transform: self.take_fourier_transform,
            bonds: Ghost(before.bonds().push(site_bonds)),
        };
        let ids = before.cluster_ids();
        lemma_root_of_is_root(before.classes()@, before.labels()@[v] as int);
        lemma_add_bonded_site(before.spec_cols(), before.bonds(), ids, site_bonds, v);
        assert forall|k: int| 0 <= k < after.bonds().len() implies after.classes().is_created(
            #[trigger] after.labels()@[k] as int,
        ) by {}
        assert forall|k: int| 0 <= k < after.num_sites() implies after.classes().is_label(
            #[trigger] after.labels()@[k] as int,
        ) by {}
    }

    /// The next site joins the clusters of the site above it and of the
    /// site to its left, whose label is `left_label`, and thereby merges the
    /// two.
    #[inline(always)]
    fn merge_clusters_above_and_left(
        &mut self,
        pos: (i32, i32),
        above: (i32, i32),
        left_label: usize,
    )
        requires
            old(self).wf(),
            old(self).is_next_site(pos.0 as int, pos.1 as int),
            pos.0 > 0,
            pos.1 > 0,
            above.0 == pos.0 - 1,
            above.1 == pos.1,
            left_label == old(self).labels()@[old(self).bonds().len() - 1],
        ensures
            final(self).wf(),
            final(self).same_setup_as(old(self)),
            final(self).bonds() == old(self).bonds().push(
                (SiteBonds { left: true, above: true, wrap_down: false, wrap_right: false }),
            ),
    {
        let ghost cols = self.spec_cols();
        let ghost k = site_index(cols, pos.0 as int, pos.1 as int);
        let ghost only_left = SiteBonds {
            left: true,
            above: false,
            wrap_down: false,
            wrap_right: false,
        };
        let ghost both = SiteBonds { left: true, above: true, wrap_down: false, wrap_right: false };
        proof {
            crate::ising_array_2d::lemma_site_index_in_range(
                self.spec_rows(),
                cols,
                pos.0 as int,
                pos.1 as int,
            );
            assert((pos.0 - 1) * cols == pos.0 * cols - cols) by (nonlinear_arith);
        }
        let above_label = self.labels.at_pos(above);
        let label = self.eq_classes.union_get_label(above_label, left_label);
        self.labels.set(pos, label);
        self.bonds = Ghost(self.bonds@.push(both));
        proof {
            let before = old(self);
            let ids = before.cluster_ids();
            let joined_ids = ids.push(ids[k - 1]);
            let joined = before.bonds().push(only_left);
            lemma_add_bonded_site(cols, before.bonds(), ids, only_left, k - 1);
            lemma_root_of_is_root(before.classes()@, above_label as int);
            lemma_root_of_is_root(before.classes()@, left_label as int);
            assert forall|a: int| 0 <= a < joined_ids.len() implies #[trigger] self.cluster_ids()[a]
                == if joined_ids[a] == joined_ids[k] || joined_ids[a] == joined_ids[k - cols] {
                label as int
            } else {
                joined_ids[a]
            } by {}
            lemma_add_bond(
                cols,
                joined,
                joined_ids,
                self.bonds(),
                self.cluster_ids(),
                k,
                k - cols,
                label as int,
            );
        }
    }

    /// The next site starts a cluster of its own.
    #[inline(always)]
    fn make_new_cluster(&mut self, pos: (i32, i32))
        requires
            old(self).wf(),
            old(self).is_next_site(pos.0 as int, pos.1 as int),
        ensures
            final(self).wf(),
            final(self).same_setup_as(old(self)),
            final(self).bonds() == old(self).bonds().push(SiteBonds::none()),
    {
        let ghost cols = self.spec_cols();
        proof {
            crate::ising_array_2d::lemma_site_index_in_range(
                self.spec_rows(),
                cols,
                pos.0 as int,
                pos.1 as int,
            );
        }
        let new_class = self.eq_classes.create_class();
        self.labels.set(pos, new_class);
        self.bonds = Ghost(self.bonds@.push(SiteBonds::none()));
        proof {
            let before = old(self);
            let ids = before.cluster_ids();
            assert forall|a: int| 0 <= a < ids.len() implies ids[a] != new_class by {
                lemma_root_of_is_root(before.classes()@, before.labels()@[a] as int);
            }
            lemma_add_isolated_site(cols, before.bonds(), ids, new_class as int);
        }
    }

    /// Joins the cluster of the site at `pos`, the last one labelled, with
    /// that of the earlier site `other_side`, across the bond that closes
    /// the lattice periodically; `closed` are the bonds of the site with that
    /// bond added.
    #[inline(always)]
    fn merge_clusters_pbc(
        &mut self,
        pos: (i32, i32),
        other_side: (i32, i32),
        Ghost(closed): Ghost<SiteBonds>,
    )
        requires
            old(self).wf(),
            0 <= pos.0 < old(self).spec_rows(),
            0 <= pos.1 < old(self).spec_cols(),
            old(self).bonds().len() == site_index(
                old(self).spec_cols(),
                pos.0 as int,
                pos.1 as int,
            ) + 1,
            0 <= other_side.0 <= pos.0,
            0 <= other_side.1 <= pos.1,
            forall|a: int, p: int| #[trigger]
                links(
                    old(self).spec_cols(),
                    old(self).bonds().update(old(self).bonds().len() - 1, closed),
                    a,
                    p,
                ) <==> links(old(self).spec_cols(), old(self).bonds(), a, p) || (a == old(self)
                    .bonds().len() - 1 && p == site_index(
                    old(self).spec_cols(),
                    other_side.0 as int,
                    other_side.1 as int,
                )),
        ensures
            final(self).wf(),
            final(self).same_setup_as(old(self)),
            final(self).bonds() == old(self).bonds().update(old(self).bonds().len() - 1, closed),
    {
        let ghost cols = self.spec_cols();
        let ghost k = site_index(cols, pos.0 as int, pos.1 as int);
        let ghost v = site_index(cols, other_side.0 as int, other_side.1 as int);
        proof {
            crate::ising_array_2d::lemma_site_index_in_range(
                self.spec_rows(),
                cols,
                pos.0 as int,
                pos.1 as int,
            );
            assert(other_side.0 * cols <= pos.0 * cols) by (nonlinear_arith)
                requires
                    0 <= other_side.0 <= pos.0,
                    0 <= cols,
            ;
        }
        let other_side_label = self.labels.at_pos(other_side);
        let current_label = self.labels.at_pos(pos);

        let label = self.eq_classes.union_get_label(current_label, other_side_label);
        self.labels.set(pos, label);
        self.bonds = Ghost(self.bonds@.update(self.bonds@.len() - 1, closed));
        proof {
            let before = old(self);
            let ids = before.cluster_ids();
            lemma_root_of_is_root(before.classes()@, current_label as int);
            lemma_root_of_is_root(before.classes()@, other_side_label as int);
            assert forall|a: int| 0 <= a < ids.len() implies #[trigger] self.cluster_ids()[a]
                == if ids[a] == ids[k] || ids[a] == ids[v] {
                label as int
            } else {
                ids[a]
            } by {}
            lemma_add_bond(
                cols,
                before.bonds(),
                ids,
                self.bonds(),
                self.cluster_ids(),
                k,
                v,
                label as int,
            );
        }
    }

    /// Labels the next site in row-major order, at `pos`, given the bonds
    /// that it activates.
    ///
    /// A site without a bond to the left or above starts a new cluster; a
    /// bond joins the site to the cluster at its other end, and two bonds
    /// that lead to different clusters merge them.
    pub fn link_site(&mut self, pos: (i32, i32), site_bonds: SiteBonds)
        requires
            old(self).wf(),
            old(self).is_next_site(pos.0 as int, pos.1 as int),
            site_bonds.fits(
                old(self).spec_rows(),
                old(self).spec_cols(),
                pos.0 as int,
                pos.1 as int,
            ),
        ensures
            final(self).wf(),
            final(self).same_setup_as(old(self)),
            final(self).bonds() == old(self).bonds().push(site_bonds),
    {
        let ghost cols = self.spec_cols();
        let ghost down_bonds = SiteBonds {
            left: site_bonds.left,
            above: site_bonds.above,
            wrap_down: site_bonds.wrap_down,
            wrap_right: false,
        };
        proof {
            lemma_row_col_of_site(cols, pos.0 as int, pos.1 as int);
            crate::ising_array_2d::lemma_site_index_in_range(
                self.spec_rows(),
                cols,
                pos.0 as int,
                pos.1 as int,
            );
        }
        let left = (pos.0, pos.1 - 1);
        let above = (pos.0 - 1, pos.1);
        let left_edge = (pos.0, 0);
        let top = (0, pos.1);

        if site_bonds.left {
            let left_label = self.labels.at_pos(left);
            if site_bonds.above {
                self.merge_clusters_above_and_left(pos, above, left_label);
            } else {
                self.merge_clusters_left(pos, left_label);
            }
        } else if site_bonds.above {
            self.merge_clusters_above(pos, above);
        } else {
            self.make_new_cluster(pos);
        }

        // Close the lattice periodically: bottom to top, right edge to left edge.
        if site_bonds.wrap_down {
            self.merge_clusters_pbc(pos, top, Ghost(down_bonds));
        }
        if site_bonds.wrap_right {
            self.merge_clusters_pbc(pos, left_edge, Ghost(site_bonds));
        }
    }

    /// Builds the clusters of `spins` in one raster pass: every site draws
    /// its bonds and is labelled at once.  Returns the energy of the lattice
    /// in units of the coupling constant and the absolute value of its total
    /// spin.
    #[inline(always)]
    pub fn perform_swendsen_wang_all(
        &mut self,
        spins: &IsingArray2D,
        rng: &mut rand::rngs::SmallRng,
        proba_add: BondProbability,
    ) -> (observed: (i64, u64))
        requires
            old(self).wf(),
            old(self).bonds().len() == 0,
            spins.wf(),
            spins.spec_rows() == old(self).spec_rows(),
            spins.spec_cols() == old(self).spec_cols(),
            proba_add.wf(),
        ensures
            final(self).wf(),
            final(self).same_setup_as(old(self)),
            final(self).bonds().len() == spins.num_sites(),
            final(self).bonds_respect_spins(spins),
            proba_add.is_never() ==> final(self).no_bond_active(spins),
            proba_add.is_never() ==> final(self).all_singletons(),
            proba_add.is_always() ==> final(self).every_bond_active(spins),
            proba_add.is_always() ==> final(self).equal_neighbours_merged(spins),
            observed.0 == spins.total_energy(),
            observed.1 == vstd::math::abs(spins.total_spin()),
    {
        let mut energy_total: i64 = 0;
        let mut spin_sum: i64 = 0;
        let (ly, lx) = spins.shape();
        let ghost rows = spins.spec_rows();
        let ghost cols = spins.spec_cols();
        proof {
            assert(rows * cols <= 0x7fff_ffff * 0x7fff_ffff) by (nonlinear_arith)
                requires
                    0 <= rows <= 0x7fff_ffff,
                    0 <= cols <= 0x7fff_ffff,
            ;
        }

        let mut y: i32 = 0;
        while y < ly
            invariant
                0 <= y <= ly,
                ly == rows,
                lx == cols,
                spins.wf(),
                spins.spec_rows() == rows,
                spins.spec_cols() == cols,
                rows * cols <= 0x7fff_ffff * 0x7fff_ffff,
                proba_add.wf(),
                self.wf(),
                self.same_setup_as(old(self)),
                self.spec_rows() == rows,
                self.spec_cols() == cols,
                self.bonds().len() == y * cols,
                forall|k: int|
                    0 <= k < self.bonds().len() ==> (#[trigger] self.bonds()[k]).within(
                        candidate_bonds(spins, k),
                    ),
                proba_add.is_never() ==> forall|k: int|
                    0 <= k < self.bonds().len() ==> (#[trigger] self.bonds()[k]).is_none(),
                proba_add.is_always() ==> forall|k: int|
                    0 <= k < self.bonds().len() ==> #[trigger] self.bonds()[k] == candidate_bonds(
                        spins,
                        k,
                    ),
                energy_total == spins.energy_upto(y * cols),
                -2 * (y * cols) <= energy_total <= 2 * (y * cols),
                spin_sum == spins.spin_sum_upto(y * cols),
                -(y * cols) <= spin_sum <= y * cols,
            decreases ly - y,
        {
            let mut x: i32 = 0;
            while x < lx
                invariant
                    0 <= y < ly,
                    0 <= x <= lx,
                    ly == rows,
                    lx == cols,
                    spins.wf(),
                    spins.spec_rows() == rows,
                    spins.spec_cols() == cols,
                    rows * cols <= 0x7fff_ffff * 0x7fff_ffff,
                    proba_add.wf(),
                    self.wf(),
                    self.same_setup_as(old(self)),
                    self.spec_rows() == rows,
                    self.spec_cols() == cols,
                    self.bonds().len() == y * cols + x,
                    forall|k: int|
                        0 <= k < self.bonds().len() ==> (#[trigger] self.bonds()[k]).within(
                            candidate_bonds(spins, k),
                        ),
                    proba_add.is_never() ==> forall|k: int|
                        0 <= k < self.bonds().len() ==> (#[trigger] self.bonds()[k]).is_none(),
                    proba_add.is_always() ==> forall|k: int|
                        0 <= k < self.bonds().len() ==> #[trigger] self.bonds()[k]
                            == candidate_bonds(spins, k),
                    energy_total == spins.energy_upto(y * cols + x),
                    -2 * (y * cols + x) <= energy_total <= 2 * (y * cols + x),
                    spin_sum == spins.spin_sum_upto(y * cols + x),
                    -(y * cols + x) <= spin_sum <= y * cols + x,
                decreases lx - x,
            {
                let pos = (y, x);
                let ghost k = site_index(cols, y as int, x as int);
                proof {
                    lemma_row_col_of_site(cols, y as int, x as int);
                }
                let s = spins.at_pos(pos);

                let site_bonds = draw_site_bonds(spins, rng, proba_add, pos);
                self.link_site(pos, site_bonds);

                let neighbours = spins.get_ngbrs_spin_sum_pbc(pos);
                assert(s * neighbours == neighbours || s * neighbours == -neighbours)
                    by (nonlinear_arith)
                    requires
                        s == 1 || s == -1,
                ;
                let spin_product: i8 = s * neighbours;
                energy_total += -(spin_product as i64);
                spin_sum += s as i64;
                x += 1;
            }
            proof {
                assert((y + 1) * cols == y * cols + cols) by (nonlinear_arith);
            }
            y += 1;
        }
        proof {
            if proba_add.is_never() {
                crate::cluster_laws::lemma_no_bonds_give_singletons(self, spins);
            }
            if proba_add.is_always() {
                crate::cluster_laws::lemma_all_bonds_merge_equal_neighbours(self, spins);
            }
        }
        let spin_sum_abs: u64 = if spin_sum < 0 { (-spin_sum) as u64 } else { spin_sum as u64 };
        (energy_total, spin_sum_abs)
    }

    /// Every site is governed by one of the flip decisions.
    pub proof fn lemma_cluster_index_in_range(&self, k: int)
        requires
            self.wf(),
            0 <= k < self.num_sites(),
        ensures
            0 <= self.cluster_index(k) < self.num_sites(),
    {
        lemma_root_of_is_root(self.classes()@, self.labels()@[k] as int);
    }

    /// Canonical label of the cluster of the site at `pos`: the smallest
    /// label merged into that cluster.
    pub fn cluster_at(&self, pos: (i32, i32)) -> (cluster: usize)
        requires
            self.wf(),
            0 <= pos.0 < self.spec_rows(),
            0 <= pos.1 < self.spec_cols(),
        ensures
            cluster == self.cluster_of(site_index(self.spec_cols(), pos.0 as int, pos.1 as int)),
            1 <= cluster <= self.num_sites(),
    {
        proof {
            crate::ising_array_2d::lemma_site_index_in_range(
                self.spec_rows(),
                self.spec_cols(),
                pos.0 as int,
                pos.1 as int,
            );
        }
        let label = self.labels.at_pos(pos);
        self.eq_classes.find(label)
    }

    /// Flips the clusters: every cluster for which no decision has been
    /// drawn yet draws one by a fair coin, at its first site in row-major
    /// order, and every site is flipped if the decision of its cluster says
    /// so.  When set to measure, returns the sum of the new spins of every
    /// column, and otherwise an empty vector.
    pub fn flip_cluster_and_take_fourier(
        &mut self,
        spins: &mut IsingArray2D,
        rng: &mut rand::rngs::SmallRng,
    ) -> (column_sums: Vec<i64>)
        requires
            old(self).wf(),
            old(spins).wf(),
            old(spins).spec_rows() == old(self).spec_rows(),
            old(spins).spec_cols() == old(self).spec_cols(),
        ensures
            final(self).wf(),
            final(self).labels() == old(self).labels(),
            final(self).classes() == old(self).classes(),
            final(self).bonds() == old(self).bonds(),
            final(self).measures() == old(self).measures(),
            final(spins).wf(),
            final(spins).spec_rows() == old(spins).spec_rows(),
            final(spins).spec_cols() == old(spins).spec_cols(),
            forall|c: int|
                0 <= c < old(self).num_sites() && (#[trigger] old(self).flip_choices()[c]).is_some()
                    ==> final(self).flip_choices()[c] == old(self).flip_choices()[c],
            forall|c: int|
                0 <= c < old(self).num_sites() && old(self).flip_choices()[c].is_none() && (
                #[trigger] final(self).flip_choices()[c]).is_some() ==> exists|k: int|
                    0 <= k < old(self).num_sites() && #[trigger] old(self).cluster_index(k) == c,
            forall|k: int|
                0 <= k < old(self).num_sites() ==> (#[trigger] final(self).flip_choice_of(
                    k,
                )).is_some(),
            final(self).flipped(old(spins), final(spins)),
            !old(self).measures() ==> column_sums@.len() == 0,
            old(self).measures() ==> column_sums@.len() == old(spins).spec_cols(),
            old(self).measures() ==> forall|x: int|
                0 <= x < column_sums@.len() ==> #[trigger] column_sums@[x] == final(spins)
                    .column_sum(x),
    {
        let (ly, lx) = spins.shape();
        let ghost rows = spins.spec_rows();
        let ghost cols = spins.spec_cols();
        let ghost n = self.num_sites();
        let measure = self.take_fourier_transform;
        let mut column_sums: Vec<i64> = Vec::new();
        if measure {
            let mut x: i32 = 0;
            while x < lx
                invariant
                    0 <= x <= lx,
                    column_sums@.len() == x,
                    forall|i: int| 0 <= i < x ==> column_sums@[i] == 0,
                decreases lx - x,
            {
                column_sums.push(0);
                x += 1;
            }
        }
        proof {
            assert forall|j: int| 0 <= j < n implies 0 <= #[trigger] old(self).cluster_index(j)
                < n by {
                self.lemma_cluster_index_in_range(j);
            }
        }

        let mut y: i32 = 0;
        while y < ly
            invariant
                0 <= y <= ly,
                ly == rows,
                lx == cols,
                n == rows * cols,
                n == self.num_sites(),
                self.wf(),
                self.labels() == old(self).labels(),
                self.classes() == old(self).classes(),
                self.bonds() == old(self).bonds(),
                self.take_fourier_transform == measure,
                measure == old(self).measures(),
                self.spec_rows() == rows,
                self.spec_cols() == cols,
                spins.wf(),
                spins.spec_rows() == rows,
                spins.spec_cols() == cols,
                old(spins)@.len() == n,
                old(self).flip_choices().len() == n,
                forall|j: int| 0 <= j < n ==> 0 <= #[trigger] old(self).cluster_index(j) < n,
                forall|j: int|
                    0 <= j < y * cols ==> self.flip_choices()[#[trigger] old(self).cluster_index(
                        j,
                    )].is_some(),
                forall|j: int|
                    0 <= j < y * cols ==> #[trigger] spins@[j] == if self.flip_choices()[old(self)
                        .cluster_index(j)] == Some(true) {
                        -old(spins)@[j]
                    } else {
                        old(spins)@[j] as int
                    },
                forall|j: int| y * cols <= j < n ==> #[trigger] spins@[j] == old(spins)@[j],
                forall|c: int|
                    0 <= c < n && (#[trigger] old(self).flip_choices()[c]).is_some()
                        ==> self.flip_choices()[c] == old(self).flip_choices()[c],
                forall|c: int|
                    0 <= c < n && old(self).flip_choices()[c].is_none() && (
                    #[trigger] self.flip_choices()[c]).is_some() ==> exists|k: int|
                        0 <= k < n && #[trigger] old(self).cluster_index(k) == c,
                !measure ==> column_sums@.len() == 0,
                measure ==> column_sums@.len() == cols,
                measure ==> forall|i: int|
                    0 <= i < cols ==> #[trigger] column_sums@[i] == spins.column_sum_upto(
                        i,
                        y as int,
                    ),
            decreases ly - y,
        {
            let mut x: i32 = 0;
            while x < lx
                invariant
                    0 <= y < ly,
                    0 <= x <= lx,
                    ly == rows,
                    lx == cols,
                    n == rows * cols,
                    n == self.num_sites(),
                    self.wf(),
                    self.labels() == old(self).labels(),
                    self.classes() == old(self).classes(),
                    self.bonds() == old(self).bonds(),
                    self.take_fourier_transform == measure,
                    measure == old(self).measures(),
                    self.spec_rows() == rows,
                    self.spec_cols() == cols,
                    spins.wf(),
                    spins.spec_rows() == rows,
                    spins.spec_cols() == cols,
                    old(spins)@.len() == n,
                    old(self).flip_choices().len() == n,
                    forall|j: int| 0 <= j < n ==> 0 <= #[trigger] old(self).cluster_index(j) < n,
                    forall|j: int|
                        0 <= j < y * cols + x ==> self.flip_choices()[#[trigger] old(self)
                            .cluster_index(j)].is_some(),
                    forall|j: int|
                        0 <= j < y * cols + x ==> #[trigger] spins@[j] == if self.flip_choices()[old(
                            self,
                        ).cluster_index(j)] == Some(true) {
                            -old(spins)@[j]
                        } else {
                            old(spins)@[j] as int
                        },
                    forall|j: int|
                        y * cols + x <= j < n ==> #[trigger] spins@[j] == old(spins)@[j],
                    forall|c: int|
                        0 <= c < n && (#[trigger] old(self).flip_choices()[c]).is_some()
                            ==> self.flip_choices()[c] == old(self).flip_choices()[c],
                    forall|c: int|
                        0 <= c < n && old(self).flip_choices()[c].is_none() && (
                        #[trigger] self.flip_choices()[c]).is_some() ==> exists|k: int|
                            0 <= k < n && #[trigger] old(self).cluster_index(k) == c,
                    !measure ==> column_sums@.len() == 0,
                    measure ==> column_sums@.len() == cols,
                    measure ==> forall|i: int|
                        0 <= i < cols ==> #[trigger] column_sums@[i] == spins.column_sum_upto(
                            i,
                            if i < x {
                                y + 1
                            } else {
                                y as int
                            },
                        ),
                decreases lx - x,
            {
                let pos = (y, x);
                let ghost k = site_index(cols, y as int, x as int);
                let ghost spins_before = *spins;
                proof {
                    crate::ising_array_2d::lemma_site_index_in_range(
                        rows,
                        cols,
                        y as int,
                        x as int,
                    );
                }
                let label = self.labels.at_pos(pos);
                let cluster_class: usize = self.eq_classes.find(label) - 1;

                let flip: bool = match self.cluster_flip_choices[cluster_class] {
                    Some(choice) => choice,
                    None => {
                        let choice = draw_coin(rng);
                        self.cluster_flip_choices.set(cluster_class, Some(choice));
                        choice
                    },
                };
                if flip {
                    spins.flip_at(y, x);
                }
                proof {
                    assert forall|j: int| 0 <= j < k + 1 implies #[trigger] spins@[j]
                        == if self.flip_choices()[old(self).cluster_index(j)] == Some(true) {
                        -old(spins)@[j]
                    } else {
                        old(spins)@[j] as int
                    } by {}
                }

                if self.take_fourier_transform {
                    let s = spins.at_pos(pos);
                    proof {
                        spins.lemma_column_sum_bound(x as int, y as int);
                        assert forall|i: int| 0 <= i < cols implies #[trigger] column_sums@[i]
                            == spins.column_sum_upto(
                            i,
                            if i < x {
                                y + 1
                            } else {
                                y as int
                            },
                        ) by {
                            assert((y - 1) * cols == y * cols - cols) by (nonlinear_arith);
                            spins.lemma_column_sum_frame(
                                &spins_before,
                                i,
                                if i < x {
                                    y + 1
                                } else {
                                    y as int
                                },
                                k,
                            );
                        }
                    }
                    let sum: i64 = column_sums[x as usize];
                    column_sums.set(x as usize, sum + s as i64);
                }
                x += 1;
            }
            proof {
                assert((y + 1) * cols == y * cols + cols) by (nonlinear_arith);
            }
            y += 1;
        }
        proof {
            assert forall|k: int| 0 <= k < n implies (#[trigger] self.flip_choice_of(
                k,
            )).is_some() by {
                assert(self.cluster_index(k) == old(self).cluster_index(k));
            }
            assert forall|k: int| 0 <= k < n implies #[trigger] spins@[k] == if self.flip_choice_of(
                k,
            ) == Some(true) {
                -old(spins)@[k]
            } else {
                old(spins)@[k] as int
            } by {}
        }
        column_sums
    }

    /// Returns the state to the one right after construction; only the
    /// choice whether to measure is kept.
    pub fn reset(&mut self)
        requires
            old(self).wf(),
        ensures
            final(self).wf(),
            final(self).spec_rows() == old(self).spec_rows(),
            final(self).spec_cols() == old(self).spec_cols(),
            final(self).is_reset(),
            final(self).measures() == old(self).measures(),
    {
        self.reset_cluster_flip_probabilities();
        self.eq_classes.reset();
        self.labels.reset();
        self.bonds = Ghost(Seq::empty());
    }
}

} // verus!
