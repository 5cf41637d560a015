//! Row-major grid that maps every lattice site to its current cluster label.

use vstd::prelude::*;

verus! {

/// Grid of cluster labels, one per lattice site, stored row by row.
///
/// A site that has not been labelled yet holds the sentinel `rows * cols`.
pub struct ClusterLabels {
    data: Vec<usize>,
    rows: usize,
    cols: usize,
}

impl ClusterLabels {
    /// The labels in row-major order.
    pub closed spec fn view(&self) -> Seq<usize> {
        self.data@
    }

    /// Number of rows of the grid.
    pub closed spec fn spec_rows(&self) -> nat {
        self.rows as nat
    }

    /// Number of columns of the grid.
    pub closed spec fn spec_cols(&self) -> nat {
        self.cols as nat
    }

    /// Number of sites of the grid.
    pub open spec fn num_sites(&self) -> nat {
        self.spec_rows() * self.spec_cols()
    }

    /// The grid holds exactly one label per site.
    pub open spec fn wf(&self) -> bool {
        self@.len() == self.num_sites()
    }

    /// Row-major offset of the position `pos`.
    pub open spec fn offset(&self, pos: (i32, i32)) -> int {
        pos.0 * self.spec_cols() + pos.1
    }

    /// A position that row-major addressing maps into the grid.
    pub open spec fn addressable(&self, pos: (i32, i32)) -> bool {
        0 <= pos.0 && 0 <= pos.1 && self.offset(pos) < self.num_sites()
    }

    /// Every site holds the sentinel: the state right after construction.
    pub open spec fn is_unlabeled(&self) -> bool {
        &&& self@.len() == self.num_sites()
        &&& forall|k: int| 0 <= k < self@.len() ==> #[trigger] self@[k] == self.num_sites()
    }

    /// A grid that was reset cannot be told from a new one of the same
    /// shape: the two hold the same labels.
    pub proof fn lemma_unlabeled_grids_agree(&self, other: &Self)
        requires
            self.is_unlabeled(),
            other.is_unlabeled(),
            self.spec_rows() == other.spec_rows(),
            self.spec_cols() == other.spec_cols(),
        ensures
            self@ == other@,
    {
    }

    /// Creates a grid of `rows` by `cols` sites, all of them unlabelled.
    pub fn new(rows: usize, cols: usize) -> (grid: Self)
        requires
            rows * cols <= usize::MAX,
        ensures
            grid.wf(),
            grid.spec_rows() == rows,
            grid.spec_cols() == cols,
            grid.is_unlabeled(),
    {
        let default_value: usize = rows * cols;
        let data = vec![default_value; rows * cols];
        Self { data, rows, cols }
    }

    /// Label stored at `pos`.
    #[inline]
    pub fn at_pos(&self, pos: (i32, i32)) -> (label: usize)
        requires
            self.wf(),
            self.addressable(pos),
        ensures
            label == self@[self.offset(pos)],
    {
        let i: usize = pos.0 as usize;
        let j: usize = pos.1 as usize;
        assert(i * self.cols + j < self.data.len());
        self.data[i * self.cols + j]
    }

    /// Stores `label` at `pos` and leaves every other site untouched.
    #[inline]
    pub fn set(&mut self, pos: (i32, i32), label: usize)
        requires
            old(self).wf(),
            old(self).addressable(pos),
        ensures
            final(self).wf(),
            final(self).spec_rows() == old(self).spec_rows(),
            final(self).spec_cols() == old(self).spec_cols(),
            final(self)@ == old(self)@.update(old(self).offset(pos), label),
    {
        let i: usize = pos.0 as usize;
        let j: usize = pos.1 as usize;
        assert(i * self.cols + j < self.data.len());
        self.data.set(i * self.cols + j, label);
    }

    /// Marks every site as unlabelled again.
    #[inline]
    pub fn reset(&mut self)
        requires
            old(self).wf(),
        ensures
            final(self).wf(),
            final(self).spec_rows() == old(self).spec_rows(),
            final(self).spec_cols() == old(self).spec_cols(),
            final(self).is_unlabeled(),
    {
        let n: usize = self.data.len();
        let mut k: usize = 0;
        while k < n
            invariant
                k <= n,
                n == self.data@.len(),
                n == self.rows * self.cols,
                self.rows == old(self).rows,
                self.cols == old(self).cols,
                forall|m: int| 0 <= m < k ==> self.data@[m] == n,
            decreases n - k,
        {
            self.data.set(k, n);
            k += 1;
        }
    }
}

} // verus!
