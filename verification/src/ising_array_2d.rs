//! Two-dimensional lattice of Ising spins with periodic accessors.

use crate::random_source::draw_coin;
use vstd::arithmetic::div_mod::{
    lemma_fundamental_div_mod,
    lemma_fundamental_div_mod_converse_mod,
    lemma_small_mod,
};
use vstd::prelude::*;
use vstd::string::StringExecFns;

verus! {

/// Row-major offset of the site in row `y` and column `x` of a lattice with
/// `cols` columns.
pub open spec fn site_index(cols: int, y: int, x: int) -> int {
    y * cols + x
}

/// The sites of a lattice are numbered without gaps or overlaps: a site
/// inside the lattice has an offset inside the backing array.
pub proof fn lemma_site_index_in_range(rows: int, cols: int, y: int, x: int)
    requires
        0 <= y < rows,
        0 <= x < cols,
    ensures
        0 <= site_index(cols, y, x) < rows * cols,
        y * cols <= site_index(cols, y, x),
        (y + 1) * cols <= rows * cols,
        (y + 1) * cols == y * cols + cols,
{
    assert(0 <= y * cols && (y + 1) * cols <= rows * cols && (y + 1) * cols == y * cols + cols)
        by (nonlinear_arith)
        requires
            0 <= y < rows,
            0 <= cols,
    ;
}

/// Every offset inside the lattice is the offset of the site in its row and
/// column.
pub proof fn lemma_site_of_offset(rows: int, cols: int, k: int)
    requires
        0 <= rows,
        0 <= cols,
        0 <= k < rows * cols,
    ensures
        cols > 0,
        0 <= k / cols < rows,
        0 <= k % cols < cols,
        site_index(cols, k / cols, k % cols) == k,
{
    lemma_fundamental_div_mod(k, cols);
    let q = k / cols;
    let r = k % cols;
    assert(cols * q == q * cols) by (nonlinear_arith);
    assert(0 <= q < rows) by (nonlinear_arith)
        requires
            k == q * cols + r,
            0 <= r < cols,
            0 <= k < rows * cols,
            0 <= rows,
    ;
}

/// Wraps `value` into `0..other`.
///
/// Values at most one period away from the range, the only ones a
/// nearest-neighbour access produces, are wrapped without a division.
fn modulo(value: i32, other: i32) -> (wrapped: i32)
    requires
        other > 0,
    ensures
        wrapped == value as int % other as int,
        0 <= wrapped < other,
{
    if value >= other {
        if value - other < other {
            proof {
                lemma_fundamental_div_mod_converse_mod(
                    value as int,
                    other as int,
                    1,
                    value - other,
                );
            }
            return value - other;
        }
    } else if value < 0 {
        if value + other >= 0 {
            proof {
                lemma_fundamental_div_mod_converse_mod(
                    value as int,
                    other as int,
                    -1,
                    value + other,
                );
            }
            return value + other;
        }
    } else {
        proof {
            lemma_small_mod(value as nat, other as nat);
        }
        return value;
    }
    match value.checked_rem_euclid(other) {
        Some(wrapped) => wrapped,
        None => 0,
    }
}

/// How one spin is written: its value between two blanks.
pub open spec fn spin_text(spin: int) -> Seq<char> {
    if spin == 1 {
        seq![' ', '1', ' ']
    } else {
        seq![' ', '-', '1', ' ']
    }
}

/// Lattice of spins, each `+1` or `-1`, stored row by row.
pub struct IsingArray2D {
    data: Vec<i8>,
    rows: i32,
    cols: i32,
}

impl IsingArray2D {
    /// The spins in row-major order.
    pub closed spec fn view(&self) -> Seq<i8> {
        self.data@
    }

    /// Number of rows.
    pub closed spec fn spec_rows(&self) -> int {
        self.rows as int
    }

    /// Number of columns.
    pub closed spec fn spec_cols(&self) -> int {
        self.cols as int
    }

    /// The lattice holds one spin per site and every spin is `+1` or `-1`.
    pub open spec fn wf(&self) -> bool {
        &&& 0 <= self.spec_rows() <= i32::MAX
        &&& 0 <= self.spec_cols() <= i32::MAX
        &&& self@.len() == self.spec_rows() * self.spec_cols()
        &&& forall|k: int| 0 <= k < self@.len() ==> #[trigger] self@[k] == 1 || self@[k] == -1
    }

    /// Number of sites.
    pub open spec fn num_sites(&self) -> int {
        self.spec_rows() * self.spec_cols()
    }

    /// The position lies inside the lattice.
    pub open spec fn in_range(&self, i: int, j: int) -> bool {
        0 <= i < self.spec_rows() && 0 <= j < self.spec_cols()
    }

    /// Spin at row `i` and column `j`.
    pub open spec fn spin(&self, i: int, j: int) -> int {
        self@[site_index(self.spec_cols(), i, j)] as int
    }

    /// Spin at row `i` and column `j`, both wrapped around the lattice.
    pub open spec fn spin_periodic(&self, i: int, j: int) -> int {
        self.spin(i % self.spec_rows(), j % self.spec_cols())
    }

    /// Every spin of the lattice is `+1`.
    pub open spec fn is_polarized(&self) -> bool {
        forall|k: int| 0 <= k < self@.len() ==> #[trigger] self@[k] == 1
    }

    /// The lattice has the shape of `before`, and each of its spins is the
    /// spin that `before` has there or the negation of it.
    pub open spec fn flips_some_of(&self, before: &Self) -> bool {
        &&& self.spec_rows() == before.spec_rows()
        &&& self.spec_cols() == before.spec_cols()
        &&& self@.len() == before@.len()
        &&& forall|k: int|
            0 <= k < self@.len() ==> #[trigger] self@[k] == before@[k] || self@[k] == -before@[k]
    }

    /// All spins of the lattice are equal.
    pub open spec fn is_uniform(&self) -> bool {
        forall|k: int| 0 <= k < self@.len() ==> #[trigger] self@[k] == self@[0]
    }

    /// Row of the site with row-major offset `k`.
    pub open spec fn row_of(&self, k: int) -> int {
        k / self.spec_cols()
    }

    /// Column of the site with row-major offset `k`.
    pub open spec fn col_of(&self, k: int) -> int {
        k % self.spec_cols()
    }

    /// Energy, in units of the coupling constant, of the two bonds that the
    /// site with offset `k` owns: the one to its right and the one below,
    /// both taken periodically.
    pub open spec fn site_energy(&self, k: int) -> int {
        let y = self.row_of(k);
        let x = self.col_of(k);
        -(self.spin(y, x) * (self.spin_periodic(y + 1, x) + self.spin_periodic(y, x + 1)))
    }

    /// Energy of the bonds owned by the first `m` sites.
    pub open spec fn energy_upto(&self, m: int) -> int
        decreases m,
    {
        if m <= 0 {
            0
        } else {
            self.energy_upto(m - 1) + self.site_energy(m - 1)
        }
    }

    /// Energy of the whole lattice in units of the coupling constant: every
    /// bond of the periodic lattice counted once.
    pub open spec fn total_energy(&self) -> int {
        self.energy_upto(self.num_sites())
    }

    /// Sum of the first `m` spins.
    pub open spec fn spin_sum_upto(&self, m: int) -> int
        decreases m,
    {
        if m <= 0 {
            0
        } else {
            self.spin_sum_upto(m - 1) + self@[m - 1]
        }
    }

    /// Sum of all spins, with its sign.
    pub open spec fn total_spin(&self) -> int {
        self.spin_sum_upto(self.num_sites())
    }

    /// Sum of the spins in column `x` over the first `upto` rows.
    pub open spec fn column_sum_upto(&self, x: int, upto: int) -> int
        decreases upto,
    {
        if upto <= 0 {
            0
        } else {
            self.column_sum_upto(x, upto - 1) + self.spin(upto - 1, x)
        }
    }

    /// Sum of the spins in column `x`.
    pub open spec fn column_sum(&self, x: int) -> int {
        self.column_sum_upto(x, self.spec_rows())
    }

    /// The sum over the head of a column depends only on the spins that lie
    /// before the offset `bound`, if the head ends before it.
    pub proof fn lemma_column_sum_frame(&self, other: &Self, x: int, upto: int, bound: int)
        requires
            self.spec_cols() == other.spec_cols(),
            0 <= x < self.spec_cols(),
            forall|j: int| 0 <= j < bound ==> self@[j] == other@[j],
            upto <= 0 || site_index(self.spec_cols(), upto - 1, x) < bound,
        ensures
            self.column_sum_upto(x, upto) == other.column_sum_upto(x, upto),
        decreases upto,
    {
        if upto > 0 {
            let cols = self.spec_cols();
            assert((upto - 2) * cols == (upto - 1) * cols - cols) by (nonlinear_arith);
            self.lemma_column_sum_frame(other, x, upto - 1, bound);
        }
    }

    /// The sum over the head of a column is bounded by the number of its
    /// rows.
    pub proof fn lemma_column_sum_bound(&self, x: int, upto: int)
        requires
            self.wf(),
            0 <= x < self.spec_cols(),
            0 <= upto <= self.spec_rows(),
        ensures
            -upto <= self.column_sum_upto(x, upto) <= upto,
        decreases upto,
    {
        if upto > 0 {
            self.lemma_column_sum_bound(x, upto - 1);
            lemma_site_index_in_range(self.spec_rows(), self.spec_cols(), upto - 1, x);
        }
    }

    /// A lattice of `rows` by `cols` spins, all `+1`.
    pub fn new_polarized(rows: usize, cols: usize) -> (spins: Self)
        requires
            rows <= i32::MAX,
            cols <= i32::MAX,
            rows * cols <= usize::MAX,
        ensures
            spins.wf(),
            spins.spec_rows() == rows,
            spins.spec_cols() == cols,
            spins.is_polarized(),
    {
        let data = vec![1_i8; rows * cols];
        let rows: i32 = rows as i32;
        let cols: i32 = cols as i32;

        Self { data, rows, cols }
    }

    /// A lattice of `rows` by `cols` spins, each `+1` or `-1` by a fair coin.
    pub fn new_randomized(rng: &mut rand::rngs::SmallRng, rows: usize, cols: usize) -> (spins:
        Self)
        requires
            rows <= i32::MAX,
            cols <= i32::MAX,
            rows * cols <= usize::MAX,
        ensures
            spins.wf(),
            spins.spec_rows() == rows,
            spins.spec_cols() == cols,
    {
        let mut spins = IsingArray2D::new_polarized(rows, cols);
        spins.randomize_spins(rng);
        spins
    }

    /// Spin at the position `pos`, given as (row, column).
    #[inline(always)]
    pub fn at_pos(&self, pos: (i32, i32)) -> (spin: i8)
        requires
            self.wf(),
            self.in_range(pos.0 as int, pos.1 as int),
        ensures
            spin == self.spin(pos.0 as int, pos.1 as int),
            spin == 1 || spin == -1,
    {
        self.at(pos.0, pos.1)
    }

    /// Spin at the position `pos`, wrapped around the lattice.
    #[inline(always)]
    pub fn at_pos_periodic(&self, pos: (i32, i32)) -> (spin: i8)
        requires
            self.wf(),
            self.num_sites() > 0,
        ensures
            spin == self.spin_periodic(pos.0 as int, pos.1 as int),
            spin == 1 || spin == -1,
    {
        self.at_periodic(pos.0, pos.1)
    }

    /// Spin at row `i` and column `j`.
    #[inline(always)]
    pub fn at(&self, i: i32, j: i32) -> (spin: i8)
        requires
            self.wf(),
            self.in_range(i as int, j as int),
        ensures
            spin == self.spin(i as int, j as int),
            spin == 1 || spin == -1,
    {
        proof {
            lemma_site_index_in_range(self.spec_rows(), self.spec_cols(), i as int, j as int);
        }
        assert(self.data.len() == self.rows * self.cols);
        let n: usize = (i as usize) * (self.cols as usize) + (j as usize);
        self.data[n]
    }

    /// Sum of the spins below and to the right of `pos`, without wrapping.
    #[inline(always)]
    pub fn get_ngbrs_spin_sum(&self, pos: (i32, i32)) -> (sum: i8)
        requires
            self.wf(),
            self.in_range(pos.0 + 1, pos.1 as int),
            self.in_range(pos.0 as int, pos.1 + 1),
        ensures
            sum == self.spin(pos.0 + 1, pos.1 as int) + self.spin(pos.0 as int, pos.1 + 1),
            sum == -2 || sum == 0 || sum == 2,
    {
        self.at(pos.0 + 1, pos.1) + self.at(pos.0, pos.1 + 1)
    }

    /// Sum of the spins below and to the right of `pos`, wrapped around the
    /// lattice.
    #[inline(always)]
    pub fn get_ngbrs_spin_sum_pbc(&self, pos: (i32, i32)) -> (sum: i8)
        requires
            self.wf(),
            self.num_sites() > 0,
            pos.0 < i32::MAX,
            pos.1 < i32::MAX,
        ensures
            sum == self.spin_periodic(pos.0 + 1, pos.1 as int) + self.spin_periodic(
                pos.0 as int,
                pos.1 + 1,
            ),
            sum == -2 || sum == 0 || sum == 2,
    {
        self.at_periodic(pos.0 + 1, pos.1) + self.at_periodic(pos.0, pos.1 + 1)
    }

    /// Negates the spin at row `i` and column `j`.
    #[inline(always)]
    pub fn flip_at(&mut self, i: i32, j: i32)
        requires
            old(self).wf(),
            old(self).in_range(i as int, j as int),
        ensures
            final(self).wf(),
            final(self).spec_rows() == old(self).spec_rows(),
            final(self).spec_cols() == old(self).spec_cols(),
            final(self)@ == old(self)@.update(
                site_index(old(self).spec_cols(), i as int, j as int),
                (-old(self).spin(i as int, j as int)) as i8,
            ),
    {
        proof {
            lemma_site_index_in_range(self.spec_rows(), self.spec_cols(), i as int, j as int);
        }
        assert(self.data.len() == self.rows * self.cols);
        let n: usize = (i as usize) * (self.cols as usize) + (j as usize);
        let spin: i8 = self.data[n];
        self.data.set(n, -spin);
    }

    /// Negates the spin at row `i` and column `j` if `flip` says so, and
    /// leaves the lattice as it is otherwise.
    #[inline(always)]
    pub fn flip_if(&mut self, i: i32, j: i32, flip: bool)
        requires
            old(self).wf(),
            old(self).in_range(i as int, j as int),
        ensures
            final(self).wf(),
            final(self).spec_rows() == old(self).spec_rows(),
            final(self).spec_cols() == old(self).spec_cols(),
            flip ==> final(self)@ == old(self)@.update(
                site_index(old(self).spec_cols(), i as int, j as int),
                (-old(self).spin(i as int, j as int)) as i8,
            ),
            !flip ==> final(self)@ == old(self)@,
    {
        if flip {
            self.flip_at(i, j);
        }
    }

    /// Spin at row `i` and column `j`, both wrapped around the lattice.
    #[inline(always)]
    pub fn at_periodic(&self, i: i32, j: i32) -> (spin: i8)
        requires
            self.wf(),
            self.num_sites() > 0,
        ensures
            spin == self.spin_periodic(i as int, j as int),
            spin == 1 || spin == -1,
    {
        assert(self.rows > 0 && self.cols > 0) by (nonlinear_arith)
            requires
                self.rows * self.cols > 0,
                self.rows >= 0,
                self.cols >= 0,
        ;
        let i: i32 = modulo(i, self.rows);
        let j: i32 = modulo(j, self.cols);
        self.at(i, j)
    }

    /// Number of rows and of columns.
    #[inline(always)]
    pub fn shape(&self) -> (shape: (i32, i32))
        ensures
            shape.0 == self.spec_rows(),
            shape.1 == self.spec_cols(),
    {
        (self.rows, self.cols)
    }

    /// The row indices of the lattice.
    #[inline(always)]
    pub fn rows(&self) -> (range: std::ops::Range<i32>)
        ensures
            range.start == 0,
            range.end == self.spec_rows(),
    {
        0..self.rows
    }

    /// The column indices of the lattice.
    #[inline(always)]
    pub fn columns(&self) -> (range: std::ops::Range<i32>)
        ensures
            range.start == 0,
            range.end == self.spec_cols(),
    {
        0..self.cols
    }

    /// The first `upto` spins of row `y`, written one after the other.
    pub open spec fn row_text(&self, y: int, upto: int) -> Seq<char>
        decreases upto,
    {
        if upto <= 0 {
            Seq::empty()
        } else {
            self.row_text(y, upto - 1) + spin_text(self.spin(y, upto - 1))
        }
    }

    /// The first `upto` rows, each followed by a line break but for the last.
    pub open spec fn rows_text(&self, upto: int) -> Seq<char>
        decreases upto,
    {
        if upto <= 0 {
            Seq::empty()
        } else if upto == 1 {
            self.row_text(0, self.spec_cols())
        } else {
            self.rows_text(upto - 1) + seq!['\n'] + self.row_text(upto - 1, self.spec_cols())
        }
    }

    /// The lattice as text: a line break, then the rows in square brackets.
    pub open spec fn text(&self) -> Seq<char> {
        seq!['\n', '['] + self.rows_text(self.spec_rows()) + seq![']']
    }

    /// The lattice written out for a reader, one row per line.
    pub fn to_text(&self) -> (text: String)
        requires
            self.wf(),
        ensures
            text@ == self.text(),
    {
        proof {
            reveal_strlit("\n[");
        }
        let mut result = String::from_str("\n[");
        let ghost head = seq!['\n', '['];
        let mut i: i32 = 0;
        while i < self.rows
            invariant
                self.wf(),
                0 <= i <= self.rows,
                result@ == head + self.rows_text(i as int),
            decreases self.rows - i,
        {
            if i > 0 {
                proof {
                    reveal_strlit("\n");
                }
                result.append("\n");
            }
            let ghost before = result@;
            let mut j: i32 = 0;
            while j < self.cols
                invariant
                    self.wf(),
                    0 <= i < self.rows,
                    0 <= j <= self.cols,
                    result@ == before + self.row_text(i as int, j as int),
                decreases self.cols - j,
            {
                let spin = self.at(i, j);
                proof {
                    reveal_strlit(" 1 ");
                    reveal_strlit(" -1 ");
                }
                if spin == 1 {
                    result.append(" 1 ");
                } else {
                    result.append(" -1 ");
                }
                j += 1;
            }
            i += 1;
        }
        proof {
            reveal_strlit("]");
        }
        result.append("]");
        result
    }

    /// Flips every spin with probability one half, site by site in row-major
    /// order, one draw per site.  Whatever the draws are, every spin is
    /// afterwards the spin it was or the negation of it.
    pub fn randomize_spins(&mut self, rng: &mut rand::rngs::SmallRng)
        requires
            old(self).wf(),
        ensures
            final(self).wf(),
            final(self).spec_rows() == old(self).spec_rows(),
            final(self).spec_cols() == old(self).spec_cols(),
            final(self).flips_some_of(old(self)),
    {
        let mut i: i32 = 0;
        while i < self.rows
            invariant
                self.wf(),
                0 <= i <= self.rows,
                self.flips_some_of(old(self)),
            decreases self.rows - i,
        {
            let mut j: i32 = 0;
            while j < self.cols
                invariant
                    self.wf(),
                    0 <= i < self.rows,
                    0 <= j <= self.cols,
                    self.flips_some_of(old(self)),
                decreases self.cols - j,
            {
                let heads = draw_coin(rng);
                let ghost site = site_index(self.spec_cols(), i as int, j as int);
                let ghost earlier = self@;
                proof {
                    lemma_site_index_in_range(
                        self.spec_rows(),
                        self.spec_cols(),
                        i as int,
                        j as int,
                    );
                    assert(earlier[site] == 1 || earlier[site] == -1);
                }
                self.flip_if(i, j, heads);
                assert forall|k: int| 0 <= k < self@.len() implies #[trigger] self@[k] == old(
                    self,
                )@[k] || self@[k] == -old(self)@[k] by {
                    assert(earlier[k] == old(self)@[k] || earlier[k] == -old(self)@[k]);
                }
                j += 1;
            }
            i += 1;
        }
    }
}

} // verus!
