//! The 2-D grid of cells, kept in row-major and column-major mirrors so that
//! both row and column slices are available in constant time.
use crate::common::{cell_char, line_to_str, CellValue};
use crate::line::line_cache_key;
use crate::line::pack_spec;
use vstd::prelude::*;

verus! {

/// A grid of cells. The two mirrors always hold the same contents:
/// `rows[r][c] == cols[c][r]`.
#[derive(Debug)]
pub struct Field {
    rows: Vec<Vec<CellValue>>,
    cols: Vec<Vec<CellValue>>,
}

impl Field {
    /// The grid seen as its rows, each a sequence of cells.
    pub closed spec fn view(&self) -> Seq<Seq<CellValue>> {
        self.rows@.map_values(|row: Vec<CellValue>| row@)
    }

    pub open spec fn nrows(&self) -> int {
        self@.len() as int
    }

    pub closed spec fn ncols(&self) -> int {
        self.cols@.len() as int
    }

    /// Column `c` of the grid, read off the row-major image.
    pub open spec fn col_spec(&self, c: int) -> Seq<CellValue> {
        Seq::new(self.nrows() as nat, |r: int| self@[r][c])
    }

    /// Both mirrors have consistent dimensions and hold the same contents.
    pub closed spec fn wf(&self) -> bool {
        &&& forall|r: int| 0 <= r < self.rows@.len() ==> (#[trigger] self.rows@[r])@.len()
            == self.cols@.len()
        &&& forall|c: int| 0 <= c < self.cols@.len() ==> (#[trigger] self.cols@[c])@.len()
            == self.rows@.len()
        &&& forall|r: int, c: int|
            0 <= r < self.rows@.len() && 0 <= c < self.cols@.len() ==> (#[trigger] self.rows@[r]@[c])
                == self.cols@[c]@[r]
    }

    pub open spec fn dims(&self, nrows: int, ncols: int) -> bool {
        &&& self.nrows() == nrows
        &&& self.ncols() == ncols
        &&& forall|r: int| 0 <= r < nrows ==> (#[trigger] self@[r]).len() == ncols
    }

    pub open spec fn in_bounds(&self, coords: (usize, usize)) -> bool {
        0 <= coords.0 < self.nrows() && 0 <= coords.1 < self.ncols()
    }

    pub open spec fn get_spec(&self, coords: (usize, usize)) -> CellValue {
        self@[coords.0 as int][coords.1 as int]
    }

    /// No cell of the grid is still undecided.
    pub open spec fn solved_spec(&self) -> bool {
        forall|r: int, c: int|
            0 <= r < self.nrows() && 0 <= c < self.ncols() ==> (#[trigger] self@[r][c])
                != CellValue::Unknown
    }

    /// A fresh grid with every cell undecided.
    pub fn new(nrows: usize, ncols: usize) -> (r: Self)
        ensures
            r.wf(),
            r.dims(nrows as int, ncols as int),
            r.ncols() == ncols as int,
            forall|i: int, j: int|
                0 <= i < nrows && 0 <= j < ncols ==> (#[trigger] r@[i][j]) == CellValue::Unknown,
    {
        let mut rows: Vec<Vec<CellValue>> = Vec::new();
        let mut i: usize = 0;
        while i < nrows
            invariant
                i <= nrows,
                rows@.len() == i,
                forall|k: int| 0 <= k < i ==> (#[trigger] rows@[k])@.len() == ncols,
                forall|k: int, j: int|
                    0 <= k < i && 0 <= j < ncols ==> (#[trigger] rows@[k]@[j]) == CellValue::Unknown,
            decreases nrows - i,
        {
            let mut row: Vec<CellValue> = Vec::new();
            let mut j: usize = 0;
            while j < ncols
                invariant
                    j <= ncols,
                    row@.len() == j,
                    forall|k: int| 0 <= k < j ==> (#[trigger] row@[k]) == CellValue::Unknown,
                decreases ncols - j,
            {
                row.push(CellValue::Unknown);
                j = j + 1;
            }
            rows.push(row);
            i = i + 1;
        }
        let mut cols: Vec<Vec<CellValue>> = Vec::new();
        let mut i: usize = 0;
        while i < ncols
            invariant
                i <= ncols,
                cols@.len() == i,
                forall|k: int| 0 <= k < i ==> (#[trigger] cols@[k])@.len() == nrows,
                forall|k: int, j: int|
                    0 <= k < i && 0 <= j < nrows ==> (#[trigger] cols@[k]@[j]) == CellValue::Unknown,
            decreases ncols - i,
        {
            let mut col: Vec<CellValue> = Vec::new();
            let mut j: usize = 0;
            while j < nrows
                invariant
                    j <= nrows,
                    col@.len() == j,
                    forall|k: int| 0 <= k < j ==> (#[trigger] col@[k]) == CellValue::Unknown,
                decreases nrows - j,
            {
                col.push(CellValue::Unknown);
                j = j + 1;
            }
            cols.push(col);
            i = i + 1;
        }
        Field { rows, cols }
    }

    /// True when every cell is known.
    pub fn is_solved(&self) -> (r: bool)
        requires
            self.wf(),
        ensures
            r == self.solved_spec(),
    {
        let mut i: usize = 0;
        while i < self.rows.len()
            invariant
                self.wf(),
                i <= self.rows@.len(),
                forall|r: int, c: int|
                    0 <= r < i && 0 <= c < self.rows@[r]@.len() ==> (#[trigger] self.rows@[r]@[c])
                        != CellValue::Unknown,
            decreases self.rows@.len() - i,
        {
            let row = &self.rows[i];
            let mut j: usize = 0;
            while j < row.len()
                invariant
                    self.wf(),
                    j <= row@.len(),
                    i < self.rows@.len(),
                    row@ == self.rows@[i as int]@,
                    forall|c: int| 0 <= c < j ==> (#[trigger] row@[c]) != CellValue::Unknown,
                decreases row@.len() - j,
            {
                if row[j] == CellValue::Unknown {
                    proof {
                        assert(self@[i as int] == self.rows@[i as int]@);
                        assert(self@[i as int][j as int] == CellValue::Unknown);
                        assert(0 <= j < self.ncols());
                    }
                    return false;
                }
                j = j + 1;
            }
            i = i + 1;
        }
        true
    }

    /// Row `idx`, shared with the caller.
    pub fn row(&self, idx: usize) -> (r: &Vec<CellValue>)
        requires
            0 <= idx < self.nrows(),
        ensures
            r@ == self@[idx as int],
    {
        &self.rows[idx]
    }

    /// Column `idx`, shared with the caller; equal to the column read off the rows.
    pub fn col(&self, idx: usize) -> (r: &Vec<CellValue>)
        requires
            self.wf(),
            0 <= idx < self.ncols(),
        ensures
            r@ == self.col_spec(idx as int),
    {
        proof {
            assert(self.cols@[idx as int]@ =~= self.col_spec(idx as int));
        }
        &self.cols[idx]
    }

    /// The cell at `coords`.
    pub fn get(&self, coords: (usize, usize)) -> (r: CellValue)
        requires
            self.wf(),
            self.in_bounds(coords),
        ensures
            r == self.get_spec(coords),
    {
        let (row_idx, col_idx) = coords;
        self.rows[row_idx][col_idx]
    }

    /// Writes `val` at `coords`, keeping both mirrors in sync.
    pub fn set(&mut self, coords: (usize, usize), val: CellValue)
        requires
            old(self).wf(),
            old(self).in_bounds(coords),
        ensures
            final(self).wf(),
            final(self).nrows() == old(self).nrows(),
            final(self).ncols() == old(self).ncols(),
            final(self)@ == old(self)@.update(
                coords.0 as int,
                old(self)@[coords.0 as int].update(coords.1 as int, val),
            ),
    {
        let (row_idx, col_idx) = coords;
        self.rows[row_idx][col_idx] = val;
        self.cols[col_idx][row_idx] = val;
        proof {
            assert(self@ =~= old(self)@.update(
                row_idx as int,
                old(self)@[row_idx as int].update(col_idx as int, val),
            ));
        }
    }

    /// The grid packed to bytes, rows in order: a content key for solution sets.
    pub fn key(&self) -> (r: Vec<u8>)
        ensures
            r@ == self.key_spec(),
    {
        let mut r: Vec<u8> = Vec::new();
        let mut i: usize = 0;
        while i < self.rows.len()
            invariant
                i <= self.rows@.len(),
                r@ == self.key_prefix_spec(i as int),
            decreases self.rows@.len() - i,
        {
            let mut packed = line_cache_key(&self.rows[i]);
            r.append(&mut packed);
            proof {
                assert(r@ =~= self.key_prefix_spec(i + 1));
            }
            i = i + 1;
        }
        r
    }

    pub open spec fn key_prefix_spec(&self, upto: int) -> Seq<u8>
        decreases upto,
    {
        if upto <= 0 {
            Seq::empty()
        } else {
            self.key_prefix_spec(upto - 1) + pack_spec(self@[upto - 1])
        }
    }

    pub open spec fn key_spec(&self) -> Seq<u8> {
        self.key_prefix_spec(self.nrows())
    }

    /// Content equality of two grids.
    pub fn same_grid(&self, other: &Field) -> (r: bool)
        ensures
            r == (self@ == other@),
    {
        if self.rows.len() != other.rows.len() {
            return false;
        }
        let mut i: usize = 0;
        while i < self.rows.len()
            invariant
                self.rows@.len() == other.rows@.len(),
                i <= self.rows@.len(),
                forall|k: int| 0 <= k < i ==> (#[trigger] self@[k]) == other@[k],
            decreases self.rows@.len() - i,
        {
            let a = &self.rows[i];
            let b = &other.rows[i];
            if a.len() != b.len() {
                proof {
                    assert(self@[i as int].len() != other@[i as int].len());
                }
                return false;
            }
            let mut j: usize = 0;
            while j < a.len()
                invariant
                    i < self.rows@.len() == other.rows@.len(),
                    a@ == self.rows@[i as int]@,
                    b@ == other.rows@[i as int]@,
                    a@.len() == b@.len(),
                    j <= a@.len(),
                    forall|k: int| 0 <= k < j ==> (#[trigger] a@[k]) == b@[k],
                decreases a@.len() - j,
            {
                if a[j] != b[j] {
                    proof {
                        assert(self@[i as int][j as int] != other@[i as int][j as int]);
                    }
                    return false;
                }
                j = j + 1;
            }
            proof {
                assert(self@[i as int] =~= other@[i as int]);
            }
            i = i + 1;
        }
        proof {
            assert(self@ =~= other@);
        }
        true
    }

    /// The grid rendered as `nrows` lines of `ncols` characters, each ending in
    /// a newline.
    pub fn to_string(&self) -> (r: String)
        ensures
            r@ == self.render_prefix_spec(self.nrows()),
    {
        let mut r = String::new();
        let mut i: usize = 0;
        while i < self.rows.len()
            invariant
                i <= self.rows@.len(),
                r@ == self.render_prefix_spec(i as int),
            decreases self.rows@.len() - i,
        {
            let line = line_to_str(&self.rows[i]);
            r.append(line.as_str());
            r.append("\n");
            proof {
                reveal_strlit("\n");
                assert(r@ =~= self.render_prefix_spec(i + 1));
            }
            i = i + 1;
        }
        r
    }

    pub open spec fn render_prefix_spec(&self, upto: int) -> Seq<char>
        decreases upto,
    {
        if upto <= 0 {
            Seq::empty()
        } else {
            self.render_prefix_spec(upto - 1) + self@[upto - 1].map_values(
                |c: CellValue| cell_char(c),
            ) + seq!['\n']
        }
    }
}

/// Under the mirror invariant every row has `ncols` cells.
pub proof fn lemma_field_row_lens(f: &Field)
    requires
        f.wf(),
    ensures
        forall|r: int| 0 <= r < f@.len() ==> (#[trigger] f@[r]).len() == f.ncols(),
{
}

impl Clone for Field {
    /// A deep copy: the clone holds the same cells.
    fn clone(&self) -> (r: Self)
        ensures
            r@ == self@,
            self.wf() ==> r.wf(),
            r.ncols() == self.ncols(),
    {
        let mut rows: Vec<Vec<CellValue>> = Vec::new();
        let mut i: usize = 0;
        while i < self.rows.len()
            invariant
                i <= self.rows@.len(),
                rows@.len() == i,
                forall|k: int| 0 <= k < i ==> (#[trigger] rows@[k])@ == self.rows@[k]@,
            decreases self.rows@.len() - i,
        {
            rows.push(clone_cells(&self.rows[i]));
            i = i + 1;
        }
        let mut cols: Vec<Vec<CellValue>> = Vec::new();
        let mut i: usize = 0;
        while i < self.cols.len()
            invariant
                i <= self.cols@.len(),
                cols@.len() == i,
                forall|k: int| 0 <= k < i ==> (#[trigger] cols@[k])@ == self.cols@[k]@,
            decreases self.cols@.len() - i,
        {
            cols.push(clone_cells(&self.cols[i]));
            i = i + 1;
        }
        let r = Field { rows, cols };
        proof {
            assert(r@ =~= self@);
            if self.wf() {
                assert forall|k: int| 0 <= k < r.rows@.len() implies (#[trigger] r.rows@[k])@.len()
                    == r.cols@.len() by {
                    assert(r.rows@[k]@ == self.rows@[k]@);
                }
                assert forall|c: int| 0 <= c < r.cols@.len() implies (#[trigger] r.cols@[c])@.len()
                    == r.rows@.len() by {
                    assert(r.cols@[c]@ == self.cols@[c]@);
                }
                assert forall|a: int, c: int|
                    0 <= a < r.rows@.len() && 0 <= c < r.cols@.len() implies (
                #[trigger] r.rows@[a]@[c]) == r.cols@[c]@[a] by {
                    assert(r.rows@[a]@ == self.rows@[a]@);
                    assert(r.cols@[c]@ == self.cols@[c]@);
                }
            }
        }
        r
    }
}

/// A copy of one line of cells.
pub fn clone_cells(cells: &Vec<CellValue>) -> (r: Vec<CellValue>)
    ensures
        r@ == cells@,
{
    let mut r: Vec<CellValue> = Vec::new();
    let mut i: usize = 0;
    while i < cells.len()
        invariant
            i <= cells@.len(),
            r@ == cells@.take(i as int),
        decreases cells@.len() - i,
    {
        r.push(cells[i]);
        proof {
            assert(r@ =~= cells@.take(i + 1));
        }
        i = i + 1;
    }
    proof {
        assert(cells@.take(cells@.len() as int) =~= cells@);
    }
    r
}

} // verus!
