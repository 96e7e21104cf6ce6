//! A verified nonogram (picross) solver.
//!
//! Given row and column run-length hints over a two-colour grid, the solver
//! deduces which cells are filled and which are empty, and either returns one
//! solution, enumerates all solutions, or reports the partially-deduced grid
//! when the puzzle exceeds the configured search budget.
use itertools::Itertools;
use vstd::prelude::*;

pub mod assumption;
pub mod common;
pub mod field;
pub mod grid_props;
pub mod line;
pub mod line_props;
pub mod reachability_graph;

use crate::assumption::Assumption;
use crate::common::CellValue;
use crate::field::Field;
use crate::grid_props::{
    apply_asms_to_grid, changes_ok, count_unknown, grid_dims, lemma_apply_append,
    lemma_apply_frame, lemma_apply_line_grid, lemma_changes_ok_compose, lemma_changes_refine,
    lemma_count_apply, lemma_line_frame, lemma_refines_trans, line_of, refines_grid,
};
use crate::line::{forced_asm, hints_wf, line_valid, Line, LineCache, LineType};
use crate::line_props::{lemma_applied_solutions, lemma_forced_asm_apply, lemma_forced_asm_bounds};

verus! {

/// Which engine the solver runs: line propagation alone, the recursive
/// case-split, or the pairwise contradiction search.
#[derive(Clone, Copy, Debug, Eq, PartialEq, Structural)]
pub enum Algorithm {
    ByLines,
    Naive,
    TwoSat,
}

// ---------------------------------------------------------------------------
// Solutions and results.
// ---------------------------------------------------------------------------
/// A set of solved grids, distinct by content, in discovery order.
#[derive(Debug)]
pub struct SolutionSet {
    entries: Vec<Field>,
}

/// Some field in the list holds exactly the given grid.
pub open spec fn holds_grid(s: Seq<Field>, f: Field) -> bool {
    exists|i: int| 0 <= i < s.len() && (#[trigger] s[i])@ == f@
}

impl SolutionSet {
    pub closed spec fn view(&self) -> Seq<Field> {
        self.entries@
    }

    /// No two stored grids hold the same cells.
    pub open spec fn distinct(&self) -> bool {
        forall|i: int, j: int| 0 <= i < j < self@.len() ==> (#[trigger] self@[i])@ != (
        #[trigger] self@[j])@
    }

    pub fn new() -> (r: Self)
        ensures
            r@ == Seq::<Field>::empty(),
            r.distinct(),
    {
        SolutionSet { entries: Vec::new() }
    }

    pub fn len(&self) -> (r: usize)
        ensures
            r == self@.len(),
    {
        self.entries.len()
    }

    /// The solutions, in the order they were found.
    pub fn fields(&self) -> (r: &Vec<Field>)
        ensures
            r@ == self@,
    {
        &self.entries
    }

    /// Adds a solved grid unless one with the same contents is already held.
    pub fn insert(&mut self, f: Field)
        ensures
            old(self).distinct() ==> final(self).distinct(),
            final(self)@.len() >= 1,
            final(self)@.len() >= old(self)@.len(),
            final(self)@.len() <= old(self)@.len() + 1,
            forall|i: int|
                0 <= i < final(self)@.len() ==> (#[trigger] final(self)@[i]) == f || old(
                    self,
                )@.contains(final(self)@[i]),
            forall|j: int|
                0 <= j < old(self)@.len() ==> (#[trigger] final(self)@[j]) == old(self)@[j],
            holds_grid(final(self)@, f),
    {
        let mut i: usize = 0;
        while i < self.entries.len()
            invariant
                i <= self.entries@.len(),
                forall|k: int| 0 <= k < i ==> (#[trigger] self.entries@[k])@ != f@,
            decreases self.entries@.len() - i,
        {
            if self.entries[i].same_grid(&f) {
                proof {
                    assert(self@[i as int]@ == f@);
                }
                return ;
            }
            i = i + 1;
        }
        let ghost pre = self@;
        self.entries.push(f);
        proof {
            assert(self@[self@.len() - 1]@ == f@);
            assert forall|i2: int|
                0 <= i2 < self@.len() implies (#[trigger] self@[i2]) == f || pre.contains(
                self@[i2],
            ) by {
                if i2 < pre.len() {
                    assert(self@[i2] == pre[i2]);
                }
            }
        }
    }

    /// Folds another set in, keeping the first copy of every grid.
    pub fn merge(&mut self, other: SolutionSet)
        ensures
            old(self).distinct() ==> final(self).distinct(),
            final(self)@.len() >= old(self)@.len(),
            final(self)@.len() <= old(self)@.len() + other@.len(),
            other@.len() >= 1 ==> final(self)@.len() >= 1,
            forall|j: int|
                0 <= j < old(self)@.len() ==> (#[trigger] final(self)@[j]) == old(self)@[j],
            forall|i: int|
                0 <= i < final(self)@.len() ==> old(self)@.contains(#[trigger] final(self)@[i])
                    || other@.contains(final(self)@[i]),
            forall|j: int|
                0 <= j < other@.len() ==> holds_grid(final(self)@, #[trigger] other@[j]),
    {
        let mut entries = other.entries;
        let ghost others = entries@;
        proof {
            assert forall|k: int| 0 <= k < self@.len() implies old(self)@.contains(
                #[trigger] self@[k],
            ) || others.contains(self@[k]) by {
                assert(self@[k] == old(self)@[k]);
            }
            assert(entries@ =~= others.take(entries@.len() as int));
        }
        while entries.len() > 0
            invariant
                entries@.len() <= others.len(),
                entries@ == others.take(entries@.len() as int),
                old(self).distinct() ==> self.distinct(),
                self@.len() >= old(self)@.len(),
                self@.len() <= old(self)@.len() + others.len() - entries@.len(),
                forall|j: int|
                    0 <= j < old(self)@.len() ==> (#[trigger] self@[j]) == old(self)@[j],
                entries@.len() < others.len() ==> self@.len() >= 1,
                forall|k: int|
                    0 <= k < self@.len() ==> old(self)@.contains(#[trigger] self@[k])
                        || others.contains(self@[k]),
                forall|j: int|
                    entries@.len() <= j < others.len() ==> holds_grid(
                        self@,
                        #[trigger] others[j],
                    ),
            decreases entries@.len(),
        {
            let ghost pre_entries = entries@;
            let f = match entries.pop() {
                Some(f) => f,
                None => {
                    proof {
                        assert(false);
                    }
                    continue ;
                },
            };
            proof {
                assert(f == pre_entries[pre_entries.len() - 1]);
                assert(f == others[pre_entries.len() - 1]);
                assert(others.contains(f));
                assert(entries@ =~= others.take(entries@.len() as int));
            }
            let ghost pre = self@;
            self.insert(f);
            proof {
                assert forall|k: int| 0 <= k < self@.len() implies old(self)@.contains(
                    #[trigger] self@[k],
                ) || others.contains(self@[k]) by {
                    if self@[k] != f {
                        let j = choose|j: int| 0 <= j < pre.len() && pre[j] == self@[k];
                        assert(pre.contains(self@[k]) ==> old(self)@.contains(self@[k])
                            || others.contains(self@[k]));
                    }
                }
                assert forall|j: int|
                    entries@.len() <= j < others.len() implies holds_grid(
                    self@,
                    #[trigger] others[j],
                ) by {
                    if j == pre_entries.len() - 1 {
                        let i = choose|i: int| 0 <= i < self@.len() && (#[trigger] self@[i])@ == f@;
                        assert(self@[i]@ == others[j]@);
                    } else {
                        assert(holds_grid(pre, others[j]));
                        let i = choose|i: int|
                            0 <= i < pre.len() && (#[trigger] pre[i])@ == others[j]@;
                        assert(self@[i] == pre[i]);
                        assert(self@[i]@ == others[j]@);
                    }
                }
            }
        }
        proof {
            if others.len() >= 1 {
                assert(self@.len() >= 1);
            }
            assert(other@ == others);
            assert forall|j: int| 0 <= j < other@.len() implies holds_grid(
                self@,
                #[trigger] other@[j],
            ) by {
                assert(holds_grid(self@, others[j]));
            }
        }
    }
}

/// What one solving attempt reports: the grid admits no solution, the
/// attempt ran out of deductions (with the forced moves it found), or a set
/// of solved grids.
#[derive(Debug)]
pub enum SolutionResult {
    Controversial,
    Unsolved(Vec<Assumption>),
    Solved(SolutionSet),
}

// ---------------------------------------------------------------------------
// What the solver promises about its results.
// ---------------------------------------------------------------------------
/// The hints of one line.
pub open spec fn hints_of(
    rh: Seq<Seq<usize>>,
    ch: Seq<Seq<usize>>,
    line_type: LineType,
    li: int,
) -> Seq<usize> {
    match line_type {
        LineType::Row => rh[li],
        LineType::Col => ch[li],
    }
}

/// How many lines of this kind the puzzle has.
pub open spec fn line_count_of(nrows: int, ncols: int, line_type: LineType) -> int {
    match line_type {
        LineType::Row => nrows,
        LineType::Col => ncols,
    }
}

/// How many cells a line of this kind has.
pub open spec fn line_len_of(nrows: int, ncols: int, line_type: LineType) -> int {
    match line_type {
        LineType::Row => ncols,
        LineType::Col => nrows,
    }
}

/// Line `li` of the grid satisfies its hints as it stands.
pub open spec fn valid_line_at(
    rh: Seq<Seq<usize>>,
    ch: Seq<Seq<usize>>,
    grid: Seq<Seq<CellValue>>,
    line_type: LineType,
    li: int,
) -> bool {
    line_valid(hints_of(rh, ch, line_type, li), line_of(grid, line_type, li))
}

/// Every row and every column of the grid satisfies its hints.
pub open spec fn all_lines_valid(
    rh: Seq<Seq<usize>>,
    ch: Seq<Seq<usize>>,
    grid: Seq<Seq<CellValue>>,
) -> bool {
    &&& forall|li: int|
        0 <= li < rh.len() ==> #[trigger] valid_line_at(rh, ch, grid, LineType::Row, li)
    &&& forall|li: int|
        0 <= li < ch.len() ==> #[trigger] valid_line_at(rh, ch, grid, LineType::Col, li)
}

/// Line `li` is valid and fully propagated: another deduction pass over it
/// forces nothing.
pub open spec fn line_propagated(
    rh: Seq<Seq<usize>>,
    ch: Seq<Seq<usize>>,
    grid: Seq<Seq<CellValue>>,
    line_type: LineType,
    li: int,
) -> bool {
    &&& valid_line_at(rh, ch, grid, line_type, li)
    &&& forced_asm(
        hints_of(rh, ch, line_type, li),
        line_of(grid, line_type, li),
        line_type,
        li as usize,
        line_of(grid, line_type, li).len() as int,
    ) == Seq::<Assumption>::empty()
}

/// The grid is a fixed point of line propagation: every row and column is
/// valid and forces nothing more.
pub open spec fn all_lines_propagated(
    rh: Seq<Seq<usize>>,
    ch: Seq<Seq<usize>>,
    grid: Seq<Seq<CellValue>>,
) -> bool {
    &&& forall|li: int|
        0 <= li < rh.len() ==> #[trigger] line_propagated(rh, ch, grid, LineType::Row, li)
    &&& forall|li: int|
        0 <= li < ch.len() ==> #[trigger] line_propagated(rh, ch, grid, LineType::Col, li)
}

/// No cell of the grid is undecided.
pub open spec fn grid_solved(grid: Seq<Seq<CellValue>>) -> bool {
    forall|r: int, c: int|
        0 <= r < grid.len() && 0 <= c < grid[r].len() ==> (#[trigger] grid[r][c])
            != CellValue::Unknown
}

/// A fully decided grid that solves the puzzle from the partial grid `base`:
/// right-sized, complete, agreeing with `base` wherever `base` was decided,
/// and satisfying every row and column hint.
pub open spec fn grid_solution(
    rh: Seq<Seq<usize>>,
    ch: Seq<Seq<usize>>,
    base: Seq<Seq<CellValue>>,
    full: Seq<Seq<CellValue>>,
) -> bool {
    &&& grid_dims(full, rh.len() as int, ch.len() as int)
    &&& grid_solved(full)
    &&& refines_grid(base, full)
    &&& all_lines_valid(rh, ch, full)
}

/// A solution of the whole grid restricts to a solution of each of its
/// lines.
proof fn lemma_solution_restricts(
    rh: Seq<Seq<usize>>,
    ch: Seq<Seq<usize>>,
    g: Seq<Seq<CellValue>>,
    full: Seq<Seq<CellValue>>,
    line_type: LineType,
    li: int,
)
    requires
        grid_dims(g, rh.len() as int, ch.len() as int),
        grid_solution(rh, ch, g, full),
        0 <= li < line_count_of(rh.len() as int, ch.len() as int, line_type),
    ensures
        crate::line_props::is_solution_of(
            hints_of(rh, ch, line_type, li),
            line_of(full, line_type, li),
            line_of(g, line_type, li),
        ),
{
    let fline = line_of(full, line_type, li);
    let gline = line_of(g, line_type, li);
    match line_type {
        LineType::Row => {
            assert(fline == full[li] && gline == g[li]);
        },
        LineType::Col => {
            assert(fline.len() == full.len() && gline.len() == g.len());
            assert(forall|r: int| 0 <= r < full.len() ==> #[trigger] fline[r] == full[r][li]);
            assert(forall|r: int| 0 <= r < g.len() ==> #[trigger] gline[r] == g[r][li]);
        },
    }
    assert(fline.len() == gline.len());
    assert(forall|i: int| 0 <= i < fline.len() ==> (#[trigger] fline[i]) != CellValue::Unknown);
    assert forall|i: int|
        0 <= i < gline.len() && gline[i] != CellValue::Unknown implies fline[i] == #[trigger] gline[i] by {
        match line_type {
            LineType::Row => {
                assert(g[li][i] == gline[i] && full[li][i] == fline[i]);
            },
            LineType::Col => {
                assert(g[i][li] == gline[i] && full[i][li] == fline[i]);
            },
        }
    }
    assert(valid_line_at(rh, ch, full, line_type, li));
}

/// Writing one line's forced cells into the grid changes nothing about which
/// full grids solve the puzzle from it.
#[verifier::rlimit(100)]
proof fn lemma_line_batch_preserves(
    rh: Seq<Seq<usize>>,
    ch: Seq<Seq<usize>>,
    g: Seq<Seq<CellValue>>,
    line_type: LineType,
    li: usize,
)
    requires
        grid_dims(g, rh.len() as int, ch.len() as int),
        rh.len() <= usize::MAX,
        ch.len() <= usize::MAX,
        0 <= li < line_count_of(rh.len() as int, ch.len() as int, line_type),
        line_valid(hints_of(rh, ch, line_type, li as int), line_of(g, line_type, li as int)),
        changes_ok(
            g,
            forced_asm(
                hints_of(rh, ch, line_type, li as int),
                line_of(g, line_type, li as int),
                line_type,
                li,
                line_of(g, line_type, li as int).len() as int,
            ),
            rh.len() as int,
            ch.len() as int,
        ),
    ensures
        forall|full: Seq<Seq<CellValue>>|
            #[trigger] grid_solution(rh, ch, g, full) <==> grid_solution(
                rh,
                ch,
                apply_asms_to_grid(
                    g,
                    forced_asm(
                        hints_of(rh, ch, line_type, li as int),
                        line_of(g, line_type, li as int),
                        line_type,
                        li,
                        line_of(g, line_type, li as int).len() as int,
                    ),
                ),
                full,
            ),
{
    let nrows = rh.len() as int;
    let ncols = ch.len() as int;
    let hl = hints_of(rh, ch, line_type, li as int);
    let cur = line_of(g, line_type, li as int);
    let batch = forced_asm(hl, cur, line_type, li, cur.len() as int);
    let g2 = apply_asms_to_grid(g, batch);
    lemma_forced_asm_bounds(hl, cur, line_type, li, cur.len() as int);
    lemma_apply_frame(g, batch, nrows, ncols);
    lemma_changes_refine(g, batch, nrows, ncols);
    assert forall|full: Seq<Seq<CellValue>>|
        #[trigger] grid_solution(rh, ch, g, full) implies grid_solution(rh, ch, g2, full) by {
        lemma_solution_restricts(rh, ch, g, full, line_type, li as int);
        let fline = line_of(full, line_type, li as int);
        // The solution carries every forced value.
        assert forall|k: int| 0 <= k < batch.len() implies {
            let a = #[trigger] batch[k];
            full[a.coords.0 as int][a.coords.1 as int] == a.val
        } by {
            let a = batch[k];
            let idx = crate::line_props::cell_idx_of(line_type, a);
            assert(crate::line::forced_val(hl, cur, idx) == Some(a.val));
            assert(!line_valid(hl, cur.update(idx, a.val.invert_spec()))) by {
                if a.val == CellValue::Empty {
                    assert(a.val.invert_spec() == CellValue::Filled);
                } else {
                    assert(a.val == CellValue::Filled);
                    assert(a.val.invert_spec() == CellValue::Empty);
                }
            }
            crate::line_props::lemma_forced(hl, cur, idx, a.val);
            assert(fline[idx] == a.val);
            match line_type {
                LineType::Row => {
                    assert(a.coords == (li, idx as usize));
                    assert(full[li as int][idx] == fline[idx]);
                },
                LineType::Col => {
                    assert(a.coords == (idx as usize, li));
                    assert(full[idx][li as int] == fline[idx]);
                },
            }
        }
        // So the solution refines the grid with the batch written in.
        assert forall|r: int, c: int|
            0 <= r < g2.len() && 0 <= c < g2[r].len() && (#[trigger] g2[r][c])
                != CellValue::Unknown implies full[r][c] == g2[r][c] by {
            if g[r][c] != CellValue::Unknown {
                assert(forall|k: int|
                    0 <= k < batch.len() ==> (#[trigger] batch[k]).coords != (
                    r as usize,
                    c as usize,
                ));
                assert(g2[r][c] == g[r][c]);
            } else {
                if forall|k: int|
                    0 <= k < batch.len() ==> (#[trigger] batch[k]).coords != (
                    r as usize,
                    c as usize,
                ) {
                    assert(g2[r][c] == g[r][c]);
                    assert(false);
                } else {
                    let k = choose|k: int|
                        0 <= k < batch.len() && (#[trigger] batch[k]).coords == (
                        r as usize,
                        c as usize,
                    );
                    assert(forall|k2: int|
                        k < k2 < batch.len() ==> (#[trigger] batch[k2]).coords
                            != batch[k].coords);
                    assert(g2[r][c] == batch[k].val);
                    assert(full[r][c] == batch[k].val);
                }
            }
        }
        assert(refines_grid(g2, full));
        assert(grid_solution(rh, ch, g2, full));
    }
    assert forall|full: Seq<Seq<CellValue>>|
        grid_solution(rh, ch, g2, full) implies #[trigger] grid_solution(rh, ch, g, full) by {
        lemma_refines_trans(g, g2, full);
    }
}

/// Forced moves — moves every solution carries — change nothing about which
/// full grids solve the puzzle.
proof fn lemma_forced_changes_preserve(
    rh: Seq<Seq<usize>>,
    ch: Seq<Seq<usize>>,
    g: Seq<Seq<CellValue>>,
    chg: Seq<Assumption>,
)
    requires
        grid_dims(g, rh.len() as int, ch.len() as int),
        rh.len() <= usize::MAX,
        ch.len() <= usize::MAX,
        changes_ok(g, chg, rh.len() as int, ch.len() as int),
        forall|full: Seq<Seq<CellValue>>, k: int|
            #![trigger grid_solution(rh, ch, g, full), chg[k]]
            grid_solution(rh, ch, g, full) && 0 <= k < chg.len()
                ==> full[chg[k].coords.0 as int][chg[k].coords.1 as int] == chg[k].val,
    ensures
        forall|full: Seq<Seq<CellValue>>|
            #[trigger] grid_solution(rh, ch, g, full) <==> grid_solution(
                rh,
                ch,
                apply_asms_to_grid(g, chg),
                full,
            ),
{
    let nrows = rh.len() as int;
    let ncols = ch.len() as int;
    let g2 = apply_asms_to_grid(g, chg);
    lemma_apply_frame(g, chg, nrows, ncols);
    lemma_changes_refine(g, chg, nrows, ncols);
    assert forall|full: Seq<Seq<CellValue>>|
        #[trigger] grid_solution(rh, ch, g, full) implies grid_solution(rh, ch, g2, full) by {
        assert forall|r: int, c: int|
            0 <= r < g2.len() && 0 <= c < g2[r].len() && (#[trigger] g2[r][c])
                != CellValue::Unknown implies full[r][c] == g2[r][c] by {
            if g[r][c] != CellValue::Unknown {
                assert(forall|k: int|
                    0 <= k < chg.len() ==> (#[trigger] chg[k]).coords != (r as usize, c as usize));
                assert(g2[r][c] == g[r][c]);
            } else {
                if forall|k: int|
                    0 <= k < chg.len() ==> (#[trigger] chg[k]).coords != (r as usize, c as usize) {
                    assert(g2[r][c] == g[r][c]);
                    assert(false);
                } else {
                    let k = choose|k: int|
                        0 <= k < chg.len() && (#[trigger] chg[k]).coords == (
                        r as usize,
                        c as usize,
                    );
                    assert(forall|k2: int|
                        k < k2 < chg.len() ==> (#[trigger] chg[k2]).coords != chg[k].coords);
                    assert(g2[r][c] == chg[k].val);
                    assert(full[r][c] == chg[k].val);
                }
            }
        }
        assert(refines_grid(g2, full));
        assert(grid_solution(rh, ch, g2, full));
    }
    assert forall|full: Seq<Seq<CellValue>>|
        grid_solution(rh, ch, g2, full) implies #[trigger] grid_solution(rh, ch, g, full) by {
        lemma_refines_trans(g, g2, full);
    }
}

/// When one value at an undecided cell admits no solution, every solution
/// carries the other value, and writing that value in changes nothing.
proof fn lemma_cell_forced_preserve(
    rh: Seq<Seq<usize>>,
    ch: Seq<Seq<usize>>,
    g: Seq<Seq<CellValue>>,
    coords: (usize, usize),
    w: CellValue,
)
    requires
        grid_dims(g, rh.len() as int, ch.len() as int),
        0 <= coords.0 < rh.len(),
        0 <= coords.1 < ch.len(),
        g[coords.0 as int][coords.1 as int] == CellValue::Unknown,
        w != CellValue::Unknown,
        !exists|full: Seq<Seq<CellValue>>|
            #[trigger] grid_solution(rh, ch, crate::grid_props::grid_set(g, coords, w), full),
    ensures
        forall|full: Seq<Seq<CellValue>>|
            #[trigger] grid_solution(rh, ch, g, full) ==> full[coords.0 as int][coords.1 as int]
                == w.invert_spec(),
        forall|full: Seq<Seq<CellValue>>|
            #[trigger] grid_solution(rh, ch, g, full) <==> grid_solution(
                rh,
                ch,
                crate::grid_props::grid_set(g, coords, w.invert_spec()),
                full,
            ),
{
    let r0 = coords.0 as int;
    let c0 = coords.1 as int;
    let gw = crate::grid_props::grid_set(g, coords, w);
    let gi = crate::grid_props::grid_set(g, coords, w.invert_spec());
    assert forall|full: Seq<Seq<CellValue>>|
        #[trigger] grid_solution(rh, ch, g, full) implies full[r0][c0] == w.invert_spec() by {
        if full[r0][c0] == w {
            assert forall|r: int, c: int|
                0 <= r < gw.len() && 0 <= c < gw[r].len() && (#[trigger] gw[r][c])
                    != CellValue::Unknown implies full[r][c] == gw[r][c] by {
                if r == r0 && c == c0 {
                } else {
                    assert(gw[r][c] == g[r][c]);
                }
            }
            assert(refines_grid(gw, full));
            assert(grid_solution(rh, ch, gw, full));
            assert(false);
        }
        assert(full[r0][c0] != CellValue::Unknown);
        match w {
            CellValue::Filled => {
                assert(full[r0][c0] == CellValue::Empty);
            },
            CellValue::Empty => {
                assert(full[r0][c0] == CellValue::Filled);
            },
            CellValue::Unknown => {
                assert(false);
            },
        }
    }
    assert forall|full: Seq<Seq<CellValue>>|
        #[trigger] grid_solution(rh, ch, g, full) <==> grid_solution(rh, ch, gi, full) by {
        if grid_solution(rh, ch, g, full) {
            assert forall|r: int, c: int|
                0 <= r < gi.len() && 0 <= c < gi[r].len() && (#[trigger] gi[r][c])
                    != CellValue::Unknown implies full[r][c] == gi[r][c] by {
                if r == r0 && c == c0 {
                    assert(full[r0][c0] == w.invert_spec());
                } else {
                    assert(gi[r][c] == g[r][c]);
                }
            }
            assert(refines_grid(gi, full));
            assert(grid_solution(rh, ch, gi, full));
        }
        if grid_solution(rh, ch, gi, full) {
            crate::grid_props::lemma_refines_set(g, coords, w.invert_spec());
            lemma_refines_trans(g, gi, full);
            assert(grid_solution(rh, ch, g, full));
        }
    }
}

/// A cell admitting neither value leaves the puzzle without any solution.
proof fn lemma_both_values_impossible(
    rh: Seq<Seq<usize>>,
    ch: Seq<Seq<usize>>,
    g: Seq<Seq<CellValue>>,
    coords: (usize, usize),
)
    requires
        grid_dims(g, rh.len() as int, ch.len() as int),
        0 <= coords.0 < rh.len(),
        0 <= coords.1 < ch.len(),
        g[coords.0 as int][coords.1 as int] == CellValue::Unknown,
        !exists|full: Seq<Seq<CellValue>>|
            #[trigger] grid_solution(
                rh,
                ch,
                crate::grid_props::grid_set(g, coords, CellValue::Filled),
                full,
            ),
        !exists|full: Seq<Seq<CellValue>>|
            #[trigger] grid_solution(
                rh,
                ch,
                crate::grid_props::grid_set(g, coords, CellValue::Empty),
                full,
            ),
    ensures
        !exists|full: Seq<Seq<CellValue>>| #[trigger] grid_solution(rh, ch, g, full),
{
    lemma_cell_forced_preserve(rh, ch, g, coords, CellValue::Filled);
    lemma_cell_forced_preserve(rh, ch, g, coords, CellValue::Empty);
    if exists|full: Seq<Seq<CellValue>>| #[trigger] grid_solution(rh, ch, g, full) {
        let full = choose|full: Seq<Seq<CellValue>>| #[trigger] grid_solution(rh, ch, g, full);
        assert(full[coords.0 as int][coords.1 as int] == CellValue::Empty);
        assert(full[coords.0 as int][coords.1 as int] == CellValue::Filled);
        assert(false);
    }
}

/// A search outcome is sound: a contradictory report means the grid admits
/// no solution at all, and every forced move reported with an unsolved
/// outcome is carried by every solution.
pub open spec fn result_sound(
    rh: Seq<Seq<usize>>,
    ch: Seq<Seq<usize>>,
    base: Seq<Seq<CellValue>>,
    r: SolutionResult,
) -> bool {
    &&& (r is Controversial ==> !exists|full: Seq<Seq<CellValue>>|
        #[trigger] grid_solution(rh, ch, base, full))
    &&& match r {
        SolutionResult::Unsolved(chg) => forall|full: Seq<Seq<CellValue>>, k: int|
            #![trigger grid_solution(rh, ch, base, full), chg@[k]]
            grid_solution(rh, ch, base, full) && 0 <= k < chg@.len()
                ==> full[chg@[k].coords.0 as int][chg@[k].coords.1 as int] == chg@[k].val,
        _ => true,
    }
}

/// Some field in the list holds exactly the given full grid.
pub open spec fn holds_solution(s: Seq<Field>, full: Seq<Seq<CellValue>>) -> bool {
    exists|i: int| 0 <= i < s.len() && (#[trigger] s[i])@ == full
}

/// Under enumeration, a solved outcome reports every solution of the grid:
/// nothing that solves the puzzle is missing from the returned set.
pub open spec fn result_complete(
    rh: Seq<Seq<usize>>,
    ch: Seq<Seq<usize>>,
    base: Seq<Seq<CellValue>>,
    r: SolutionResult,
) -> bool {
    match r {
        SolutionResult::Solved(s) => forall|full: Seq<Seq<CellValue>>|
            #[trigger] grid_solution(rh, ch, base, full) ==> holds_solution(s@, full),
        _ => true,
    }
}

/// Deciding one undecided cell splits the solutions: the solutions of the
/// written grid are exactly those of the original that carry the value.
proof fn lemma_solution_cell_split(
    rh: Seq<Seq<usize>>,
    ch: Seq<Seq<usize>>,
    g: Seq<Seq<CellValue>>,
    coords: (usize, usize),
    v: CellValue,
)
    requires
        grid_dims(g, rh.len() as int, ch.len() as int),
        0 <= coords.0 < rh.len(),
        0 <= coords.1 < ch.len(),
        g[coords.0 as int][coords.1 as int] == CellValue::Unknown,
        v != CellValue::Unknown,
    ensures
        forall|full: Seq<Seq<CellValue>>|
            #[trigger] grid_solution(rh, ch, crate::grid_props::grid_set(g, coords, v), full)
                <==> (grid_solution(rh, ch, g, full) && full[coords.0 as int][coords.1 as int]
                == v),
{
    let r0 = coords.0 as int;
    let c0 = coords.1 as int;
    let gv = crate::grid_props::grid_set(g, coords, v);
    assert forall|full: Seq<Seq<CellValue>>|
        #[trigger] grid_solution(rh, ch, gv, full) <==> (grid_solution(rh, ch, g, full)
            && full[r0][c0] == v) by {
        if grid_solution(rh, ch, gv, full) {
            crate::grid_props::lemma_refines_set(g, coords, v);
            lemma_refines_trans(g, gv, full);
            assert(grid_solution(rh, ch, g, full));
            assert(full[r0][c0] == gv[r0][c0]);
        }
        if grid_solution(rh, ch, g, full) && full[r0][c0] == v {
            assert forall|r: int, c: int|
                0 <= r < gv.len() && 0 <= c < gv[r].len() && (#[trigger] gv[r][c])
                    != CellValue::Unknown implies full[r][c] == gv[r][c] by {
                if r == r0 && c == c0 {
                } else {
                    assert(gv[r][c] == g[r][c]);
                }
            }
            assert(refines_grid(gv, full));
            assert(grid_solution(rh, ch, gv, full));
        }
    }
}

/// The full grid carries the assumption: the named cell, in bounds, holds
/// the assumed known value.
pub open spec fn grid_sat(
    rh: Seq<Seq<usize>>,
    ch: Seq<Seq<usize>>,
    full: Seq<Seq<CellValue>>,
    a: Assumption,
) -> bool {
    &&& 0 <= a.coords.0 < rh.len()
    &&& 0 <= a.coords.1 < ch.len()
    &&& a.val != CellValue::Unknown
    &&& full[a.coords.0 as int][a.coords.1 as int] == a.val
}

/// Every implication the graph records is sound for the puzzle from `base`:
/// a solution carrying the source assumption carries the target too.
pub open spec fn graph_sound(
    g: &crate::reachability_graph::ReachabilityGraph<Assumption>,
    rh: Seq<Seq<usize>>,
    ch: Seq<Seq<usize>>,
    base: Seq<Seq<CellValue>>,
) -> bool {
    forall|x: Assumption, y: Assumption, full: Seq<Seq<CellValue>>|
        #![trigger g.reaches(x, y), grid_solution(rh, ch, base, full)]
        g.reaches(x, y) && grid_solution(rh, ch, base, full) && grid_sat(rh, ch, full, x)
            ==> grid_sat(rh, ch, full, y)
}

/// A full solution of the puzzle extending the partial grid `base`: well
/// formed, fully decided, agreeing with `base` where it was decided, and
/// satisfying every hint.
pub open spec fn good_solution(
    rh: Seq<Seq<usize>>,
    ch: Seq<Seq<usize>>,
    base: Seq<Seq<CellValue>>,
    f: Field,
) -> bool {
    &&& f.wf()
    &&& grid_dims(f@, rh.len() as int, ch.len() as int)
    &&& grid_solved(f@)
    &&& refines_grid(base, f@)
    &&& all_lines_valid(rh, ch, f@)
}

/// What any solving attempt on `base` promises: solved grids are genuine,
/// distinct solutions; reported forced moves decide undecided cells of
/// `base`, each cell once.
pub open spec fn result_ok(
    rh: Seq<Seq<usize>>,
    ch: Seq<Seq<usize>>,
    base: Seq<Seq<CellValue>>,
    r: SolutionResult,
) -> bool {
    match r {
        SolutionResult::Solved(s) => s@.len() >= 1 && s.distinct() && forall|i: int|
            0 <= i < s@.len() ==> good_solution(rh, ch, base, #[trigger] s@[i]),
        SolutionResult::Unsolved(chg) => changes_ok(base, chg@, rh.len() as int, ch.len() as int),
        SolutionResult::Controversial => true,
    }
}

// ---------------------------------------------------------------------------
// Iteration order over cells.
// ---------------------------------------------------------------------------
/// The cells of the grid in row-major order.
pub open spec fn coord_pairs_spec(nrows: int, ncols: int) -> Seq<(usize, usize)> {
    Seq::new((nrows * ncols) as nat, |k: int| ((k / ncols) as usize, (k % ncols) as usize))
}

/// Relies on itertools' `cartesian_product` on two ranges: the pairs come in
/// row-major order, the row outermost.
#[verifier::external_body]
fn coord_pairs(nrows: usize, ncols: usize) -> (r: Vec<(usize, usize)>)
    requires
        nrows * ncols <= usize::MAX,
    ensures
        r@ == coord_pairs_spec(nrows as int, ncols as int),
{
    (0..nrows).cartesian_product(0..ncols).collect()
}

/// Row-major coordinates are in bounds and pairwise distinct.
pub proof fn lemma_coord_pairs(nrows: int, ncols: int)
    requires
        0 <= nrows,
        0 <= ncols,
        nrows * ncols <= usize::MAX,
    ensures
        forall|k: int|
            0 <= k < coord_pairs_spec(nrows, ncols).len() ==> {
                let p = #[trigger] coord_pairs_spec(nrows, ncols)[k];
                0 <= p.0 < nrows && 0 <= p.1 < ncols
            },
        forall|k1: int, k2: int|
            #![trigger coord_pairs_spec(nrows, ncols)[k1], coord_pairs_spec(nrows, ncols)[k2]]
            0 <= k1 < k2 < coord_pairs_spec(nrows, ncols).len() ==> coord_pairs_spec(
                nrows,
                ncols,
            )[k1] != coord_pairs_spec(nrows, ncols)[k2],
{
    if nrows * ncols > 0 {
        assert(ncols > 0) by (nonlinear_arith)
            requires
                0 <= nrows && 0 <= ncols && nrows * ncols > 0,
        ;
        assert forall|k: int| 0 <= k < nrows * ncols implies {
            let p = #[trigger] coord_pairs_spec(nrows, ncols)[k];
            0 <= p.0 < nrows && 0 <= p.1 < ncols
        } by {
            assert(0 <= k / ncols && 0 <= k % ncols < ncols) by (nonlinear_arith)
                requires
                    ncols > 0 && 0 <= k,
            ;
            assert(k / ncols < nrows) by (nonlinear_arith)
                requires
                    ncols > 0 && 0 <= k && k < nrows * ncols,
            ;
            assert(k / ncols <= k && k % ncols < ncols && ncols <= nrows * ncols) by (
            nonlinear_arith)
                requires
                    ncols > 0 && 0 <= k && k < nrows * ncols,
            ;
            assert(k / ncols <= usize::MAX && k % ncols <= usize::MAX);
        }
        assert forall|k1: int, k2: int|
            #![trigger coord_pairs_spec(nrows, ncols)[k1], coord_pairs_spec(nrows, ncols)[k2]]
            0 <= k1 < k2 < nrows * ncols implies coord_pairs_spec(nrows, ncols)[k1]
            != coord_pairs_spec(nrows, ncols)[k2] by {
            assert(k1 / ncols != k2 / ncols || k1 % ncols != k2 % ncols) by (nonlinear_arith)
                requires
                    ncols > 0 && 0 <= k1 && 0 <= k2 && k1 != k2,
            ;
            assert(0 <= k1 / ncols && 0 <= k2 / ncols && 0 <= k1 % ncols < ncols && 0 <= k2 % ncols
                < ncols && k1 / ncols <= k1 && k2 / ncols <= k2) by (nonlinear_arith)
                requires
                    ncols > 0 && 0 <= k1 && 0 <= k2,
            ;
            assert(k1 < usize::MAX && k2 < usize::MAX);
            assert(ncols <= nrows * ncols && 0 <= k1 % ncols < ncols && 0 <= k2 % ncols < ncols
                && k1 / ncols <= k1 && k2 / ncols <= k2) by (nonlinear_arith)
                requires
                    ncols > 0 && 0 <= k1 && 0 <= k2 && k1 < nrows * ncols && k2 < nrows * ncols,
            ;
            if coord_pairs_spec(nrows, ncols)[k1] == coord_pairs_spec(nrows, ncols)[k2] {
                assert(((k1 / ncols) as usize) == ((k2 / ncols) as usize) && ((k1 % ncols)
                    as usize) == ((k2 % ncols) as usize));
                assert(k1 / ncols == ((k1 / ncols) as usize) as int);
                assert(k2 / ncols == ((k2 / ncols) as usize) as int);
                assert(k1 % ncols == ((k1 % ncols) as usize) as int);
                assert(k2 % ncols == ((k2 % ncols) as usize) as int);
                assert(false);
            }
        }
    }
}

/// The row-major index of a cell names exactly that cell.
proof fn lemma_pair_of_coords(nrows: int, ncols: int, r: int, c: int)
    requires
        0 <= r < nrows,
        0 <= c < ncols,
        nrows * ncols <= usize::MAX,
    ensures
        0 <= r * ncols + c < nrows * ncols,
        coord_pairs_spec(nrows, ncols)[r * ncols + c] == (r as usize, c as usize),
{
    assert(0 <= r * ncols + c < nrows * ncols && (r * ncols + c) / ncols == r && (r * ncols + c)
        % ncols == c && nrows <= nrows * ncols && ncols <= nrows * ncols) by (nonlinear_arith)
        requires
            0 <= r < nrows && 0 <= c < ncols,
    ;
}

/// Earlier row-major indices name lexicographically earlier cells.
proof fn lemma_pair_order(nrows: int, ncols: int, p1: int, p2: int)
    requires
        0 <= nrows,
        0 <= ncols,
        0 <= p1 < p2 < nrows * ncols,
        nrows * ncols <= usize::MAX,
    ensures
        coord_pairs_spec(nrows, ncols)[p1].0 < coord_pairs_spec(nrows, ncols)[p2].0 || (
        coord_pairs_spec(nrows, ncols)[p1].0 == coord_pairs_spec(nrows, ncols)[p2].0
            && coord_pairs_spec(nrows, ncols)[p1].1 < coord_pairs_spec(nrows, ncols)[p2].1),
{
    assert(0 < ncols) by (nonlinear_arith)
        requires
            0 <= nrows && 0 <= ncols && 0 <= p1 < p2 < nrows * ncols,
    ;
    assert(0 <= p1 / ncols && 0 <= p2 / ncols && 0 <= p1 % ncols < ncols && 0 <= p2 % ncols < ncols
        && p1 / ncols <= p1 && p2 / ncols <= p2) by (nonlinear_arith)
        requires
            0 < ncols && 0 <= p1 && 0 <= p2,
    ;
    assert(p1 / ncols < p2 / ncols || (p1 / ncols == p2 / ncols && p1 % ncols < p2 % ncols)) by (
    nonlinear_arith)
        requires
            0 < ncols && 0 <= p1 < p2,
    ;
    assert(ncols <= nrows * ncols) by (nonlinear_arith)
        requires
            0 <= nrows && 0 < ncols && 0 <= p1 < p2 < nrows * ncols,
    ;
    assert(p1 < usize::MAX && p2 < usize::MAX && p1 % ncols <= usize::MAX && p2 % ncols
        <= usize::MAX);
    let a = coord_pairs_spec(nrows, ncols)[p1];
    let b = coord_pairs_spec(nrows, ncols)[p2];
    assert(a == ((p1 / ncols) as usize, (p1 % ncols) as usize));
    assert(b == ((p2 / ncols) as usize, (p2 % ncols) as usize));
    assert(a.0 as int == p1 / ncols && a.1 as int == p1 % ncols);
    assert(b.0 as int == p2 / ncols && b.1 as int == p2 % ncols);
}

// ---------------------------------------------------------------------------
// The solver.
// ---------------------------------------------------------------------------
/// Applies a batch of forced moves to the field and appends them to the
/// running change list.
fn apply_changes(changes: &Vec<Assumption>, field: &mut Field, all_changes: &mut Vec<Assumption>)
    requires
        old(field).wf(),
        forall|k: int|
            0 <= k < changes@.len() ==> old(field).in_bounds((#[trigger] changes@[k]).coords),
    ensures
        final(field).wf(),
        final(field)@ == apply_asms_to_grid(old(field)@, changes@),
        final(field).ncols() == old(field).ncols(),
        final(all_changes)@ == old(all_changes)@ + changes@,
{
    let ghost base = field@;
    let mut k: usize = 0;
    while k < changes.len()
        invariant
            old(field).wf(),
            field.wf(),
            field.ncols() == old(field).ncols(),
            field@.len() == base.len(),
            forall|r: int| 0 <= r < base.len() ==> (#[trigger] field@[r]).len() == base[r].len(),
            k <= changes@.len(),
            forall|t: int|
                0 <= t < changes@.len() ==> old(field).in_bounds((#[trigger] changes@[t]).coords),
            base == old(field)@,
            field@ == apply_asms_to_grid(base, changes@.take(k as int)),
        decreases changes@.len() - k,
    {
        let a = changes[k];
        let ghost before = field@;
        proof {
            assert(changes@.take(k + 1).drop_last() =~= changes@.take(k as int));
            assert(changes@.take(k + 1).last() == changes@[k as int]);
        }
        a.apply(field);
        proof {
            crate::field::lemma_field_row_lens(old(field));
            assert(0 <= a.coords.0 < base.len());
            assert(0 <= a.coords.1 < base[a.coords.0 as int].len());
            assert(before.len() == base.len());
            assert forall|r: int| 0 <= r < base.len() implies (#[trigger] field@[r]).len()
                == base[r].len() by {
                assert(before[r].len() == base[r].len());
                if r == a.coords.0 as int {
                    assert(field@[r] == before[r].update(a.coords.1 as int, a.val));
                    assert(field@[r].len() == before[r].len());
                } else {
                    assert(field@[r] == before[r]);
                }
            }
        }
        k = k + 1;
    }
    proof {
        assert(changes@.take(changes@.len() as int) =~= changes@);
    }
    let mut k: usize = 0;
    while k < changes.len()
        invariant
            k <= changes@.len(),
            all_changes@ == old(all_changes)@ + changes@.take(k as int),
        decreases changes@.len() - k,
    {
        all_changes.push(changes[k]);
        proof {
            assert(all_changes@ =~= old(all_changes)@ + changes@.take(k + 1));
        }
        k = k + 1;
    }
    proof {
        assert(changes@.take(changes@.len() as int) =~= changes@);
    }
}

/// The solver: the puzzle's hints, the line-deduction cache, and the search
/// configuration.
pub struct Solver {
    row_hints: Vec<Vec<usize>>,
    col_hints: Vec<Vec<usize>>,
    cache: LineCache,
    max_depth: usize,
    find_all: bool,
    algorithm: Algorithm,
}

impl Solver {
    pub closed spec fn rh(&self) -> Seq<Seq<usize>> {
        self.row_hints@.map_values(|v: Vec<usize>| v@)
    }

    pub closed spec fn ch(&self) -> Seq<Seq<usize>> {
        self.col_hints@.map_values(|v: Vec<usize>| v@)
    }

    pub open spec fn nrows_spec(&self) -> int {
        self.rh().len() as int
    }

    pub open spec fn ncols_spec(&self) -> int {
        self.ch().len() as int
    }

    pub closed spec fn max_depth_spec(&self) -> usize {
        self.max_depth
    }

    pub closed spec fn find_all_spec(&self) -> bool {
        self.find_all
    }

    pub closed spec fn algorithm_spec(&self) -> Algorithm {
        self.algorithm
    }

    /// The solver's configuration: everything but the cache contents.
    pub open spec fn cfg(&self) -> (Seq<Seq<usize>>, Seq<Seq<usize>>, usize, bool, Algorithm) {
        (self.rh(), self.ch(), self.max_depth_spec(), self.find_all_spec(), self.algorithm_spec())
    }

    /// Every hint is positive, the grid fits in memory, and the cache
    /// invariant holds.
    pub closed spec fn wf(&self) -> bool {
        &&& forall|li: int| 0 <= li < self.rh().len() ==> hints_wf(#[trigger] self.rh()[li])
        &&& forall|li: int| 0 <= li < self.ch().len() ==> hints_wf(#[trigger] self.ch()[li])
        &&& self.nrows_spec() * self.ncols_spec() <= usize::MAX
        &&& self.cache.wf()
    }

    /// A solver over the given hints; the grid is `row_hints.len()` rows by
    /// `col_hints.len()` columns.
    pub fn from_hints(
        row_hints: Vec<Vec<usize>>,
        col_hints: Vec<Vec<usize>>,
        max_depth: usize,
        find_all: bool,
        algorithm: Algorithm,
    ) -> (r: Self)
        requires
            forall|li: int| 0 <= li < row_hints@.len() ==> hints_wf((#[trigger] row_hints@[li])@),
            forall|li: int| 0 <= li < col_hints@.len() ==> hints_wf((#[trigger] col_hints@[li])@),
            row_hints@.len() * col_hints@.len() <= usize::MAX,
        ensures
            r.wf(),
            r.rh() == row_hints@.map_values(|v: Vec<usize>| v@),
            r.ch() == col_hints@.map_values(|v: Vec<usize>| v@),
            r.max_depth_spec() == max_depth,
            r.find_all_spec() == find_all,
            r.algorithm_spec() == algorithm,
    {
        let r = Solver {
            row_hints,
            col_hints,
            cache: LineCache::new(),
            max_depth,
            find_all,
            algorithm,
        };
        proof {
            assert forall|li: int| 0 <= li < r.rh().len() implies hints_wf(
                #[trigger] r.rh()[li],
            ) by {
                assert(r.rh()[li] == r.row_hints@[li]@);
            }
            assert forall|li: int| 0 <= li < r.ch().len() implies hints_wf(
                #[trigger] r.ch()[li],
            ) by {
                assert(r.ch()[li] == r.col_hints@[li]@);
            }
        }
        r
    }

    /// A fresh, fully undecided field of the puzzle's dimensions.
    pub fn create_field(&self) -> (r: Field)
        ensures
            r.wf(),
            grid_dims(r@, self.nrows_spec(), self.ncols_spec()),
            r.ncols() == self.ncols_spec(),
            forall|i: int, j: int|
                0 <= i < self.nrows_spec() && 0 <= j < self.ncols_spec() ==> (#[trigger] r@[i][j])
                    == CellValue::Unknown,
    {
        Field::new(self.nrows(), self.ncols())
    }

    fn nrows(&self) -> (r: usize)
        ensures
            r == self.nrows_spec(),
    {
        self.row_hints.len()
    }

    fn ncols(&self) -> (r: usize)
        ensures
            r == self.ncols_spec(),
    {
        self.col_hints.len()
    }

    /// Runs the line propagator over the given lines, writing every forced
    /// cell into the field; `None` as soon as some line admits no solution.
    fn do_solve_by_lines_step(
        &mut self,
        field: &mut Field,
        line_type: LineType,
        line_idxs: &Vec<usize>,
    ) -> (r: Option<Vec<Assumption>>)
        requires
            old(self).wf(),
            old(field).wf(),
            grid_dims(old(field)@, old(self).nrows_spec(), old(self).ncols_spec()),
            old(field).ncols() == old(self).ncols_spec(),
            forall|k: int|
                0 <= k < line_idxs@.len() ==> (#[trigger] line_idxs@[k]) < line_count_of(
                    old(self).nrows_spec(),
                    old(self).ncols_spec(),
                    line_type,
                ),
        ensures
            final(self).wf(),
            final(self).cfg() == old(self).cfg(),
            final(field).wf(),
            grid_dims(final(field)@, old(self).nrows_spec(), old(self).ncols_spec()),
            final(field).ncols() == old(self).ncols_spec(),
            r matches Some(all) ==> {
                &&& final(field)@ == apply_asms_to_grid(old(field)@, all@)
                &&& changes_ok(
                    old(field)@,
                    all@,
                    old(self).nrows_spec(),
                    old(self).ncols_spec(),
                )
                &&& forall|k: int|
                    0 <= k < all@.len() ==> line_idxs@.contains(
                        (#[trigger] all@[k]).line_idx_spec(line_type),
                    )
                &&& forall|j: int|
                    0 <= j < line_idxs@.len() ==> line_propagated(
                        old(self).rh(),
                        old(self).ch(),
                        final(field)@,
                        line_type,
                        #[trigger] line_idxs@[j] as int,
                    )
                &&& forall|full: Seq<Seq<CellValue>>|
                    #[trigger] grid_solution(old(self).rh(), old(self).ch(), old(field)@, full)
                        <==> grid_solution(old(self).rh(), old(self).ch(), final(field)@, full)
            },
            r is None ==> !exists|full: Seq<Seq<CellValue>>|
                #[trigger] grid_solution(old(self).rh(), old(self).ch(), old(field)@, full),
            r is None ==> exists|j: int|
                0 <= j < line_idxs@.len() && !valid_line_at(
                    old(self).rh(),
                    old(self).ch(),
                    final(field)@,
                    line_type,
                    #[trigger] line_idxs@[j] as int,
                ),
            (forall|j: int|
                0 <= j < line_idxs@.len() ==> line_propagated(
                    old(self).rh(),
                    old(self).ch(),
                    old(field)@,
                    line_type,
                    #[trigger] line_idxs@[j] as int,
                )) ==> (r matches Some(all) && all@ == Seq::<Assumption>::empty()
                && final(field)@ == old(field)@),
    {
        let nr = self.nrows();
        let nc = self.ncols();
        let ghost rh = self.rh();
        let ghost ch = self.ch();
        let ghost nrows = self.nrows_spec();
        let ghost ncols = self.ncols_spec();
        let ghost field0 = field@;
        let mut all: Vec<Assumption> = Vec::new();
        let mut i: usize = 0;
        while i < line_idxs.len()
            invariant
                self.wf(),
                self.cfg() == old(self).cfg(),
                rh == self.rh(),
                ch == self.ch(),
                nrows == self.nrows_spec(),
                ncols == self.ncols_spec(),
                nr as int == nrows,
                nc as int == ncols,
                field.wf(),
                field.ncols() == ncols,
                grid_dims(field@, nrows, ncols),
                grid_dims(field0, nrows, ncols),
                field0 == old(field)@,
                forall|k: int|
                    0 <= k < line_idxs@.len() ==> (#[trigger] line_idxs@[k]) < line_count_of(
                        nrows,
                        ncols,
                        line_type,
                    ),
                i <= line_idxs@.len(),
                field@ == apply_asms_to_grid(field0, all@),
                changes_ok(field0, all@, nrows, ncols),
                forall|k: int|
                    0 <= k < all@.len() ==> line_idxs@.contains(
                        (#[trigger] all@[k]).line_idx_spec(line_type),
                    ),
                forall|j: int|
                    0 <= j < i ==> line_propagated(
                        rh,
                        ch,
                        field@,
                        line_type,
                        #[trigger] line_idxs@[j] as int,
                    ),
                forall|full: Seq<Seq<CellValue>>|
                    #[trigger] grid_solution(rh, ch, field0, full) <==> grid_solution(
                        rh,
                        ch,
                        field@,
                        full,
                    ),
                (forall|j: int|
                    0 <= j < line_idxs@.len() ==> line_propagated(
                        rh,
                        ch,
                        field0,
                        line_type,
                        #[trigger] line_idxs@[j] as int,
                    )) ==> (all@ == Seq::<Assumption>::empty() && field@ == field0),
            decreases line_idxs@.len() - i,
        {
            let li = line_idxs[i];
            let mut line = match line_type {
                LineType::Row => Line::new(
                    LineType::Row,
                    li,
                    &self.row_hints[li],
                    field.row(li),
                ),
                LineType::Col => Line::new(
                    LineType::Col,
                    li,
                    &self.col_hints[li],
                    field.col(li),
                ),
            };
            let ghost gb = field@;
            let ghost hl = hints_of(rh, ch, line_type, li as int);
            let ghost cur_line = line_of(gb, line_type, li as int);
            proof {
                match line_type {
                    LineType::Row => {
                        assert(rh[li as int] == self.row_hints@[li as int]@);
                        assert(line.cells_spec() == cur_line);
                    },
                    LineType::Col => {
                        assert(ch[li as int] == self.col_hints@[li as int]@);
                        assert(field.col_spec(li as int) =~= cur_line);
                    },
                }
                assert(line.hints_spec() == hl);
                assert(hints_wf(hl));
                assert(cur_line.len() == line_len_of(nrows, ncols, line_type));
            }
            let res = line.solve(&mut self.cache);
            match res {
                None => {
                    proof {
                        // A fully propagated line cannot fail its pass.
                        if forall|j: int|
                            0 <= j < line_idxs@.len() ==> line_propagated(
                                rh,
                                ch,
                                field0,
                                line_type,
                                #[trigger] line_idxs@[j] as int,
                            ) {
                            assert(line_propagated(
                                rh,
                                ch,
                                field0,
                                line_type,
                                line_idxs@[i as int] as int,
                            ));
                            assert(false);
                        }
                        // The processed line is inconsistent, which rules
                        // out every solution.
                        assert(!valid_line_at(rh, ch, field@, line_type, line_idxs@[i as int] as int));
                        assert forall|full: Seq<Seq<CellValue>>|
                            !#[trigger] grid_solution(rh, ch, field0, full) by {
                            if grid_solution(rh, ch, field0, full) {
                                assert(grid_solution(rh, ch, field@, full));
                                lemma_solution_restricts(rh, ch, field@, full, line_type, li as int);
                                crate::line_props::lemma_valid_iff_completion(hl, cur_line);
                                assert(false);
                            }
                        }
                    }
                    return None;
                },
                Some(mut changes) => {
                    proof {
                        lemma_forced_asm_bounds(hl, cur_line, line_type, li, cur_line.len() as int);
                        lemma_forced_asm_apply(hl, cur_line, line_type, li, cur_line.len() as int);
                        // The moves lie on this line, at undecided cells.
                        assert forall|k: int| 0 <= k < changes@.len() implies {
                            let a = #[trigger] changes@[k];
                            &&& 0 <= a.coords.0 < nrows
                            &&& 0 <= a.coords.1 < ncols
                            &&& a.val != CellValue::Unknown
                            &&& gb[a.coords.0 as int][a.coords.1 as int] == CellValue::Unknown
                            &&& a.line_idx_spec(line_type) == li
                        } by {
                            let a = changes@[k];
                            let idx = crate::line_props::cell_idx_of(line_type, a);
                            assert(cur_line[idx] == CellValue::Unknown);
                            match line_type {
                                LineType::Row => {
                                    assert(a.coords == (li, idx as usize));
                                },
                                LineType::Col => {
                                    assert(a.coords == (idx as usize, li));
                                    assert(cur_line[idx] == gb[idx][li as int]);
                                },
                            }
                        }
                        assert forall|k1: int, k2: int|
                            0 <= k1 < k2 < changes@.len() implies (#[trigger] changes@[k1]).coords
                            != (#[trigger] changes@[k2]).coords by {
                            assert(crate::line_props::cell_idx_of(line_type, changes@[k1])
                                < crate::line_props::cell_idx_of(line_type, changes@[k2]));
                        }
                        assert(changes_ok(gb, changes@, nrows, ncols));
                    }
                    // The per-pass list is assembled below; the applier's
                    // log is not needed here.
                    let mut scratch: Vec<Assumption> = Vec::new();
                    apply_changes(&changes, field, &mut scratch);
                    proof {
                        // The processed line now carries its forced cells and
                        // is still consistent.
                        lemma_apply_line_grid(gb, changes@, line_type, li, nrows, ncols);
                        lemma_applied_solutions(hl, cur_line);
                        assert(line_of(field@, line_type, li as int)
                            == crate::line_props::applied_cells(hl, cur_line));
                        assert(valid_line_at(rh, ch, field@, line_type, li as int));
                        crate::line_props::lemma_propagator_idempotent(hl, cur_line, line_type, li);
                        assert(line_propagated(rh, ch, field@, line_type, li as int));
                        // Lines of this kind processed earlier are untouched.
                        assert forall|j: int|
                            0 <= j < i && line_idxs@[j] != li implies line_of(
                            field@,
                            line_type,
                            #[trigger] line_idxs@[j] as int,
                        ) == line_of(gb, line_type, line_idxs@[j] as int) by {
                            lemma_line_frame(
                                gb,
                                changes@,
                                line_type,
                                line_idxs@[j] as int,
                                nrows,
                                ncols,
                            );
                        }
                        // The accumulated list is still a list of forced
                        // moves against the grid the pass started from.
                        lemma_changes_ok_compose(field0, all@, changes@, nrows, ncols);
                        lemma_apply_append(field0, all@, changes@);
                        // Writing the forced cells keeps the solutions.
                        lemma_line_batch_preserves(rh, ch, gb, line_type, li);
                        assert forall|full: Seq<Seq<CellValue>>|
                            #[trigger] grid_solution(rh, ch, field0, full) <==> grid_solution(
                                rh,
                                ch,
                                field@,
                                full,
                            ) by {
                            assert(grid_solution(rh, ch, gb, full) <==> grid_solution(
                                rh,
                                ch,
                                field@,
                                full,
                            ));
                        }
                    }
                    let ghost all_before = all@;
                    let ghost ch0 = changes@;
                    all.append(&mut changes);
                    proof {
                        assert(all@ == all_before + ch0);
                        if forall|j: int|
                            0 <= j < line_idxs@.len() ==> line_propagated(
                                rh,
                                ch,
                                field0,
                                line_type,
                                #[trigger] line_idxs@[j] as int,
                            ) {
                            assert(line_propagated(
                                rh,
                                ch,
                                field0,
                                line_type,
                                line_idxs@[i as int] as int,
                            ));
                            assert(gb == field0);
                            assert(ch0 == Seq::<Assumption>::empty());
                            assert(field@ == apply_asms_to_grid(gb, ch0));
                            assert(field@ == field0);
                            assert(all@ =~= Seq::<Assumption>::empty());
                        }
                        assert forall|k: int| 0 <= k < all@.len() implies line_idxs@.contains(
                            (#[trigger] all@[k]).line_idx_spec(line_type),
                        ) by {
                            if k >= all_before.len() {
                                assert(all@[k] == ch0[k - all_before.len()]);
                                assert(all@[k].line_idx_spec(line_type) == li);
                                assert(line_idxs@[i as int] == li);
                            } else {
                                assert(all@[k] == all_before[k]);
                            }
                        }
                    }
                },
            }
            i = i + 1;
        }
        Some(all)
    }

    /// Alternates row and column propagation passes, each pass working only
    /// the lines the previous one touched, until a pass changes nothing or a
    /// line turns out inconsistent.
    #[verifier::rlimit(100)]
    fn do_solve_by_lines(&mut self, field: &Field) -> (r: SolutionResult)
        requires
            old(self).wf(),
            field.wf(),
            grid_dims(field@, old(self).nrows_spec(), old(self).ncols_spec()),
            field.ncols() == old(self).ncols_spec(),
        ensures
            final(self).wf(),
            final(self).cfg() == old(self).cfg(),
            result_ok(old(self).rh(), old(self).ch(), field@, r),
            r matches SolutionResult::Solved(s) ==> s@.len() == 1,
            r matches SolutionResult::Unsolved(chg) ==> all_lines_propagated(
                old(self).rh(),
                old(self).ch(),
                apply_asms_to_grid(field@, chg@),
            ) && !grid_solved(apply_asms_to_grid(field@, chg@)),
            r is Controversial ==> !exists|full: Seq<Seq<CellValue>>|
                #[trigger] grid_solution(old(self).rh(), old(self).ch(), field@, full),
            r matches SolutionResult::Solved(s) ==> forall|full: Seq<Seq<CellValue>>|
                #[trigger] grid_solution(old(self).rh(), old(self).ch(), field@, full) <==> full
                    == s@[0]@,
            r matches SolutionResult::Unsolved(chg) ==> forall|full: Seq<Seq<CellValue>>, k: int|
                #![trigger grid_solution(old(self).rh(), old(self).ch(), field@, full), chg@[k]]
                grid_solution(old(self).rh(), old(self).ch(), field@, full) && 0 <= k < chg@.len()
                    ==> full[chg@[k].coords.0 as int][chg@[k].coords.1 as int] == chg@[k].val,
            all_lines_propagated(old(self).rh(), old(self).ch(), field@) && !grid_solved(field@)
                ==> (r matches SolutionResult::Unsolved(chg) && chg@ == Seq::<
            Assumption,
            >::empty()),
    {
        let ghost rh = self.rh();
        let ghost ch = self.ch();
        let ghost nrows = self.nrows_spec();
        let ghost ncols = self.ncols_spec();
        let nr = self.nrows();
        let nc = self.ncols();
        let mut fld = field.clone();
        let mut all_changes: Vec<Assumption> = Vec::new();
        // First pass: every row.
        let mut idxs: Vec<usize> = Vec::new();
        let mut i: usize = 0;
        while i < nr
            invariant
                i <= nr,
                idxs@.len() == i,
                forall|k: int| 0 <= k < i ==> (#[trigger] idxs@[k]) == k,
            decreases nr - i,
        {
            idxs.push(i);
            i = i + 1;
        }
        let ghost propagated_input = all_lines_propagated(rh, ch, field@) && !grid_solved(
            field@,
        );
        match self.do_solve_by_lines_step(&mut fld, LineType::Row, &idxs) {
            None => {
                proof {
                    if propagated_input {
                        assert(forall|j: int|
                            0 <= j < idxs@.len() ==> line_propagated(
                                rh,
                                ch,
                                field@,
                                LineType::Row,
                                #[trigger] idxs@[j] as int,
                            ));
                        assert(false);
                    }
                    assert(forall|full: Seq<Seq<CellValue>>|
                        !#[trigger] grid_solution(rh, ch, field@, full));
                }
                return SolutionResult::Controversial;
            },
            Some(changes) => {
                proof {
                    assert forall|li: int| 0 <= li < nrows implies line_propagated(
                        rh,
                        ch,
                        fld@,
                        LineType::Row,
                        li,
                    ) by {
                        assert(idxs@[li] == li as usize);
                    }
                    if propagated_input {
                        assert(forall|j: int|
                            0 <= j < idxs@.len() ==> line_propagated(
                                rh,
                                ch,
                                field@,
                                LineType::Row,
                                #[trigger] idxs@[j] as int,
                            ));
                        assert(changes@ == Seq::<Assumption>::empty());
                        assert(fld@ == field@);
                    }
                }
                all_changes = changes;
            },
        }
        let mut line_type = LineType::Col;
        let mut changed_idxs: Vec<usize> = Vec::new();
        let mut i: usize = 0;
        while i < nc
            invariant
                i <= nc,
                changed_idxs@.len() == i,
                forall|k: int| 0 <= k < i ==> (#[trigger] changed_idxs@[k]) == k,
            decreases nc - i,
        {
            changed_idxs.push(i);
            i = i + 1;
        }
        proof {
            assert forall|li: usize| li < nc implies #[trigger] changed_idxs@.contains(li) by {
                assert(changed_idxs@[li as int] == li);
            }
        }
        loop
            invariant
                self.wf(),
                self.cfg() == old(self).cfg(),
                rh == self.rh(),
                ch == self.ch(),
                nrows == self.nrows_spec(),
                ncols == self.ncols_spec(),
                nr as int == nrows,
                nc as int == ncols,
                field.wf(),
                grid_dims(field@, nrows, ncols),
                fld.wf(),
                fld.ncols() == ncols,
                grid_dims(fld@, nrows, ncols),
                fld@ == apply_asms_to_grid(field@, all_changes@),
                changes_ok(field@, all_changes@, nrows, ncols),
                forall|k: int|
                    0 <= k < changed_idxs@.len() ==> (#[trigger] changed_idxs@[k])
                        < line_count_of(nrows, ncols, line_type),
                forall|li: int|
                    0 <= li < line_count_of(nrows, ncols, line_type.other_spec())
                        ==> line_propagated(rh, ch, fld@, line_type.other_spec(), li),
                forall|li: int|
                    0 <= li < line_count_of(nrows, ncols, line_type) && !changed_idxs@.contains(
                        li as usize,
                    ) ==> line_propagated(rh, ch, fld@, line_type, li),
                forall|full: Seq<Seq<CellValue>>|
                    #[trigger] grid_solution(rh, ch, field@, full) <==> grid_solution(
                        rh,
                        ch,
                        fld@,
                        full,
                    ),
                propagated_input == (all_lines_propagated(rh, ch, field@) && !grid_solved(
                    field@,
                )),
                propagated_input ==> (fld@ == field@ && all_changes@ == Seq::<
                Assumption,
                >::empty() && forall|j: int|
                    0 <= j < changed_idxs@.len() ==> line_propagated(
                        rh,
                        ch,
                        fld@,
                        line_type,
                        #[trigger] changed_idxs@[j] as int,
                    )),
            decreases count_unknown(fld@),
        {
            let ghost fld_prev = fld@;
            match self.do_solve_by_lines_step(&mut fld, line_type, &changed_idxs) {
                None => {
                    proof {
                        if propagated_input {
                            assert(false);
                        }
                        assert forall|full: Seq<Seq<CellValue>>|
                            !#[trigger] grid_solution(rh, ch, field@, full) by {
                            if grid_solution(rh, ch, field@, full) {
                                assert(grid_solution(rh, ch, fld_prev, full));
                            }
                        }
                    }
                    return SolutionResult::Controversial;
                },
                Some(mut changes) => {
                    if changes.len() == 0 {
                        proof {
                            assert(fld@ =~= fld_prev);
                            assert forall|li: int|
                                0 <= li < line_count_of(
                                    nrows,
                                    ncols,
                                    line_type,
                                ) implies line_propagated(rh, ch, fld@, line_type, li) by {
                                if changed_idxs@.contains(li as usize) {
                                    let j = choose|j: int|
                                        0 <= j < changed_idxs@.len() && changed_idxs@[j]
                                            == li as usize;
                                    assert(line_propagated(
                                        rh,
                                        ch,
                                        fld@,
                                        line_type,
                                        changed_idxs@[j] as int,
                                    ));
                                }
                            }
                            assert(all_lines_propagated(rh, ch, fld@)) by {
                                match line_type {
                                    LineType::Row => {},
                                    LineType::Col => {},
                                }
                            }
                            assert forall|li: int| 0 <= li < rh.len() implies valid_line_at(
                                rh,
                                ch,
                                fld@,
                                LineType::Row,
                                li,
                            ) by {
                                assert(line_propagated(rh, ch, fld@, LineType::Row, li));
                            }
                            assert forall|li: int| 0 <= li < ch.len() implies valid_line_at(
                                rh,
                                ch,
                                fld@,
                                LineType::Col,
                                li,
                            ) by {
                                assert(line_propagated(rh, ch, fld@, LineType::Col, li));
                            }
                            assert(all_lines_valid(rh, ch, fld@));
                            lemma_changes_refine(field@, all_changes@, nrows, ncols);
                        }
                        if fld.is_solved() {
                            proof {
                                if propagated_input {
                                    assert(fld@ == field@);
                                    assert(!grid_solved(field@));
                                    assert(false);
                                }
                            }
                            let mut s = SolutionSet::new();
                            proof {
                                assert(grid_solved(fld@));
                                assert(good_solution(rh, ch, field@, fld));
                                // The solved grid is the puzzle's one and
                                // only solution.
                                assert(refines_grid(fld@, fld@));
                                assert(grid_solution(rh, ch, fld@, fld@));
                                assert(grid_solution(rh, ch, field@, fld@));
                                assert forall|full: Seq<Seq<CellValue>>|
                                    #[trigger] grid_solution(rh, ch, field@, full) implies full
                                    == fld@ by {
                                    assert(grid_solution(rh, ch, fld@, full));
                                    assert(refines_grid(fld@, full));
                                    assert forall|r2: int|
                                        0 <= r2 < full.len() implies #[trigger] full[r2]
                                        == fld@[r2] by {
                                        assert forall|c2: int|
                                            0 <= c2 < ncols implies #[trigger] full[r2][c2]
                                            == fld@[r2][c2] by {
                                            assert(fld@[r2][c2] != CellValue::Unknown);
                                        }
                                        assert(full[r2] =~= fld@[r2]);
                                    }
                                    assert(full =~= fld@);
                                }
                            }
                            let ghost the_solution = fld@;
                            s.insert(fld);
                            proof {
                                assert(s@[0]@ == the_solution);
                            }
                            return SolutionResult::Solved(s);
                        } else {
                            proof {
                                assert(!grid_solved(fld@)) by {
                                    assert(!fld.solved_spec());
                                }
                                // Every solution carries every forced move.
                                lemma_apply_frame(field@, all_changes@, nrows, ncols);
                                assert forall|full: Seq<Seq<CellValue>>, k: int|
                                    #![trigger grid_solution(rh, ch, field@, full), all_changes@[k]]
                                    grid_solution(rh, ch, field@, full) && 0 <= k
                                        < all_changes@.len() implies full[all_changes@[k].coords.0
                                    as int][all_changes@[k].coords.1 as int]
                                    == all_changes@[k].val by {
                                    let a = all_changes@[k];
                                    assert(forall|k2: int|
                                        k < k2 < all_changes@.len()
                                            ==> (#[trigger] all_changes@[k2]).coords != a.coords);
                                    assert(fld@[a.coords.0 as int][a.coords.1 as int] == a.val);
                                    assert(grid_solution(rh, ch, fld@, full));
                                    assert(refines_grid(fld@, full));
                                }
                            }
                            proof {
                                if propagated_input {
                                    assert(all_changes@ == Seq::<Assumption>::empty());
                                }
                            }
                            return SolutionResult::Unsolved(all_changes);
                        }
                    }
                    // Collect the crossing lines the changes touched.
                    let other = line_type.other();
                    let mut next: Vec<usize> = Vec::new();
                    let mut k: usize = 0;
                    while k < changes.len()
                        invariant
                            k <= changes@.len(),
                            next@.len() == k,
                            forall|t: int|
                                0 <= t < k ==> (#[trigger] next@[t]) == changes@[t].line_idx_spec(
                                    other,
                                ),
                            other == line_type.other_spec(),
                        decreases changes@.len() - k,
                    {
                        next.push(changes[k].line_idx(other));
                        k = k + 1;
                    }
                    proof {
                        assert(forall|j: int|
                            0 <= j < changed_idxs@.len() ==> line_propagated(
                                rh,
                                ch,
                                fld@,
                                line_type,
                                #[trigger] changed_idxs@[j] as int,
                            ));
                        // The accumulated list still holds forced moves of
                        // the original field, and the field carries them.
                        lemma_changes_ok_compose(field@, all_changes@, changes@, nrows, ncols);
                        lemma_apply_append(field@, all_changes@, changes@);
                        // Progress: at least one more cell became known.
                        lemma_count_apply(fld_prev, changes@, nrows, ncols);
                        // All lines of the kind just processed are now
                        // fully propagated.
                        assert forall|li: int|
                            0 <= li < line_count_of(
                                nrows,
                                ncols,
                                line_type,
                            ) implies line_propagated(rh, ch, fld@, line_type, li) by {
                            if changed_idxs@.contains(li as usize) {
                                let j = choose|j: int|
                                    0 <= j < changed_idxs@.len() && changed_idxs@[j]
                                        == li as usize;
                                assert(line_propagated(
                                    rh,
                                    ch,
                                    fld@,
                                    line_type,
                                    changed_idxs@[j] as int,
                                ));
                                assert(changed_idxs@[j] as int == li);
                            } else {
                                assert forall|t: int|
                                    0 <= t < changes@.len() implies (
                                #[trigger] changes@[t]).line_idx_spec(line_type) != li by {
                                    if changes@[t].line_idx_spec(line_type) == li {
                                        assert(changed_idxs@.contains(
                                            changes@[t].line_idx_spec(line_type),
                                        ));
                                        assert(changes@[t].line_idx_spec(line_type)
                                            == li as usize);
                                        assert(false);
                                    }
                                }
                                lemma_line_frame(fld_prev, changes@, line_type, li, nrows, ncols);
                                assert(line_of(fld@, line_type, li) == line_of(
                                    fld_prev,
                                    line_type,
                                    li,
                                ));
                                assert(line_propagated(rh, ch, fld_prev, line_type, li));
                            }
                        }
                        // Crossing lines not in the new dirty set are
                        // untouched and stay valid.
                        assert forall|li: int|
                            0 <= li < line_count_of(nrows, ncols, other) && !next@.contains(
                                li as usize,
                            ) implies line_propagated(rh, ch, fld@, other, li) by {
                            assert forall|t: int|
                                0 <= t < changes@.len() implies (
                            #[trigger] changes@[t]).line_idx_spec(other) != li by {
                                if changes@[t].line_idx_spec(other) == li {
                                    assert(next@[t] == changes@[t].line_idx_spec(other));
                                    assert(next@[t] == li as usize);
                                    assert(next@.contains(li as usize));
                                    assert(false);
                                }
                            }
                            lemma_line_frame(fld_prev, changes@, other, li, nrows, ncols);
                            assert(line_of(fld@, other, li) == line_of(fld_prev, other, li));
                            assert(line_propagated(rh, ch, fld_prev, other, li)) by {
                                assert(other == line_type.other_spec());
                            }
                        }
                    }
                    let ghost all0 = all_changes@;
                    let ghost ch0 = changes@;
                    all_changes.append(&mut changes);
                    proof {
                        assert(all_changes@ == all0 + ch0);
                        assert(fld@ == apply_asms_to_grid(field@, all_changes@));
                        assert(changes_ok(field@, all_changes@, nrows, ncols));
                        if propagated_input {
                            assert(ch0 == Seq::<Assumption>::empty());
                            assert(false);
                        }
                    }
                    line_type = other;
                    changed_idxs = next;
                },
            }
        }
    }

    /// One level of the recursive case-split: tries both values at every
    /// undecided cell, learns a forced value whenever one trial contradicts,
    /// and collects any solutions the recursion finds.
    #[verifier::rlimit(100)]
    fn do_naive_step(&mut self, field: &Field, max_depth: usize) -> (r: SolutionResult)
        requires
            old(self).wf(),
            field.wf(),
            grid_dims(field@, old(self).nrows_spec(), old(self).ncols_spec()),
            field.ncols() == old(self).ncols_spec(),
            old(self).algorithm_spec() != Algorithm::ByLines,
        ensures
            final(self).wf(),
            final(self).cfg() == old(self).cfg(),
            result_ok(old(self).rh(), old(self).ch(), field@, r),
            result_sound(old(self).rh(), old(self).ch(), field@, r),
            old(self).find_all_spec() ==> result_complete(
                old(self).rh(),
                old(self).ch(),
                field@,
                r,
            ),
            !old(self).find_all_spec() ==> (r matches SolutionResult::Solved(s) ==> s@.len()
                == 1),
        decreases max_depth, 1int,
    {
        let ghost rh = self.rh();
        let ghost ch = self.ch();
        let ghost nrows = self.nrows_spec();
        let ghost ncols = self.ncols_spec();
        let nr = self.nrows();
        let nc = self.ncols();
        let ghost base = field@;
        let mut fld = field.clone();
        let mut all_changes: Vec<Assumption> = Vec::new();
        let ghost mut flip_idxs: Seq<int> = Seq::empty();
        let mut solutions = SolutionSet::new();
        let mut has_unsolved = false;
        let pairs = coord_pairs(nr, nc);
        proof {
            lemma_coord_pairs(nrows, ncols);
        }
        let mut pi: usize = 0;
        while pi < pairs.len()
            invariant
                self.wf(),
                self.cfg() == old(self).cfg(),
                rh == self.rh(),
                ch == self.ch(),
                nrows == self.nrows_spec(),
                ncols == self.ncols_spec(),
                nr as int == nrows,
                nc as int == ncols,
                self.algorithm_spec() != Algorithm::ByLines,
                field.wf(),
                grid_dims(base, nrows, ncols),
                base == field@,
                fld.wf(),
                fld.ncols() == ncols,
                grid_dims(fld@, nrows, ncols),
                refines_grid(base, fld@),
                pairs@ == coord_pairs_spec(nrows, ncols),
                pi <= pairs@.len(),
                flip_idxs.len() == all_changes@.len(),
                forall|k1: int, k2: int|
                    #![trigger flip_idxs[k1], flip_idxs[k2]]
                    0 <= k1 < k2 < flip_idxs.len() ==> flip_idxs[k1] < flip_idxs[k2],
                forall|k: int| 0 <= k < all_changes@.len() ==> 0 <= #[trigger] flip_idxs[k] < pi,
                forall|k: int|
                    0 <= k < all_changes@.len() ==> (#[trigger] all_changes@[k]).coords
                        == pairs@[flip_idxs[k]],
                changes_ok(base, all_changes@, nrows, ncols),
                forall|full: Seq<Seq<CellValue>>|
                    #[trigger] grid_solution(rh, ch, base, full) <==> grid_solution(
                        rh,
                        ch,
                        fld@,
                        full,
                    ),
                forall|full: Seq<Seq<CellValue>>, k: int|
                    #![trigger grid_solution(rh, ch, base, full), all_changes@[k]]
                    grid_solution(rh, ch, base, full) && 0 <= k < all_changes@.len()
                        ==> full[all_changes@[k].coords.0 as int][all_changes@[k].coords.1
                        as int] == all_changes@[k].val,
                solutions.distinct(),
                forall|i: int|
                    0 <= i < solutions@.len() ==> good_solution(
                        rh,
                        ch,
                        base,
                        #[trigger] solutions@[i],
                    ),
                self.find_all_spec() && !has_unsolved && solutions@.len() > 0
                    ==> forall|full: Seq<Seq<CellValue>>|
                    #[trigger] grid_solution(rh, ch, base, full) ==> holds_solution(
                        solutions@,
                        full,
                    ),
                !self.find_all_spec() ==> solutions@.len() == 0,
            decreases pairs@.len() - pi,
        {
            let coords = pairs[pi];
            proof {
                lemma_coord_pairs(nrows, ncols);
                assert(pairs@[pi as int] == coords);
                assert(0 <= coords.0 < nrows && 0 <= coords.1 < ncols);
            }
            if fld.get(coords) != CellValue::Unknown {
                pi = pi + 1;
                continue ;
            }
            let ghost s0 = fld@;
            let mut has_controversy = false;
            // Trial: the cell filled.
            let ass_f = Assumption { coords, val: CellValue::Filled };
            ass_f.apply(&mut fld);
            proof {
                crate::field::lemma_field_row_lens(field);
                assert(fld@ == crate::grid_props::grid_set(s0, coords, CellValue::Filled));
                crate::grid_props::lemma_refines_set(s0, coords, CellValue::Filled);
                lemma_refines_trans(base, s0, fld@);
            }
            match self.do_solve(&fld, max_depth) {
                SolutionResult::Solved(res) => {
                    proof {
                        assert forall|i: int| 0 <= i < res@.len() implies good_solution(
                            rh,
                            ch,
                            base,
                            #[trigger] res@[i],
                        ) by {
                            lemma_refines_trans(base, fld@, res@[i]@);
                        }
                    }
                    let ghost merged_from = solutions@;
                    solutions.merge(res);
                    proof {
                        assert forall|i: int| 0 <= i < solutions@.len() implies good_solution(
                            rh,
                            ch,
                            base,
                            #[trigger] solutions@[i],
                        ) by {
                            if merged_from.contains(solutions@[i]) {
                                let j = choose|j: int|
                                    0 <= j < merged_from.len() && merged_from[j] == solutions@[i];
                            } else {
                                let j = choose|j: int|
                                    0 <= j < res@.len() && res@[j] == solutions@[i];
                            }
                        }
                    }
                    proof {
                        if self.find_all_spec() {
                            // Every solution filling this cell is enumerated.
                            assert forall|full: Seq<Seq<CellValue>>|
                                #[trigger] grid_solution(rh, ch, base, full)
                                    && full[coords.0 as int][coords.1 as int]
                                    == CellValue::Filled implies holds_solution(
                                solutions@,
                                full,
                            ) by {
                                assert(grid_solution(rh, ch, s0, full));
                                lemma_solution_cell_split(rh, ch, s0, coords, CellValue::Filled);
                                assert(grid_solution(
                                    rh,
                                    ch,
                                    crate::grid_props::grid_set(s0, coords, CellValue::Filled),
                                    full,
                                ));
                                assert(holds_solution(res@, full));
                                let i = choose|i: int|
                                    0 <= i < res@.len() && (#[trigger] res@[i])@ == full;
                                assert(holds_grid(solutions@, res@[i]));
                            }
                        }
                    }
                    if !self.find_all {
                        return SolutionResult::Solved(solutions);
                    }
                    ass_f.unapply(&mut fld);
                    proof {
                        assert(fld@ =~~= s0);
                    }
                },
                SolutionResult::Unsolved(_) => {
                    has_unsolved = true;
                    ass_f.unapply(&mut fld);
                    proof {
                        assert(fld@ =~~= s0);
                    }
                },
                SolutionResult::Controversial => {
                    // Filled is impossible here: Empty is forced.
                    let flip = ass_f.invert();
                    flip.apply(&mut fld);
                    let ghost flips_pre = all_changes@;
                    all_changes.push(flip);
                    has_controversy = true;
                    proof {
                        let fidx_pre = flip_idxs;
                        flip_idxs = flip_idxs.push(pi as int);
                        assert(forall|k: int|
                            0 <= k < fidx_pre.len() ==> flip_idxs[k] == #[trigger] fidx_pre[k]);
                        assert(flip_idxs[flip_idxs.len() - 1] == pi as int);
                        assert(fld@ =~~= crate::grid_props::grid_set(
                            s0,
                            coords,
                            CellValue::Empty,
                        ));
                        crate::grid_props::lemma_refines_set(s0, coords, CellValue::Empty);
                        lemma_refines_trans(base, s0, fld@);
                        assert(base[coords.0 as int][coords.1 as int] == CellValue::Unknown);
                        assert(all_changes@.drop_last() =~= flips_pre);
                        assert(all_changes@.last().coords == pairs@[pi as int]);
                        assert forall|k1: int, k2: int|
                            #![trigger flip_idxs[k1], flip_idxs[k2]]
                            0 <= k1 < k2 < flip_idxs.len() implies flip_idxs[k1]
                            < flip_idxs[k2] by {
                            assert(flip_idxs[k1] == fidx_pre[k1]);
                            if k2 == flip_idxs.len() - 1 {
                                assert(all_changes@[k1] == flips_pre[k1]);
                                assert(fidx_pre[k1] < pi as int);
                            } else {
                                assert(flip_idxs[k2] == fidx_pre[k2]);
                            }
                        }
                        assert forall|k: int| 0 <= k < all_changes@.len() implies 0
                            <= #[trigger] flip_idxs[k] < pi + 1 by {
                            if k < all_changes@.len() - 1 {
                                assert(flip_idxs[k] == fidx_pre[k]);
                                assert(all_changes@[k] == flips_pre[k]);
                                assert(fidx_pre[k] < pi as int);
                            } else {
                                assert(flip_idxs[k] == pi as int);
                            }
                        }
                        assert forall|k: int|
                            0 <= k < all_changes@.len() implies (
                        #[trigger] all_changes@[k]).coords == pairs@[flip_idxs[k]] by {
                            if k < all_changes@.len() - 1 {
                                assert(flip_idxs[k] == fidx_pre[k]);
                                assert(all_changes@[k] == flips_pre[k]);
                                assert(flips_pre[k].coords == pairs@[fidx_pre[k]]);
                            } else {
                                assert(flip_idxs[k] == pi as int);
                            }
                        }
                        assert forall|k1: int, k2: int|
                            0 <= k1 < k2 < all_changes@.len() implies (
                        #[trigger] all_changes@[k1]).coords != (
                        #[trigger] all_changes@[k2]).coords by {
                            lemma_coord_pairs(nrows, ncols);
                            assert(flip_idxs[k1] < flip_idxs[k2]);
                            assert(pairs@[flip_idxs[k1]] != pairs@[flip_idxs[k2]]);
                        }
                        assert(changes_ok(base, all_changes@, nrows, ncols));
                        // Filling this cell admits no solution, so every
                        // solution empties it.
                        assert(!exists|full: Seq<Seq<CellValue>>|
                            #[trigger] grid_solution(
                                rh,
                                ch,
                                crate::grid_props::grid_set(s0, coords, CellValue::Filled),
                                full,
                            ));
                        lemma_cell_forced_preserve(rh, ch, s0, coords, CellValue::Filled);
                        assert forall|full: Seq<Seq<CellValue>>|
                            #[trigger] grid_solution(rh, ch, base, full) <==> grid_solution(
                                rh,
                                ch,
                                fld@,
                                full,
                            ) by {
                            assert(grid_solution(rh, ch, base, full) <==> grid_solution(
                                rh,
                                ch,
                                s0,
                                full,
                            ));
                            assert(grid_solution(rh, ch, s0, full) <==> grid_solution(
                                rh,
                                ch,
                                crate::grid_props::grid_set(s0, coords, CellValue::Empty),
                                full,
                            ));
                        }
                        assert forall|full: Seq<Seq<CellValue>>, k: int|
                            #![trigger grid_solution(rh, ch, base, full), all_changes@[k]]
                            grid_solution(rh, ch, base, full) && 0 <= k
                                < all_changes@.len() implies full[all_changes@[k].coords.0
                            as int][all_changes@[k].coords.1 as int] == all_changes@[k].val by {
                            if k < all_changes@.len() - 1 {
                                assert(all_changes@[k] == flips_pre[k]);
                            } else {
                                assert(all_changes@[k] == flip);
                                assert(grid_solution(rh, ch, s0, full));
                                assert(full[coords.0 as int][coords.1 as int]
                                    == CellValue::Empty);
                            }
                        }
                    }
                },
            }
            // Trial: the cell empty (or, after a forced flip, confirming it).
            let ghost s1 = fld@;
            let ghost flips1 = all_changes@;
            let ass_e = Assumption { coords, val: CellValue::Empty };
            ass_e.apply(&mut fld);
            proof {
                assert(fld@ == crate::grid_props::grid_set(s1, coords, CellValue::Empty));
                assert(refines_grid(base, fld@)) by {
                    if s1[coords.0 as int][coords.1 as int] == CellValue::Unknown {
                        crate::grid_props::lemma_refines_set(s1, coords, CellValue::Empty);
                        lemma_refines_trans(base, s1, fld@);
                    } else {
                        assert(fld@ =~~= s1);
                    }
                }
            }
            match self.do_solve(&fld, max_depth) {
                SolutionResult::Solved(res) => {
                    proof {
                        assert forall|i: int| 0 <= i < res@.len() implies good_solution(
                            rh,
                            ch,
                            base,
                            #[trigger] res@[i],
                        ) by {
                            lemma_refines_trans(base, fld@, res@[i]@);
                        }
                    }
                    let ghost merged_from = solutions@;
                    solutions.merge(res);
                    proof {
                        assert forall|i: int| 0 <= i < solutions@.len() implies good_solution(
                            rh,
                            ch,
                            base,
                            #[trigger] solutions@[i],
                        ) by {
                            if merged_from.contains(solutions@[i]) {
                                let j = choose|j: int|
                                    0 <= j < merged_from.len() && merged_from[j] == solutions@[i];
                            } else {
                                let j = choose|j: int|
                                    0 <= j < res@.len() && res@[j] == solutions@[i];
                            }
                        }
                    }
                    proof {
                        if self.find_all_spec() && !has_unsolved {
                            // Every solution is now enumerated: solutions
                            // emptying this cell come from this trial, and
                            // solutions filling it either came from the
                            // first trial or cannot exist.
                            assert(crate::grid_props::grid_set(s1, coords, CellValue::Empty)
                                =~~= crate::grid_props::grid_set(s0, coords, CellValue::Empty))
                                by {
                                if has_controversy {
                                    assert(s1 =~~= crate::grid_props::grid_set(
                                        s0,
                                        coords,
                                        CellValue::Empty,
                                    ));
                                } else {
                                    assert(s1 == s0);
                                }
                            }
                            assert forall|full: Seq<Seq<CellValue>>|
                                #[trigger] grid_solution(rh, ch, base, full) implies holds_solution(
                                solutions@,
                                full,
                            ) by {
                                assert(grid_solution(rh, ch, s0, full));
                                assert(full[coords.0 as int][coords.1 as int]
                                    != CellValue::Unknown);
                                lemma_solution_cell_split(rh, ch, s0, coords, CellValue::Empty);
                                lemma_solution_cell_split(rh, ch, s0, coords, CellValue::Filled);
                                if full[coords.0 as int][coords.1 as int] == CellValue::Empty {
                                    assert(grid_solution(
                                        rh,
                                        ch,
                                        crate::grid_props::grid_set(s0, coords, CellValue::Empty),
                                        full,
                                    ));
                                    assert(holds_solution(res@, full));
                                    let i = choose|i: int|
                                        0 <= i < res@.len() && (#[trigger] res@[i])@ == full;
                                    assert(holds_grid(solutions@, res@[i]));
                                } else {
                                    assert(full[coords.0 as int][coords.1 as int]
                                        == CellValue::Filled);
                                    if has_controversy {
                                        // The first trial refuted Filled.
                                        assert(grid_solution(
                                            rh,
                                            ch,
                                            crate::grid_props::grid_set(
                                                s0,
                                                coords,
                                                CellValue::Filled,
                                            ),
                                            full,
                                        ));
                                        assert(false);
                                    } else {
                                        // The first trial enumerated it.
                                        assert(grid_solution(rh, ch, base, full)
                                            && full[coords.0 as int][coords.1 as int]
                                            == CellValue::Filled);
                                        assert(holds_solution(merged_from, full));
                                        let i = choose|i: int|
                                            0 <= i < merged_from.len() && (
                                            #[trigger] merged_from[i])@ == full;
                                        assert(solutions@[i] == merged_from[i]);
                                    }
                                }
                            }
                        }
                    }
                    if !self.find_all {
                        return SolutionResult::Solved(solutions);
                    }
                    ass_e.unapply(&mut fld);
                    proof {
                        assert(fld@ =~~= crate::grid_props::grid_set(
                            s1,
                            coords,
                            CellValue::Unknown,
                        ));
                        assert(fld@ =~~= s0) by {
                            if has_controversy {
                                assert(s1 =~~= crate::grid_props::grid_set(
                                    s0,
                                    coords,
                                    CellValue::Empty,
                                ));
                            } else {
                                assert(s1 == s0);
                            }
                        }
                        assert(refines_grid(base, fld@));
                        assert(grid_dims(fld@, nrows, ncols));
                        assert(forall|full: Seq<Seq<CellValue>>|
                            #[trigger] grid_solution(rh, ch, base, full) <==> grid_solution(
                                rh,
                                ch,
                                fld@,
                                full,
                            ));
                    }
                },
                SolutionResult::Unsolved(_) => {
                    has_unsolved = true;
                    ass_e.unapply(&mut fld);
                    proof {
                        assert(fld@ =~~= crate::grid_props::grid_set(
                            s1,
                            coords,
                            CellValue::Unknown,
                        ));
                        assert(fld@ =~~= s0) by {
                            if has_controversy {
                                assert(s1 =~~= crate::grid_props::grid_set(
                                    s0,
                                    coords,
                                    CellValue::Empty,
                                ));
                            } else {
                                assert(s1 == s0);
                            }
                        }
                        assert(refines_grid(base, fld@));
                        assert(grid_dims(fld@, nrows, ncols));
                        assert(forall|full: Seq<Seq<CellValue>>|
                            #[trigger] grid_solution(rh, ch, base, full) <==> grid_solution(
                                rh,
                                ch,
                                fld@,
                                full,
                            ));
                    }
                },
                SolutionResult::Controversial => {
                    if has_controversy {
                        proof {
                            // Both values at this cell lead to contradiction:
                            // the grid admits no solution at all.
                            assert(s1 =~~= crate::grid_props::grid_set(
                                s0,
                                coords,
                                CellValue::Empty,
                            ));
                            assert(fld@ =~~= crate::grid_props::grid_set(
                                s0,
                                coords,
                                CellValue::Empty,
                            ));
                            assert(!exists|full: Seq<Seq<CellValue>>|
                                #[trigger] grid_solution(
                                    rh,
                                    ch,
                                    crate::grid_props::grid_set(s0, coords, CellValue::Empty),
                                    full,
                                ));
                            assert(!exists|full: Seq<Seq<CellValue>>|
                                #[trigger] grid_solution(
                                    rh,
                                    ch,
                                    crate::grid_props::grid_set(s0, coords, CellValue::Filled),
                                    full,
                                ));
                            lemma_both_values_impossible(rh, ch, s0, coords);
                            assert forall|full: Seq<Seq<CellValue>>|
                                !#[trigger] grid_solution(rh, ch, base, full) by {
                                if grid_solution(rh, ch, base, full) {
                                    assert(grid_solution(rh, ch, s0, full));
                                }
                            }
                        }
                        return SolutionResult::Controversial;
                    }
                    // Empty is impossible here: Filled is forced.
                    let flip = ass_e.invert();
                    flip.apply(&mut fld);
                    let ghost flips_pre = all_changes@;
                    all_changes.push(flip);
                    proof {
                        let fidx_pre = flip_idxs;
                        flip_idxs = flip_idxs.push(pi as int);
                        assert(forall|k: int|
                            0 <= k < fidx_pre.len() ==> flip_idxs[k] == #[trigger] fidx_pre[k]);
                        assert(flip_idxs[flip_idxs.len() - 1] == pi as int);
                        assert(s1 == s0);
                        assert(fld@ =~~= crate::grid_props::grid_set(
                            s0,
                            coords,
                            CellValue::Filled,
                        ));
                        crate::grid_props::lemma_refines_set(s0, coords, CellValue::Filled);
                        lemma_refines_trans(base, s0, fld@);
                        assert(base[coords.0 as int][coords.1 as int] == CellValue::Unknown);
                        assert forall|k1: int, k2: int|
                            0 <= k1 < k2 < all_changes@.len() implies (
                        #[trigger] all_changes@[k1]).coords != (
                        #[trigger] all_changes@[k2]).coords by {
                            lemma_coord_pairs(nrows, ncols);
                            assert(flip_idxs[k1] < flip_idxs[k2]);
                            assert(pairs@[flip_idxs[k1]] != pairs@[flip_idxs[k2]]);
                        }
                        assert(changes_ok(base, all_changes@, nrows, ncols));
                        // Emptying this cell admits no solution, so every
                        // solution fills it.
                        assert(!exists|full: Seq<Seq<CellValue>>|
                            #[trigger] grid_solution(
                                rh,
                                ch,
                                crate::grid_props::grid_set(s0, coords, CellValue::Empty),
                                full,
                            ));
                        lemma_cell_forced_preserve(rh, ch, s0, coords, CellValue::Empty);
                        if self.find_all_spec() && !has_unsolved && solutions@.len() > 0 {
                            // The first trial already enumerated every
                            // solution: all of them fill this cell.
                            assert forall|full: Seq<Seq<CellValue>>|
                                #[trigger] grid_solution(rh, ch, base, full) implies holds_solution(
                                solutions@,
                                full,
                            ) by {
                                assert(grid_solution(rh, ch, s0, full));
                                assert(full[coords.0 as int][coords.1 as int]
                                    == CellValue::Filled);
                                lemma_solution_cell_split(rh, ch, s0, coords, CellValue::Filled);
                            }
                        }
                        assert forall|full: Seq<Seq<CellValue>>|
                            #[trigger] grid_solution(rh, ch, base, full) <==> grid_solution(
                                rh,
                                ch,
                                fld@,
                                full,
                            ) by {
                            assert(grid_solution(rh, ch, base, full) <==> grid_solution(
                                rh,
                                ch,
                                s0,
                                full,
                            ));
                            assert(grid_solution(rh, ch, s0, full) <==> grid_solution(
                                rh,
                                ch,
                                crate::grid_props::grid_set(s0, coords, CellValue::Filled),
                                full,
                            ));
                        }
                        assert forall|full: Seq<Seq<CellValue>>, k: int|
                            #![trigger grid_solution(rh, ch, base, full), all_changes@[k]]
                            grid_solution(rh, ch, base, full) && 0 <= k
                                < all_changes@.len() implies full[all_changes@[k].coords.0
                            as int][all_changes@[k].coords.1 as int] == all_changes@[k].val by {
                            if k < all_changes@.len() - 1 {
                                assert(all_changes@[k] == flips_pre[k]);
                            } else {
                                assert(all_changes@[k] == flip);
                                assert(grid_solution(rh, ch, s0, full));
                                assert(full[coords.0 as int][coords.1 as int]
                                    == CellValue::Filled);
                            }
                        }
                    }
                },
            }
            pi = pi + 1;
        }
        if solutions.len() > 0 && !(has_unsolved && self.find_all) {
            SolutionResult::Solved(solutions)
        } else {
            SolutionResult::Unsolved(all_changes)
        }
    }

}

/// What forcing the impossible assumptions' inverses computes, assumption
/// by assumption: the inverses written at cells still undecided, and
/// whether some assumption's cell already carried the impossible value.
pub open spec fn impossible_outcome(
    base: Seq<Seq<CellValue>>,
    imps: Seq<Assumption>,
    nrows: int,
    ncols: int,
    upto: int,
) -> (Seq<Assumption>, bool)
    decreases upto,
{
    if upto <= 0 {
        (Seq::empty(), false)
    } else {
        let pre = impossible_outcome(base, imps, nrows, ncols, upto - 1);
        if pre.1 {
            pre
        } else {
            let a = imps[upto - 1];
            if a.coords.0 < nrows && a.coords.1 < ncols && a.val != CellValue::Unknown {
                if apply_asms_to_grid(base, pre.0)[a.coords.0 as int][a.coords.1 as int]
                    == CellValue::Unknown {
                    (pre.0.push(a.invert_spec()), false)
                } else if apply_asms_to_grid(base, pre.0)[a.coords.0 as int][a.coords.1 as int]
                    == a.val {
                    (pre.0, true)
                } else {
                    pre
                }
            } else {
                pre
            }
        }
    }
}

/// Once a conflict is met, the outcome is settled: later assumptions change
/// nothing.
proof fn lemma_impossible_outcome_conflict(
    base: Seq<Seq<CellValue>>,
    imps: Seq<Assumption>,
    nrows: int,
    ncols: int,
    k: int,
    upto: int,
)
    requires
        0 <= k <= upto,
        impossible_outcome(base, imps, nrows, ncols, k).1,
    ensures
        impossible_outcome(base, imps, nrows, ncols, upto) == impossible_outcome(
            base,
            imps,
            nrows,
            ncols,
            k,
        ),
    decreases upto,
{
    if upto > k {
        lemma_impossible_outcome_conflict(base, imps, nrows, ncols, k, upto - 1);
    }
}

/// The outcome of the impossible-literal pass over the whole graph: what
/// `apply_impossible_matches` returns.
pub open spec fn impossible_result(
    reach: &crate::reachability_graph::ReachabilityGraph<Assumption>,
    base: Seq<Seq<CellValue>>,
    nrows: int,
    ncols: int,
) -> (Seq<Assumption>, bool) {
    impossible_outcome(
        base,
        crate::assumption::impossible_upto(reach, reach.nodes_view().len() as int),
        nrows,
        ncols,
        crate::assumption::impossible_upto(reach, reach.nodes_view().len() as int).len() as int,
    )
}

impl Solver {
    /// Forces the inverse of every assumption the graph shows impossible;
    /// a cell that already contradicts such an inverse makes the whole
    /// puzzle contradictory.
    #[verifier::rlimit(100)]
    fn apply_impossible_matches(
        &self,
        field: &Field,
        reach: &crate::reachability_graph::ReachabilityGraph<Assumption>,
    ) -> (r: SolutionResult)
        requires
            self.wf(),
            reach.wf(),
            field.wf(),
            grid_dims(field@, self.nrows_spec(), self.ncols_spec()),
            field.ncols() == self.ncols_spec(),
            graph_sound(reach, self.rh(), self.ch(), field@),
        ensures
            result_ok(self.rh(), self.ch(), field@, r),
            result_sound(self.rh(), self.ch(), field@, r),
            !(r is Solved),
            (r is Controversial) == impossible_result(
                reach,
                field@,
                self.nrows_spec(),
                self.ncols_spec(),
            ).1,
            r matches SolutionResult::Unsolved(chg) ==> chg@ == impossible_result(
                reach,
                field@,
                self.nrows_spec(),
                self.ncols_spec(),
            ).0,
    {
        let ghost rh = self.rh();
        let ghost ch = self.ch();
        let ghost nrows = self.nrows_spec();
        let ghost ncols = self.ncols_spec();
        let nr = self.nrows();
        let nc = self.ncols();
        let ghost base = field@;
        let mut fld = field.clone();
        let mut all_changes: Vec<Assumption> = Vec::new();
        let impossible = reach.get_impossible();
        let ghost imps = impossible@;
        proof {
            assert(imps == crate::assumption::impossible_upto(
                reach,
                reach.nodes_view().len() as int,
            ));
        }
        let mut i: usize = 0;
        while i < impossible.len()
            invariant
                imps == impossible@,
                imps == crate::assumption::impossible_upto(
                    reach,
                    reach.nodes_view().len() as int,
                ),
                impossible_outcome(base, imps, nrows, ncols, i as int).0 == all_changes@,
                !impossible_outcome(base, imps, nrows, ncols, i as int).1,
                nr as int == nrows,
                nc as int == ncols,
                rh == self.rh(),
                ch == self.ch(),
                nrows == rh.len() as int,
                ncols == ch.len() as int,
                reach.wf(),
                graph_sound(reach, rh, ch, base),
                field.wf(),
                base == field@,
                grid_dims(base, nrows, ncols),
                fld.wf(),
                fld.ncols() == ncols,
                grid_dims(fld@, nrows, ncols),
                i <= impossible@.len(),
                forall|k: int|
                    0 <= k < impossible@.len() ==> reach.interned(#[trigger] impossible@[k])
                        && crate::assumption::assumption_impossible(reach, impossible@[k]),
                fld@ == apply_asms_to_grid(base, all_changes@),
                changes_ok(base, all_changes@, nrows, ncols),
                forall|full: Seq<Seq<CellValue>>, k: int|
                    #![trigger grid_solution(rh, ch, base, full), all_changes@[k]]
                    grid_solution(rh, ch, base, full) && 0 <= k < all_changes@.len()
                        ==> full[all_changes@[k].coords.0 as int][all_changes@[k].coords.1
                        as int] == all_changes@[k].val,
            decreases impossible@.len() - i,
        {
            let ass = impossible[i];
            let ghost fld_head = fld@;
            let ghost ac_head = all_changes@;
            if ass.coords.0 < nr && ass.coords.1 < nc && !(ass.val == CellValue::Unknown) {
                proof {
                    // An impossible assumption reaches both values of some
                    // cell, so no solution can carry it; as its cell is in
                    // bounds with a known value, every solution holds the
                    // inverse value there.
                    assert(crate::assumption::assumption_impossible(reach, ass));
                    assert forall|full: Seq<Seq<CellValue>>|
                        #[trigger] grid_solution(rh, ch, base, full) implies full[ass.coords.0
                        as int][ass.coords.1 as int] == ass.val.invert_spec() by {
                        if full[ass.coords.0 as int][ass.coords.1 as int] == ass.val {
                            assert(grid_sat(rh, ch, full, ass));
                            let (y, z): (Assumption, Assumption) = choose|
                                y: Assumption,
                                z: Assumption,
                            |
                                #[trigger] reach.reaches(ass, y) && #[trigger] reach.reaches(
                                    ass,
                                    z,
                                ) && y.coords == z.coords && y != z;
                            assert(grid_sat(rh, ch, full, y));
                            assert(grid_sat(rh, ch, full, z));
                            assert(y.val != z.val);
                            assert(false);
                        }
                        assert(full[ass.coords.0 as int][ass.coords.1 as int]
                            != CellValue::Unknown);
                        match ass.val {
                            CellValue::Filled => {},
                            CellValue::Empty => {},
                            CellValue::Unknown => {
                                assert(false);
                            },
                        }
                    }
                }
                let old_val = fld.get(ass.coords);
                if old_val == CellValue::Unknown {
                    let ass_inv = ass.invert();
                    let ghost before = fld@;
                    let ghost prev = all_changes@;
                    ass_inv.apply(&mut fld);
                    all_changes.push(ass_inv);
                    proof {
                        assert(all_changes@.drop_last() =~= prev);
                        assert(all_changes@.last() == ass_inv);
                        assert(fld@ == crate::grid_props::grid_set(
                            before,
                            ass_inv.coords,
                            ass_inv.val,
                        ));
                        assert(apply_asms_to_grid(base, all_changes@) == fld@);
                        assert(base[ass.coords.0 as int][ass.coords.1 as int]
                            == CellValue::Unknown) by {
                            crate::grid_props::lemma_changes_refine(base, prev, nrows, ncols);
                        }
                        lemma_apply_frame(base, prev, nrows, ncols);
                        assert forall|k1: int, k2: int|
                            0 <= k1 < k2 < all_changes@.len() implies (
                        #[trigger] all_changes@[k1]).coords != (
                        #[trigger] all_changes@[k2]).coords by {
                            if k2 == all_changes@.len() - 1 {
                                assert(all_changes@[k1] == prev[k1]);
                                if prev[k1].coords == ass.coords {
                                    assert(forall|k3: int|
                                        k1 < k3 < prev.len() ==> (#[trigger] prev[k3]).coords
                                            != prev[k1].coords);
                                    assert(before[ass.coords.0 as int][ass.coords.1 as int]
                                        == prev[k1].val);
                                    assert(false);
                                }
                            }
                        }
                        assert(changes_ok(base, all_changes@, nrows, ncols));
                        assert forall|full: Seq<Seq<CellValue>>, k: int|
                            #![trigger grid_solution(rh, ch, base, full), all_changes@[k]]
                            grid_solution(rh, ch, base, full) && 0 <= k
                                < all_changes@.len() implies full[all_changes@[k].coords.0
                            as int][all_changes@[k].coords.1 as int] == all_changes@[k].val by {
                            if k < all_changes@.len() - 1 {
                                assert(all_changes@[k] == prev[k]);
                            } else {
                                assert(all_changes@[k] == ass_inv);
                                assert(full[ass.coords.0 as int][ass.coords.1 as int]
                                    == ass.val.invert_spec());
                            }
                        }
                    }
                } else if old_val == ass.val {
                    proof {
                        // The cell already carries the impossible value:
                        // there is no solution at all.
                        assert forall|full: Seq<Seq<CellValue>>|
                            !#[trigger] grid_solution(rh, ch, base, full) by {
                            if grid_solution(rh, ch, base, full) {
                                if base[ass.coords.0 as int][ass.coords.1 as int]
                                    != CellValue::Unknown {
                                    assert(full[ass.coords.0 as int][ass.coords.1 as int]
                                        == fld@[ass.coords.0 as int][ass.coords.1 as int]) by {
                                        crate::grid_props::lemma_changes_refine(
                                            base,
                                            all_changes@,
                                            nrows,
                                            ncols,
                                        );
                                        assert(fld@[ass.coords.0 as int][ass.coords.1 as int]
                                            == base[ass.coords.0 as int][ass.coords.1 as int]) by {
                                            lemma_apply_frame(base, all_changes@, nrows, ncols);
                                            assert(forall|k: int|
                                                0 <= k < all_changes@.len()
                                                    ==> (#[trigger] all_changes@[k]).coords
                                                    != ass.coords);
                                        }
                                    }
                                } else {
                                    // The cell was decided by an earlier
                                    // forced inverse; the solution carries it.
                                    lemma_apply_frame(base, all_changes@, nrows, ncols);
                                    if forall|k: int|
                                        0 <= k < all_changes@.len()
                                            ==> (#[trigger] all_changes@[k]).coords
                                            != ass.coords {
                                        assert(fld@[ass.coords.0 as int][ass.coords.1 as int]
                                            == base[ass.coords.0 as int][ass.coords.1 as int]);
                                        assert(false);
                                    } else {
                                        let k = choose|k: int|
                                            0 <= k < all_changes@.len() && (
                                            #[trigger] all_changes@[k]).coords == ass.coords;
                                        assert(forall|k2: int|
                                            k < k2 < all_changes@.len()
                                                ==> (#[trigger] all_changes@[k2]).coords
                                                != all_changes@[k].coords);
                                        assert(fld@[ass.coords.0 as int][ass.coords.1 as int]
                                            == all_changes@[k].val);
                                        assert(full[ass.coords.0 as int][ass.coords.1 as int]
                                            == all_changes@[k].val);
                                    }
                                }
                                assert(full[ass.coords.0 as int][ass.coords.1 as int]
                                    == ass.val);
                                assert(full[ass.coords.0 as int][ass.coords.1 as int]
                                    == ass.val.invert_spec());
                                assert(false);
                            }
                        }
                    }
                    proof {
                        assert(impossible_outcome(base, imps, nrows, ncols, i + 1).1) by {
                            assert(imps[i as int] == ass);
                            assert(fld@[ass.coords.0 as int][ass.coords.1 as int] == ass.val);
                        }
                        lemma_impossible_outcome_conflict(
                            base,
                            imps,
                            nrows,
                            ncols,
                            i + 1,
                            imps.len() as int,
                        );
                    }
                    return SolutionResult::Controversial;
                }
            }
            proof {
                assert(imps[i as int] == ass);
                assert(impossible_outcome(base, imps, nrows, ncols, i + 1).0 == all_changes@
                    && !impossible_outcome(base, imps, nrows, ncols, i + 1).1) by {
                    assert(impossible_outcome(base, imps, nrows, ncols, i as int).0 == ac_head);
                    if ass.coords.0 < nrows && ass.coords.1 < ncols && ass.val
                        != CellValue::Unknown {
                        assert(apply_asms_to_grid(base, ac_head) == fld_head);
                        if fld_head[ass.coords.0 as int][ass.coords.1 as int]
                            == CellValue::Unknown {
                            assert(all_changes@ == ac_head.push(ass.invert_spec()));
                        } else {
                            assert(fld_head[ass.coords.0 as int][ass.coords.1 as int]
                                != ass.val);
                            assert(all_changes@ == ac_head);
                        }
                    } else {
                        assert(all_changes@ == ac_head);
                    }
                }
            }
            i = i + 1;
        }
        SolutionResult::Unsolved(all_changes)
    }

    /// One pass of the pairwise search: tries every ordered pair of
    /// assumptions on two undecided cells, records an implication whenever a
    /// pair contradicts, then forces the inverses of impossible assumptions.
    #[verifier::rlimit(100)]
    fn do_2sat_step(&mut self, field: &Field, max_depth: usize) -> (r: SolutionResult)
        requires
            old(self).wf(),
            field.wf(),
            grid_dims(field@, old(self).nrows_spec(), old(self).ncols_spec()),
            field.ncols() == old(self).ncols_spec(),
            old(self).algorithm_spec() != Algorithm::ByLines,
        ensures
            final(self).wf(),
            final(self).cfg() == old(self).cfg(),
            result_ok(old(self).rh(), old(self).ch(), field@, r),
            result_sound(old(self).rh(), old(self).ch(), field@, r),
            old(self).find_all_spec() ==> result_complete(
                old(self).rh(),
                old(self).ch(),
                field@,
                r,
            ),
            !old(self).find_all_spec() ==> (r matches SolutionResult::Solved(s) ==> s@.len()
                == 1),
        decreases max_depth, 1int,
    {
        let ghost rh = self.rh();
        let ghost ch = self.ch();
        let ghost nrows = self.nrows_spec();
        let ghost ncols = self.ncols_spec();
        let nr = self.nrows();
        let nc = self.ncols();
        let ghost base = field@;
        let mut fld = field.clone();
        let mut reach: crate::reachability_graph::ReachabilityGraph<Assumption> =
            crate::reachability_graph::ReachabilityGraph::new();
        proof {
            assert(graph_sound(&reach, rh, ch, base));
        }
        let mut solutions = SolutionSet::new();
        let mut has_unsolved = false;
        let pairs = coord_pairs(nr, nc);
        proof {
            lemma_coord_pairs(nrows, ncols);
            crate::assumption::lemma_assumption_eq_decides();
        }
        // Every assumption, cells in row-major order, filled before empty.
        let mut asms: Vec<Assumption> = Vec::new();
        let mut pi: usize = 0;
        while pi < pairs.len()
            invariant
                self.wf(),
                nrows == self.nrows_spec(),
                ncols == self.ncols_spec(),
                nr as int == nrows,
                nc as int == ncols,
                pairs@ == coord_pairs_spec(nrows, ncols),
                pi <= pairs@.len(),
                asms@.len() == 2 * pi,
                forall|k: int|
                    0 <= k < asms@.len() ==> 0 <= (#[trigger] asms@[k]).coords.0 < nrows && 0
                        <= asms@[k].coords.1 < ncols && asms@[k].val != CellValue::Unknown,
                forall|p: int|
                    0 <= p < pi ==> (#[trigger] asms@[2 * p]) == (Assumption {
                        coords: pairs@[p],
                        val: CellValue::Filled,
                    }) && asms@[2 * p + 1] == (Assumption {
                        coords: pairs@[p],
                        val: CellValue::Empty,
                    }),
            decreases pairs@.len() - pi,
        {
            let coords = pairs[pi];
            proof {
                lemma_coord_pairs(nrows, ncols);
                assert(pairs@[pi as int] == coords);
                assert(0 <= coords.0 < nrows && 0 <= coords.1 < ncols);
            }
            asms.push(Assumption { coords, val: CellValue::Filled });
            asms.push(Assumption { coords, val: CellValue::Empty });
            pi = pi + 1;
        }
        // Two undecided cells, if the grid has them: the completeness
        // argument routes every solution through the pair they form.
        let ghost two_unknowns = exists|p1: int, p2: int|
            0 <= p1 < p2 < pairs@.len() && base[pairs@[p1].0 as int][pairs@[p1].1 as int]
                == CellValue::Unknown && base[pairs@[p2].0 as int][pairs@[p2].1 as int]
                == CellValue::Unknown;
        let ghost (p_lo, p_hi): (int, int) = if two_unknowns {
            choose|p1: int, p2: int|
                0 <= p1 < p2 < pairs@.len() && base[pairs@[p1].0 as int][pairs@[p1].1 as int]
                    == CellValue::Unknown && base[pairs@[p2].0 as int][pairs@[p2].1 as int]
                    == CellValue::Unknown
        } else {
            (0int, 1int)
        };
        let ghost c_lo = if two_unknowns {
            pairs@[p_lo]
        } else {
            (0usize, 0usize)
        };
        let ghost c_hi = if two_unknowns {
            pairs@[p_hi]
        } else {
            (0usize, 0usize)
        };
        let mut i1: usize = 0;
        while i1 < asms.len()
            invariant
                self.wf(),
                self.cfg() == old(self).cfg(),
                rh == self.rh(),
                ch == self.ch(),
                nrows == self.nrows_spec(),
                ncols == self.ncols_spec(),
                nr as int == nrows,
                nc as int == ncols,
                self.algorithm_spec() != Algorithm::ByLines,
                field.wf(),
                base == field@,
                grid_dims(base, nrows, ncols),
                field.ncols() == ncols,
                fld.wf(),
                fld.ncols() == ncols,
                fld@ == base,
                nrows == rh.len() as int,
                ncols == ch.len() as int,
                crate::reachability_graph::eq_decides::<Assumption>(),
                reach.wf(),
                graph_sound(&reach, rh, ch, base),
                i1 <= asms@.len(),
                forall|k: int|
                    0 <= k < asms@.len() ==> 0 <= (#[trigger] asms@[k]).coords.0 < nrows && 0
                        <= asms@[k].coords.1 < ncols && asms@[k].val != CellValue::Unknown,
                pairs@ == coord_pairs_spec(nrows, ncols),
                asms@.len() == 2 * pairs@.len(),
                forall|p: int|
                    0 <= p < pairs@.len() ==> (#[trigger] asms@[2 * p]) == (Assumption {
                        coords: pairs@[p],
                        val: CellValue::Filled,
                    }) && asms@[2 * p + 1] == (Assumption {
                        coords: pairs@[p],
                        val: CellValue::Empty,
                    }),
                two_unknowns == (exists|p1: int, p2: int|
                    0 <= p1 < p2 < pairs@.len() && base[pairs@[p1].0 as int][pairs@[p1].1 as int]
                        == CellValue::Unknown && base[pairs@[p2].0 as int][pairs@[p2].1 as int]
                        == CellValue::Unknown),
                two_unknowns ==> 0 <= p_lo < p_hi < pairs@.len() && c_lo == pairs@[p_lo] && c_hi
                    == pairs@[p_hi] && base[c_lo.0 as int][c_lo.1 as int] == CellValue::Unknown
                    && base[c_hi.0 as int][c_hi.1 as int] == CellValue::Unknown,
                !two_unknowns ==> solutions@.len() == 0,
                !self.find_all_spec() ==> solutions@.len() == 0,
                self.find_all_spec() && !has_unsolved && two_unknowns && i1 > 2 * p_hi
                    ==> forall|full: Seq<Seq<CellValue>>|
                    #[trigger] grid_solution(rh, ch, base, full) && full[c_hi.0 as int][c_hi.1
                        as int] == CellValue::Filled ==> holds_solution(solutions@, full),
                self.find_all_spec() && !has_unsolved && two_unknowns && i1 > 2 * p_hi + 1
                    ==> forall|full: Seq<Seq<CellValue>>|
                    #[trigger] grid_solution(rh, ch, base, full) && full[c_hi.0 as int][c_hi.1
                        as int] == CellValue::Empty ==> holds_solution(solutions@, full),
                solutions.distinct(),
                forall|i: int|
                    0 <= i < solutions@.len() ==> good_solution(
                        rh,
                        ch,
                        base,
                        #[trigger] solutions@[i],
                    ),
            decreases asms@.len() - i1,
        {
            let ass1 = asms[i1];
            if fld.get(ass1.coords) != CellValue::Unknown {
                proof {
                    if two_unknowns && (i1 == 2 * p_hi || i1 == 2 * p_hi + 1) {
                        assert(ass1 == asms@[2 * p_hi] || ass1 == asms@[2 * p_hi + 1]);
                        assert(ass1.coords == c_hi);
                        assert(false);
                    }
                }
                i1 = i1 + 1;
                continue ;
            }
            ass1.apply(&mut fld);
            proof {
                crate::grid_props::lemma_refines_set(base, ass1.coords, ass1.val);
            }
            let mut i2: usize = 0;
            while i2 < asms.len()
                invariant
                    self.wf(),
                    self.cfg() == old(self).cfg(),
                    rh == self.rh(),
                    ch == self.ch(),
                    nrows == self.nrows_spec(),
                    ncols == self.ncols_spec(),
                    nr as int == nrows,
                    nc as int == ncols,
                    self.algorithm_spec() != Algorithm::ByLines,
                    field.wf(),
                    base == field@,
                    grid_dims(base, nrows, ncols),
                    field.ncols() == ncols,
                    fld.wf(),
                    fld.ncols() == ncols,
                    grid_dims(fld@, nrows, ncols),
                    i1 < asms@.len(),
                    ass1 == asms@[i1 as int],
                    base[ass1.coords.0 as int][ass1.coords.1 as int] == CellValue::Unknown,
                    fld@ == crate::grid_props::grid_set(base, ass1.coords, ass1.val),
                    refines_grid(base, fld@),
                    nrows == rh.len() as int,
                    ncols == ch.len() as int,
                    crate::reachability_graph::eq_decides::<Assumption>(),
                    reach.wf(),
                    graph_sound(&reach, rh, ch, base),
                    i2 <= asms@.len(),
                    forall|k: int|
                        0 <= k < asms@.len() ==> 0 <= (#[trigger] asms@[k]).coords.0 < nrows && 0
                            <= asms@[k].coords.1 < ncols && asms@[k].val != CellValue::Unknown,
                    pairs@ == coord_pairs_spec(nrows, ncols),
                    asms@.len() == 2 * pairs@.len(),
                    forall|p: int|
                        0 <= p < pairs@.len() ==> (#[trigger] asms@[2 * p]) == (Assumption {
                            coords: pairs@[p],
                            val: CellValue::Filled,
                        }) && asms@[2 * p + 1] == (Assumption {
                            coords: pairs@[p],
                            val: CellValue::Empty,
                        }),
                    two_unknowns == (exists|p1: int, p2: int|
                        0 <= p1 < p2 < pairs@.len() && base[pairs@[p1].0 as int][pairs@[p1].1
                            as int] == CellValue::Unknown && base[pairs@[p2].0 as int][pairs@[p2].1
                            as int] == CellValue::Unknown),
                    two_unknowns ==> 0 <= p_lo < p_hi < pairs@.len() && c_lo == pairs@[p_lo]
                        && c_hi == pairs@[p_hi] && base[c_lo.0 as int][c_lo.1 as int]
                        == CellValue::Unknown && base[c_hi.0 as int][c_hi.1 as int]
                        == CellValue::Unknown,
                    !two_unknowns ==> solutions@.len() == 0,
                    !self.find_all_spec() ==> solutions@.len() == 0,
                    self.find_all_spec() && !has_unsolved && two_unknowns && i1 > 2 * p_hi
                        ==> forall|full: Seq<Seq<CellValue>>|
                        #[trigger] grid_solution(rh, ch, base, full) && full[c_hi.0 as int][c_hi.1
                            as int] == CellValue::Filled ==> holds_solution(solutions@, full),
                    self.find_all_spec() && !has_unsolved && two_unknowns && i1 > 2 * p_hi + 1
                        ==> forall|full: Seq<Seq<CellValue>>|
                        #[trigger] grid_solution(rh, ch, base, full) && full[c_hi.0 as int][c_hi.1
                            as int] == CellValue::Empty ==> holds_solution(solutions@, full),
                    self.find_all_spec() && !has_unsolved && two_unknowns && (i1 == 2 * p_hi || i1
                        == 2 * p_hi + 1) && i2 > 2 * p_lo ==> forall|full: Seq<Seq<CellValue>>|
                        #[trigger] grid_solution(rh, ch, base, full) && full[c_hi.0 as int][c_hi.1
                            as int] == ass1.val && full[c_lo.0 as int][c_lo.1 as int]
                            == CellValue::Filled ==> holds_solution(solutions@, full),
                    self.find_all_spec() && !has_unsolved && two_unknowns && (i1 == 2 * p_hi || i1
                        == 2 * p_hi + 1) && i2 > 2 * p_lo + 1 ==> forall|
                        full: Seq<Seq<CellValue>>,
                    |
                        #[trigger] grid_solution(rh, ch, base, full) && full[c_hi.0 as int][c_hi.1
                            as int] == ass1.val && full[c_lo.0 as int][c_lo.1 as int]
                            == CellValue::Empty ==> holds_solution(solutions@, full),
                    solutions.distinct(),
                    forall|i: int|
                        0 <= i < solutions@.len() ==> good_solution(
                            rh,
                            ch,
                            base,
                            #[trigger] solutions@[i],
                        ),
                decreases asms@.len() - i2,
            {
                let ass2 = asms[i2];
                let skip = {
                    let a = ass1.coords;
                    let b = ass2.coords;
                    a.0 < b.0 || (a.0 == b.0 && a.1 <= b.1)
                };
                if skip || fld.get(ass2.coords) != CellValue::Unknown || reach.is_reachable(
                    &ass1,
                    &ass2.invert(),
                ) {
                    proof {
                        if self.find_all_spec() && !has_unsolved && two_unknowns && (i1 == 2
                            * p_hi || i1 == 2 * p_hi + 1) && (i2 == 2 * p_lo || i2 == 2 * p_lo
                            + 1) {
                            // At the canonical pair only the graph skip can
                            // fire, and a pruned pair admits no solution.
                            assert(ass1 == asms@[2 * p_hi] || ass1 == asms@[2 * p_hi + 1]);
                            assert(ass2 == asms@[2 * p_lo] || ass2 == asms@[2 * p_lo + 1]);
                            assert(ass1.coords == c_hi && ass2.coords == c_lo);
                            lemma_pair_order(nrows, ncols, p_lo, p_hi);
                            assert(!skip);
                            assert(c_lo != c_hi);
                            assert(fld@[c_lo.0 as int][c_lo.1 as int] == CellValue::Unknown);
                            assert(reach.reaches(ass1, ass2.invert_spec()));
                            assert forall|full: Seq<Seq<CellValue>>|
                                #[trigger] grid_solution(rh, ch, base, full) && full[c_hi.0
                                    as int][c_hi.1 as int] == ass1.val && full[c_lo.0
                                    as int][c_lo.1 as int] == ass2.val implies holds_solution(
                                solutions@,
                                full,
                            ) by {
                                assert(grid_sat(rh, ch, full, ass1));
                                assert(grid_sat(rh, ch, full, ass2.invert_spec()));
                                assert(full[c_lo.0 as int][c_lo.1 as int]
                                    == ass2.val.invert_spec());
                                assert(false);
                            }
                        }
                    }
                    i2 = i2 + 1;
                    continue ;
                }
                let ghost s1 = fld@;
                ass2.apply(&mut fld);
                proof {
                    crate::grid_props::lemma_refines_set(s1, ass2.coords, ass2.val);
                    lemma_refines_trans(base, s1, fld@);
                }
                match self.do_solve(&fld, max_depth) {
                    SolutionResult::Unsolved(_) => {
                        has_unsolved = true;
                    },
                    SolutionResult::Solved(res) => {
                        proof {
                            assert forall|i: int| 0 <= i < res@.len() implies good_solution(
                                rh,
                                ch,
                                base,
                                #[trigger] res@[i],
                            ) by {
                                lemma_refines_trans(base, fld@, res@[i]@);
                            }
                        }
                        let ghost merged_from = solutions@;
                        solutions.merge(res);
                        proof {
                            assert forall|i: int| 0 <= i < solutions@.len() implies good_solution(
                                rh,
                                ch,
                                base,
                                #[trigger] solutions@[i],
                            ) by {
                                if merged_from.contains(solutions@[i]) {
                                    let j = choose|j: int|
                                        0 <= j < merged_from.len() && merged_from[j]
                                            == solutions@[i];
                                } else {
                                    let j = choose|j: int|
                                        0 <= j < res@.len() && res@[j] == solutions@[i];
                                }
                            }
                            // Grids already held stay held.
                            assert forall|x: Seq<Seq<CellValue>>|
                                holds_solution(merged_from, x) implies holds_solution(
                                solutions@,
                                x,
                            ) by {
                                let i = choose|i: int|
                                    0 <= i < merged_from.len() && (#[trigger] merged_from[i])@
                                        == x;
                                assert(solutions@[i] == merged_from[i]);
                            }
                            // A recursion ran, so two undecided cells exist.
                            if !two_unknowns {
                                let q1 = ass1.coords.0 as int * ncols + ass1.coords.1 as int;
                                let q2 = ass2.coords.0 as int * ncols + ass2.coords.1 as int;
                                lemma_pair_of_coords(
                                    nrows,
                                    ncols,
                                    ass1.coords.0 as int,
                                    ass1.coords.1 as int,
                                );
                                lemma_pair_of_coords(
                                    nrows,
                                    ncols,
                                    ass2.coords.0 as int,
                                    ass2.coords.1 as int,
                                );
                                assert(pairs@[q1] == ass1.coords && pairs@[q2] == ass2.coords);
                                assert(ass1.coords != ass2.coords);
                                assert(q1 != q2);
                                assert(base[ass2.coords.0 as int][ass2.coords.1 as int]
                                    == CellValue::Unknown);
                                if q1 < q2 {
                                    assert(0 <= q1 < q2 < pairs@.len()
                                        && base[pairs@[q1].0 as int][pairs@[q1].1 as int]
                                        == CellValue::Unknown && base[pairs@[q2].0
                                        as int][pairs@[q2].1 as int] == CellValue::Unknown);
                                } else {
                                    assert(0 <= q2 < q1 < pairs@.len()
                                        && base[pairs@[q2].0 as int][pairs@[q2].1 as int]
                                        == CellValue::Unknown && base[pairs@[q1].0
                                        as int][pairs@[q1].1 as int] == CellValue::Unknown);
                                }
                                assert(two_unknowns);
                                assert(false);
                            }
                            // At the canonical pair, the recursion's set
                            // covers every matching solution.
                            if self.find_all_spec() && two_unknowns && (i1 == 2 * p_hi || i1 == 2
                                * p_hi + 1) && (i2 == 2 * p_lo || i2 == 2 * p_lo + 1) {
                                assert(ass1 == asms@[2 * p_hi] || ass1 == asms@[2 * p_hi + 1]);
                                assert(ass2 == asms@[2 * p_lo] || ass2 == asms@[2 * p_lo + 1]);
                                assert(ass1.coords == c_hi && ass2.coords == c_lo);
                                assert(s1[c_lo.0 as int][c_lo.1 as int] == CellValue::Unknown);
                                lemma_solution_cell_split(rh, ch, base, ass1.coords, ass1.val);
                                lemma_solution_cell_split(rh, ch, s1, ass2.coords, ass2.val);
                                assert forall|full: Seq<Seq<CellValue>>|
                                    #[trigger] grid_solution(rh, ch, base, full) && full[c_hi.0
                                        as int][c_hi.1 as int] == ass1.val && full[c_lo.0
                                        as int][c_lo.1 as int] == ass2.val implies holds_solution(
                                    solutions@,
                                    full,
                                ) by {
                                    assert(grid_solution(rh, ch, s1, full));
                                    assert(grid_solution(rh, ch, fld@, full));
                                    assert(holds_solution(res@, full));
                                    let i = choose|i: int|
                                        0 <= i < res@.len() && (#[trigger] res@[i])@ == full;
                                    assert(holds_grid(solutions@, res@[i]));
                                }
                            }
                        }
                        if !self.find_all {
                            return SolutionResult::Solved(solutions);
                        }
                    },
                    SolutionResult::Controversial => {
                        proof {
                            assert(ass1.coords != ass2.coords);
                            assert(ass1 != ass2.invert_spec());
                            assert(ass2 != ass1.invert_spec());
                            // The pair admits no solution, so any solution
                            // carrying one assumption refutes the other.
                            assert(base[ass2.coords.0 as int][ass2.coords.1 as int]
                                == CellValue::Unknown);
                            assert(fld@ == crate::grid_props::grid_set(
                                s1,
                                ass2.coords,
                                ass2.val,
                            ));
                            assert(!exists|full: Seq<Seq<CellValue>>|
                                #[trigger] grid_solution(rh, ch, fld@, full));
                            assert forall|full: Seq<Seq<CellValue>>|
                                #[trigger] grid_solution(rh, ch, base, full) implies !(grid_sat(
                                rh,
                                ch,
                                full,
                                ass1,
                            ) && grid_sat(rh, ch, full, ass2)) by {
                                if grid_sat(rh, ch, full, ass1) && grid_sat(rh, ch, full, ass2) {
                                    assert forall|r2: int, c2: int|
                                        0 <= r2 < fld@.len() && 0 <= c2 < fld@[r2].len() && (
                                    #[trigger] fld@[r2][c2]) != CellValue::Unknown implies full[r2][c2]
                                        == fld@[r2][c2] by {
                                        if r2 == ass2.coords.0 as int && c2 == ass2.coords.1
                                            as int {
                                        } else if r2 == ass1.coords.0 as int && c2
                                            == ass1.coords.1 as int {
                                            assert(fld@[r2][c2] == ass1.val);
                                        } else {
                                            assert(fld@[r2][c2] == base[r2][c2]);
                                        }
                                    }
                                    assert(refines_grid(fld@, full));
                                    assert(grid_solution(rh, ch, fld@, full));
                                    assert(false);
                                }
                            }
                            assert forall|full: Seq<Seq<CellValue>>|
                                #[trigger] grid_solution(rh, ch, base, full) && grid_sat(
                                    rh,
                                    ch,
                                    full,
                                    ass1,
                                ) implies grid_sat(rh, ch, full, ass2.invert_spec()) by {
                                assert(full[ass2.coords.0 as int][ass2.coords.1 as int]
                                    != CellValue::Unknown);
                                match ass2.val {
                                    CellValue::Filled => {},
                                    CellValue::Empty => {},
                                    CellValue::Unknown => {
                                        assert(false);
                                    },
                                }
                            }
                            assert forall|full: Seq<Seq<CellValue>>|
                                #[trigger] grid_solution(rh, ch, base, full) && grid_sat(
                                    rh,
                                    ch,
                                    full,
                                    ass2,
                                ) implies grid_sat(rh, ch, full, ass1.invert_spec()) by {
                                assert(full[ass1.coords.0 as int][ass1.coords.1 as int]
                                    != CellValue::Unknown);
                                match ass1.val {
                                    CellValue::Filled => {},
                                    CellValue::Empty => {},
                                    CellValue::Unknown => {
                                        assert(false);
                                    },
                                }
                            }
                        }
                        proof {
                            if self.find_all_spec() && two_unknowns && (i1 == 2 * p_hi || i1 == 2
                                * p_hi + 1) && (i2 == 2 * p_lo || i2 == 2 * p_lo + 1) {
                                // The refuted pair matches no solution.
                                assert(ass1 == asms@[2 * p_hi] || ass1 == asms@[2 * p_hi + 1]);
                                assert(ass2 == asms@[2 * p_lo] || ass2 == asms@[2 * p_lo + 1]);
                                assert(ass1.coords == c_hi && ass2.coords == c_lo);
                                assert forall|full: Seq<Seq<CellValue>>|
                                    #[trigger] grid_solution(rh, ch, base, full) && full[c_hi.0
                                        as int][c_hi.1 as int] == ass1.val && full[c_lo.0
                                        as int][c_lo.1 as int] == ass2.val implies holds_solution(
                                    solutions@,
                                    full,
                                ) by {
                                    assert(grid_sat(rh, ch, full, ass1));
                                    assert(grid_sat(rh, ch, full, ass2));
                                    assert(false);
                                }
                            }
                        }
                        let ghost reach0 = reach;
                        reach.set_reachable(ass1, ass2.invert());
                        proof {
                            assert forall|x: Assumption, y: Assumption, full: Seq<Seq<CellValue>>|
                                #![trigger reach.reaches(x, y), grid_solution(rh, ch, base, full)]
                                reach.reaches(x, y) && grid_solution(rh, ch, base, full)
                                    && grid_sat(rh, ch, full, x) implies grid_sat(
                                rh,
                                ch,
                                full,
                                y,
                            ) by {
                                if reach0.reaches(x, y) {
                                } else if x == y {
                                } else {
                                    assert((x == ass1 || reach0.reaches(x, ass1)) && (y
                                        == ass2.invert_spec() || reach0.reaches(
                                        ass2.invert_spec(),
                                        y,
                                    )));
                                    assert(grid_sat(rh, ch, full, ass1));
                                    assert(grid_sat(rh, ch, full, ass2.invert_spec()));
                                }
                            }
                        }
                        let ghost reach1 = reach;
                        reach.set_reachable(ass2, ass1.invert());
                        proof {
                            assert forall|x: Assumption, y: Assumption, full: Seq<Seq<CellValue>>|
                                #![trigger reach.reaches(x, y), grid_solution(rh, ch, base, full)]
                                reach.reaches(x, y) && grid_solution(rh, ch, base, full)
                                    && grid_sat(rh, ch, full, x) implies grid_sat(
                                rh,
                                ch,
                                full,
                                y,
                            ) by {
                                if reach1.reaches(x, y) {
                                } else if x == y {
                                } else {
                                    assert((x == ass2 || reach1.reaches(x, ass2)) && (y
                                        == ass1.invert_spec() || reach1.reaches(
                                        ass1.invert_spec(),
                                        y,
                                    )));
                                    assert(grid_sat(rh, ch, full, ass2));
                                    assert(grid_sat(rh, ch, full, ass1.invert_spec()));
                                }
                            }
                        }
                    },
                }
                ass2.unapply(&mut fld);
                proof {
                    assert(fld@ =~~= s1);
                }
                i2 = i2 + 1;
            }
            ass1.unapply(&mut fld);
            proof {
                assert(fld@ =~~= base);
                // The canonical cell's sweep covered both values of the
                // partner cell, so every matching solution is enumerated.
                if self.find_all_spec() && !has_unsolved && two_unknowns && (i1 == 2 * p_hi || i1
                    == 2 * p_hi + 1) {
                    assert(2 * p_lo + 1 < asms@.len());
                    assert(ass1 == asms@[2 * p_hi] || ass1 == asms@[2 * p_hi + 1]);
                    assert forall|full: Seq<Seq<CellValue>>|
                        #[trigger] grid_solution(rh, ch, base, full) && full[c_hi.0 as int][c_hi.1
                            as int] == ass1.val implies holds_solution(solutions@, full) by {
                        assert(asms@[2 * p_lo].coords == c_lo);
                        assert(0 <= c_lo.0 < nrows && 0 <= c_lo.1 < ncols);
                        assert(full[c_lo.0 as int][c_lo.1 as int] != CellValue::Unknown);
                        if full[c_lo.0 as int][c_lo.1 as int] == CellValue::Filled {
                        } else {
                            assert(full[c_lo.0 as int][c_lo.1 as int] == CellValue::Empty);
                        }
                    }
                    if i1 == 2 * p_hi {
                        assert(ass1.val == CellValue::Filled);
                    } else {
                        assert(ass1.val == CellValue::Empty);
                    }
                }
            }
            i1 = i1 + 1;
        }
        if solutions.len() > 0 && !(has_unsolved && self.find_all) {
            proof {
                if self.find_all_spec() {
                    assert(two_unknowns);
                    assert(asms@.len() > 2 * p_hi + 1);
                    assert forall|full: Seq<Seq<CellValue>>|
                        #[trigger] grid_solution(rh, ch, base, full) implies holds_solution(
                        solutions@,
                        full,
                    ) by {
                        assert(asms@[2 * p_hi].coords == c_hi);
                        assert(0 <= c_hi.0 < nrows && 0 <= c_hi.1 < ncols);
                        assert(full[c_hi.0 as int][c_hi.1 as int] != CellValue::Unknown);
                        if full[c_hi.0 as int][c_hi.1 as int] == CellValue::Filled {
                        } else {
                            assert(full[c_hi.0 as int][c_hi.1 as int] == CellValue::Empty);
                        }
                    }
                }
            }
            return SolutionResult::Solved(solutions);
        }
        proof {
            assert(fld@ == base);
            assert(graph_sound(&reach, rh, ch, fld@));
        }
        self.apply_impossible_matches(&fld, &reach)
    }

    /// Dispatches one speculative step to the configured search engine.
    fn do_step(&mut self, field: &Field, depth: usize) -> (r: SolutionResult)
        requires
            old(self).wf(),
            field.wf(),
            grid_dims(field@, old(self).nrows_spec(), old(self).ncols_spec()),
            field.ncols() == old(self).ncols_spec(),
            old(self).algorithm_spec() != Algorithm::ByLines,
        ensures
            final(self).wf(),
            final(self).cfg() == old(self).cfg(),
            result_ok(old(self).rh(), old(self).ch(), field@, r),
            result_sound(old(self).rh(), old(self).ch(), field@, r),
            old(self).find_all_spec() ==> result_complete(
                old(self).rh(),
                old(self).ch(),
                field@,
                r,
            ),
            !old(self).find_all_spec() ==> (r matches SolutionResult::Solved(s) ==> s@.len()
                == 1),
        decreases depth, 2int,
    {
        let alg = self.algorithm;
        match alg {
            Algorithm::Naive => self.do_naive_step(field, depth),
            Algorithm::TwoSat => self.do_2sat_step(field, depth),
            Algorithm::ByLines => {
                proof {
                    assert(false);
                }
                SolutionResult::Controversial
            },
        }
    }

    /// The depth-bounded solve loop: propagate to a fixed point, then take
    /// speculative steps of growing depth, restarting whenever one of them
    /// forces new cells.
    #[verifier::rlimit(100)]
    #[verifier::spinoff_prover]
    fn do_solve(&mut self, field: &Field, max_depth: usize) -> (r: SolutionResult)
        requires
            old(self).wf(),
            field.wf(),
            grid_dims(field@, old(self).nrows_spec(), old(self).ncols_spec()),
            field.ncols() == old(self).ncols_spec(),
            old(self).algorithm_spec() != Algorithm::ByLines,
        ensures
            final(self).wf(),
            final(self).cfg() == old(self).cfg(),
            result_ok(old(self).rh(), old(self).ch(), field@, r),
            result_sound(old(self).rh(), old(self).ch(), field@, r),
            old(self).find_all_spec() ==> result_complete(
                old(self).rh(),
                old(self).ch(),
                field@,
                r,
            ),
            !old(self).find_all_spec() ==> (r matches SolutionResult::Solved(s) ==> s@.len()
                == 1),
            max_depth == 0 ==> (r matches SolutionResult::Solved(s) ==> s@.len() == 1
                && forall|full: Seq<Seq<CellValue>>|
                #[trigger] grid_solution(old(self).rh(), old(self).ch(), field@, full) <==> full
                    == s@[0]@),
            r matches SolutionResult::Unsolved(chg) ==> all_lines_propagated(
                old(self).rh(),
                old(self).ch(),
                apply_asms_to_grid(field@, chg@),
            ) && !grid_solved(apply_asms_to_grid(field@, chg@)),
        decreases max_depth, 0int,
    {
        let ghost rh = self.rh();
        let ghost ch = self.ch();
        let ghost nrows = self.nrows_spec();
        let ghost ncols = self.ncols_spec();
        let nr = self.nrows();
        let nc = self.ncols();
        let ghost base = field@;
        let mut fld = field.clone();
        let mut all_changes: Vec<Assumption> = Vec::new();
        loop
            invariant
                self.wf(),
                self.cfg() == old(self).cfg(),
                rh == self.rh(),
                ch == self.ch(),
                nrows == self.nrows_spec(),
                ncols == self.ncols_spec(),
                nr as int == nrows,
                nc as int == ncols,
                self.algorithm_spec() != Algorithm::ByLines,
                field.wf(),
                base == field@,
                grid_dims(base, nrows, ncols),
                fld.wf(),
                fld.ncols() == ncols,
                grid_dims(fld@, nrows, ncols),
                fld@ == apply_asms_to_grid(base, all_changes@),
                changes_ok(base, all_changes@, nrows, ncols),
                nrows == rh.len() as int,
                ncols == ch.len() as int,
                max_depth == 0 ==> all_changes@ == Seq::<Assumption>::empty(),
                self.find_all_spec() == old(self).find_all_spec(),
                forall|full: Seq<Seq<CellValue>>|
                    #[trigger] grid_solution(rh, ch, base, full) <==> grid_solution(
                        rh,
                        ch,
                        fld@,
                        full,
                    ),
            decreases count_unknown(fld@),
        {
            let ghost fld_head = fld@;
            proof {
                lemma_changes_refine(base, all_changes@, nrows, ncols);
            }
            match self.do_solve_by_lines(&fld) {
                SolutionResult::Controversial => {
                    proof {
                        assert forall|full: Seq<Seq<CellValue>>|
                            !#[trigger] grid_solution(rh, ch, base, full) by {
                            if grid_solution(rh, ch, base, full) {
                                assert(grid_solution(rh, ch, fld_head, full));
                            }
                        }
                    }
                    return SolutionResult::Controversial;
                },
                SolutionResult::Solved(s) => {
                    proof {
                        assert forall|i: int| 0 <= i < s@.len() implies good_solution(
                            rh,
                            ch,
                            base,
                            #[trigger] s@[i],
                        ) by {
                            lemma_refines_trans(base, fld@, s@[i]@);
                        }
                        // The harness's solved set is the unique solution,
                        // so it misses nothing.
                        assert forall|full: Seq<Seq<CellValue>>|
                            #[trigger] grid_solution(rh, ch, base, full) implies holds_solution(
                            s@,
                            full,
                        ) by {
                            assert(grid_solution(rh, ch, fld_head, full));
                            assert(full == s@[0]@);
                        }
                        if max_depth == 0 {
                            // Without a search budget this is the harness's
                            // own answer on the unchanged grid.
                            assert(all_changes@ == Seq::<Assumption>::empty());
                            assert(fld_head == base);
                            assert forall|full: Seq<Seq<CellValue>>|
                                #[trigger] grid_solution(rh, ch, base, full) <==> full
                                == s@[0]@ by {
                                assert(grid_solution(rh, ch, base, full) <==> grid_solution(
                                    rh,
                                    ch,
                                    fld_head,
                                    full,
                                ));
                            }
                        }
                    }
                    return SolutionResult::Solved(s);
                },
                SolutionResult::Unsolved(changes) => {
                    proof {
                        // Forced moves against the current grid are forced
                        // moves against the original one.
                        crate::grid_props::lemma_changes_ok_lift(
                            base,
                            all_changes@,
                            changes@,
                            nrows,
                            ncols,
                        );
                        assert forall|full: Seq<Seq<CellValue>>, k: int|
                            #![trigger grid_solution(rh, ch, base, full), changes@[k]]
                            grid_solution(rh, ch, base, full) && 0 <= k
                                < changes@.len() implies full[changes@[k].coords.0
                            as int][changes@[k].coords.1 as int] == changes@[k].val by {
                            assert(grid_solution(rh, ch, fld_head, full));
                        }
                    }
                    if max_depth == 0 {
                        proof {
                            assert(all_changes@ == Seq::<Assumption>::empty());
                            assert(fld_head == base);
                            assert(all_lines_propagated(
                                rh,
                                ch,
                                apply_asms_to_grid(base, changes@),
                            ));
                            assert(!grid_solved(apply_asms_to_grid(base, changes@)));
                        }
                        return SolutionResult::Unsolved(changes);
                    }
                    proof {
                        lemma_changes_ok_compose(base, all_changes@, changes@, nrows, ncols);
                        lemma_apply_append(base, all_changes@, changes@);
                        lemma_count_apply(fld_head, changes@, nrows, ncols);
                        lemma_forced_changes_preserve(rh, ch, fld_head, changes@);
                    }
                    apply_changes(&changes, &mut fld, &mut all_changes);
                    proof {
                        assert(fld@ == apply_asms_to_grid(fld_head, changes@));
                        assert(forall|full: Seq<Seq<CellValue>>|
                            #[trigger] grid_solution(rh, ch, base, full) <==> grid_solution(
                                rh,
                                ch,
                                fld@,
                                full,
                            ));
                        assert(all_lines_propagated(rh, ch, fld@));
                        assert(!grid_solved(fld@));
                    }
                },
            }
            let mut depth: usize = 0;
            let mut progressed = false;
            while depth < max_depth && !progressed
                invariant
                    self.wf(),
                    self.cfg() == old(self).cfg(),
                    rh == self.rh(),
                    ch == self.ch(),
                    nrows == self.nrows_spec(),
                    ncols == self.ncols_spec(),
                    nr as int == nrows,
                    nc as int == ncols,
                    self.algorithm_spec() != Algorithm::ByLines,
                    field.wf(),
                    base == field@,
                    grid_dims(base, nrows, ncols),
                    fld.wf(),
                    fld.ncols() == ncols,
                    grid_dims(fld@, nrows, ncols),
                    fld@ == apply_asms_to_grid(base, all_changes@),
                    changes_ok(base, all_changes@, nrows, ncols),
                    nrows == rh.len() as int,
                    ncols == ch.len() as int,
                    forall|full: Seq<Seq<CellValue>>|
                        #[trigger] grid_solution(rh, ch, base, full) <==> grid_solution(
                            rh,
                            ch,
                            fld@,
                            full,
                        ),
                    !progressed ==> all_lines_propagated(rh, ch, fld@),
                    !progressed ==> !grid_solved(fld@),
                    depth <= max_depth,
                    progressed ==> count_unknown(fld@) < count_unknown(fld_head),
                    !progressed ==> count_unknown(fld@) <= count_unknown(fld_head),
                decreases max_depth - depth,
            {
                let ghost fld_before = fld@;
                match self.do_step(&fld, depth) {
                    SolutionResult::Solved(s) => {
                        proof {
                            lemma_changes_refine(base, all_changes@, nrows, ncols);
                            assert forall|i: int| 0 <= i < s@.len() implies good_solution(
                                rh,
                                ch,
                                base,
                                #[trigger] s@[i],
                            ) by {
                                lemma_refines_trans(base, fld@, s@[i]@);
                            }
                            if old(self).find_all_spec() {
                                assert forall|full: Seq<Seq<CellValue>>|
                                    #[trigger] grid_solution(
                                        rh,
                                        ch,
                                        base,
                                        full,
                                    ) implies holds_solution(s@, full) by {
                                    assert(grid_solution(rh, ch, fld_before, full));
                                }
                            }
                        }
                        return SolutionResult::Solved(s);
                    },
                    SolutionResult::Controversial => {
                        proof {
                            assert forall|full: Seq<Seq<CellValue>>|
                                !#[trigger] grid_solution(rh, ch, base, full) by {
                                if grid_solution(rh, ch, base, full) {
                                    assert(grid_solution(rh, ch, fld_before, full));
                                }
                            }
                        }
                        return SolutionResult::Controversial;
                    },
                    SolutionResult::Unsolved(changes) => {
                        if changes.len() > 0 {
                            proof {
                                lemma_changes_ok_compose(
                                    base,
                                    all_changes@,
                                    changes@,
                                    nrows,
                                    ncols,
                                );
                                lemma_apply_append(base, all_changes@, changes@);
                                lemma_count_apply(fld_before, changes@, nrows, ncols);
                                assert forall|full: Seq<Seq<CellValue>>, k: int|
                                    #![trigger grid_solution(rh, ch, fld_before, full), changes@[k]]
                                    grid_solution(rh, ch, fld_before, full) && 0 <= k
                                        < changes@.len() implies full[changes@[k].coords.0
                                    as int][changes@[k].coords.1 as int] == changes@[k].val by {
                                    assert(grid_solution(rh, ch, base, full));
                                }
                                lemma_forced_changes_preserve(rh, ch, fld_before, changes@);
                            }
                            apply_changes(&changes, &mut fld, &mut all_changes);
                            progressed = true;
                            proof {
                                assert(fld@ == apply_asms_to_grid(fld_before, changes@));
                            }
                        }
                    },
                }
                depth = depth + 1;
            }
            if !progressed {
                proof {
                    lemma_apply_frame(base, all_changes@, nrows, ncols);
                    assert forall|full: Seq<Seq<CellValue>>, k: int|
                        #![trigger grid_solution(rh, ch, base, full), all_changes@[k]]
                        grid_solution(rh, ch, base, full) && 0 <= k
                            < all_changes@.len() implies full[all_changes@[k].coords.0
                        as int][all_changes@[k].coords.1 as int] == all_changes@[k].val by {
                        let a = all_changes@[k];
                        assert(forall|k2: int|
                            k < k2 < all_changes@.len() ==> (#[trigger] all_changes@[k2]).coords
                                != a.coords);
                        assert(fld@[a.coords.0 as int][a.coords.1 as int] == a.val);
                        assert(grid_solution(rh, ch, fld@, full));
                        assert(refines_grid(fld@, full));
                    }
                }
                return SolutionResult::Unsolved(all_changes);
            }
            proof {
                assert(count_unknown(fld@) < count_unknown(fld_head));
            }
        }
    }

    /// Solves the puzzle from a blank grid with the configured engine.
    /// With propagation alone, the outcome is exact: a contradictory report
    /// means the puzzle has no solution at all, and a solved report names
    /// the puzzle's one and only solution.
    pub fn solve(&mut self) -> (r: SolutionResult)
        requires
            old(self).wf(),
        ensures
            final(self).wf(),
            final(self).cfg() == old(self).cfg(),
            result_ok(
                old(self).rh(),
                old(self).ch(),
                blank_grid(old(self).nrows_spec(), old(self).ncols_spec()),
                r,
            ),
            result_sound(
                old(self).rh(),
                old(self).ch(),
                blank_grid(old(self).nrows_spec(), old(self).ncols_spec()),
                r,
            ),
            old(self).find_all_spec() ==> result_complete(
                old(self).rh(),
                old(self).ch(),
                blank_grid(old(self).nrows_spec(), old(self).ncols_spec()),
                r,
            ),
            !old(self).find_all_spec() ==> (r matches SolutionResult::Solved(s) ==> s@.len()
                == 1),

            r matches SolutionResult::Unsolved(chg) ==> all_lines_propagated(
                old(self).rh(),
                old(self).ch(),
                apply_asms_to_grid(
                    blank_grid(old(self).nrows_spec(), old(self).ncols_spec()),
                    chg@,
                ),
            ) && !grid_solved(
                apply_asms_to_grid(
                    blank_grid(old(self).nrows_spec(), old(self).ncols_spec()),
                    chg@,
                ),
            ),
            old(self).algorithm_spec() == Algorithm::ByLines ==> (r matches
            SolutionResult::Solved(s) ==> forall|full: Seq<Seq<CellValue>>|
                #[trigger] grid_solution(
                    old(self).rh(),
                    old(self).ch(),
                    blank_grid(old(self).nrows_spec(), old(self).ncols_spec()),
                    full,
                ) <==> full == s@[0]@),
    {
        let field = self.create_field();
        proof {
            assert(field@ =~~= blank_grid(self.nrows_spec(), self.ncols_spec()));
        }
        let ghost rh = self.rh();
        let ghost ch = self.ch();
        let ghost blank = blank_grid(self.nrows_spec(), self.ncols_spec());
        let alg = self.algorithm;
        match alg {
            Algorithm::ByLines => {
                let r = self.do_solve_by_lines(&field);
                proof {
                    assert(field@ == blank);
                    if r is Unsolved {
                        assert(result_sound(rh, ch, blank, r));
                    }
                }
                r
            },
            _ => {
                let md = self.max_depth;
                let r = self.do_solve(&field, md);
                proof {
                    assert(field@ == blank);
                }
                r
            },
        }
    }
}

/// A propagation fixed point forces nothing when re-queried: on a grid that
/// already carries a pass's forced moves, another deduction pass over any
/// row or column returns the empty list — in particular, no assumption at
/// any cell of the earlier moves.
pub proof fn lemma_fixed_point_requery(
    rh: Seq<Seq<usize>>,
    ch: Seq<Seq<usize>>,
    grid: Seq<Seq<CellValue>>,
)
    requires
        all_lines_propagated(rh, ch, grid),
    ensures
        forall|line_type: LineType, li: int|
            0 <= li < line_count_of(rh.len() as int, ch.len() as int, line_type)
                ==> #[trigger] forced_asm(
                hints_of(rh, ch, line_type, li),
                line_of(grid, line_type, li),
                line_type,
                li as usize,
                line_of(grid, line_type, li).len() as int,
            ) == Seq::<Assumption>::empty(),
{
    assert forall|line_type: LineType, li: int|
        0 <= li < line_count_of(rh.len() as int, ch.len() as int, line_type) implies #[trigger] forced_asm(
        hints_of(rh, ch, line_type, li),
        line_of(grid, line_type, li),
        line_type,
        li as usize,
        line_of(grid, line_type, li).len() as int,
    ) == Seq::<Assumption>::empty() by {
        assert(line_propagated(rh, ch, grid, line_type, li)) by {
            match line_type {
                LineType::Row => {},
                LineType::Col => {},
            }
        }
    }
}

/// The blank grid: every cell undecided.
pub open spec fn blank_grid(nrows: int, ncols: int) -> Seq<Seq<CellValue>> {
    Seq::new(nrows as nat, |r: int| Seq::new(ncols as nat, |c: int| CellValue::Unknown))
}

} // verus!
