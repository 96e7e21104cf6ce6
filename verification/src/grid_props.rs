//! Grids as sequences of rows: reading lines off them, writing assumption
//! lists into them, and counting undecided cells.
use crate::assumption::Assumption;
use crate::common::CellValue;
use crate::line::LineType;
use vstd::prelude::*;

verus! {

/// The grid has `nrows` rows of `ncols` cells each.
pub open spec fn grid_dims(grid: Seq<Seq<CellValue>>, nrows: int, ncols: int) -> bool {
    &&& grid.len() == nrows
    &&& forall|r: int| 0 <= r < nrows ==> (#[trigger] grid[r]).len() == ncols
}

/// Line `li` of the given kind, read off the grid.
pub open spec fn line_of(grid: Seq<Seq<CellValue>>, line_type: LineType, li: int) -> Seq<
    CellValue,
> {
    match line_type {
        LineType::Row => grid[li],
        LineType::Col => Seq::new(grid.len(), |r: int| grid[r][li]),
    }
}

/// The grid with one cell overwritten.
pub open spec fn grid_set(
    grid: Seq<Seq<CellValue>>,
    coords: (usize, usize),
    v: CellValue,
) -> Seq<Seq<CellValue>> {
    grid.update(coords.0 as int, grid[coords.0 as int].update(coords.1 as int, v))
}

/// A list of assumptions written into the grid, in order.
pub open spec fn apply_asms_to_grid(grid: Seq<Seq<CellValue>>, asms: Seq<Assumption>) -> Seq<
    Seq<CellValue>,
>
    decreases asms.len(),
{
    if asms.len() == 0 {
        grid
    } else {
        grid_set(apply_asms_to_grid(grid, asms.drop_last()), asms.last().coords, asms.last().val)
    }
}

/// A list of forced moves against a grid: each names an undecided cell in
/// bounds, carries a known value, and no cell is named twice.
pub open spec fn changes_ok(
    grid: Seq<Seq<CellValue>>,
    asms: Seq<Assumption>,
    nrows: int,
    ncols: int,
) -> bool {
    &&& forall|k: int|
        0 <= k < asms.len() ==> {
            let a = #[trigger] asms[k];
            &&& 0 <= a.coords.0 < nrows
            &&& 0 <= a.coords.1 < ncols
            &&& a.val != CellValue::Unknown
            &&& grid[a.coords.0 as int][a.coords.1 as int] == CellValue::Unknown
        }
    &&& forall|k1: int, k2: int|
        0 <= k1 < k2 < asms.len() ==> (#[trigger] asms[k1]).coords != (#[trigger] asms[k2]).coords
}

/// The second grid agrees with the first on every cell the first knows.
pub open spec fn refines_grid(g1: Seq<Seq<CellValue>>, g2: Seq<Seq<CellValue>>) -> bool {
    &&& g1.len() == g2.len()
    &&& forall|r: int| 0 <= r < g1.len() ==> (#[trigger] g1[r]).len() == g2[r].len()
    &&& forall|r: int, c: int|
        0 <= r < g1.len() && 0 <= c < g1[r].len() && (#[trigger] g1[r][c]) != CellValue::Unknown
            ==> g2[r][c] == g1[r][c]
}

/// Applying assumptions touches exactly the named cells: dimensions are kept,
/// unnamed cells are unchanged, and a cell named once holds the named value.
pub proof fn lemma_apply_frame(
    grid: Seq<Seq<CellValue>>,
    asms: Seq<Assumption>,
    nrows: int,
    ncols: int,
)
    requires
        grid_dims(grid, nrows, ncols),
        forall|k: int|
            0 <= k < asms.len() ==> 0 <= (#[trigger] asms[k]).coords.0 < nrows && 0
                <= asms[k].coords.1 < ncols,
    ensures
        grid_dims(apply_asms_to_grid(grid, asms), nrows, ncols),
        forall|r: int, c: int|
            0 <= r < nrows && 0 <= c < ncols && (forall|k: int|
                0 <= k < asms.len() ==> (#[trigger] asms[k]).coords != (r as usize, c as usize))
                ==> #[trigger] apply_asms_to_grid(grid, asms)[r][c] == grid[r][c],
        forall|k: int|
            0 <= k < asms.len() && (forall|k2: int|
                k < k2 < asms.len() ==> (#[trigger] asms[k2]).coords != asms[k].coords)
                ==> #[trigger] apply_asms_to_grid(grid, asms)[asms[k].coords.0 as int][asms[k].coords.1 as int]
                == asms[k].val,
    decreases asms.len(),
{
    if asms.len() > 0 {
        let prev = asms.drop_last();
        let a = asms.last();
        lemma_apply_frame(grid, prev, nrows, ncols);
        let g1 = apply_asms_to_grid(grid, prev);
        let g2 = apply_asms_to_grid(grid, asms);
        assert(g2 == grid_set(g1, a.coords, a.val));
        assert(grid_dims(g2, nrows, ncols));
        assert forall|r: int, c: int|
            0 <= r < nrows && 0 <= c < ncols && (forall|k: int|
                0 <= k < asms.len() ==> (#[trigger] asms[k]).coords != (r as usize, c as usize))
                implies #[trigger] g2[r][c] == grid[r][c] by {
            assert(forall|k: int|
                0 <= k < prev.len() ==> (#[trigger] prev[k]).coords != (r as usize, c as usize));
            assert(asms[asms.len() - 1].coords != (r as usize, c as usize));
            assert(g1[r][c] == grid[r][c]);
        }
        assert forall|k: int|
            0 <= k < asms.len() && (forall|k2: int|
                k < k2 < asms.len() ==> (#[trigger] asms[k2]).coords != asms[k].coords)
                implies #[trigger] g2[asms[k].coords.0 as int][asms[k].coords.1 as int]
            == asms[k].val by {
            if k == asms.len() - 1 {
                assert(g2[a.coords.0 as int][a.coords.1 as int] == a.val);
            } else {
                assert(asms[asms.len() - 1].coords != asms[k].coords);
                assert(prev[k] == asms[k]);
                assert(forall|k2: int|
                    k < k2 < prev.len() ==> (#[trigger] prev[k2]).coords != prev[k].coords);
                assert(g1[asms[k].coords.0 as int][asms[k].coords.1 as int] == asms[k].val);
            }
        }
    }
}

/// Applying a concatenation applies the two lists in turn.
pub proof fn lemma_apply_append(
    grid: Seq<Seq<CellValue>>,
    a: Seq<Assumption>,
    b: Seq<Assumption>,
)
    ensures
        apply_asms_to_grid(grid, a + b) == apply_asms_to_grid(apply_asms_to_grid(grid, a), b),
    decreases b.len(),
{
    if b.len() == 0 {
        assert(a + b =~= a);
    } else {
        lemma_apply_append(grid, a, b.drop_last());
        assert((a + b).drop_last() =~= a + b.drop_last());
        assert((a + b).last() == b.last());
    }
}

/// Writing assumptions that all lie on one line writes them into that line
/// and leaves every other line of the same kind alone.
pub proof fn lemma_apply_line_grid(
    grid: Seq<Seq<CellValue>>,
    asms: Seq<Assumption>,
    line_type: LineType,
    li: usize,
    nrows: int,
    ncols: int,
)
    requires
        grid_dims(grid, nrows, ncols),
        match line_type {
            LineType::Row => li < nrows,
            LineType::Col => li < ncols,
        },
        forall|k: int|
            0 <= k < asms.len() ==> {
                let a = #[trigger] asms[k];
                &&& a.coords == crate::line::coords_of(
                    line_type,
                    li,
                    crate::line_props::cell_idx_of(line_type, a) as usize,
                )
                &&& 0 <= crate::line_props::cell_idx_of(line_type, a) < (match line_type {
                    LineType::Row => ncols,
                    LineType::Col => nrows,
                })
            },
    ensures
        grid_dims(apply_asms_to_grid(grid, asms), nrows, ncols),
        line_of(apply_asms_to_grid(grid, asms), line_type, li as int)
            == crate::line_props::apply_asms_to_line(
            line_of(grid, line_type, li as int),
            asms,
            line_type,
        ),
        forall|lj: int|
            0 <= lj < (match line_type {
                LineType::Row => nrows,
                LineType::Col => ncols,
            }) && lj != li ==> #[trigger] line_of(apply_asms_to_grid(grid, asms), line_type, lj)
                == line_of(grid, line_type, lj),
    decreases asms.len(),
{
    if asms.len() > 0 {
        let prev = asms.drop_last();
        let a = asms.last();
        assert(forall|k: int| 0 <= k < prev.len() ==> prev[k] == #[trigger] asms[k]);
        lemma_apply_line_grid(grid, prev, line_type, li, nrows, ncols);
        let g1 = apply_asms_to_grid(grid, prev);
        let g2 = apply_asms_to_grid(grid, asms);
        let idx = crate::line_props::cell_idx_of(line_type, a);
        assert(g2 == grid_set(g1, a.coords, a.val));
        assert(crate::line_props::apply_asms_to_line(
            line_of(grid, line_type, li as int),
            asms,
            line_type,
        ) == crate::line_props::apply_asms_to_line(
            line_of(grid, line_type, li as int),
            prev,
            line_type,
        ).update(idx, a.val));
        match line_type {
            LineType::Row => {
                assert(a.coords == (li, idx as usize));
                assert(line_of(g2, line_type, li as int) =~= line_of(g1, line_type, li as int)
                    .update(idx, a.val));
                assert forall|lj: int| 0 <= lj < nrows && lj != li implies #[trigger] line_of(
                    g2,
                    line_type,
                    lj,
                ) == line_of(g1, line_type, lj) by {
                    assert(g2[lj] == g1[lj]);
                }
            },
            LineType::Col => {
                assert(a.coords == (idx as usize, li));
                assert(line_of(g2, line_type, li as int) =~= line_of(g1, line_type, li as int)
                    .update(idx, a.val));
                assert forall|lj: int| 0 <= lj < ncols && lj != li implies #[trigger] line_of(
                    g2,
                    line_type,
                    lj,
                ) == line_of(g1, line_type, lj) by {
                    assert(line_of(g2, line_type, lj) =~= line_of(g1, line_type, lj));
                }
            },
        }
    }
}

/// Forced moves made after earlier forced moves are forced moves against the
/// original grid, all at distinct cells.
pub proof fn lemma_changes_ok_compose(
    grid: Seq<Seq<CellValue>>,
    a: Seq<Assumption>,
    b: Seq<Assumption>,
    nrows: int,
    ncols: int,
)
    requires
        grid_dims(grid, nrows, ncols),
        changes_ok(grid, a, nrows, ncols),
        changes_ok(apply_asms_to_grid(grid, a), b, nrows, ncols),
    ensures
        changes_ok(grid, a + b, nrows, ncols),
{
    let g1 = apply_asms_to_grid(grid, a);
    lemma_apply_frame(grid, a, nrows, ncols);
    // No move of `b` names a cell already named by `a`: such a cell is known
    // in the intermediate grid.
    assert forall|k1: int, k2: int| 0 <= k1 < a.len() && 0 <= k2 < b.len() implies (
    #[trigger] a[k1]).coords != (#[trigger] b[k2]).coords by {
        if a[k1].coords == b[k2].coords {
            assert(forall|k3: int|
                k1 < k3 < a.len() ==> (#[trigger] a[k3]).coords != a[k1].coords);
            assert(g1[a[k1].coords.0 as int][a[k1].coords.1 as int] == a[k1].val);
            assert(g1[b[k2].coords.0 as int][b[k2].coords.1 as int] == CellValue::Unknown);
            assert(false);
        }
    }
    assert forall|k: int| 0 <= k < (a + b).len() implies {
        let x = #[trigger] (a + b)[k];
        &&& 0 <= x.coords.0 < nrows
        &&& 0 <= x.coords.1 < ncols
        &&& x.val != CellValue::Unknown
        &&& grid[x.coords.0 as int][x.coords.1 as int] == CellValue::Unknown
    } by {
        if k < a.len() {
            assert((a + b)[k] == a[k]);
        } else {
            let x = b[k - a.len()];
            assert((a + b)[k] == x);
            assert(g1[x.coords.0 as int][x.coords.1 as int] == CellValue::Unknown);
            assert(forall|k1: int|
                0 <= k1 < a.len() ==> (#[trigger] a[k1]).coords != x.coords);
            assert(grid[x.coords.0 as int][x.coords.1 as int] == g1[x.coords.0 as int][x.coords.1
                as int]);
        }
    }
    assert forall|k1: int, k2: int| 0 <= k1 < k2 < (a + b).len() implies (
    #[trigger] (a + b)[k1]).coords != (#[trigger] (a + b)[k2]).coords by {
        if k1 < a.len() && k2 < a.len() {
            assert((a + b)[k1] == a[k1] && (a + b)[k2] == a[k2]);
        } else if k1 < a.len() {
            assert((a + b)[k1] == a[k1] && (a + b)[k2] == b[k2 - a.len()]);
        } else {
            assert((a + b)[k1] == b[k1 - a.len()] && (a + b)[k2] == b[k2 - a.len()]);
        }
    }
}

/// A line none of whose cells are named by the moves is unchanged by them.
pub proof fn lemma_line_frame(
    grid: Seq<Seq<CellValue>>,
    asms: Seq<Assumption>,
    line_type: LineType,
    li: int,
    nrows: int,
    ncols: int,
)
    requires
        grid_dims(grid, nrows, ncols),
        nrows <= usize::MAX,
        ncols <= usize::MAX,
        forall|k: int|
            0 <= k < asms.len() ==> 0 <= (#[trigger] asms[k]).coords.0 < nrows && 0
                <= asms[k].coords.1 < ncols,
        forall|k: int|
            0 <= k < asms.len() ==> (#[trigger] asms[k]).line_idx_spec(line_type) != li,
        0 <= li < (match line_type {
            LineType::Row => nrows,
            LineType::Col => ncols,
        }),
    ensures
        line_of(apply_asms_to_grid(grid, asms), line_type, li) == line_of(grid, line_type, li),
{
    lemma_apply_frame(grid, asms, nrows, ncols);
    let g2 = apply_asms_to_grid(grid, asms);
    match line_type {
        LineType::Row => {
            assert forall|c: int| 0 <= c < ncols implies #[trigger] g2[li][c] == grid[li][c] by {
                assert forall|k: int|
                    0 <= k < asms.len() implies (#[trigger] asms[k]).coords != (
                    li as usize,
                    c as usize,
                ) by {
                    if asms[k].coords == (li as usize, c as usize) {
                        assert(asms[k].line_idx_spec(line_type) == li as usize);
                        assert(false);
                    }
                }
            }
            assert(line_of(g2, line_type, li) =~= line_of(grid, line_type, li));
        },
        LineType::Col => {
            assert forall|r: int| 0 <= r < nrows implies #[trigger] g2[r][li] == grid[r][li] by {
                assert forall|k: int|
                    0 <= k < asms.len() implies (#[trigger] asms[k]).coords != (
                    r as usize,
                    li as usize,
                ) by {
                    if asms[k].coords == (r as usize, li as usize) {
                        assert(asms[k].line_idx_spec(line_type) == li as usize);
                        assert(false);
                    }
                }
            }
            assert(line_of(g2, line_type, li) =~= line_of(grid, line_type, li));
        },
    }
}

/// Forced moves only decide cells: the grid after them refines the grid
/// before them.
pub proof fn lemma_changes_refine(
    grid: Seq<Seq<CellValue>>,
    asms: Seq<Assumption>,
    nrows: int,
    ncols: int,
)
    requires
        grid_dims(grid, nrows, ncols),
        nrows <= usize::MAX,
        ncols <= usize::MAX,
        changes_ok(grid, asms, nrows, ncols),
    ensures
        refines_grid(grid, apply_asms_to_grid(grid, asms)),
{
    lemma_apply_frame(grid, asms, nrows, ncols);
    let g2 = apply_asms_to_grid(grid, asms);
    assert forall|r: int, c: int|
        0 <= r < grid.len() && 0 <= c < grid[r].len() && (#[trigger] grid[r][c])
            != CellValue::Unknown implies g2[r][c] == grid[r][c] by {
        assert forall|k: int|
            0 <= k < asms.len() implies (#[trigger] asms[k]).coords != (
            r as usize,
            c as usize,
        ) by {
            if asms[k].coords == (r as usize, c as usize) {
                assert(grid[asms[k].coords.0 as int][asms[k].coords.1 as int]
                    == CellValue::Unknown);
                assert(false);
            }
        }
    }
}

/// A propagation pass never re-decides a cell: forced moves found against
/// the grid that already carries an earlier pass's moves name none of the
/// cells the earlier pass decided.
pub proof fn lemma_no_requery(
    grid: Seq<Seq<CellValue>>,
    first: Seq<Assumption>,
    second: Seq<Assumption>,
    nrows: int,
    ncols: int,
)
    requires
        grid_dims(grid, nrows, ncols),
        changes_ok(grid, first, nrows, ncols),
        changes_ok(apply_asms_to_grid(grid, first), second, nrows, ncols),
    ensures
        forall|k1: int, k2: int|
            0 <= k1 < first.len() && 0 <= k2 < second.len() ==> (#[trigger] first[k1]).coords != (
            #[trigger] second[k2]).coords,
{
    let g1 = apply_asms_to_grid(grid, first);
    lemma_apply_frame(grid, first, nrows, ncols);
    assert forall|k1: int, k2: int|
        0 <= k1 < first.len() && 0 <= k2 < second.len() implies (#[trigger] first[k1]).coords != (
    #[trigger] second[k2]).coords by {
        if first[k1].coords == second[k2].coords {
            assert(forall|k3: int|
                k1 < k3 < first.len() ==> (#[trigger] first[k3]).coords != first[k1].coords);
            assert(g1[first[k1].coords.0 as int][first[k1].coords.1 as int] == first[k1].val);
            assert(g1[second[k2].coords.0 as int][second[k2].coords.1 as int]
                == CellValue::Unknown);
            assert(false);
        }
    }
}

/// Forced moves against a grid that carries earlier forced moves are forced
/// moves against the original grid.
pub proof fn lemma_changes_ok_lift(
    grid: Seq<Seq<CellValue>>,
    a: Seq<Assumption>,
    b: Seq<Assumption>,
    nrows: int,
    ncols: int,
)
    requires
        grid_dims(grid, nrows, ncols),
        changes_ok(grid, a, nrows, ncols),
        changes_ok(apply_asms_to_grid(grid, a), b, nrows, ncols),
    ensures
        changes_ok(grid, b, nrows, ncols),
{
    lemma_changes_ok_compose(grid, a, b, nrows, ncols);
    let ab = a + b;
    assert forall|k: int| 0 <= k < b.len() implies {
        let x = #[trigger] b[k];
        &&& 0 <= x.coords.0 < nrows
        &&& 0 <= x.coords.1 < ncols
        &&& x.val != CellValue::Unknown
        &&& grid[x.coords.0 as int][x.coords.1 as int] == CellValue::Unknown
    } by {
        assert(ab[a.len() + k] == b[k]);
    }
    assert forall|k1: int, k2: int|
        0 <= k1 < k2 < b.len() implies (#[trigger] b[k1]).coords != (#[trigger] b[k2]).coords by {
        assert(ab[a.len() + k1] == b[k1]);
        assert(ab[a.len() + k2] == b[k2]);
    }
}

/// Refinement of partial grids composes.
pub proof fn lemma_refines_trans(
    a: Seq<Seq<CellValue>>,
    b: Seq<Seq<CellValue>>,
    c: Seq<Seq<CellValue>>,
)
    requires
        refines_grid(a, b),
        refines_grid(b, c),
    ensures
        refines_grid(a, c),
{
    assert forall|r: int, c2: int|
        0 <= r < a.len() && 0 <= c2 < a[r].len() && (#[trigger] a[r][c2])
            != CellValue::Unknown implies c[r][c2] == a[r][c2] by {
        assert(b[r][c2] == a[r][c2]);
    }
}

/// Deciding one undecided cell refines the grid.
pub proof fn lemma_refines_set(grid: Seq<Seq<CellValue>>, coords: (usize, usize), v: CellValue)
    requires
        0 <= coords.0 < grid.len(),
        0 <= coords.1 < grid[coords.0 as int].len(),
        grid[coords.0 as int][coords.1 as int] == CellValue::Unknown,
    ensures
        refines_grid(grid, grid_set(grid, coords, v)),
        grid_set(grid, coords, v).len() == grid.len(),
        forall|r: int|
            0 <= r < grid.len() ==> (#[trigger] grid_set(grid, coords, v)[r]).len()
                == grid[r].len(),
{
    let g2 = grid_set(grid, coords, v);
    assert forall|r: int, c: int|
        0 <= r < grid.len() && 0 <= c < grid[r].len() && (#[trigger] grid[r][c])
            != CellValue::Unknown implies g2[r][c] == grid[r][c] by {
        if r == coords.0 as int {
            assert(g2[r] == grid[r].update(coords.1 as int, v));
        }
    }
}

// ---------------------------------------------------------------------------
// Counting undecided cells, the measure every deduction shrinks.
// ---------------------------------------------------------------------------
pub open spec fn count_unknown_line(line: Seq<CellValue>) -> nat
    decreases line.len(),
{
    if line.len() == 0 {
        0
    } else {
        count_unknown_line(line.drop_last()) + if line.last() == CellValue::Unknown {
            1nat
        } else {
            0nat
        }
    }
}

pub open spec fn count_unknown(grid: Seq<Seq<CellValue>>) -> nat
    decreases grid.len(),
{
    if grid.len() == 0 {
        0
    } else {
        count_unknown(grid.drop_last()) + count_unknown_line(grid.last())
    }
}

/// Writing a known value into an undecided cell of a line lowers its count by
/// one.
pub proof fn lemma_count_line_update(line: Seq<CellValue>, i: int, v: CellValue)
    requires
        0 <= i < line.len(),
        line[i] == CellValue::Unknown,
        v != CellValue::Unknown,
    ensures
        count_unknown_line(line.update(i, v)) + 1 == count_unknown_line(line),
    decreases line.len(),
{
    if i == line.len() - 1 {
        assert(line.update(i, v).drop_last() =~= line.drop_last());
    } else {
        lemma_count_line_update(line.drop_last(), i, v);
        assert(line.update(i, v).drop_last() =~= line.drop_last().update(i, v));
        assert(line.update(i, v).last() == line.last());
    }
}

/// Writing a known value into an undecided cell of the grid lowers its count
/// by one.
pub proof fn lemma_count_grid_set(
    grid: Seq<Seq<CellValue>>,
    coords: (usize, usize),
    v: CellValue,
)
    requires
        0 <= coords.0 < grid.len(),
        0 <= coords.1 < grid[coords.0 as int].len(),
        grid[coords.0 as int][coords.1 as int] == CellValue::Unknown,
        v != CellValue::Unknown,
    ensures
        count_unknown(grid_set(grid, coords, v)) + 1 == count_unknown(grid),
    decreases grid.len(),
{
    let r = coords.0 as int;
    let g2 = grid_set(grid, coords, v);
    if r == grid.len() - 1 {
        assert(g2.drop_last() =~= grid.drop_last());
        assert(g2.last() == grid.last().update(coords.1 as int, v));
        lemma_count_line_update(grid.last(), coords.1 as int, v);
    } else {
        lemma_count_grid_set(grid.drop_last(), coords, v);
        assert(g2.drop_last() =~= grid_set(grid.drop_last(), coords, v));
        assert(g2.last() == grid.last());
    }
}

/// Writing a list of forced moves lowers the count by its length.
pub proof fn lemma_count_apply(
    grid: Seq<Seq<CellValue>>,
    asms: Seq<Assumption>,
    nrows: int,
    ncols: int,
)
    requires
        grid_dims(grid, nrows, ncols),
        changes_ok(grid, asms, nrows, ncols),
    ensures
        count_unknown(apply_asms_to_grid(grid, asms)) + asms.len() == count_unknown(grid),
        grid_dims(apply_asms_to_grid(grid, asms), nrows, ncols),
    decreases asms.len(),
{
    if asms.len() > 0 {
        let prev = asms.drop_last();
        let a = asms.last();
        assert(changes_ok(grid, prev, nrows, ncols)) by {
            assert(forall|k: int| 0 <= k < prev.len() ==> prev[k] == #[trigger] asms[k]);
        }
        lemma_count_apply(grid, prev, nrows, ncols);
        let g1 = apply_asms_to_grid(grid, prev);
        // The cell the last move names is untouched by the earlier moves.
        lemma_apply_frame(grid, prev, nrows, ncols);
        assert(forall|k: int|
            0 <= k < prev.len() ==> (#[trigger] prev[k]).coords != a.coords);
        assert(g1[a.coords.0 as int][a.coords.1 as int] == grid[a.coords.0 as int][a.coords.1
            as int]);
        lemma_count_grid_set(g1, a.coords, a.val);
    }
}

} // verus!
