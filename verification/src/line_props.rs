//! The semantics behind line deduction: completions of a partial line, what
//! validity means in terms of them, and why single-cell trials force exactly
//! the cells on which every completion agrees.
use crate::assumption::Assumption;
use crate::common::CellValue;
use crate::line::{
    coords_of, forced_asm, forced_val, line_valid, placement_ok, rest_of, suffix_from, LineType,
};
use vstd::prelude::*;

verus! {

/// `ext` agrees with `base` on every cell that `base` already knows.
pub open spec fn refines(base: Seq<CellValue>, ext: Seq<CellValue>) -> bool {
    &&& base.len() == ext.len()
    &&& forall|i: int|
        0 <= i < base.len() && base[i] != CellValue::Unknown ==> ext[i] == #[trigger] base[i]
}

/// `full` is a completion of `cells`: every cell known, agreeing with `cells`
/// wherever `cells` is known.
pub open spec fn is_completion(full: Seq<CellValue>, cells: Seq<CellValue>) -> bool {
    &&& full.len() == cells.len()
    &&& (forall|i: int| 0 <= i < full.len() ==> (#[trigger] full[i]) != CellValue::Unknown)
    &&& refines(cells, full)
}

/// Validity survives forgetting information: if the stronger line is valid,
/// so is the weaker one.
pub proof fn lemma_valid_weaken(hints: Seq<usize>, c1: Seq<CellValue>, c2: Seq<CellValue>)
    requires
        refines(c1, c2),
        line_valid(hints, c2),
    ensures
        line_valid(hints, c1),
    decreases c2.len(),
{
    if hints.len() == 0 {
        assert forall|k: int| 0 <= k < c1.len() implies #[trigger] c1[k] != CellValue::Filled by {
            if c1[k] != CellValue::Unknown {
                assert(c2[k] == c1[k]);
            }
        }
    } else {
        let h = hints[0] as int;
        let start = choose|s: int|
            #[trigger] placement_ok(hints, c2, s) && line_valid(hints.skip(1), rest_of(c2, s, h));
        assert(placement_ok(hints, c2, start) && line_valid(hints.skip(1), rest_of(c2, start, h)));
        assert forall|k: int| 0 <= k < start implies #[trigger] c1[k] != CellValue::Filled by {
            if c1[k] != CellValue::Unknown {
                assert(c2[k] == c1[k]);
            }
        }
        assert forall|k: int| start <= k < start + h implies #[trigger] c1[k] != CellValue::Empty by {
            if c1[k] != CellValue::Unknown {
                assert(c2[k] == c1[k]);
            }
        }
        if start + h < c1.len() && c1[start + h] != CellValue::Unknown {
            assert(c2[start + h] == c1[start + h]);
        }
        assert(placement_ok(hints, c1, start));
        let r1 = rest_of(c1, start, h);
        let r2 = rest_of(c2, start, h);
        assert(refines(r1, r2)) by {
            assert(r1.len() == r2.len());
            assert forall|i: int|
                0 <= i < r1.len() && r1[i] != CellValue::Unknown implies r2[i] == #[trigger] r1[i] by {
                assert(r1[i] == c1[start + h + 1 + i]);
                assert(r2[i] == c2[start + h + 1 + i]);
            }
        }
        lemma_valid_weaken(hints.skip(1), r1, r2);
        assert(placement_ok(hints, c1, start) && line_valid(hints.skip(1), rest_of(c1, start, h)));
        assert(line_valid(hints, c1));
    }
}

/// One completion of a valid line, built by placing each run at its chosen
/// start and filling everything else with empties.
pub open spec fn valid_completion_of(hints: Seq<usize>, cells: Seq<CellValue>) -> Seq<CellValue>
    decreases cells.len(),
{
    if hints.len() == 0 {
        Seq::new(cells.len(), |i: int| CellValue::Empty)
    } else if line_valid(hints, cells) {
        let h = hints[0] as int;
        let start = choose|s: int|
            #[trigger] placement_ok(hints, cells, s) && line_valid(
                hints.skip(1),
                rest_of(cells, s, h),
            );
        Seq::new(start as nat, |i: int| CellValue::Empty) + Seq::new(
            h as nat,
            |i: int| CellValue::Filled,
        ) + if start + h < cells.len() {
            seq![CellValue::Empty] + valid_completion_of(hints.skip(1), rest_of(cells, start, h))
        } else {
            Seq::empty()
        }
    } else {
        Seq::empty()
    }
}

/// Every valid line has a valid completion, and the one above is one.
pub proof fn lemma_completion(hints: Seq<usize>, cells: Seq<CellValue>)
    requires
        line_valid(hints, cells),
    ensures
        is_completion(valid_completion_of(hints, cells), cells),
        line_valid(hints, valid_completion_of(hints, cells)),
    decreases cells.len(),
{
    let full = valid_completion_of(hints, cells);
    if hints.len() == 0 {
        assert(is_completion(full, cells));
        assert(line_valid(hints, full));
    } else {
        let h = hints[0] as int;
        let start = choose|s: int|
            #[trigger] placement_ok(hints, cells, s) && line_valid(
                hints.skip(1),
                rest_of(cells, s, h),
            );
        assert(placement_ok(hints, cells, start) && line_valid(
            hints.skip(1),
            rest_of(cells, start, h),
        ));
        let rest = rest_of(cells, start, h);
        lemma_completion(hints.skip(1), rest);
        let sub = valid_completion_of(hints.skip(1), rest);
        if start + h < cells.len() {
            assert(rest.len() == cells.len() - start - h - 1);
            assert(full.len() == cells.len());
        } else {
            assert(full.len() == cells.len());
        }
        assert forall|i: int| 0 <= i < full.len() implies (#[trigger] full[i])
            != CellValue::Unknown by {
            if i >= start + h + 1 {
                assert(full[i] == sub[i - (start + h + 1)]);
            }
        }
        assert forall|i: int|
            0 <= i < cells.len() && cells[i] != CellValue::Unknown implies full[i]
            == #[trigger] cells[i] by {
            if i < start {
                assert(cells[i] != CellValue::Filled);
                assert(full[i] == CellValue::Empty);
            } else if i < start + h {
                assert(cells[i] != CellValue::Empty);
                assert(full[i] == CellValue::Filled);
            } else if i == start + h {
                assert(cells[i] != CellValue::Filled);
                assert(full[i] == CellValue::Empty);
            } else {
                assert(full[i] == sub[i - (start + h + 1)]);
                assert(rest[i - (start + h + 1)] == cells[i]);
            }
        }
        assert(is_completion(full, cells));
        // The same placement is a placement in the completion.
        assert forall|k: int| 0 <= k < start implies #[trigger] full[k] != CellValue::Filled by {
            assert(full[k] == CellValue::Empty);
        }
        assert forall|k: int| start <= k < start + h implies #[trigger] full[k]
            != CellValue::Empty by {
            assert(full[k] == CellValue::Filled);
        }
        if start + h < full.len() {
            assert(full[start + h] == CellValue::Empty);
        }
        assert(placement_ok(hints, full, start));
        assert(rest_of(full, start, h) =~= sub) by {
            if start + h < cells.len() {
                assert(full.len() == cells.len());
                assert(sub.len() == rest.len());
            }
        }
        assert(placement_ok(hints, full, start) && line_valid(
            hints.skip(1),
            rest_of(full, start, h),
        ));
        assert(line_valid(hints, full));
    }
}

/// `full` is a solution of the partial line `cells`: a completion of it that
/// satisfies the hints.
pub open spec fn is_solution_of(
    hints: Seq<usize>,
    full: Seq<CellValue>,
    cells: Seq<CellValue>,
) -> bool {
    is_completion(full, cells) && line_valid(hints, full)
}

/// A line is valid exactly when it has a solution.
pub proof fn lemma_valid_iff_completion(hints: Seq<usize>, cells: Seq<CellValue>)
    ensures
        line_valid(hints, cells) <==> exists|full: Seq<CellValue>|
            #[trigger] is_solution_of(hints, full, cells),
{
    if line_valid(hints, cells) {
        lemma_completion(hints, cells);
        assert(is_solution_of(hints, valid_completion_of(hints, cells), cells));
    }
    if exists|full: Seq<CellValue>| #[trigger] is_solution_of(hints, full, cells) {
        let full = choose|full: Seq<CellValue>| #[trigger] is_solution_of(hints, full, cells);
        lemma_valid_weaken(hints, cells, full);
    }
}

/// Writing a known value into an undecided cell restricts the completions to
/// those that agree with it.
pub proof fn lemma_completion_update(
    full: Seq<CellValue>,
    cells: Seq<CellValue>,
    j: int,
    v: CellValue,
)
    requires
        0 <= j < cells.len(),
        cells[j] == CellValue::Unknown,
        v != CellValue::Unknown,
    ensures
        is_completion(full, cells.update(j, v)) <==> (is_completion(full, cells) && full[j] == v),
{
    if is_completion(full, cells.update(j, v)) {
        assert(full[j] == cells.update(j, v)[j]);
        assert forall|i: int|
            0 <= i < cells.len() && cells[i] != CellValue::Unknown implies full[i]
            == #[trigger] cells[i] by {
            assert(cells.update(j, v)[i] == cells[i]);
        }
    }
    if is_completion(full, cells) && full[j] == v {
        assert forall|i: int|
            0 <= i < cells.update(j, v).len() && cells.update(j, v)[i] != CellValue::Unknown
            implies full[i] == #[trigger] cells.update(j, v)[i] by {
            if i != j {
                assert(cells.update(j, v)[i] == cells[i]);
            }
        }
    }
}

/// When one trial value at an undecided cell is impossible, the other is
/// forced: every solution carries it, and writing it changes nothing about
/// which solutions exist.
pub proof fn lemma_forced(hints: Seq<usize>, cells: Seq<CellValue>, j: int, v: CellValue)
    requires
        0 <= j < cells.len(),
        cells[j] == CellValue::Unknown,
        v != CellValue::Unknown,
        line_valid(hints, cells),
        !line_valid(hints, cells.update(j, v.invert_spec())),
    ensures
        line_valid(hints, cells.update(j, v)),
        forall|full: Seq<CellValue>| #[trigger] is_solution_of(hints, full, cells) ==> full[j]
            == v,
        forall|full: Seq<CellValue>|
            #[trigger] is_solution_of(hints, full, cells) <==> is_solution_of(
                hints,
                full,
                cells.update(j, v),
            ),
{
    assert forall|full: Seq<CellValue>| #[trigger] is_solution_of(hints, full, cells) implies full[j]
        == v by {
        if full[j] != v {
            assert(full[j] == v.invert_spec());
            lemma_completion_update(full, cells, j, v.invert_spec());
            assert(is_solution_of(hints, full, cells.update(j, v.invert_spec())));
            lemma_valid_iff_completion(hints, cells.update(j, v.invert_spec()));
            assert(false);
        }
    }
    assert forall|full: Seq<CellValue>|
        #[trigger] is_solution_of(hints, full, cells) <==> is_solution_of(
            hints,
            full,
            cells.update(j, v),
        ) by {
        lemma_completion_update(full, cells, j, v);
        if is_solution_of(hints, full, cells) {
            assert(full[j] == v);
        }
    }
    lemma_completion(hints, cells);
    let full0 = valid_completion_of(hints, cells);
    assert(is_solution_of(hints, full0, cells));
    assert(is_completion(full0, cells.update(j, v)));
    lemma_valid_weaken(hints, cells.update(j, v), full0);
}

/// Two partial lines with the same solutions admit the same trial outcomes
/// at any cell undecided in both.
pub proof fn lemma_trial_transfer(
    hints: Seq<usize>,
    a: Seq<CellValue>,
    b: Seq<CellValue>,
    j: int,
    v: CellValue,
)
    requires
        a.len() == b.len(),
        forall|full: Seq<CellValue>|
            #[trigger] is_solution_of(hints, full, a) <==> is_solution_of(hints, full, b),
        0 <= j < a.len(),
        a[j] == CellValue::Unknown,
        b[j] == CellValue::Unknown,
        v != CellValue::Unknown,
    ensures
        line_valid(hints, a.update(j, v)) == line_valid(hints, b.update(j, v)),
{
    assert forall|full: Seq<CellValue>|
        #[trigger] is_solution_of(hints, full, a.update(j, v)) <==> is_solution_of(
            hints,
            full,
            b.update(j, v),
        ) by {
        lemma_completion_update(full, a, j, v);
        lemma_completion_update(full, b, j, v);
        assert(is_solution_of(hints, full, a) <==> is_solution_of(hints, full, b));
    }
    lemma_valid_iff_completion(hints, a.update(j, v));
    lemma_valid_iff_completion(hints, b.update(j, v));
    if line_valid(hints, a.update(j, v)) {
        let full = choose|full: Seq<CellValue>|
            #[trigger] is_solution_of(hints, full, a.update(j, v));
        assert(is_solution_of(hints, full, b.update(j, v)));
    }
    if line_valid(hints, b.update(j, v)) {
        let full = choose|full: Seq<CellValue>|
            #[trigger] is_solution_of(hints, full, b.update(j, v));
        assert(is_solution_of(hints, full, a.update(j, v)));
    }
}

/// The in-line cell index an assumption speaks about, seen from a line of the
/// given kind.
pub open spec fn cell_idx_of(line_type: LineType, a: Assumption) -> int {
    match line_type {
        LineType::Row => a.coords.1 as int,
        LineType::Col => a.coords.0 as int,
    }
}

/// A list of assumptions written into a line, in order.
pub open spec fn apply_asms_to_line(
    line: Seq<CellValue>,
    asms: Seq<Assumption>,
    line_type: LineType,
) -> Seq<CellValue>
    decreases asms.len(),
{
    if asms.len() == 0 {
        line
    } else {
        apply_asms_to_line(line, asms.drop_last(), line_type).update(
            cell_idx_of(line_type, asms.last()),
            asms.last().val,
        )
    }
}

/// The line with every forced cell below `upto` written in.
pub open spec fn partial_applied(hints: Seq<usize>, cells: Seq<CellValue>, upto: int) -> Seq<
    CellValue,
> {
    Seq::new(
        cells.len(),
        |i: int|
            if i < upto && forced_val(hints, cells, i) is Some {
                forced_val(hints, cells, i)->Some_0
            } else {
                cells[i]
            },
    )
}

/// The line after one full deduction pass: every forced cell written in.
pub open spec fn applied_cells(hints: Seq<usize>, cells: Seq<CellValue>) -> Seq<CellValue> {
    partial_applied(hints, cells, cells.len() as int)
}

/// Writing the forced assumptions into the line gives exactly the line with
/// the forced values filled in.
pub proof fn lemma_forced_asm_apply(
    hints: Seq<usize>,
    cells: Seq<CellValue>,
    line_type: LineType,
    line_idx: usize,
    upto: int,
)
    requires
        0 <= upto <= cells.len(),
        cells.len() <= usize::MAX,
    ensures
        apply_asms_to_line(cells, forced_asm(hints, cells, line_type, line_idx, upto), line_type)
            == partial_applied(hints, cells, upto),
    decreases upto,
{
    let asms = forced_asm(hints, cells, line_type, line_idx, upto);
    if upto == 0 {
        assert(asms =~= Seq::<Assumption>::empty());
        assert(apply_asms_to_line(cells, asms, line_type) =~= partial_applied(hints, cells, 0));
    } else {
        lemma_forced_asm_apply(hints, cells, line_type, line_idx, upto - 1);
        let prev = forced_asm(hints, cells, line_type, line_idx, upto - 1);
        match forced_val(hints, cells, upto - 1) {
            Some(v) => {
                let a = Assumption {
                    coords: coords_of(line_type, line_idx, (upto - 1) as usize),
                    val: v,
                };
                assert(asms =~= prev.push(a));
                assert(asms.drop_last() =~= prev);
                assert(cell_idx_of(line_type, a) == upto - 1);
                assert(apply_asms_to_line(cells, asms, line_type) =~= partial_applied(
                    hints,
                    cells,
                    upto,
                ));
            },
            None => {
                assert(asms =~= prev);
                assert(partial_applied(hints, cells, upto) =~= partial_applied(
                    hints,
                    cells,
                    upto - 1,
                ));
            },
        }
    }
}

/// Each forced assumption names a cell of the line, undecided before the
/// pass, with a known value; and the list is strictly ordered by cell index.
pub proof fn lemma_forced_asm_bounds(
    hints: Seq<usize>,
    cells: Seq<CellValue>,
    line_type: LineType,
    line_idx: usize,
    upto: int,
)
    requires
        0 <= upto <= cells.len(),
        cells.len() <= usize::MAX,
    ensures
        forall|k: int|
            0 <= k < forced_asm(hints, cells, line_type, line_idx, upto).len() ==> {
                let a = #[trigger] forced_asm(hints, cells, line_type, line_idx, upto)[k];
                &&& 0 <= cell_idx_of(line_type, a) < upto
                &&& a.coords == coords_of(line_type, line_idx, cell_idx_of(line_type, a) as usize)
                &&& forced_val(hints, cells, cell_idx_of(line_type, a)) == Some(a.val)
                &&& a.val != CellValue::Unknown
                &&& cells[cell_idx_of(line_type, a)] == CellValue::Unknown
            },
        forall|k1: int, k2: int|
            0 <= k1 < k2 < forced_asm(hints, cells, line_type, line_idx, upto).len()
                ==> cell_idx_of(
                line_type,
                #[trigger] forced_asm(hints, cells, line_type, line_idx, upto)[k1],
            ) < cell_idx_of(
                line_type,
                #[trigger] forced_asm(hints, cells, line_type, line_idx, upto)[k2],
            ),
    decreases upto,
{
    if upto > 0 {
        lemma_forced_asm_bounds(hints, cells, line_type, line_idx, upto - 1);
        let asms = forced_asm(hints, cells, line_type, line_idx, upto);
        let prev = forced_asm(hints, cells, line_type, line_idx, upto - 1);
        match forced_val(hints, cells, upto - 1) {
            Some(v) => {
                let a = Assumption {
                    coords: coords_of(line_type, line_idx, (upto - 1) as usize),
                    val: v,
                };
                assert(asms =~= prev.push(a));
                assert(cell_idx_of(line_type, a) == upto - 1);
            },
            None => {
                assert(asms =~= prev);
            },
        }
    }
}

/// The deduction pass keeps the solutions of the line: writing in the forced
/// cells neither removes nor adds a solution, and the line stays valid.
pub proof fn lemma_applied_solutions(hints: Seq<usize>, cells: Seq<CellValue>)
    requires
        line_valid(hints, cells),
    ensures
        forall|full: Seq<CellValue>|
            #[trigger] is_solution_of(hints, full, applied_cells(hints, cells))
                <==> is_solution_of(hints, full, cells),
        line_valid(hints, applied_cells(hints, cells)),
{
    let applied = applied_cells(hints, cells);
    assert forall|full: Seq<CellValue>|
        #[trigger] is_solution_of(hints, full, applied) <==> is_solution_of(
            hints,
            full,
            cells,
        ) by {
        if is_solution_of(hints, full, applied) {
            assert forall|i: int|
                0 <= i < cells.len() && cells[i] != CellValue::Unknown implies full[i]
                == #[trigger] cells[i] by {
                assert(applied[i] == cells[i]);
            }
            assert(is_solution_of(hints, full, cells));
        }
        if is_solution_of(hints, full, cells) {
            assert forall|i: int|
                0 <= i < applied.len() && applied[i] != CellValue::Unknown implies full[i]
                == #[trigger] applied[i] by {
                if cells[i] != CellValue::Unknown {
                    assert(applied[i] == cells[i]);
                } else {
                    let v = forced_val(hints, cells, i)->Some_0;
                    assert(forced_val(hints, cells, i) == Some(v));
                    assert(!line_valid(hints, cells.update(i, v.invert_spec())));
                    lemma_forced(hints, cells, i, v);
                }
            }
            assert(is_solution_of(hints, full, applied));
        }
    }
    lemma_valid_transfer(hints, applied, cells);
}

/// The deduction pass is idempotent: on a line that already carries its
/// forced cells, a second pass forces nothing.
pub proof fn lemma_propagator_idempotent(
    hints: Seq<usize>,
    cells: Seq<CellValue>,
    line_type: LineType,
    line_idx: usize,
)
    requires
        line_valid(hints, cells),
    ensures
        forall|j: int| forced_val(hints, applied_cells(hints, cells), j) is None,
        forced_asm(
            hints,
            applied_cells(hints, cells),
            line_type,
            line_idx,
            applied_cells(hints, cells).len() as int,
        ) == Seq::<Assumption>::empty(),
{
    let applied = applied_cells(hints, cells);
    lemma_applied_solutions(hints, cells);
    assert forall|j: int| forced_val(hints, applied, j) is None by {
        if 0 <= j < applied.len() && applied[j] == CellValue::Unknown {
            assert(cells[j] == CellValue::Unknown);
            assert(forced_val(hints, cells, j) is None);
            assert(line_valid(hints, cells.update(j, CellValue::Filled)));
            assert(line_valid(hints, cells.update(j, CellValue::Empty)));
            lemma_trial_transfer(hints, applied, cells, j, CellValue::Filled);
            lemma_trial_transfer(hints, applied, cells, j, CellValue::Empty);
        }
    }
    lemma_forced_asm_none_empty(hints, applied, line_type, line_idx, applied.len() as int);
}

/// Memoization is sound: what a deduction pass returns is a function of the
/// hints and cells alone, so two passes over identical inputs — whether
/// computed or replayed from the cache — return identical results.
pub proof fn lemma_memoization_sound(
    hints: Seq<usize>,
    cells: Seq<CellValue>,
    line_type: LineType,
    line_idx: usize,
    r1: Option<Seq<Assumption>>,
    r2: Option<Seq<Assumption>>,
)
    requires
        r1 == crate::line::line_solution_spec(hints, cells, line_type, line_idx),
        r2 == crate::line::line_solution_spec(hints, cells, line_type, line_idx),
    ensures
        r1 == r2,
{
}

/// A pass that forces nothing returns the empty list.
pub proof fn lemma_forced_asm_none_empty(
    hints: Seq<usize>,
    cells: Seq<CellValue>,
    line_type: LineType,
    line_idx: usize,
    upto: int,
)
    requires
        forall|j: int| forced_val(hints, cells, j) is None,
    ensures
        forced_asm(hints, cells, line_type, line_idx, upto) == Seq::<Assumption>::empty(),
    decreases upto,
{
    if upto > 0 {
        lemma_forced_asm_none_empty(hints, cells, line_type, line_idx, upto - 1);
    }
    assert(forced_asm(hints, cells, line_type, line_idx, upto) =~= Seq::<Assumption>::empty());
}

/// Two partial lines with the same solutions are equally valid.
pub proof fn lemma_valid_transfer(hints: Seq<usize>, a: Seq<CellValue>, b: Seq<CellValue>)
    requires
        forall|full: Seq<CellValue>|
            #[trigger] is_solution_of(hints, full, a) <==> is_solution_of(hints, full, b),
    ensures
        line_valid(hints, a) == line_valid(hints, b),
{
    lemma_valid_iff_completion(hints, a);
    lemma_valid_iff_completion(hints, b);
    if line_valid(hints, a) {
        let full = choose|full: Seq<CellValue>| #[trigger] is_solution_of(hints, full, a);
        assert(is_solution_of(hints, full, b));
    }
    if line_valid(hints, b) {
        let full = choose|full: Seq<CellValue>| #[trigger] is_solution_of(hints, full, b);
        assert(is_solution_of(hints, full, a));
    }
}

} // verus!
