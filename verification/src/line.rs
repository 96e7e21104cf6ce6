//! One row or column of the grid, with its hints: validity checking,
//! single-cell deduction, and the packed-byte key used for memoization.
use crate::assumption::Assumption;
use crate::common::{line_to_str, CellValue};
use vstd::prelude::*;

verus! {

/// Whether a line is a row or a column of the grid.
#[derive(Clone, Copy, Debug, Eq, Hash, PartialEq, Structural)]
pub enum LineType {
    Row,
    Col,
}

impl LineType {
    pub open spec fn other_spec(self) -> LineType {
        match self {
            LineType::Row => LineType::Col,
            LineType::Col => LineType::Row,
        }
    }

    /// The other kind of line: rows cross columns and columns cross rows.
    pub fn other(&self) -> (r: Self)
        ensures
            r == self.other_spec(),
    {
        match *self {
            LineType::Row => LineType::Col,
            LineType::Col => LineType::Row,
        }
    }
}

/// The grid coordinates of cell `idx` of a line: rows index columns and
/// columns index rows.
pub open spec fn coords_of(line_type: LineType, line_idx: usize, idx: usize) -> (usize, usize) {
    match line_type {
        LineType::Row => (line_idx, idx),
        LineType::Col => (idx, line_idx),
    }
}

// ---------------------------------------------------------------------------
// Validity: does a line admit a completion that satisfies its hints?
// ---------------------------------------------------------------------------
/// Every hint is a positive run length.
pub open spec fn hints_wf(hints: Seq<usize>) -> bool {
    forall|i: int| 0 <= i < hints.len() ==> 1 <= #[trigger] hints[i]
}

/// No cell of the line is known to be filled.
pub open spec fn no_filled(cells: Seq<CellValue>) -> bool {
    forall|k: int| 0 <= k < cells.len() ==> #[trigger] cells[k] != CellValue::Filled
}

/// The cells from `offset` on; empty when `offset` runs past the end.
pub open spec fn suffix_from(cells: Seq<CellValue>, offset: int) -> Seq<CellValue> {
    if 0 <= offset <= cells.len() {
        cells.skip(offset)
    } else {
        Seq::empty()
    }
}

/// The first hint placed at `start`: nothing filled before it, no known-empty
/// cell under the run, and the cell just after the run (if any) not filled.
pub open spec fn placement_ok(hints: Seq<usize>, cells: Seq<CellValue>, start: int) -> bool {
    let h = hints[0] as int;
    &&& 1 <= h
    &&& 0 <= start
    &&& start + h <= cells.len()
    &&& forall|k: int| 0 <= k < start ==> #[trigger] cells[k] != CellValue::Filled
    &&& forall|k: int| start <= k < start + h ==> #[trigger] cells[k] != CellValue::Empty
    &&& (start + h == cells.len() || cells[start + h] != CellValue::Filled)
}

/// What is left of the line after a run placed at `start`, its length, and the
/// mandatory separating gap.
pub open spec fn rest_of(cells: Seq<CellValue>, start: int, h: int) -> Seq<CellValue> {
    suffix_from(cells, start + h + 1)
}

/// A line is valid when its hints can be placed, in order, consistently with
/// every known cell: run `hints[0]` goes at some admissible start and the
/// remaining hints fit in the remaining cells.
pub open spec fn line_valid(hints: Seq<usize>, cells: Seq<CellValue>) -> bool
    decreases cells.len(),
{
    if hints.len() == 0 {
        no_filled(cells)
    } else {
        exists|start: int|
            #[trigger] placement_ok(hints, cells, start) && line_valid(
                hints.skip(1),
                rest_of(cells, start, hints[0] as int),
            )
    }
}

/// The value forced at cell `j` by single-cell trials, if any: a trial value
/// whose opposite makes the line invalid.
pub open spec fn forced_val(hints: Seq<usize>, cells: Seq<CellValue>, j: int) -> Option<CellValue> {
    if !(0 <= j < cells.len()) {
        None
    } else if cells[j] != CellValue::Unknown {
        None
    } else if !line_valid(hints, cells.update(j, CellValue::Filled)) {
        Some(CellValue::Empty)
    } else if !line_valid(hints, cells.update(j, CellValue::Empty)) {
        Some(CellValue::Filled)
    } else {
        None
    }
}

/// The forced cells below `upto`, in index order, as assumptions on grid
/// coordinates.
pub open spec fn forced_asm(
    hints: Seq<usize>,
    cells: Seq<CellValue>,
    line_type: LineType,
    line_idx: usize,
    upto: int,
) -> Seq<Assumption>
    decreases upto,
{
    if upto <= 0 {
        Seq::empty()
    } else {
        forced_asm(hints, cells, line_type, line_idx, upto - 1) + match forced_val(
            hints,
            cells,
            upto - 1,
        ) {
            Some(v) => seq![
                Assumption { coords: coords_of(line_type, line_idx, (upto - 1) as usize), val: v },
            ],
            None => Seq::empty(),
        }
    }
}

/// What one deduction pass over a line returns: `None` on an invalid line,
/// otherwise all the forced cells.
pub open spec fn line_solution_spec(
    hints: Seq<usize>,
    cells: Seq<CellValue>,
    line_type: LineType,
    line_idx: usize,
) -> Option<Seq<Assumption>> {
    if line_valid(hints, cells) {
        Some(forced_asm(hints, cells, line_type, line_idx, cells.len() as int))
    } else {
        None
    }
}

/// Dropping `a` then `b` cells is dropping `a + b` cells.
pub proof fn lemma_suffix_compose(cells: Seq<CellValue>, a: int, b: int)
    requires
        0 <= a <= cells.len(),
        0 <= b,
    ensures
        suffix_from(suffix_from(cells, a), b) == suffix_from(cells, a + b),
{
    if a + b <= cells.len() {
        assert(suffix_from(suffix_from(cells, a), b) =~= suffix_from(cells, a + b));
    } else {
        assert(suffix_from(suffix_from(cells, a), b) =~= Seq::<CellValue>::empty());
    }
}

// ---------------------------------------------------------------------------
// The line itself.
// ---------------------------------------------------------------------------
/// One line of the grid, owned for the duration of a deduction pass.
pub struct Line {
    line_type: LineType,
    line_idx: usize,
    hints: Vec<usize>,
    cells: Vec<CellValue>,
}

impl Line {
    pub closed spec fn line_type_spec(&self) -> LineType {
        self.line_type
    }

    pub closed spec fn line_idx_spec(&self) -> usize {
        self.line_idx
    }

    pub closed spec fn hints_spec(&self) -> Seq<usize> {
        self.hints@
    }

    pub closed spec fn cells_spec(&self) -> Seq<CellValue> {
        self.cells@
    }

    /// A line over copies of the given hints and cells.
    pub fn new(
        line_type: LineType,
        line_idx: usize,
        hints: &Vec<usize>,
        cells: &Vec<CellValue>,
    ) -> (r: Line)
        ensures
            r.line_type_spec() == line_type,
            r.line_idx_spec() == line_idx,
            r.hints_spec() == hints@,
            r.cells_spec() == cells@,
    {
        let mut own_hints: Vec<usize> = Vec::new();
        let mut i: usize = 0;
        while i < hints.len()
            invariant
                i <= hints@.len(),
                own_hints@ == hints@.take(i as int),
            decreases hints@.len() - i,
        {
            own_hints.push(hints[i]);
            proof {
                assert(own_hints@ =~= hints@.take(i + 1));
            }
            i = i + 1;
        }
        proof {
            assert(hints@.take(hints@.len() as int) =~= hints@);
        }
        let own_cells = crate::field::clone_cells(cells);
        Line { line_type, line_idx, hints: own_hints, cells: own_cells }
    }

    /// The line rendered as one character per cell.
    pub fn to_string(&self) -> (r: String)
        ensures
            r@ == self.cells_spec().map_values(|c: CellValue| crate::common::cell_char(c)),
    {
        line_to_str(&self.cells)
    }

    /// The grid coordinates of cell `idx` of this line.
    fn get_coords(&self, idx: usize) -> (r: (usize, usize))
        ensures
            r == coords_of(self.line_type_spec(), self.line_idx_spec(), idx),
    {
        match self.line_type {
            LineType::Row => (self.line_idx, idx),
            LineType::Col => (idx, self.line_idx),
        }
    }

    /// Can the hints from `hint_idx` on be placed in the cells from
    /// `cells_offset` on?
    fn do_verify(&self, hint_idx: usize, cells_offset: usize) -> (r: bool)
        requires
            hints_wf(self.hints_spec()),
            hint_idx <= self.hints_spec().len(),
            cells_offset <= self.cells_spec().len(),
        ensures
            r == line_valid(
                self.hints_spec().skip(hint_idx as int),
                suffix_from(self.cells_spec(), cells_offset as int),
            ),
        decreases self.cells_spec().len() - cells_offset,
    {
        let ghost hs = self.hints@.skip(hint_idx as int);
        let ghost suffix = suffix_from(self.cells@, cells_offset as int);
        let len = self.cells.len();
        if cells_offset >= len {
            proof {
                assert(suffix =~= Seq::<CellValue>::empty());
                if hint_idx < self.hints@.len() {
                    assert(forall|start: int| !placement_ok(hs, suffix, start)) by {
                        assert(1 <= hs[0]);
                    }
                }
            }
            return hint_idx == self.hints.len();
        }
        let size = len - cells_offset;
        proof {
            assert(suffix.len() == size);
            assert(forall|k: int|
                0 <= k < size ==> #[trigger] suffix[k] == self.cells@[cells_offset + k]);
        }
        if hint_idx == self.hints.len() {
            let mut j: usize = 0;
            while j < size
                invariant
                    hint_idx == self.hints@.len(),
                    self.cells@.len() == len,
                    cells_offset < len,
                    size == len - cells_offset,
                    suffix == suffix_from(self.cells@, cells_offset as int),
                    suffix.len() == size,
                    forall|k: int|
                        0 <= k < size ==> #[trigger] suffix[k] == self.cells@[cells_offset + k],
                    j <= size,
                    forall|k: int| 0 <= k < j ==> #[trigger] suffix[k] != CellValue::Filled,
                decreases size - j,
            {
                if self.cells[cells_offset + j] == CellValue::Filled {
                    proof {
                        assert(suffix[j as int] == CellValue::Filled);
                        assert(!no_filled(suffix));
                    }
                    return false;
                }
                j = j + 1;
            }
            return true;
        }
        let current_hint = self.hints[hint_idx];
        proof {
            assert(hs[0] == self.hints@[hint_idx as int]);
            assert(1 <= current_hint);
        }
        if current_hint > size {
            proof {
                assert(forall|start: int| !placement_ok(hs, suffix, start));
            }
            return false;
        }
        let limit = size - current_hint;
        let next_hint_idx = hint_idx + 1;
        let mut start: usize = 0;
        loop
            invariant
                hints_wf(self.hints@),
                hint_idx < self.hints@.len(),
                next_hint_idx == hint_idx + 1,
                cells_offset < len,
                len == self.cells@.len(),
                size == len - cells_offset,
                current_hint == self.hints@[hint_idx as int],
                1 <= current_hint <= size,
                limit == size - current_hint,
                hs == self.hints@.skip(hint_idx as int),
                suffix == suffix_from(self.cells@, cells_offset as int),
                suffix.len() == size,
                forall|k: int|
                    0 <= k < size ==> #[trigger] suffix[k] == self.cells@[cells_offset + k],
                start <= limit + 1,
                forall|s: int|
                    0 <= s < start ==> !(#[trigger] placement_ok(hs, suffix, s) && line_valid(
                        hs.skip(1),
                        rest_of(suffix, s, hs[0] as int),
                    )),
                forall|k: int| 0 <= k < start ==> #[trigger] suffix[k] != CellValue::Filled,
            decreases limit + 1 - start,
        {
            if start > limit {
                proof {
                    assert forall|s: int|
                        !(#[trigger] placement_ok(hs, suffix, s) && line_valid(
                            hs.skip(1),
                            rest_of(suffix, s, hs[0] as int),
                        )) by {
                        if placement_ok(hs, suffix, s) {
                            assert(s + hs[0] <= suffix.len());
                            assert(0 <= s <= limit);
                        }
                    }
                    assert(!line_valid(hs, suffix));
                }
                return false;
            }
            let end = start + current_hint;
            // Is there a known-empty cell under the candidate run?
            let mut span_ok = true;
            let ghost mut bad_k: int = 0;
            let mut j: usize = 0;
            while j < current_hint
                invariant
                    cells_offset < len,
                    len == self.cells@.len(),
                    start + current_hint <= size,
                    size == len - cells_offset,
                    suffix.len() == size,
                    forall|k: int|
                        0 <= k < size ==> #[trigger] suffix[k] == self.cells@[cells_offset + k],
                    j <= current_hint,
                    span_ok ==> forall|k: int|
                        start <= k < start + j ==> #[trigger] suffix[k] != CellValue::Empty,
                    !span_ok ==> start <= bad_k < start + current_hint && suffix[bad_k]
                        == CellValue::Empty,
                decreases current_hint - j,
            {
                if self.cells[cells_offset + start + j] == CellValue::Empty {
                    if span_ok {
                        span_ok = false;
                        proof {
                            bad_k = start + j;
                        }
                    }
                }
                j = j + 1;
            }
            let boundary_ok = end == size || self.cells[cells_offset + end] != CellValue::Filled;
            let next_offset = if end < size {
                cells_offset + end + 1
            } else {
                len
            };
            proof {
                if end < size {
                    lemma_suffix_compose(self.cells@, cells_offset as int, end + 1);
                } else {
                    assert(rest_of(suffix, start as int, hs[0] as int)
                        =~= Seq::<CellValue>::empty());
                    assert(suffix_from(self.cells@, len as int) =~= Seq::<CellValue>::empty());
                }
                assert(suffix_from(self.cells@, next_offset as int) == rest_of(
                    suffix,
                    start as int,
                    hs[0] as int,
                ));
                lemma_skip_usize_compose(self.hints@, hint_idx as int, 1);
            }
            if span_ok && boundary_ok {
                if self.do_verify(next_hint_idx, next_offset) {
                    proof {
                        assert(placement_ok(hs, suffix, start as int));
                        assert(placement_ok(hs, suffix, start as int) && line_valid(
                            hs.skip(1),
                            rest_of(suffix, start as int, hs[0] as int),
                        ));
                    }
                    return true;
                }
            }
            proof {
                assert(!(placement_ok(hs, suffix, start as int) && line_valid(
                    hs.skip(1),
                    rest_of(suffix, start as int, hs[0] as int),
                )));
            }
            if self.cells[cells_offset + start] == CellValue::Filled {
                proof {
                    assert(suffix[start as int] == CellValue::Filled);
                    assert forall|s: int|
                        !(#[trigger] placement_ok(hs, suffix, s) && line_valid(
                            hs.skip(1),
                            rest_of(suffix, s, hs[0] as int),
                        )) by {
                        if placement_ok(hs, suffix, s) && s > start {
                            assert(suffix[start as int] != CellValue::Filled);
                        }
                    }
                    assert(!line_valid(hs, suffix));
                }
                return false;
            }
            start = start + 1;
        }
    }

    /// Deduces every cell that single-cell trials can force, leaving the
    /// forced values in place; `None` when the line admits no completion.
    fn do_solve(&mut self) -> (r: Option<Vec<Assumption>>)
        requires
            hints_wf(old(self).hints_spec()),
        ensures
            r is Some <==> line_valid(old(self).hints_spec(), old(self).cells_spec()),
            r matches Some(ch) ==> ch@ == forced_asm(
                old(self).hints_spec(),
                old(self).cells_spec(),
                old(self).line_type_spec(),
                old(self).line_idx_spec(),
                old(self).cells_spec().len() as int,
            ),
            final(self).hints_spec() == old(self).hints_spec(),
            final(self).line_type_spec() == old(self).line_type_spec(),
            final(self).line_idx_spec() == old(self).line_idx_spec(),
    {
        let ghost h = self.hints@;
        let ghost lt = self.line_type;
        let ghost li = self.line_idx;
        let ghost orig = self.cells@;
        if !self.verify() {
            return None;
        }
        let mut result: Vec<Assumption> = Vec::new();
        let len = self.cells.len();
        let mut idx: usize = 0;
        while idx < len
            invariant
                hints_wf(h),
                self.hints@ == h,
                self.line_type_spec() == lt,
                self.line_idx_spec() == li,
                self.cells@.len() == len,
                orig.len() == len,
                idx <= len,
                forall|i: int| idx <= i < len ==> self.cells@[i] == orig[i],
                forall|full: Seq<CellValue>| #![trigger crate::line_props::is_solution_of(h, full, orig)]
                    crate::line_props::is_solution_of(h, full, self.cells@)
                        <==> crate::line_props::is_solution_of(h, full, orig),
                line_valid(h, orig),
                line_valid(h, self.cells@),
                result@ == forced_asm(h, orig, lt, li, idx as int),
            decreases len - idx,
        {
            let ghost cur = self.cells@;
            if self.cells[idx] != CellValue::Unknown {
                proof {
                    assert(forced_val(h, orig, idx as int) is None);
                    assert(result@ =~= forced_asm(h, orig, lt, li, idx + 1));
                }
                idx = idx + 1;
                continue ;
            }
            proof {
                assert(orig[idx as int] == CellValue::Unknown);
            }
            self.cells[idx] = CellValue::Filled;
            proof {
                assert(self.cells@ =~= cur.update(idx as int, CellValue::Filled));
                crate::line_props::lemma_trial_transfer(
                    h,
                    cur,
                    orig,
                    idx as int,
                    CellValue::Filled,
                );
            }
            let ok_filled = self.verify();
            if !ok_filled {
                // Filled is impossible here, so Empty is forced.
                self.cells[idx] = CellValue::Empty;
                let coords = self.get_coords(idx);
                result.push(Assumption { coords, val: CellValue::Empty });
                proof {
                    assert(!line_valid(h, orig.update(idx as int, CellValue::Filled)));
                    assert(forced_val(h, orig, idx as int) == Some(CellValue::Empty));
                    crate::line_props::lemma_forced(h, orig, idx as int, CellValue::Empty);
                    assert(self.cells@ =~= cur.update(idx as int, CellValue::Empty));
                    assert forall|full: Seq<CellValue>|
                        crate::line_props::is_solution_of(h, full, self.cells@)
                            <==> #[trigger] crate::line_props::is_solution_of(h, full, orig) by {
                        crate::line_props::lemma_completion_update(
                            full,
                            cur,
                            idx as int,
                            CellValue::Empty,
                        );
                        if crate::line_props::is_solution_of(h, full, orig) {
                            assert(full[idx as int] == CellValue::Empty);
                        }
                    }
                    crate::line_props::lemma_valid_transfer(h, self.cells@, orig);
                    assert(result@ =~= forced_asm(h, orig, lt, li, idx + 1));
                }
                idx = idx + 1;
                continue ;
            }
            self.cells[idx] = CellValue::Empty;
            proof {
                assert(self.cells@ =~= cur.update(idx as int, CellValue::Empty));
                crate::line_props::lemma_trial_transfer(h, cur, orig, idx as int, CellValue::Empty);
            }
            let ok_empty = self.verify();
            if !ok_empty {
                // Empty is impossible here, so Filled is forced.
                self.cells[idx] = CellValue::Filled;
                let coords = self.get_coords(idx);
                result.push(Assumption { coords, val: CellValue::Filled });
                proof {
                    assert(!line_valid(h, orig.update(idx as int, CellValue::Empty)));
                    assert(line_valid(h, orig.update(idx as int, CellValue::Filled)));
                    assert(forced_val(h, orig, idx as int) == Some(CellValue::Filled));
                    crate::line_props::lemma_forced(h, orig, idx as int, CellValue::Filled);
                    assert(self.cells@ =~= cur.update(idx as int, CellValue::Filled));
                    assert forall|full: Seq<CellValue>|
                        crate::line_props::is_solution_of(h, full, self.cells@)
                            <==> #[trigger] crate::line_props::is_solution_of(h, full, orig) by {
                        crate::line_props::lemma_completion_update(
                            full,
                            cur,
                            idx as int,
                            CellValue::Filled,
                        );
                        if crate::line_props::is_solution_of(h, full, orig) {
                            assert(full[idx as int] == CellValue::Filled);
                        }
                    }
                    crate::line_props::lemma_valid_transfer(h, self.cells@, orig);
                    assert(result@ =~= forced_asm(h, orig, lt, li, idx + 1));
                }
                idx = idx + 1;
                continue ;
            }
            // Neither trial failed: the cell stays undecided.
            self.cells[idx] = CellValue::Unknown;
            proof {
                assert(self.cells@ =~= cur);
                assert(forced_val(h, orig, idx as int) is None);
                assert(result@ =~= forced_asm(h, orig, lt, li, idx + 1));
            }
            idx = idx + 1;
        }
        Some(result)
    }

    /// Solves the line to the extent currently possible, consulting and
    /// filling the memo cache. Returns the forced cells as assumptions if the
    /// line is consistent, `None` otherwise.
    pub fn solve(&mut self, cache: &mut LineCache) -> (r: Option<Vec<Assumption>>)
        requires
            hints_wf(old(self).hints_spec()),
            old(cache).wf(),
        ensures
            final(cache).wf(),
            (r is Some) == line_valid(old(self).hints_spec(), old(self).cells_spec()),
            r matches Some(ch) ==> ch@ == forced_asm(
                old(self).hints_spec(),
                old(self).cells_spec(),
                old(self).line_type_spec(),
                old(self).line_idx_spec(),
                old(self).cells_spec().len() as int,
            ),
    {
        let ghost orig = self.cells@;
        let key = line_cache_key(&self.cells);
        let len = self.cells.len();
        match cache.lookup(self.line_type, self.line_idx, &self.hints, len, &key) {
            Some(v) => {
                proof {
                    assert(orig.len() == len && pack_spec(orig) == key@);
                }
                v
            },
            None => {
                let hints_copy = clone_hints(&self.hints);
                let result = self.do_solve();
                let value = match &result {
                    Some(v) => Some(clone_assumptions(v)),
                    None => None,
                };
                cache.insert(
                    self.line_type,
                    self.line_idx,
                    hints_copy,
                    len,
                    key,
                    value,
                    Ghost(orig),
                );
                result
            },
        }
    }

    /// Does the line, as it stands, admit a completion that satisfies its
    /// hints?
    pub fn verify(&self) -> (r: bool)
        requires
            hints_wf(self.hints_spec()),
        ensures
            r == line_valid(self.hints_spec(), self.cells_spec()),
    {
        proof {
            assert(self.hints@.skip(0) =~= self.hints@);
            assert(suffix_from(self.cells@, 0) =~= self.cells@);
        }
        self.do_verify(0, 0)
    }
}

// ---------------------------------------------------------------------------
// The line-solution cache.
// ---------------------------------------------------------------------------
/// One memoized deduction: the line it was computed for, identified by kind,
/// index, hints and packed cells, and what the pass returned.
struct CacheEntry {
    line_type: LineType,
    line_idx: usize,
    hints: Vec<usize>,
    len: usize,
    key: Vec<u8>,
    value: Option<Vec<Assumption>>,
}

/// A memo table for line deductions, keyed by the full input of a pass.
pub struct LineCache {
    entries: Vec<CacheEntry>,
}

impl CacheEntry {
    /// The stored value is what a deduction pass returns on some line whose
    /// packing is the stored key.
    spec fn wf(&self) -> bool {
        exists|cells: Seq<CellValue>|
            cells.len() == self.len && #[trigger] pack_spec(cells) == self.key@ && ((
            self.value is Some) == line_valid(self.hints@, cells)) && (match self.value {
                Some(v) => v@ == forced_asm(
                    self.hints@,
                    cells,
                    self.line_type,
                    self.line_idx,
                    cells.len() as int,
                ),
                None => true,
            })
    }
}

impl LineCache {
    pub closed spec fn wf(&self) -> bool {
        forall|i: int| 0 <= i < self.entries@.len() ==> (#[trigger] self.entries@[i]).wf()
    }

    /// An empty cache.
    pub fn new() -> (r: Self)
        ensures
            r.wf(),
    {
        LineCache { entries: Vec::new() }
    }

    /// Looks for a memoized pass over the same line contents.
    fn lookup(
        &self,
        line_type: LineType,
        line_idx: usize,
        hints: &Vec<usize>,
        len: usize,
        key: &Vec<u8>,
    ) -> (r: Option<Option<Vec<Assumption>>>)
        requires
            self.wf(),
        ensures
            r matches Some(v) ==> forall|cells: Seq<CellValue>|
                cells.len() == len && #[trigger] pack_spec(cells) == key@ ==> ((v is Some)
                    == line_valid(hints@, cells)) && (match v {
                    Some(ch) => ch@ == forced_asm(
                        hints@,
                        cells,
                        line_type,
                        line_idx,
                        cells.len() as int,
                    ),
                    None => true,
                }),
    {
        let mut i: usize = 0;
        while i < self.entries.len()
            invariant
                self.wf(),
                i <= self.entries@.len(),
            decreases self.entries@.len() - i,
        {
            let e = &self.entries[i];
            if e.line_type == line_type && e.line_idx == line_idx && e.len == len && e.hints
                == *hints && e.key == *key {
                let ghost ecells = choose|cells: Seq<CellValue>|
                    cells.len() == e.len && #[trigger] pack_spec(cells) == e.key@ && ((
                    e.value is Some) == line_valid(e.hints@, cells)) && (match e.value {
                        Some(v) => v@ == forced_asm(
                            e.hints@,
                            cells,
                            e.line_type,
                            e.line_idx,
                            cells.len() as int,
                        ),
                        None => true,
                    });
                proof {
                    assert(e.wf());
                    assert(e.hints@ =~= hints@);
                    assert(e.key@ =~= key@);
                    assert(ecells.len() == len && pack_spec(ecells) == key@);
                    assert forall|cells: Seq<CellValue>|
                        cells.len() == len && #[trigger] pack_spec(cells) == key@ implies cells
                        == ecells by {
                        lemma_pack_injective(cells, ecells);
                    }
                }
                let value = match &e.value {
                    Some(v) => Some(clone_assumptions(v)),
                    None => None,
                };
                proof {
                    assert((value is Some) == (e.value is Some));
                    assert(value matches Some(ch) ==> e.value matches Some(v) && ch@ == v@);
                    assert forall|cells: Seq<CellValue>|
                        cells.len() == len && #[trigger] pack_spec(cells) == key@ implies ((
                        value is Some) == line_valid(hints@, cells)) && (match value {
                            Some(ch) => ch@ == forced_asm(
                                hints@,
                                cells,
                                line_type,
                                line_idx,
                                cells.len() as int,
                            ),
                            None => true,
                        }) by {
                        assert(cells == ecells);
                        assert((e.value is Some) == line_valid(e.hints@, ecells));
                    }
                }
                return Some(value);
            }
            i = i + 1;
        }
        None
    }

    /// Memoizes the outcome of one deduction pass.
    fn insert(
        &mut self,
        line_type: LineType,
        line_idx: usize,
        hints: Vec<usize>,
        len: usize,
        key: Vec<u8>,
        value: Option<Vec<Assumption>>,
        Ghost(cells): Ghost<Seq<CellValue>>,
    )
        requires
            old(self).wf(),
            cells.len() == len,
            pack_spec(cells) == key@,
            (value is Some) == line_valid(hints@, cells),
            value matches Some(v) ==> v@ == forced_asm(
                hints@,
                cells,
                line_type,
                line_idx,
                cells.len() as int,
            ),
        ensures
            final(self).wf(),
    {
        let entry = CacheEntry { line_type, line_idx, hints, len, key, value };
        proof {
            assert(entry.wf());
        }
        self.entries.push(entry);
    }
}

/// A copy of a list of assumptions.
pub fn clone_assumptions(v: &Vec<Assumption>) -> (r: Vec<Assumption>)
    ensures
        r@ == v@,
{
    let mut r: Vec<Assumption> = Vec::new();
    let mut i: usize = 0;
    while i < v.len()
        invariant
            i <= v@.len(),
            r@ == v@.take(i as int),
        decreases v@.len() - i,
    {
        r.push(v[i]);
        proof {
            assert(r@ =~= v@.take(i + 1));
        }
        i = i + 1;
    }
    proof {
        assert(v@.take(v@.len() as int) =~= v@);
    }
    r
}

/// A copy of a hint list.
pub fn clone_hints(v: &Vec<usize>) -> (r: Vec<usize>)
    ensures
        r@ == v@,
{
    let mut r: Vec<usize> = Vec::new();
    let mut i: usize = 0;
    while i < v.len()
        invariant
            i <= v@.len(),
            r@ == v@.take(i as int),
        decreases v@.len() - i,
    {
        r.push(v[i]);
        proof {
            assert(r@ =~= v@.take(i + 1));
        }
        i = i + 1;
    }
    proof {
        assert(v@.take(v@.len() as int) =~= v@);
    }
    r
}

/// Dropping `a` then `b` hints is dropping `a + b` hints.
pub proof fn lemma_skip_usize_compose(s: Seq<usize>, a: int, b: int)
    requires
        0 <= a,
        0 <= b,
        a + b <= s.len(),
    ensures
        s.skip(a).skip(b) == s.skip(a + b),
{
    assert(s.skip(a).skip(b) =~= s.skip(a + b));
}

// ---------------------------------------------------------------------------
// Packing: two bits per cell, four cells per byte.
// ---------------------------------------------------------------------------
/// The two-bit code of one cell.
pub open spec fn cell_code(c: CellValue) -> u8 {
    match c {
        CellValue::Filled => 0,
        CellValue::Empty => 1,
        CellValue::Unknown => 2,
    }
}

/// A chunk of at most four cells folded into one byte, base four, first cell
/// highest.
pub open spec fn chunk_byte(chunk: Seq<CellValue>) -> int
    decreases chunk.len(),
{
    if chunk.len() == 0 {
        0
    } else {
        chunk_byte(chunk.drop_last()) * 4 + cell_code(chunk.last()) as int
    }
}

pub open spec fn pow4(n: int) -> int {
    if n <= 0 {
        1
    } else if n == 1 {
        4
    } else if n == 2 {
        16
    } else if n == 3 {
        64
    } else {
        256
    }
}

pub proof fn lemma_chunk_byte_bound(chunk: Seq<CellValue>)
    requires
        chunk.len() <= 4,
    ensures
        0 <= chunk_byte(chunk) < pow4(chunk.len() as int),
    decreases chunk.len(),
{
    if chunk.len() > 0 {
        lemma_chunk_byte_bound(chunk.drop_last());
    }
}

/// Chunks of equal length with equal byte codes hold the same cells.
pub proof fn lemma_chunk_byte_injective(c1: Seq<CellValue>, c2: Seq<CellValue>)
    requires
        c1.len() == c2.len() <= 4,
        chunk_byte(c1) == chunk_byte(c2),
    ensures
        c1 == c2,
    decreases c1.len(),
{
    if c1.len() == 0 {
        assert(c1 =~= c2);
    } else {
        lemma_chunk_byte_bound(c1.drop_last());
        lemma_chunk_byte_bound(c2.drop_last());
        assert(cell_code(c1.last()) == cell_code(c2.last()));
        assert(c1.last() == c2.last());
        lemma_chunk_byte_injective(c1.drop_last(), c2.drop_last());
        assert(c1 =~= c1.drop_last().push(c1.last()));
        assert(c2 =~= c2.drop_last().push(c2.last()));
    }
}

/// The number of bytes that `n` cells pack into.
pub open spec fn packed_len(n: int) -> int {
    (n + 3) / 4
}

/// The chunk of cells behind byte `i` of the packing.
pub open spec fn chunk_of(cells: Seq<CellValue>, i: int) -> Seq<CellValue> {
    cells.subrange(4 * i, if 4 * i + 4 <= cells.len() { 4 * i + 4 } else { cells.len() as int })
}

/// The whole line packed to bytes, two bits per cell.
pub open spec fn pack_spec(cells: Seq<CellValue>) -> Seq<u8> {
    Seq::new(packed_len(cells.len() as int) as nat, |i: int| chunk_byte(chunk_of(cells, i)) as u8)
}

/// Lines of equal length with equal packings hold the same cells.
pub proof fn lemma_pack_injective(c1: Seq<CellValue>, c2: Seq<CellValue>)
    requires
        c1.len() == c2.len(),
        pack_spec(c1) == pack_spec(c2),
    ensures
        c1 == c2,
{
    assert forall|k: int| 0 <= k < c1.len() implies c1[k] == c2[k] by {
        let i = k / 4;
        assert(0 <= i < packed_len(c1.len() as int));
        assert(pack_spec(c1)[i] == pack_spec(c2)[i]);
        assert(chunk_of(c1, i).len() <= 4);
        assert(chunk_of(c2, i).len() <= 4);
        lemma_chunk_byte_bound(chunk_of(c1, i));
        lemma_chunk_byte_bound(chunk_of(c2, i));
        assert(pack_spec(c1)[i] == chunk_byte(chunk_of(c1, i)) as u8);
        assert(pack_spec(c2)[i] == chunk_byte(chunk_of(c2, i)) as u8);
        assert(chunk_byte(chunk_of(c1, i)) as u8 == chunk_byte(chunk_of(c2, i)) as u8);
        assert(chunk_byte(chunk_of(c1, i)) == chunk_byte(chunk_of(c2, i)));
        lemma_chunk_byte_injective(chunk_of(c1, i), chunk_of(c2, i));
        assert(c1[k] == chunk_of(c1, i)[k - 4 * i]);
        assert(c2[k] == chunk_of(c2, i)[k - 4 * i]);
    };
    assert(c1 =~= c2);
}

/// The exec code of one cell.
fn cell_code_exec(c: CellValue) -> (r: u8)
    ensures
        r == cell_code(c),
{
    match c {
        CellValue::Filled => 0,
        CellValue::Empty => 1,
        CellValue::Unknown => 2,
    }
}

/// Packs a line of cells to bytes, four cells per byte, two bits per cell.
pub fn line_cache_key(cells: &Vec<CellValue>) -> (r: Vec<u8>)
    ensures
        r@ == pack_spec(cells@),
{
    let n_bytes = cells.len() / 4 + if cells.len() % 4 != 0 {
        1
    } else {
        0
    };
    proof {
        assert(n_bytes == packed_len(cells@.len() as int));
    }
    let mut r: Vec<u8> = Vec::new();
    let mut i: usize = 0;
    let mut chunk_start: usize = 0;
    while i < n_bytes
        invariant
            n_bytes == packed_len(cells@.len() as int),
            4 * n_bytes <= cells@.len() + 3,
            i <= n_bytes,
            4 * i < cells@.len() ==> chunk_start == 4 * i,
            4 * i >= cells@.len() ==> chunk_start == cells@.len(),
            chunk_start <= cells@.len(),
            r@.len() == i,
            forall|k: int| 0 <= k < i ==> r@[k] == chunk_byte(chunk_of(cells@, k)) as u8,
        decreases n_bytes - i,
    {
        proof {
            assert(chunk_start < cells@.len());
        }
        let chunk_end = if cells.len() - chunk_start >= 4 {
            chunk_start + 4
        } else {
            cells.len()
        };
        let ghost chunk = chunk_of(cells@, i as int);
        let mut b: u8 = 0;
        let mut j: usize = chunk_start;
        while j < chunk_end
            invariant
                chunk_start == i * 4,
                chunk_start <= j <= chunk_end <= cells@.len(),
                chunk_end <= chunk_start + 4,
                chunk_end == (if chunk_start + 4 <= cells@.len() {
                    chunk_start + 4int
                } else {
                    cells@.len() as int
                }),
                chunk == chunk_of(cells@, i as int),
                b as int == chunk_byte(chunk.take(j - chunk_start)),
            decreases chunk_end - j,
        {
            proof {
                lemma_chunk_byte_bound(chunk.take(j - chunk_start));
                assert(chunk.take(j - chunk_start + 1).drop_last() =~= chunk.take(
                    j - chunk_start,
                ));
                assert(chunk.take(j - chunk_start + 1).last() == cells@[j as int]);
            }
            b = b * 4 + cell_code_exec(cells[j]);
            j = j + 1;
        }
        proof {
            assert(chunk.take(chunk_end - chunk_start) =~= chunk);
        }
        r.push(b);
        i = i + 1;
        chunk_start = chunk_end;
    }
    proof {
        assert(i == packed_len(cells@.len() as int));
        assert(r@ =~= pack_spec(cells@));
    }
    r
}

} // verus!
