//! The three-valued cell domain and its textual rendering.
use vstd::prelude::*;

verus! {

/// One cell of a nonogram grid: known-filled, known-empty, or not yet decided.
#[derive(Clone, Copy, Debug, Eq, Hash, PartialEq, Structural)]
pub enum CellValue {
    Filled,
    Empty,
    Unknown,
}

impl Default for CellValue {
    /// A fresh cell is undecided.
    fn default() -> (r: Self)
        ensures
            r == CellValue::Unknown,
    {
        CellValue::Unknown
    }
}

impl CellValue {
    /// The opposite known value; inverting an undecided cell is a caller error.
    pub fn invert(&self) -> (r: Self)
        requires
            *self != CellValue::Unknown,
        ensures
            r == (*self).invert_spec(),
    {
        match self {
            CellValue::Filled => CellValue::Empty,
            CellValue::Empty => CellValue::Filled,
            CellValue::Unknown => CellValue::Unknown,
        }
    }

    pub open spec fn invert_spec(self) -> CellValue {
        match self {
            CellValue::Filled => CellValue::Empty,
            CellValue::Empty => CellValue::Filled,
            CellValue::Unknown => CellValue::Unknown,
        }
    }
}

/// The character a cell is rendered as: `#` filled, `.` empty, `~` undecided.
pub open spec fn cell_char(c: CellValue) -> char {
    match c {
        CellValue::Filled => '#',
        CellValue::Empty => '.',
        CellValue::Unknown => '~',
    }
}

/// Renders one line of cells as a string, one character per cell.
pub fn line_to_str(line: &Vec<CellValue>) -> (r: String)
    ensures
        r@ == line@.map_values(|c: CellValue| cell_char(c)),
{
    let mut r = String::new();
    let mut i: usize = 0;
    while i < line.len()
        invariant
            i <= line.len(),
            r@ == line@.take(i as int).map_values(|c: CellValue| cell_char(c)),
        decreases line.len() - i,
    {
        let ch = match line[i] {
            CellValue::Filled => "#",
            CellValue::Empty => ".",
            CellValue::Unknown => "~",
        };
        r.append(ch);
        proof {
            reveal_strlit("#");
            reveal_strlit(".");
            reveal_strlit("~");
            assert(line@.take(i + 1) =~= line@.take(i as int).push(line@[i as int]));
            assert(line@.take(i + 1).map_values(|c: CellValue| cell_char(c)) =~= line@.take(
                i as int,
            ).map_values(|c: CellValue| cell_char(c)).push(cell_char(line@[i as int])));
            assert(r@ =~= line@.take(i + 1).map_values(|c: CellValue| cell_char(c)));
        }
        i = i + 1;
    }
    proof {
        assert(line@.take(line@.len() as int) =~= line@);
    }
    r
}

} // verus!
