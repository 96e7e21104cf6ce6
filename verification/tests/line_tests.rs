use nonogram::assumption::Assumption;
use nonogram::common::CellValue;
use nonogram::line::{Line, LineCache, LineType};
use std::collections::HashSet;

struct OwnedLine {
    hints: Vec<usize>,
    cells: Vec<CellValue>,
}

impl OwnedLine {
    fn create(hints: Vec<usize>, l: &str) -> Result<Self, std::fmt::Error> {
        let cells = l
            .chars()
            .map(|c| match c {
                '~' => Ok(CellValue::Unknown),
                '#' => Ok(CellValue::Filled),
                '.' => Ok(CellValue::Empty),
                _ => Err(std::fmt::Error),
            })
            .collect::<Result<Vec<CellValue>, std::fmt::Error>>()?;
        Ok(Self { hints, cells })
    }

    fn line(&self) -> Line {
        Line::new(LineType::Row, 0, &self.hints, &self.cells)
    }
}

#[test]
fn serialization_works() {
    let s = "#~~.~##";
    let ol = OwnedLine::create(vec![2, 3], s).unwrap();
    assert_eq!(ol.line().to_string(), s);
}

#[test]
fn serialization_fails() {
    let s = "#~~.~,##";
    assert!(OwnedLine::create(vec![2, 3], s).is_err());
}

#[test]
fn verify_plenty_space() {
    let ol = OwnedLine::create(vec![2, 3], "~~~~~~").unwrap();
    assert!(ol.line().verify());
}

#[test]
fn verify_not_enough_space() {
    let ol = OwnedLine::create(vec![2, 3], "~~~~~").unwrap();
    assert!(!ol.line().verify());
}

#[test]
fn verify_separated_enough_space() {
    let ol = OwnedLine::create(vec![2, 3], ".~~.~#~.").unwrap();
    assert!(ol.line().verify());
}

#[test]
fn verify_separated_not_enough_space() {
    let ol = OwnedLine::create(vec![2, 3], ".~~.#~.").unwrap();
    assert!(!ol.line().verify());
}

#[test]
fn verify_unsatisfialble_filled() {
    let ol = OwnedLine::create(vec![2, 3], "~~#~~~").unwrap();
    assert!(!ol.line().verify());
}

#[test]
fn verify_unsatisfialble_filled_with_frame() {
    let ol = OwnedLine::create(vec![2, 3], ".~~#~~~.").unwrap();
    assert!(!ol.line().verify());
}

#[test]
fn verify_split_with_badly_filled_left() {
    let ol = OwnedLine::create(vec![2, 3], "#~~#.~~~").unwrap();
    assert!(!ol.line().verify());
}

#[test]
fn verify_too_many_filled() {
    let ol = OwnedLine::create(vec![2, 3], "#~~.~#~.#").unwrap();
    assert!(!ol.line().verify());
}

#[test]
fn verify_split_with_fine_left() {
    let ol = OwnedLine::create(vec![2, 3], "#~~#.~~").unwrap();
    assert!(!ol.line().verify());
}

#[test]
fn solve_simple_overlap_and_unreachable() {
    let ol = OwnedLine::create(vec![4], "~~~~~#~~").unwrap();
    let mut cache = LineCache::new();
    let mut line = ol.line();
    let result = line.solve(&mut cache);
    let changes: HashSet<&Assumption> = result.iter().flat_map(|x| x.iter()).collect();
    assert_eq!(
        changes,
        HashSet::from([
            &Assumption { coords: (0, 0), val: CellValue::Empty },
            &Assumption { coords: (0, 1), val: CellValue::Empty },
            &Assumption { coords: (0, 4), val: CellValue::Filled },
        ])
    );
}

#[test]
fn solve_fill_with_ambiguity() {
    let ol = OwnedLine::create(vec![1, 2], "~~~#.~~").unwrap();
    let mut cache = LineCache::new();
    let mut line = ol.line();
    let result = line.solve(&mut cache);
    let changes: HashSet<&Assumption> = result.iter().flat_map(|x| x.iter()).collect();
    assert_eq!(
        changes,
        HashSet::from([&Assumption { coords: (0, 1), val: CellValue::Empty }])
    );
}

#[test]
fn solve_empties_with_definite_chunks() {
    let ol = OwnedLine::create(vec![2, 1], "~~~.~#~.#").unwrap();
    let mut cache = LineCache::new();
    let mut line = ol.line();
    let result = line.solve(&mut cache);
    let changes: HashSet<&Assumption> = result.iter().flat_map(|x| x.iter()).collect();
    assert_eq!(
        changes,
        HashSet::from([
            &Assumption { coords: (0, 0), val: CellValue::Empty },
            &Assumption { coords: (0, 1), val: CellValue::Empty },
            &Assumption { coords: (0, 2), val: CellValue::Empty },
        ])
    );
}

#[test]
fn solve_unsatisfiable_line_returns_none() {
    let ol = OwnedLine::create(vec![2, 3], "~~~~~").unwrap();
    let mut cache = LineCache::new();
    let mut line = ol.line();
    assert!(line.solve(&mut cache).is_none());
}

#[test]
fn solve_empty_hints_forces_all_empty() {
    let ol = OwnedLine::create(vec![], "~~.~").unwrap();
    let mut cache = LineCache::new();
    let mut line = ol.line();
    let result = line.solve(&mut cache).unwrap();
    let changes: HashSet<&Assumption> = result.iter().collect();
    assert_eq!(
        changes,
        HashSet::from([
            &Assumption { coords: (0, 0), val: CellValue::Empty },
            &Assumption { coords: (0, 1), val: CellValue::Empty },
            &Assumption { coords: (0, 3), val: CellValue::Empty },
        ])
    );
}

#[test]
fn solve_is_idempotent_after_applying_output() {
    let ol = OwnedLine::create(vec![4], "~~~~~#~~").unwrap();
    let mut cache = LineCache::new();
    let mut line = ol.line();
    let changes = line.solve(&mut cache).unwrap();
    let mut cells = ol.cells.clone();
    for a in &changes {
        cells[a.coords.1] = a.val;
    }
    let mut second = Line::new(LineType::Row, 0, &ol.hints, &cells);
    let again = second.solve(&mut cache).unwrap();
    assert!(again.is_empty());
}

#[test]
fn solve_same_inputs_same_outputs() {
    let mut cache = LineCache::new();
    let ol = OwnedLine::create(vec![2, 1], "~~~.~#~.#").unwrap();
    let mut first = ol.line();
    let r1 = first.solve(&mut cache);
    let mut second = ol.line();
    let r2 = second.solve(&mut cache);
    assert_eq!(r1, r2);
    // A fresh cache computes the same answer as a warmed one.
    let mut fresh = LineCache::new();
    let mut third = ol.line();
    let r3 = third.solve(&mut fresh);
    assert_eq!(r1, r3);
}

#[test]
fn packed_key_folds_four_cells_per_byte() {
    let cells = vec![
        CellValue::Filled,
        CellValue::Empty,
        CellValue::Unknown,
        CellValue::Filled,
        CellValue::Unknown,
    ];
    // Codes: filled 0, empty 1, unknown 2; first cell highest.
    assert_eq!(nonogram::line::line_cache_key(&cells), vec![0b00_01_10_00u8, 0b10u8]);
    let empty: Vec<CellValue> = Vec::new();
    assert_eq!(nonogram::line::line_cache_key(&empty), Vec::<u8>::new());
}
