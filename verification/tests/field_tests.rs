use nonogram::common::{line_to_str, CellValue};
use nonogram::field::Field;

#[test]
fn field_set_updates_both_views() {
    let mut f = Field::new(2, 3);
    assert!(!f.is_solved());
    f.set((0, 2), CellValue::Filled);
    f.set((1, 0), CellValue::Empty);
    assert_eq!(f.get((0, 2)), CellValue::Filled);
    assert_eq!(f.get((1, 0)), CellValue::Empty);
    assert_eq!(f.row(0).as_slice(), &[
        CellValue::Unknown,
        CellValue::Unknown,
        CellValue::Filled,
    ]);
    assert_eq!(f.col(2).as_slice(), &[CellValue::Filled, CellValue::Unknown]);
    assert_eq!(f.col(0).as_slice(), &[CellValue::Unknown, CellValue::Empty]);
}

#[test]
fn field_renders_rows_with_newlines() {
    let mut f = Field::new(2, 2);
    f.set((0, 0), CellValue::Filled);
    f.set((0, 1), CellValue::Empty);
    f.set((1, 0), CellValue::Empty);
    assert_eq!(f.to_string(), "#.\n.~\n");
}

#[test]
fn field_key_packs_rows() {
    let mut f = Field::new(1, 4);
    f.set((0, 0), CellValue::Filled);
    f.set((0, 1), CellValue::Empty);
    f.set((0, 2), CellValue::Unknown);
    f.set((0, 3), CellValue::Filled);
    assert_eq!(f.key(), vec![0b00_01_10_00u8]);
}

#[test]
fn line_to_str_uses_grid_characters() {
    let line = vec![CellValue::Filled, CellValue::Empty, CellValue::Unknown];
    assert_eq!(line_to_str(&line), "#.~");
}

#[test]
fn fully_decided_field_is_solved() {
    let mut f = Field::new(1, 2);
    f.set((0, 0), CellValue::Filled);
    assert!(!f.is_solved());
    f.set((0, 1), CellValue::Empty);
    assert!(f.is_solved());
}

#[test]
fn same_grid_compares_contents() {
    let mut a = Field::new(1, 2);
    let mut b = Field::new(1, 2);
    assert!(a.same_grid(&b));
    a.set((0, 0), CellValue::Filled);
    assert!(!a.same_grid(&b));
    b.set((0, 0), CellValue::Filled);
    assert!(a.same_grid(&b));
}

#[test]
fn cell_invert_swaps_known_values() {
    assert_eq!(CellValue::Filled.invert(), CellValue::Empty);
    assert_eq!(CellValue::Empty.invert(), CellValue::Filled);
    assert_eq!(CellValue::default(), CellValue::Unknown);
}
