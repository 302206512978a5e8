use sudoku::error::SudokuError;
use sudoku::highlight::Highlight;
use sudoku::index::cell_index::CellIndexIter;
use sudoku::index::chute_index::ChuteIndex;
use sudoku::index::{BlockIndex, CellIndex, ColumnIndex, DigitIndex, HouseIndex, LineDirection, RegionIntersection, RowIndex, SudokuRegion};

fn cell(r: usize, c: usize) -> CellIndex {
    CellIndex::new(RowIndex::new(r).unwrap(), ColumnIndex::new(c).unwrap())
}

#[test]
fn row_meets_block_in_three_cells() {
    let row = RowIndex::new(1).unwrap();
    let block = BlockIndex::from_index(0, 1).unwrap();
    assert_eq!(row.intersect(&block), vec![cell(1, 3), cell(1, 4), cell(1, 5)]);
    assert_eq!(block.intersect(&row), vec![cell(1, 3), cell(1, 4), cell(1, 5)]);
}

#[test]
fn block_meets_column_in_line_order() {
    let block = BlockIndex::from_index(0, 0).unwrap();
    let column = ColumnIndex::new(2).unwrap();
    assert_eq!(block.intersect(&column), vec![cell(0, 2), cell(1, 2), cell(2, 2)]);
}

#[test]
fn distinct_rows_share_nothing() {
    let a = RowIndex::new(0).unwrap();
    let b = RowIndex::new(5).unwrap();
    assert!(a.intersect(&b).is_empty());
    assert_eq!(a.intersect(&a).len(), 9);
}

#[test]
fn row_meets_column_in_one_cell() {
    let h = HouseIndex::Row(RowIndex::new(4).unwrap());
    let c = ColumnIndex::new(7).unwrap();
    assert_eq!(h.intersect(&c), vec![cell(4, 7)]);
}

#[test]
fn cells_in_one_row() {
    let cells = vec![cell(2, 0), cell(2, 4), cell(2, 8)];
    assert!(cells.clone().share_row());
    assert!(!cells.clone().share_column());
    assert!(!cells.clone().share_block());
    assert!(cells.share_house());
}

#[test]
fn cells_in_one_block_only() {
    let cells = vec![cell(3, 3), cell(4, 5), cell(5, 4)];
    assert!(!cells.clone().share_row());
    assert!(!cells.clone().share_column());
    assert!(cells.clone().share_block());
    assert!(cells.share_house());
    let apart = vec![cell(0, 0), cell(8, 8)];
    assert!(!apart.share_house());
}

#[test]
fn band_lines_and_blocks() {
    let band = ChuteIndex::new(LineDirection::Horizontal, 1).unwrap();
    assert_eq!(
        band.lines(),
        vec![
            HouseIndex::Row(RowIndex::new(3).unwrap()),
            HouseIndex::Row(RowIndex::new(4).unwrap()),
            HouseIndex::Row(RowIndex::new(5).unwrap()),
        ]
    );
    assert_eq!(
        band.blocks(),
        vec![
            BlockIndex::from_index(1, 0).unwrap(),
            BlockIndex::from_index(1, 1).unwrap(),
            BlockIndex::from_index(1, 2).unwrap(),
        ]
    );
    assert!(band.contains(HouseIndex::Block(BlockIndex::from_index(1, 2).unwrap())));
    assert!(!band.contains(HouseIndex::Row(RowIndex::new(6).unwrap())));
}

#[test]
fn stack_blocks_top_to_bottom() {
    let stack = ChuteIndex::new(LineDirection::Vertical, 2).unwrap();
    assert_eq!(
        stack.blocks(),
        vec![
            BlockIndex::from_index(0, 2).unwrap(),
            BlockIndex::from_index(1, 2).unwrap(),
            BlockIndex::from_index(2, 2).unwrap(),
        ]
    );
    assert_eq!(stack.line(0), Ok(HouseIndex::Column(ColumnIndex::new(6).unwrap())));
    assert_eq!(stack.line(3), Err(SudokuError::InvalidValue(9)));
}

#[test]
fn chute_out_of_range() {
    assert_eq!(ChuteIndex::new(LineDirection::Vertical, 3), Err(SudokuError::InvalidValue(3)));
    assert_eq!(ChuteIndex::iter().len(), 6);
}

#[test]
fn direction_lines() {
    assert_eq!(LineDirection::Horizontal.line(2), Ok(HouseIndex::Row(RowIndex::new(2).unwrap())));
    assert_eq!(LineDirection::Vertical.line(9), Err(SudokuError::InvalidValue(9)));
    assert_eq!(LineDirection::Vertical.other(), LineDirection::Horizontal);
}

#[test]
fn houses_are_listed_rows_columns_blocks() {
    let all = HouseIndex::iter();
    assert_eq!(all.len(), 27);
    assert_eq!(all[0], HouseIndex::Row(RowIndex::new(0).unwrap()));
    assert_eq!(all[9], HouseIndex::Column(ColumnIndex::new(0).unwrap()));
    assert_eq!(all[26], HouseIndex::Block(BlockIndex::new(8).unwrap()));
    assert_eq!(HouseIndex::rows_and_columns().len(), 18);
}

#[test]
fn conversions_into_houses_and_highlights() {
    let r = RowIndex::new(3).unwrap();
    assert_eq!(HouseIndex::from(r), HouseIndex::Row(r));
    let b = BlockIndex::new(4).unwrap();
    assert_eq!(HouseIndex::from(b), HouseIndex::Block(b));
    let h = HouseIndex::Column(ColumnIndex::new(1).unwrap());
    assert_eq!(Highlight::from(h), Highlight::House(h));
    let d = DigitIndex::new(6).unwrap();
    assert_eq!(Highlight::from((cell(0, 1), d)), Highlight::Digit((cell(0, 1), d)));
    assert_eq!(Highlight::from(cell(5, 5)), Highlight::Cell(cell(5, 5)));
}

#[test]
fn house_cell_lists() {
    let col = ColumnIndex::new(8).unwrap();
    let cells = col.cell_indices();
    assert_eq!(cells.len(), 9);
    assert_eq!(cells[4], cell(4, 8));
    let block = BlockIndex::new(8).unwrap();
    assert_eq!(block.cell_indices()[0], cell(6, 6));
    assert!(block.contains(cell(8, 8)));
    assert!(!block.contains(cell(0, 8)));
}
