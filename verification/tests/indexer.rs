use sudoku::index::indexer::HouseIndexer;
use sudoku::index::{BlockIndex, CellIndex, ColumnIndex, HouseIndex, RowIndex};

fn cell(r: usize, c: usize) -> CellIndex {
    CellIndex::new(RowIndex::new(r).unwrap(), ColumnIndex::new(c).unwrap())
}

#[test]
fn row_cells_left_to_right() {
    let row = RowIndex::new(6).unwrap();
    assert_eq!(row.cell_index(0), cell(6, 0));
    assert_eq!(row.cell_index(8), cell(6, 8));
    assert!(row.contains(cell(6, 3)));
    assert!(!row.contains(cell(5, 3)));
    assert_eq!(row.flat_indices(), [54, 55, 56, 57, 58, 59, 60, 61, 62]);
}

#[test]
fn column_cells_top_to_bottom() {
    let column = ColumnIndex::new(2).unwrap();
    assert_eq!(column.cell_indices()[7], cell(7, 2));
    assert_eq!(column.flat_indices(), [2, 11, 20, 29, 38, 47, 56, 65, 74]);
}

#[test]
fn block_cells_row_by_row() {
    let block = BlockIndex::from_index(1, 2).unwrap();
    assert_eq!(block.cell_index(0), cell(3, 6));
    assert_eq!(block.cell_index(4), cell(4, 7));
    assert_eq!(block.cell_index(8), cell(5, 8));
    assert!(block.contains(cell(5, 6)));
    assert!(!block.contains(cell(5, 5)));
    let house = HouseIndex::Block(block);
    assert_eq!(house.cell_indices(), block.cell_indices());
}
