pub mod cell_value;
pub mod container;
pub mod encoding;
pub mod game_file;
pub mod games;
pub mod mask;

pub use cell_value::SudokuCell;
pub use container::{SudokuBoard, SudokuBoardIter};
pub use encoding::{SudokuStringDecoding, SudokuStringEncoding};
pub use mask::{DigitMask, DigitMaskFromIter};
