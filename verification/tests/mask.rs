use sudoku::board::{DigitMask, DigitMaskFromIter};
use sudoku::index::DigitIndex;

fn d(v: usize) -> DigitIndex {
    DigitIndex::new(v).unwrap()
}

#[test]
fn mask_bits() {
    assert_eq!(DigitMask::new(0xffff).value(), 0x1ff);
    assert_eq!(DigitMask::only(d(3)).value(), 0b1000);
    assert_eq!(DigitMask::all_but(d(0)).value(), 0x1fe);
    assert_eq!(DigitMask::default().value(), 0x1ff);
    assert_eq!(DigitMask::only(d(1)).add(d(2)).sub(d(1)), DigitMask::only(d(2)));
}

#[test]
fn masks_from_digit_lists() {
    assert_eq!(vec![d(0), d(8)].only().value(), 0x101);
    assert_eq!(vec![d(0), d(8)].all_but().value(), 0x0fe);
    assert_eq!(Vec::<DigitIndex>::new().all_but(), DigitMask::default());
}
