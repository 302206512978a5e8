use vstd::prelude::*;

use crate::flags::{bits_set, full_set, DigitFlags};
use crate::index::DigitIndex;

verus! {

/// The digits that a cell may keep: applying the mask removes every other candidate.
#[derive(Clone, Copy, Debug)]
pub struct DigitMask(DigitFlags);

impl DigitMask {
    /// The digits the mask keeps.
    pub closed spec fn view(self) -> Set<int> {
        self.0@
    }

    /// The mask of the digits set among the nine low bits of `flags`.
    pub fn new(flags: u16) -> (r: Self)
        ensures
            r@ == bits_set(flags),
    {
        DigitMask(DigitFlags::new(flags))
    }

    /// The mask that keeps every digit but `digit`.
    pub fn all_but(digit: DigitIndex) -> (r: Self)
        ensures
            r@ == full_set().remove(digit@),
    {
        DigitMask(DigitFlags::all_but(digit))
    }

    /// The mask that keeps `digit` alone.
    pub fn only(digit: DigitIndex) -> (r: Self)
        ensures
            r@ == Set::<int>::empty().insert(digit@),
    {
        DigitMask(DigitFlags::only(digit))
    }

    /// The mask that keeps `digit` as well.
    pub fn add(self, digit: DigitIndex) -> (r: Self)
        ensures
            r@ == self@.insert(digit@),
    {
        DigitMask(self.0.add(digit))
    }

    /// The mask that no longer keeps `digit`.
    pub fn sub(self, digit: DigitIndex) -> (r: Self)
        ensures
            r@ == self@.remove(digit@),
    {
        DigitMask(self.0.sub(digit))
    }

    /// The nine-bit pattern of the kept digits.
    pub fn value(&self) -> (r: u16)
        ensures
            bits_set(r) == self@,
            r < 512,
    {
        self.0.bits()
    }

    /// The kept digits as a digit set.
    pub fn flags(&self) -> (r: DigitFlags)
        ensures
            r@ == self@,
    {
        self.0
    }
}

impl PartialEq for DigitMask {
    fn eq(&self, other: &Self) -> (r: bool) {
        self.0 == other.0
    }
}

impl vstd::std_specs::cmp::PartialEqSpecImpl for DigitMask {
    open spec fn obeys_eq_spec() -> bool {
        true
    }

    open spec fn eq_spec(&self, other: &Self) -> bool {
        self@ == other@
    }
}

impl Eq for DigitMask {
}

impl Default for DigitMask {
    /// The mask that keeps every digit.
    fn default() -> (r: Self)
        ensures
            r@ == full_set(),
    {
        DigitMask(DigitFlags::all())
    }
}

/// Masks made from a list of digits.
pub trait DigitMaskFromIter {
    fn all_but(self) -> DigitMask;

    fn only(self) -> DigitMask;
}

impl DigitMaskFromIter for Vec<DigitIndex> {
    /// The mask that keeps every digit not in the list.
    fn all_but(self) -> (r: DigitMask)
        ensures
            forall|d: int| #[trigger] r@.contains(d) <==> full_set().contains(d) && !exists|k: int|
                0 <= k < self@.len() && #[trigger] self@[k]@ == d,
    {
        let mut flags = DigitFlags::all();
        let mut i: usize = 0;
        while i < self.len()
            invariant
                i <= self@.len(),
                forall|d: int| #[trigger] flags@.contains(d) <==> full_set().contains(d) && !exists|k: int|
                    0 <= k < i && #[trigger] self@[k]@ == d,
            decreases self@.len() - i,
        {
            let ghost before = flags@;
            flags = flags.sub(self[i]);
            assert forall|d: int| #[trigger] flags@.contains(d) <==> full_set().contains(d) && !exists|k: int|
                0 <= k < i + 1 && #[trigger] self@[k]@ == d by {
                if exists|k: int| 0 <= k < i + 1 && #[trigger] self@[k]@ == d {
                    let k = choose|k: int| 0 <= k < i + 1 && #[trigger] self@[k]@ == d;
                    if k < i {
                        assert(!before.contains(d));
                    }
                }
            }
            i = i + 1;
        }
        DigitMask(flags)
    }

    /// The mask that keeps the listed digits alone.
    fn only(self) -> (r: DigitMask)
        ensures
            forall|d: int| #[trigger] r@.contains(d) <==> exists|k: int| 0 <= k < self@.len() && #[trigger] self@[k]@ == d,
    {
        let mut flags = DigitFlags::zero();
        let mut i: usize = 0;
        while i < self.len()
            invariant
                i <= self@.len(),
                forall|d: int| #[trigger] flags@.contains(d) <==> exists|k: int| 0 <= k < i && #[trigger] self@[k]@ == d,
            decreases self@.len() - i,
        {
            let ghost before = flags@;
            flags = flags.add(self[i]);
            assert forall|d: int| #[trigger] flags@.contains(d) <==> exists|k: int| 0 <= k < i + 1 && #[trigger] self@[k]@
                == d by {
                if exists|k: int| 0 <= k < i + 1 && #[trigger] self@[k]@ == d {
                    let k = choose|k: int| 0 <= k < i + 1 && #[trigger] self@[k]@ == d;
                    if k < i {
                        assert(before.contains(d));
                    }
                }
                if before.contains(d) {
                    let k = choose|k: int| 0 <= k < i && #[trigger] self@[k]@ == d;
                    assert(0 <= k < i + 1 && self@[k]@ == d);
                }
            }
            i = i + 1;
        }
        DigitMask(flags)
    }
}

} // verus!
