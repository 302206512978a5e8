use vstd::prelude::*;

use crate::board::container::{house_complete, house_has, placed, solved};
use crate::flags::full_set;
use crate::index::cell_index::{cell_of, sees};
use crate::index::region::{house_cells, in_house, lemma_house_cells};
use crate::index::{CellIndex, HouseIndex};

verus! {

/// A filled grid: a digit of `0..9` per cell (flat order), never twice in one house.
pub open spec fn is_solution(sol: Seq<int>) -> bool {
    &&& sol.len() == 81
    &&& forall|i: int| 0 <= i < 81 ==> 0 <= #[trigger] sol[i] < 9
    &&& forall|a: CellIndex, b: CellIndex| a != b && sees(a, b) ==> #[trigger] sol[a@] != #[trigger] sol[b@]
}

/// Whether the board still allows the grid: each cell keeps the grid's digit as a candidate.
pub open spec fn admits(b: Seq<Set<int>>, sol: Seq<int>) -> bool {
    forall|i: int| 0 <= i < 81 ==> #[trigger] b[i].contains(sol[i])
}

/// Whether `new` only removes candidates from `old`.
pub open spec fn refines(new: Seq<Set<int>>, old: Seq<Set<int>>) -> bool {
    forall|i: int| 0 <= i < 81 ==> (#[trigger] new[i]).subset_of(old[i])
}

/// Whether every filled grid that `old` allows is still allowed by `new`.
pub open spec fn keeps_solutions(new: Seq<Set<int>>, old: Seq<Set<int>>) -> bool {
    forall|sol: Seq<int>| is_solution(sol) && admits(old, sol) ==> #[trigger] admits(new, sol)
}

/// The position inside house `h` at which the grid holds digit `d`.
pub open spec fn position_of(sol: Seq<int>, h: HouseIndex, d: int) -> int {
    choose|k: int| 0 <= k < 9 && sol[house_cells(h)[k]@] == d
}

/// In a filled grid every house holds every digit, at exactly one position.
pub proof fn lemma_house_holds_digit(sol: Seq<int>, h: HouseIndex, d: int)
    requires
        is_solution(sol),
        0 <= d < 9,
    ensures
        0 <= position_of(sol, h, d) < 9,
        sol[house_cells(h)[position_of(sol, h, d)]@] == d,
        forall|k: int| 0 <= k < 9 && sol[house_cells(h)[k]@] == d ==> k == position_of(sol, h, d),
{
    lemma_house_cells(h);
    let cells = house_cells(h);
    let f = |k: int| sol[cells[k]@];
    let dom = vstd::set_lib::set_int_range(0, 9);
    vstd::set_lib::lemma_int_range(0, 9);
    assert forall|k: int| 0 <= k < 9 implies 0 <= #[trigger] f(k) < 9 by {
        CellIndex::lemma_flat(cells[k]);
    }
    assert(vstd::relations::injective_on(f, dom)) by {
        assert forall|k: int, l: int| dom.contains(k) && dom.contains(l) && #[trigger] f(k) == #[trigger] f(l) implies k == l by {
            if k != l {
                assert(in_house(h, cells[k]) && in_house(h, cells[l]));
                lemma_same_house_sees(h, cells[k], cells[l]);
                assert(sol[cells[k]@] != sol[cells[l]@]);
            }
        }
    }
    let img = dom.map(f);
    vstd::set_lib::lemma_map_size(dom, img, f);
    assert(img.subset_of(full_set())) by {
        assert forall|x: int| img.contains(x) implies full_set().contains(x) by {
            let k = choose|k: int| dom.contains(k) && f(k) == x;
        }
    }
    vstd::set_lib::lemma_int_range(0, 9);
    assert(full_set() =~= vstd::set_lib::set_int_range(0, 9));
    vstd::set_lib::lemma_subset_equality(img, full_set());
    assert(img.contains(d));
    let k = choose|k: int| dom.contains(k) && f(k) == d;
    assert(0 <= k < 9 && sol[cells[k]@] == d);
    let p = position_of(sol, h, d);
    assert forall|l: int| 0 <= l < 9 && sol[cells[l]@] == d implies l == p by {
        if l != p {
            assert(dom.contains(l) && dom.contains(p) && f(l) == f(p));
        }
    }
}

/// A board down to one candidate per cell that still allows a filled grid is that grid, and so
/// is solved.
pub proof fn lemma_singletons_solved(b: Seq<Set<int>>, sol: Seq<int>)
    requires
        b.len() == 81,
        forall|i: int| 0 <= i < 81 ==> (#[trigger] b[i]).finite() && b[i].len() == 1,
        is_solution(sol),
        admits(b, sol),
    ensures
        solved(b),
{
    assert forall|h: HouseIndex| house_complete(b, h) by {
        assert forall|d: int| 0 <= d < 9 implies #[trigger] house_has(b, h, d) by {
            lemma_house_holds_digit(sol, h, d);
            lemma_house_cells(h);
            let k = position_of(sol, h, d);
            let c = house_cells(h)[k];
            CellIndex::lemma_flat(c);
            assert(b[c@].contains(d));
            assert(b[c@].remove(d).len() == 0);
            vstd::set_lib::lemma_set_empty_equivalency_len(b[c@].remove(d));
            assert(b[c@] =~= Set::<int>::empty().insert(d)) by {
                assert forall|x: int| b[c@].contains(x) implies x == d by {
                    if x != d {
                        assert(b[c@].remove(d).contains(x));
                    }
                }
            }
            assert(placed(b[house_cells(h)[k]@], d));
        }
    }
}

/// Two cells of one house see each other.
pub proof fn lemma_same_house_sees(h: HouseIndex, a: CellIndex, b: CellIndex)
    requires
        in_house(h, a),
        in_house(h, b),
    ensures
        sees(a, b),
{
}

/// A cell sees another exactly when it lies in the other's row, column or block.
pub proof fn lemma_sees_houses(p: CellIndex, c: CellIndex)
    ensures
        sees(p, c) <==> (in_house(HouseIndex::Row(p.0), c) || in_house(HouseIndex::Column(p.1), c) || in_house(
            HouseIndex::Block(p.block_of()),
            c,
        )),
{
}

/// The cell at position `k` of house `h`.
pub open spec fn hcell(h: HouseIndex, k: int) -> int {
    house_cells(h)[k]@
}

/// The positions of `0..9`.
pub open spec fn positions() -> Set<int> {
    Set::new(|k: int| 0 <= k < 9)
}

/// Naked group: when `|C|` cells of a house hold only digits of `U`, with `|C| == |U|`, a filled
/// grid places the digits of `U` on those cells, so no other cell of the house holds one.
pub proof fn lemma_naked_group(sol: Seq<int>, h: HouseIndex, c: Set<int>, u: Set<int>)
    requires
        is_solution(sol),
        c.subset_of(positions()),
        c.finite(),
        u.finite(),
        c.len() == u.len(),
        forall|k: int| c.contains(k) ==> u.contains(#[trigger] sol[hcell(h, k)]),
    ensures
        forall|k: int| 0 <= k < 9 && !c.contains(k) ==> !u.contains(#[trigger] sol[hcell(h, k)]),
{
    lemma_house_cells(h);
    let f = |k: int| sol[hcell(h, k)];
    assert(vstd::relations::injective_on(f, c)) by {
        assert forall|k: int, l: int| c.contains(k) && c.contains(l) && #[trigger] f(k) == #[trigger] f(l) implies k == l by {
            if k != l {
                lemma_same_house_sees(h, house_cells(h)[k], house_cells(h)[l]);
            }
        }
    }
    let img = c.map(f);
    vstd::set_lib::lemma_map_size(c, img, f);
    assert(img.subset_of(u)) by {
        assert forall|x: int| img.contains(x) implies u.contains(x) by {
            let k = choose|k: int| c.contains(k) && f(k) == x;
        }
    }
    vstd::set_lib::lemma_subset_equality(img, u);
    assert forall|k: int| 0 <= k < 9 && !c.contains(k) implies !u.contains(#[trigger] sol[hcell(h, k)]) by {
        if u.contains(sol[hcell(h, k)]) {
            assert(img.contains(sol[hcell(h, k)]));
            let l = choose|l: int| c.contains(l) && f(l) == sol[hcell(h, k)];
            assert(l != k);
            lemma_same_house_sees(h, house_cells(h)[k], house_cells(h)[l]);
        }
    }
}

/// Hidden group: when the digits of `D` can only go, inside a house, on the positions of `P`,
/// with `|P| <= |D|`, a filled grid puts a digit of `D` on each position of `P`.
pub proof fn lemma_hidden_group(b: Seq<Set<int>>, sol: Seq<int>, h: HouseIndex, d: Set<int>, p: Set<int>)
    requires
        b.len() == 81,
        is_solution(sol),
        admits(b, sol),
        d.subset_of(crate::flags::full_set()),
        d.finite(),
        p.subset_of(positions()),
        p.finite(),
        p.len() <= d.len(),
        forall|x: int, k: int| d.contains(x) && 0 <= k < 9 && #[trigger] b[hcell(h, k)].contains(x) ==> p.contains(k),
    ensures
        forall|k: int| p.contains(k) ==> d.contains(#[trigger] sol[hcell(h, k)]),
{
    lemma_house_cells(h);
    let f = |x: int| position_of(sol, h, x);
    assert forall|x: int| d.contains(x) implies p.contains(#[trigger] f(x)) by {
        assert(full_set().contains(x));
        lemma_house_holds_digit(sol, h, x);
        CellIndex::lemma_flat(house_cells(h)[f(x)]);
        assert(b[hcell(h, f(x))].contains(sol[hcell(h, f(x))]));
        assert(b[hcell(h, f(x))].contains(x));
    }
    assert(vstd::relations::injective_on(f, d)) by {
        assert forall|x: int, y: int| d.contains(x) && d.contains(y) && #[trigger] f(x) == #[trigger] f(y) implies x == y by {
            assert(full_set().contains(x) && full_set().contains(y));
            lemma_house_holds_digit(sol, h, x);
            lemma_house_holds_digit(sol, h, y);
        }
    }
    let img = d.map(f);
    vstd::set_lib::lemma_map_size(d, img, f);
    assert(img.subset_of(p)) by {
        assert forall|k: int| img.contains(k) implies p.contains(k) by {
            let x = choose|x: int| d.contains(x) && f(x) == k;
        }
    }
    vstd::set_lib::lemma_len_subset(img, p);
    vstd::set_lib::lemma_subset_equality(img, p);
    assert forall|k: int| p.contains(k) implies d.contains(#[trigger] sol[hcell(h, k)]) by {
        assert(img.contains(k));
        let x = choose|x: int| d.contains(x) && f(x) == k;
        assert(full_set().contains(x));
        lemma_house_holds_digit(sol, h, x);
    }
}

/// The number of candidates over the first `m` cells.
pub open spec fn candidate_total(b: Seq<Set<int>>, m: int) -> int
    decreases m,
{
    if m <= 0 {
        0
    } else {
        candidate_total(b, m - 1) + b[m - 1].len()
    }
}

/// Removing candidates never raises the candidate count, and removing any lowers it.
pub proof fn lemma_total_refines(new: Seq<Set<int>>, old: Seq<Set<int>>, m: int)
    requires
        0 <= m <= 81,
        new.len() == 81,
        old.len() == 81,
        refines(new, old),
        forall|i: int| 0 <= i < 81 ==> (#[trigger] old[i]).finite(),
    ensures
        0 <= candidate_total(new, m) <= candidate_total(old, m),
        (exists|i: int| 0 <= i < m && new[i] != old[i]) ==> candidate_total(new, m) < candidate_total(old, m),
    decreases m,
{
    if m > 0 {
        lemma_total_refines(new, old, m - 1);
        let i = m - 1;
        assert(new[i].subset_of(old[i]));
        vstd::set_lib::lemma_len_subset(new[i], old[i]);
        if new[i] != old[i] {
            if forall|x: int| old[i].contains(x) ==> new[i].contains(x) {
                assert(new[i] =~= old[i]);
            }
            let x = choose|x: int| old[i].contains(x) && !new[i].contains(x);
            assert(new[i].subset_of(old[i].remove(x)));
            vstd::set_lib::lemma_len_subset(new[i], old[i].remove(x));
        }
        if exists|j: int| 0 <= j < m && new[j] != old[j] {
            if new[i] == old[i] {
                let j = choose|j: int| 0 <= j < m && new[j] != old[j];
                assert(j < m - 1);
            }
        }
    }
}

} // verus!
