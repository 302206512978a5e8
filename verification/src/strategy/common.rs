use vstd::prelude::*;

use crate::board::container::positions_with;
use crate::board::SudokuBoard;
use crate::highlight::{cells_having, chain_marks, digit_marks, group_marks, Highlight};
use crate::graph::{
    adjacency_by, adjacency_upto, connected, shortest_between, lemma_adjacency_done, lemma_adjacency_pair, lemma_adjacency_row, lemma_adjacency_start,
    lemma_adjacency_valid, splits_into, symmetric, Graph,
};
use crate::graph::valid_adjacency;
use crate::index::cell_index::{cell_of, sees, shared_houses_of};
use crate::index::region::{house_cells, house_position, in_house, lemma_house_cell_at, lemma_house_cells};
use crate::rules::{admits, is_solution, lemma_house_holds_digit, position_of};
use crate::index::{CellIndex, DigitIndex, HouseIndex, SudokuRegion};

verus! {

/// The cells of `house` other than those listed in `except`, in house order.
pub fn house_cells_except(house: HouseIndex, except: &Vec<CellIndex>) -> (r: Vec<CellIndex>)
    ensures
        forall|c: CellIndex| r@.contains(c) <==> (in_house(house, c) && !except@.contains(c)),
        forall|k: int| 0 <= k < r@.len() ==> in_house(house, #[trigger] r@[k]),
{
    proof {
        lemma_house_cells(house);
    }
    let all = house.cell_indices();
    let mut r: Vec<CellIndex> = Vec::new();
    let mut u: usize = 0;
    while u < all.len()
        invariant
            u <= all@.len(),
            all@ == house_cells(house),
            all@.len() == 9,
            forall|k: int| 0 <= k < 9 ==> in_house(house, #[trigger] house_cells(house)[k]),
            forall|c: CellIndex| r@.contains(c) <==> (exists|k: int| 0 <= k < u && #[trigger] all@[k] == c && !except@.contains(c)),
            forall|k: int| 0 <= k < r@.len() ==> in_house(house, #[trigger] r@[k]),
        decreases all@.len() - u,
    {
        let c = all[u];
        let ghost old_r = r@;
        if !contains_cell(except, c) {
            r.push(c);
        }
        assert forall|x: CellIndex| r@.contains(x) <==> (exists|k: int| 0 <= k < u + 1 && #[trigger] all@[k] == x && !except@.contains(x)) by {
            if r@.contains(x) {
                let k = choose|k: int| 0 <= k < r@.len() && r@[k] == x;
                if k < old_r.len() {
                    assert(old_r[k] == x);
                }
            }
            if old_r.contains(x) {
                let k = choose|k: int| 0 <= k < old_r.len() && old_r[k] == x;
                assert(r@[k] == x);
            }
            if exists|k: int| 0 <= k < u + 1 && #[trigger] all@[k] == x && !except@.contains(x) {
                let k = choose|k: int| 0 <= k < u + 1 && #[trigger] all@[k] == x && !except@.contains(x);
                if k == u {
                    assert(r@[r@.len() - 1] == x);
                }
            }
        }
        u = u + 1;
    }
    assert forall|c: CellIndex| r@.contains(c) <==> (in_house(house, c) && !except@.contains(c)) by {
        if in_house(house, c) {
            assert(house_cells(house).contains(c));
            let k = choose|k: int| 0 <= k < 9 && house_cells(house)[k] == c;
            assert(all@[k] == c);
        }
    }
    r
}

/// Whether `c` is listed in `cells`.
pub fn contains_cell(cells: &Vec<CellIndex>, c: CellIndex) -> (r: bool)
    ensures
        r == cells@.contains(c),
{
    let mut i: usize = 0;
    while i < cells.len()
        invariant
            i <= cells@.len(),
            forall|k: int| 0 <= k < i ==> cells@[k] != c,
        decreases cells@.len() - i,
    {
        if cells[i] == c {
            return true;
        }
        i = i + 1;
    }
    false
}

/// Whether `c` lists `k` indices below `n` in strictly increasing order.
pub open spec fn is_combination(c: Seq<usize>, n: nat, k: nat) -> bool {
    &&& c.len() == k
    &&& forall|i: int| 0 <= i < k ==> #[trigger] c[i] < n
    &&& forall|i: int, j: int| 0 <= i < j < k ==> c[i] < c[j]
}

/// The `k`-element combinations of the indices from `lo` up to `n`, each increasing, in
/// lexicographic order: those that start with `lo`, then those that do not.
pub open spec fn combinations_from(lo: nat, n: nat, k: nat) -> Seq<Seq<usize>>
    decreases n - lo,
{
    if k == 0 {
        seq![Seq::<usize>::empty()]
    } else if lo >= n {
        Seq::empty()
    } else {
        combinations_from(lo + 1, n, (k - 1) as nat).map_values(|c: Seq<usize>| seq![lo as usize] + c) + combinations_from(lo + 1, n, k)
    }
}

/// The `k`-element combinations of `0..n`, in lexicographic order.
pub open spec fn index_combinations(n: nat, k: nat) -> Seq<Seq<usize>> {
    combinations_from(0, n, k)
}

/// Sequence `c` comes before sequence `e` in lexicographic order: they agree up to some index,
/// where `c` has the smaller entry.
pub open spec fn lex_before(c: Seq<usize>, e: Seq<usize>) -> bool {
    exists|i: int| 0 <= i < c.len() && i < e.len() && (forall|j: int| 0 <= j < i ==> c[j] == e[j]) && #[trigger] c[i] < e[i]
}

/// No sequence comes before itself, and of two sequences at most one comes before the other.
pub proof fn lemma_lex_before_asymmetric(c: Seq<usize>, e: Seq<usize>)
    ensures
        !lex_before(c, c),
        !(lex_before(c, e) && lex_before(e, c)),
{
    if lex_before(c, e) && lex_before(e, c) {
        let i = choose|i: int| 0 <= i < c.len() && i < e.len() && (forall|j: int| 0 <= j < i ==> c[j] == e[j]) && #[trigger] c[i] < e[i];
        let i2 = choose|i: int| 0 <= i < e.len() && i < c.len() && (forall|j: int| 0 <= j < i ==> e[j] == c[j]) && #[trigger] e[i] < c[i];
        if i < i2 {
            assert(e[i] == c[i]);
        } else if i2 < i {
            assert(c[i2] == e[i2]);
        }
    }
}

/// The `k`-element combinations of the indices from `lo` up to `n` are increasing, from `lo`
/// up to `n`, and come in lexicographic order.
pub proof fn lemma_combinations_ordered(lo: nat, n: nat, k: nat)
    requires
        n <= usize::MAX,
    ensures
        forall|t: int| 0 <= t < combinations_from(lo, n, k).len() ==> {
            &&& (#[trigger] combinations_from(lo, n, k)[t]).len() == k
            &&& forall|j: int| 0 <= j < k ==> lo <= #[trigger] combinations_from(lo, n, k)[t][j] < n
            &&& forall|a: int, b: int| 0 <= a < b < k ==> combinations_from(lo, n, k)[t][a] < combinations_from(lo, n, k)[t][b]
        },
        forall|t1: int, t2: int|
            0 <= t1 < t2 < combinations_from(lo, n, k).len() ==> lex_before(
                #[trigger] combinations_from(lo, n, k)[t1],
                #[trigger] combinations_from(lo, n, k)[t2],
            ),
    decreases n - lo,
{
    let all = combinations_from(lo, n, k);
    if k == 0 {
        assert(all == seq![Seq::<usize>::empty()]);
    } else if lo < n {
        lemma_combinations_ordered(lo + 1, n, (k - 1) as nat);
        lemma_combinations_ordered(lo + 1, n, k);
        let shorter = combinations_from(lo + 1, n, (k - 1) as nat);
        let first = shorter.map_values(|c: Seq<usize>| seq![lo as usize] + c);
        let rest = combinations_from(lo + 1, n, k);
        assert(all == first + rest);
        assert forall|t: int| 0 <= t < first.len() implies {
            &&& (#[trigger] first[t]).len() == k
            &&& first[t][0] == lo
            &&& forall|j: int| 0 < j < k ==> first[t][j] == shorter[t][j - 1]
        } by {
            assert(first[t] == seq![lo as usize] + shorter[t]);
        }
        assert forall|t: int| 0 <= t < all.len() implies {
            &&& (#[trigger] all[t]).len() == k
            &&& forall|j: int| 0 <= j < k ==> lo <= #[trigger] all[t][j] < n
            &&& forall|a: int, b: int| 0 <= a < b < k ==> all[t][a] < all[t][b]
        } by {
            if t < first.len() {
                assert(all[t] == first[t]);
                assert forall|j: int| 0 <= j < k implies lo <= #[trigger] all[t][j] < n by {
                    if j > 0 {
                        assert(shorter[t][j - 1] < n);
                    }
                }
                assert forall|a: int, b: int| 0 <= a < b < k implies all[t][a] < all[t][b] by {
                    assert(lo + 1 <= shorter[t][b - 1]);
                    if a > 0 {
                        assert(shorter[t][a - 1] < shorter[t][b - 1]);
                    }
                }
            } else {
                assert(all[t] == rest[t - first.len()]);
            }
        }
        assert forall|t1: int, t2: int| 0 <= t1 < t2 < all.len() implies lex_before(#[trigger] all[t1], #[trigger] all[t2]) by {
            if t2 < first.len() {
                assert(all[t1] == first[t1]);
                assert(all[t2] == first[t2]);
                assert(lex_before(shorter[t1], shorter[t2]));
                let i = choose|i: int|
                    0 <= i < shorter[t1].len() && i < shorter[t2].len() && (forall|j: int| 0 <= j < i ==> shorter[t1][j] == shorter[t2][j])
                        && #[trigger] shorter[t1][i] < shorter[t2][i];
                assert(all[t1][i + 1] < all[t2][i + 1]);
                assert(forall|j: int| 0 <= j < i + 1 ==> all[t1][j] == all[t2][j]);
            } else if t1 < first.len() {
                assert(all[t1] == first[t1]);
                assert(all[t2] == rest[t2 - first.len()]);
                assert(all[t2][0] >= lo + 1);
                assert(all[t1][0] < all[t2][0]);
            } else {
                assert(all[t1] == rest[t1 - first.len()]);
                assert(all[t2] == rest[t2 - first.len()]);
            }
        }
    }
}

/// Every increasing list of `k` indices from `lo` up to `n` is among the combinations from `lo`.
pub proof fn lemma_combination_listed(lo: nat, n: nat, k: nat, c: Seq<usize>)
    requires
        n <= usize::MAX,
        c.len() == k,
        forall|i: int| 0 <= i < k ==> lo <= #[trigger] c[i] < n,
        forall|i: int, j: int| 0 <= i < j < k ==> c[i] < c[j],
    ensures
        combinations_from(lo, n, k).contains(c),
    decreases n - lo,
{
    let all = combinations_from(lo, n, k);
    if k == 0 {
        assert(c =~= Seq::<usize>::empty());
        assert(all[0] == c);
    } else {
        assert(lo <= c[0] < n);
        let first = combinations_from(lo + 1, n, (k - 1) as nat).map_values(|e: Seq<usize>| seq![lo as usize] + e);
        let rest = combinations_from(lo + 1, n, k);
        assert(all == first + rest);
        if c[0] == lo {
            let tail = c.drop_first();
            assert forall|i: int| 0 <= i < k - 1 implies lo + 1 <= #[trigger] tail[i] < n by {
                assert(c[0] < c[i + 1]);
            }
            lemma_combination_listed(lo + 1, n, (k - 1) as nat, tail);
            let shorter = combinations_from(lo + 1, n, (k - 1) as nat);
            let t = choose|t: int| 0 <= t < shorter.len() && #[trigger] shorter[t] == tail;
            assert(first[t] =~= c);
            assert(all[t] == c);
        } else {
            assert forall|i: int| 0 <= i < k implies lo + 1 <= #[trigger] c[i] < n by {
                if i > 0 {
                    assert(c[0] < c[i]);
                }
            }
            lemma_combination_listed(lo + 1, n, k, c);
            let t = choose|t: int| 0 <= t < rest.len() && rest[t] == c;
            assert(all[first.len() + t] == c);
        }
    }
}

/// The combinations of `k` indices of `0..n` are exactly the increasing lists of `k` indices
/// below `n`, each listed once, in lexicographic order.
pub proof fn lemma_index_combinations(n: nat, k: nat)
    requires
        n <= usize::MAX,
    ensures
        forall|c: Seq<usize>| index_combinations(n, k).contains(c) <==> is_combination(c, n, k),
        forall|t1: int, t2: int|
            0 <= t1 < t2 < index_combinations(n, k).len() ==> lex_before(
                #[trigger] index_combinations(n, k)[t1],
                #[trigger] index_combinations(n, k)[t2],
            ),
{
    lemma_combinations_ordered(0, n, k);
    assert forall|c: Seq<usize>| index_combinations(n, k).contains(c) <==> is_combination(c, n, k) by {
        if is_combination(c, n, k) {
            lemma_combination_listed(0, n, k, c);
        }
        if index_combinations(n, k).contains(c) {
            let t = choose|t: int| 0 <= t < index_combinations(n, k).len() && index_combinations(n, k)[t] == c;
            assert(c.len() == k);
            assert forall|i: int| 0 <= i < k implies #[trigger] c[i] < n by {
                assert(0 <= combinations_from(0, n, k)[t][i] < n);
            }
        }
    }
}

/// The `k`-element combinations of the indices from `lo` up to `n`, in lexicographic order.
fn combinations_from_of(lo: usize, n: usize, k: usize) -> (r: Vec<Vec<usize>>)
    ensures
        r@.map_values(|c: Vec<usize>| c@) == combinations_from(lo as nat, n as nat, k as nat),
    decreases n - lo,
{
    if k == 0 {
        let r: Vec<Vec<usize>> = vec![Vec::new()];
        assert(r@.map_values(|c: Vec<usize>| c@) =~= seq![Seq::<usize>::empty()]);
        return r;
    }
    if lo >= n {
        let r: Vec<Vec<usize>> = Vec::new();
        assert(r@.map_values(|c: Vec<usize>| c@) =~= Seq::<Seq<usize>>::empty());
        return r;
    }
    let with_lo = combinations_from_of(lo + 1, n, k - 1);
    let without_lo = combinations_from_of(lo + 1, n, k);
    let ghost shorter = combinations_from((lo + 1) as nat, n as nat, (k - 1) as nat);
    let ghost first = shorter.map_values(|e: Seq<usize>| seq![lo as usize] + e);
    let mut r: Vec<Vec<usize>> = Vec::new();
    let mut t: usize = 0;
    while t < with_lo.len()
        invariant
            t <= with_lo@.len(),
            with_lo@.map_values(|c: Vec<usize>| c@) == shorter,
            first == shorter.map_values(|e: Seq<usize>| seq![lo as usize] + e),
            r@.map_values(|c: Vec<usize>| c@) == first.take(t as int),
        decreases with_lo@.len() - t,
    {
        let mut d: Vec<usize> = Vec::new();
        d.push(lo);
        let mut u: usize = 0;
        while u < with_lo[t].len()
            invariant
                t < with_lo@.len(),
                u <= with_lo@[t as int]@.len(),
                d@ == seq![lo] + with_lo@[t as int]@.take(u as int),
            decreases with_lo@[t as int]@.len() - u,
        {
            d.push(with_lo[t][u]);
            assert(with_lo@[t as int]@.take(u + 1) =~= with_lo@[t as int]@.take(u as int).push(with_lo@[t as int]@[u as int]));
            u = u + 1;
        }
        assert(with_lo@[t as int]@.take(u as int) =~= with_lo@[t as int]@);
        assert(with_lo@.map_values(|c: Vec<usize>| c@)[t as int] == with_lo@[t as int]@);
        assert(first[t as int] == seq![lo as usize] + shorter[t as int]);
        let ghost r0 = r@;
        let ghost d0 = d@;
        assert(r0.map_values(|c: Vec<usize>| c@).len() == r0.len());
        assert(r0.len() == t);
        r.push(d);
        assert(r@ == r0.push(r@[t as int]));
        assert(r@[t as int]@ == d0);
        let ghost target = first.take(t + 1);
        assert forall|i: int| 0 <= i < t + 1 implies r@.map_values(|c: Vec<usize>| c@)[i] == #[trigger] target[i] by {
            if i < t {
                assert(r@[i] == r0[i]);
                assert(r0.map_values(|c: Vec<usize>| c@)[i] == first.take(t as int)[i]);
            } else {
                assert(r@[i]@ == d0);
            }
        }
        assert(r@.map_values(|c: Vec<usize>| c@) =~= target);
        t = t + 1;
    }
    let mut w: usize = 0;
    while w < without_lo.len()
        invariant
            w <= without_lo@.len(),
            without_lo@.map_values(|c: Vec<usize>| c@) == combinations_from((lo + 1) as nat, n as nat, k as nat),
            r@.map_values(|c: Vec<usize>| c@) == first + combinations_from((lo + 1) as nat, n as nat, k as nat).take(w as int),
        decreases without_lo@.len() - w,
    {
        let c = without_lo[w].clone();
        assert(c@ == without_lo@.map_values(|c: Vec<usize>| c@)[w as int]);
        let ghost r0 = r@;
        let ghost c0 = c@;
        let ghost target = first + combinations_from((lo + 1) as nat, n as nat, k as nat).take(w + 1);
        assert(r0.map_values(|c: Vec<usize>| c@).len() == r0.len());
        assert(r0.len() == first.len() + w);
        r.push(c);
        assert(r@ == r0.push(r@[r0.len() as int]));
        assert(r@[r0.len() as int]@ == c0);
        assert forall|i: int| 0 <= i < target.len() implies r@.map_values(|c: Vec<usize>| c@)[i] == #[trigger] target[i] by {
            if i < r0.len() {
                assert(r@[i] == r0[i]);
                assert(r0.map_values(|c: Vec<usize>| c@)[i] == (first + combinations_from((lo + 1) as nat, n as nat, k as nat).take(w as int))[i]);
            } else {
                assert(r@[i]@ == c0);
            }
        }
        assert(r@.map_values(|c: Vec<usize>| c@) =~= target);
        w = w + 1;
    }
    assert(combinations_from((lo + 1) as nat, n as nat, k as nat).take(without_lo@.len() as int) =~= combinations_from((lo + 1) as nat, n as nat, k as nat));
    assert(first.take(with_lo@.len() as int) =~= first);
    r
}

/// All `k`-element combinations of the indices `0..n`, in lexicographic order: only
/// combinations come out, and every combination does.
pub fn index_combinations_of(n: usize, k: usize) -> (r: Vec<Vec<usize>>)
    ensures
        r@.map_values(|c: Vec<usize>| c@) == index_combinations(n as nat, k as nat),
        forall|i: int| 0 <= i < r@.len() ==> is_combination(#[trigger] r@[i]@, n as nat, k as nat),
        forall|c: Seq<usize>| is_combination(c, n as nat, k as nat) ==> exists|i: int| 0 <= i < r@.len() && #[trigger] r@[i]@ == c,
{
    let r = combinations_from_of(0, n, k);
    proof {
        let all = index_combinations(n as nat, k as nat);
        lemma_combinations_ordered(0, n as nat, k as nat);
        assert forall|i: int| 0 <= i < r@.len() implies is_combination(#[trigger] r@[i]@, n as nat, k as nat) by {
            assert(r@.map_values(|c: Vec<usize>| c@)[i] == r@[i]@);
            assert(all[i].len() == k);
        }
        assert forall|c: Seq<usize>| is_combination(c, n as nat, k as nat) implies exists|i: int| 0 <= i < r@.len() && #[trigger] r@[i]@ == c by {
            lemma_combination_listed(0, n as nat, k as nat, c);
            let i = choose|i: int| 0 <= i < all.len() && all[i] == c;
            assert(r@.map_values(|c: Vec<usize>| c@)[i] == r@[i]@);
        }
    }
    r
}

/// The cells of `house` that lie outside `block`, in house order.
pub fn house_cells_outside_block(house: HouseIndex, block: crate::index::BlockIndex) -> (r: Vec<CellIndex>)
    ensures
        forall|c: CellIndex| r@.contains(c) <==> (in_house(house, c) && c.block_of() != block),
{
    proof {
        lemma_house_cells(house);
    }
    let all = house.cell_indices();
    let mut r: Vec<CellIndex> = Vec::new();
    let mut u: usize = 0;
    while u < all.len()
        invariant
            u <= all@.len(),
            all@ == house_cells(house),
            all@.len() == 9,
            forall|k: int| 0 <= k < 9 ==> in_house(house, #[trigger] house_cells(house)[k]),
            forall|c: CellIndex| r@.contains(c) <==> (exists|k: int| 0 <= k < u && #[trigger] all@[k] == c && c.block_of() != block),
        decreases all@.len() - u,
    {
        let c = all[u];
        let ghost old_r = r@;
        if c.block() != block {
            r.push(c);
        }
        assert forall|x: CellIndex| r@.contains(x) <==> (exists|k: int| 0 <= k < u + 1 && #[trigger] all@[k] == x && x.block_of() != block) by {
            if r@.contains(x) {
                let k = choose|k: int| 0 <= k < r@.len() && r@[k] == x;
                if k < old_r.len() {
                    assert(old_r[k] == x);
                }
            }
            if old_r.contains(x) {
                let k = choose|k: int| 0 <= k < old_r.len() && old_r[k] == x;
                assert(r@[k] == x);
            }
            if exists|k: int| 0 <= k < u + 1 && #[trigger] all@[k] == x && x.block_of() != block {
                let k = choose|k: int| 0 <= k < u + 1 && #[trigger] all@[k] == x && x.block_of() != block;
                if k == u {
                    assert(r@[r@.len() - 1] == x);
                }
            }
        }
        u = u + 1;
    }
    assert forall|c: CellIndex| r@.contains(c) <==> (in_house(house, c) && c.block_of() != block) by {
        if in_house(house, c) {
            assert(house_cells(house).contains(c));
            let k = choose|k: int| 0 <= k < 9 && house_cells(house)[k] == c;
            assert(all@[k] == c);
        }
    }
    r
}

/// Two cells see each other: they share a row, a column or a block.
pub open spec fn sees_rel(cells: Seq<CellIndex>) -> spec_fn(int, int) -> bool {
    |a: int, b: int| sees(cells[a], cells[b])
}

/// The graph over `indices` joining every two entries whose cells see each other, split into its
/// connected components.
pub fn visibility_graphs(indices: &[CellIndex]) -> (r: Vec<Graph<CellIndex>>)
    ensures
        exists|g: Graph<CellIndex>| #![trigger splits_into(g, r@)]
            g.node_seq() == indices@ && adjacency_by(g.adjacency(), indices@.len(), sees_rel(indices@)) && splits_into(g, r@),
{
    let mut nodes: Vec<CellIndex> = Vec::new();
    let mut t: usize = 0;
    while t < indices.len()
        invariant
            t <= indices@.len(),
            nodes@ == indices@.take(t as int),
        decreases indices@.len() - t,
    {
        nodes.push(indices[t]);
        assert(indices@.take(t + 1) =~= indices@.take(t as int).push(indices@[t as int]));
        t = t + 1;
    }
    assert(indices@.take(indices@.len() as int) =~= indices@);
    let ghost rel = sees_rel(indices@);
    let ghost n = indices@.len();
    assert(symmetric(rel));
    proof {
        lemma_adjacency_start(n, rel);
    }
    let mut graph = Graph::new(nodes, Vec::new());
    assert(graph.adjacency() =~= Seq::new(n, |x: int| Seq::<usize>::empty()));
    let len = graph.len();
    let mut i: usize = 0;
    while i < len
        invariant
            len == n,
            n == indices@.len(),
            i <= len,
            graph.node_seq() == indices@,
            symmetric(rel),
            rel == sees_rel(indices@),
            adjacency_upto(graph.adjacency(), n, rel, i as int, i + 1),
        decreases len - i,
    {
        let mut j: usize = i + 1;
        while j < len
            invariant
                len == n,
                n == indices@.len(),
                i < len,
                i + 1 <= j <= len,
                graph.node_seq() == indices@,
                symmetric(rel),
                rel == sees_rel(indices@),
                adjacency_upto(graph.adjacency(), n, rel, i as int, j as int),
            decreases len - j,
        {
            let ghost adj0 = graph.adjacency();
            let related = graph.node(i).visible(graph.node(j));
            if related {
                graph.add_edge(i, j);
            }
            proof {
                lemma_adjacency_pair(adj0, n, rel, i as int, j as int, graph.adjacency());
            }
            j = j + 1;
        }
        proof {
            lemma_adjacency_row(graph.adjacency(), n, rel, i as int);
        }
        i = i + 1;
    }
    proof {
        lemma_adjacency_done(graph.adjacency(), n, rel);
    }
    let ghost g = graph;
    let r = graph.split_connected_components();
    assert(g.node_seq() == indices@ && adjacency_by(g.adjacency(), indices@.len(), sees_rel(indices@)) && splits_into(g, r@));
    r
}

/// The cells, in flat order among the first `m`, whose candidates include `d`.
pub open spec fn cells_with_candidate(b: Seq<Set<int>>, d: int, m: int) -> Seq<CellIndex>
    decreases m,
{
    if m <= 0 {
        Seq::empty()
    } else if b[m - 1].contains(d) {
        cells_with_candidate(b, d, m - 1).push(cell_of(m - 1))
    } else {
        cells_with_candidate(b, d, m - 1)
    }
}

/// Two cells are bilocation-linked on `d`: some house they share has `d` as candidate in exactly
/// two cells.
pub open spec fn linked_on(b: Seq<Set<int>>, d: int, x: CellIndex, y: CellIndex) -> bool {
    exists|k: int| 0 <= k < shared_houses_of(x, y).len() && #[trigger] positions_with(b, shared_houses_of(x, y)[k], d).len() == 2
}

/// The bilocation relation between entries of `cells`.
pub open spec fn link_rel(b: Seq<Set<int>>, d: int, cells: Seq<CellIndex>) -> spec_fn(int, int) -> bool {
    |x: int, y: int| linked_on(b, d, cells[x], cells[y])
}

/// The graphs of more than one node among `parts`, in order.
pub open spec fn linked_parts(parts: Seq<Graph<CellIndex>>) -> Seq<Graph<CellIndex>>
    decreases parts.len(),
{
    if parts.len() == 0 {
        Seq::empty()
    } else if parts.last().node_seq().len() > 1 {
        linked_parts(parts.drop_last()).push(parts.last())
    } else {
        linked_parts(parts.drop_last())
    }
}

/// The listed cells are distinct cells with `d` as candidate, by increasing flat number.
pub proof fn lemma_cells_with_candidate(b: Seq<Set<int>>, d: int, m: int)
    requires
        0 <= m <= 81,
    ensures
        forall|k: int| 0 <= k < cells_with_candidate(b, d, m).len() ==> {
            &&& 0 <= (#[trigger] cells_with_candidate(b, d, m)[k])@ < m
            &&& b[cells_with_candidate(b, d, m)[k]@].contains(d)
        },
        forall|k: int, l: int| 0 <= k < l < cells_with_candidate(b, d, m).len() ==> (#[trigger] cells_with_candidate(b, d, m)[k])@
            < (#[trigger] cells_with_candidate(b, d, m)[l])@,
        cells_with_candidate(b, d, m).len() <= m,
    decreases m,
{
    if m > 0 {
        lemma_cells_with_candidate(b, d, m - 1);
        CellIndex::lemma_cell_of(m - 1);
    }
}

/// A house shared by two cells holds both.
pub proof fn lemma_shared_in_house(x: CellIndex, y: CellIndex, k: int)
    requires
        0 <= k < shared_houses_of(x, y).len(),
    ensures
        in_house(shared_houses_of(x, y)[k], x),
        in_house(shared_houses_of(x, y)[k], y),
{
}

/// Of two distinct cells linked on `d`, both with `d` as candidate, a grid that the board allows
/// puts `d` in exactly one.
pub proof fn lemma_link_alternates(b: Seq<Set<int>>, d: int, x: CellIndex, y: CellIndex, sol: Seq<int>)
    requires
        b.len() == 81,
        0 <= d < 9,
        linked_on(b, d, x, y),
        x != y,
        b[x@].contains(d),
        b[y@].contains(d),
        is_solution(sol),
        admits(b, sol),
    ensures
        (sol[x@] == d) != (sol[y@] == d),
{
    let k = choose|k: int| 0 <= k < shared_houses_of(x, y).len() && #[trigger] positions_with(b, shared_houses_of(x, y)[k], d).len() == 2;
    let h = shared_houses_of(x, y)[k];
    lemma_shared_in_house(x, y, k);
    lemma_house_cell_at(h, 0);
    lemma_house_cells(h);
    let px = house_position(h, x);
    let py = house_position(h, y);
    let pos = positions_with(b, h, d);
    assert(house_cells(h)[px] == x && house_cells(h)[py] == y);
    assert(pos.contains(px) && pos.contains(py));
    vstd::set_lib::lemma_int_range(0, 9);
    assert(pos.subset_of(vstd::set_lib::set_int_range(0, 9)));
    vstd::set_lib::lemma_set_subset_finite(vstd::set_lib::set_int_range(0, 9), pos);
    lemma_house_holds_digit(sol, h, d);
    let p = position_of(sol, h, d);
    CellIndex::lemma_flat(house_cells(h)[p]);
    assert(b[house_cells(h)[p]@].contains(sol[house_cells(h)[p]@]));
    assert(pos.contains(p));
    if p != px && p != py {
        let three = Set::<int>::empty().insert(px).insert(py).insert(p);
        assert(three.subset_of(pos));
        vstd::set_lib::lemma_len_subset(three, pos);
    }
    CellIndex::lemma_flat(x);
    CellIndex::lemma_flat(y);
    assert(sees(x, y));
    assert(sol[x@] != sol[y@]);
}

/// Each graph kept by `linked_parts` is one of the parts.
pub proof fn lemma_linked_parts(parts: Seq<Graph<CellIndex>>, k: int)
    requires
        0 <= k < linked_parts(parts).len(),
    ensures
        exists|c: int| 0 <= c < parts.len() && parts[c] == linked_parts(parts)[k],
        linked_parts(parts)[k].node_seq().len() > 1,
    decreases parts.len(),
{
    let rest = parts.drop_last();
    if parts.last().node_seq().len() > 1 && k == linked_parts(rest).len() {
        assert(parts[parts.len() - 1] == linked_parts(parts)[k]);
    } else {
        lemma_linked_parts(rest, k);
        let c = choose|c: int| 0 <= c < rest.len() && rest[c] == linked_parts(rest)[k];
        assert(parts[c] == linked_parts(parts)[k]);
    }
}

/// Every part with more than one node is among the linked parts.
pub proof fn lemma_linked_parts_onto(parts: Seq<Graph<CellIndex>>, c: int)
    requires
        0 <= c < parts.len(),
        parts[c].node_seq().len() > 1,
    ensures
        exists|k: int| 0 <= k < linked_parts(parts).len() && linked_parts(parts)[k] == parts[c],
    decreases parts.len(),
{
    let rest = parts.drop_last();
    if c == parts.len() - 1 {
        assert(linked_parts(parts)[linked_parts(rest).len() as int] == parts[c]);
    } else {
        lemma_linked_parts_onto(rest, c);
        let k = choose|k: int| 0 <= k < linked_parts(rest).len() && linked_parts(rest)[k] == rest[c];
        assert(linked_parts(parts)[k] == parts[c]);
    }
}

/// Two cells share the same houses in either order.
proof fn lemma_shared_symmetric(x: CellIndex, y: CellIndex)
    ensures
        shared_houses_of(x, y) == shared_houses_of(y, x),
{
    assert(shared_houses_of(x, y) =~= shared_houses_of(y, x));
}

/// For each digit-candidate cell of the board, the graph joining cells linked on `digit`, split
/// into connected components, keeping the components of more than one cell.
pub fn bilocation_graphs(board: &SudokuBoard, digit: DigitIndex) -> (r: Vec<Graph<CellIndex>>)
    ensures
        exists|g: Graph<CellIndex>, parts: Seq<Graph<CellIndex>>| #![trigger splits_into(g, parts)] {
            &&& g.node_seq() == cells_with_candidate(board@, digit@, 81)
            &&& adjacency_by(g.adjacency(), g.node_seq().len(), link_rel(board@, digit@, g.node_seq()))
            &&& valid_adjacency(g.adjacency())
            &&& g.node_seq().len() <= 81
            &&& splits_into(g, parts)
            &&& r@ == linked_parts(parts)
        },
{
    let all = board.indexed_iter();
    let mut cells: Vec<CellIndex> = Vec::new();
    let mut t: usize = 0;
    while t < 81
        invariant
            t <= 81,
            all@.len() == 81,
            forall|i: int| 0 <= i < 81 ==> (#[trigger] all@[i]).0 == cell_of(i) && all@[i].1@ == board@[i],
            cells@ == cells_with_candidate(board@, digit@, t as int),
        decreases 81 - t,
    {
        let (cell_idx, cell) = all[t];
        if cell.contains(digit) {
            cells.push(cell_idx);
        }
        t = t + 1;
    }
    let ghost nodes = cells@;
    let ghost n = nodes.len();
    let ghost rel = link_rel(board@, digit@, nodes);
    assert(symmetric(rel)) by {
        assert forall|x: int, y: int| #[trigger] rel(x, y) == rel(y, x) by {
            lemma_shared_symmetric(nodes[x], nodes[y]);
        }
    }
    proof {
        lemma_adjacency_start(n, rel);
    }
    let mut graph = Graph::new(cells, Vec::new());
    assert(graph.adjacency() =~= Seq::new(n, |x: int| Seq::<usize>::empty()));
    let len = graph.len();
    let mut i: usize = 0;
    while i < len
        invariant
            len == n,
            n == nodes.len(),
            i <= len,
            graph.node_seq() == nodes,
            symmetric(rel),
            rel == link_rel(board@, digit@, nodes),
            adjacency_upto(graph.adjacency(), n, rel, i as int, i + 1),
        decreases len - i,
    {
        let mut j: usize = i + 1;
        while j < len
            invariant
                len == n,
                n == nodes.len(),
                i < len,
                i + 1 <= j <= len,
                graph.node_seq() == nodes,
                symmetric(rel),
                rel == link_rel(board@, digit@, nodes),
                adjacency_upto(graph.adjacency(), n, rel, i as int, j as int),
            decreases len - j,
        {
            let ghost adj0 = graph.adjacency();
            let related = board.is_bilocation_link(*graph.node(i), *graph.node(j), digit);
            if related {
                graph.add_edge(i, j);
            }
            proof {
                lemma_adjacency_pair(adj0, n, rel, i as int, j as int, graph.adjacency());
            }
            j = j + 1;
        }
        proof {
            lemma_adjacency_row(graph.adjacency(), n, rel, i as int);
        }
        i = i + 1;
    }
    proof {
        lemma_adjacency_done(graph.adjacency(), n, rel);
        lemma_adjacency_valid(graph.adjacency(), n, rel);
        lemma_cells_with_candidate(board@, digit@, 81);
    }
    let ghost g = graph;
    let mut parts = graph.split_connected_components();
    let ghost parts0 = parts@;
    let mut r: Vec<Graph<CellIndex>> = Vec::new();
    let mut t: usize = 0;
    let count = parts.len();
    while t < count
        invariant
            count == parts0.len(),
            t <= count,
            parts@ == parts0.skip(t as int),
            r@ == linked_parts(parts0.take(t as int)),
        decreases count - t,
    {
        let part = parts.remove(0);
        assert(part == parts0[t as int]);
        assert(parts0.take(t + 1).drop_last() =~= parts0.take(t as int));
        if part.len() > 1 {
            r.push(part);
        }
        assert(parts@ =~= parts0.skip(t + 1));
        t = t + 1;
    }
    assert(parts0.take(count as int) =~= parts0);
    assert(g.node_seq() == cells_with_candidate(board@, digit@, 81));
    assert(splits_into(g, parts0));
    r
}

/// The house, then, for each digit of `digit_list` in turn, a mark on each cell of `cells` that
/// has it.
pub fn group_highlights(board: &SudokuBoard, house: HouseIndex, digit_list: &Vec<DigitIndex>, cells: &Vec<CellIndex>) -> (r: Vec<Highlight>)
    ensures
        r@ == seq![Highlight::House(house)] + group_marks(board@, cells@, digit_list@.map_values(|d: DigitIndex| d@)),
{
    let ghost ds = digit_list@.map_values(|d: DigitIndex| d@);
    let mut highlights: Vec<Highlight> = Vec::new();
    highlights.push(Highlight::House(house));
    let ghost head = highlights@;
    let mut a: usize = 0;
    while a < digit_list.len()
        invariant
            a <= digit_list@.len(),
            ds == digit_list@.map_values(|d: DigitIndex| d@),
            highlights@ == head + group_marks(board@, cells@, ds.take(a as int)),
        decreases digit_list@.len() - a,
    {
        let digit = digit_list[a];
        proof {
            DigitIndex::lemma_view_injective(digit, digit);
        }
        let ghost before = highlights@;
        let mut c: usize = 0;
        while c < cells.len()
            invariant
                a < digit_list@.len(),
                c <= cells@.len(),
                digit == digit_list@[a as int],
                digit == DigitIndex::from_int(digit@),
                highlights@ == before + digit_marks(cells_having(board@, cells@.take(c as int), digit@), digit@),
            decreases cells@.len() - c,
        {
            assert(cells@.take(c + 1).drop_last() =~= cells@.take(c as int));
            if board.get(cells[c]).contains(digit) {
                highlights.push(Highlight::Digit((cells[c], digit)));
                assert(digit_marks(cells_having(board@, cells@.take(c + 1), digit@), digit@) =~= digit_marks(
                    cells_having(board@, cells@.take(c as int), digit@),
                    digit@,
                ).push(Highlight::Digit((cells@[c as int], digit))));
            }
            c = c + 1;
        }
        proof {
            assert(cells@.take(cells@.len() as int) =~= cells@);
            assert(ds.take(a + 1).drop_last() =~= ds.take(a as int));
            assert(ds[a as int] == digit@);
            assert(highlights@ == head + group_marks(board@, cells@, ds.take(a + 1)));
        }
        a = a + 1;
    }
    proof {
        assert(ds.take(digit_list@.len() as int) =~= ds);
    }
    highlights
}

/// Appends the cells of a shortest chain of `graph` from node `i` to node `j`, when one joins
/// them.
pub fn push_chain(highlights: &mut Vec<Highlight>, graph: &Graph<CellIndex>, i: usize, j: usize)
    requires
        i < graph.node_seq().len(),
        j < graph.node_seq().len(),
    ensures
        i != j && connected(graph.adjacency(), i as int, j as int) ==> exists|p: Seq<usize>|
            #[trigger] shortest_between(graph.adjacency(), p, i as int, j as int) && final(highlights)@ == old(highlights)@ + chain_marks(
                graph.node_seq(),
                p,
            ),
{
    let n = graph.len();
    let ghost head = highlights@;
    if let Some(chain) = graph.shortest_chain(i, j) {
        assert(forall|k: int| 0 <= k < chain@.len() ==> (#[trigger] chain@[k]) < n) by {
            if i != j {
                assert forall|k: int| 0 <= k < chain@.len() implies (#[trigger] chain@[k]) < n by {
                    assert(chain@[k] < graph.adjacency().len());
                }
            }
        }
        let mut u: usize = 0;
        while u < chain.len()
            invariant
                u <= chain@.len(),
                n == graph.node_seq().len(),
                forall|k: int| 0 <= k < chain@.len() ==> (#[trigger] chain@[k]) < n,
                highlights@ == head + chain_marks(graph.node_seq(), chain@.take(u as int)),
            decreases chain@.len() - u,
        {
            let idx = chain[u];
            highlights.push(Highlight::Cell(*graph.node(idx)));
            assert(chain_marks(graph.node_seq(), chain@.take(u + 1)) =~= chain_marks(graph.node_seq(), chain@.take(u as int)).push(
                Highlight::Cell(graph.node_seq()[idx as int]),
            ));
            u = u + 1;
        }
        proof {
            assert(chain@.take(chain@.len() as int) =~= chain@);
            if i != j && connected(graph.adjacency(), i as int, j as int) {
                assert(shortest_between(graph.adjacency(), chain@, i as int, j as int));
            }
        }
    }
}

} // verus!
