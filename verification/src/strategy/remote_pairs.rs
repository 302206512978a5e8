use std::ops::ControlFlow;

use vstd::prelude::*;

use crate::board::container::{cut_to, lemma_masked_cut, masked};
use crate::board::SudokuBoard;
use crate::flags::{ascending, full_set, lemma_ascending_len, DigitFlags};
use crate::graph::{
    adjacency_by, bipartite, chain_between, component_bipartite, component_labels, lemma_adjacency_by_unique, lemma_adjacency_valid,
    lemma_chain_parity, lemma_chain_to_part, lemma_colorings_agree, lemma_edge_same_label, lemma_part_bipartite, lemma_part_node,
    lemma_rank, lemma_split_parts_connected, opposite_sides, rank, shortest_between, connected, renumbered, split_by, splits_into, symmetric, two_coloring, valid_adjacency, Graph,
    first_in_component, increasing,
};
use crate::highlight::{chain_marks, pair_marks, Highlight};
use crate::index::cell_index::{cell_of, sees, visible_pair};
use crate::index::{CellIndex, DigitIndex};
use crate::rules::{admits, is_solution, keeps_solutions, refines};

use super::common::{push_chain, sees_rel, visibility_graphs};

verus! {

/// A set of two members holds no third value.
proof fn lemma_pair_set(v: Set<int>, x: int, y: int, z: int)
    requires
        v.finite(),
        v.len() == 2,
        v.contains(x),
        v.contains(y),
        v.contains(z),
        x != y,
    ensures
        z == x || z == y,
{
    if z != x && z != y {
        let s = Set::<int>::empty().insert(x).insert(y).insert(z);
        assert(s.subset_of(v));
        vstd::set_lib::lemma_len_subset(s, v);
        assert(s.len() == 3);
    }
}

/// The facts about the visibility graph `g` of a group of cells in increasing flat order that all
/// have the same two candidates `v`, split by `ccs` into `parts`.
pub open spec fn pair_group_split(
    b: Seq<Set<int>>,
    v: Set<int>,
    cells: Seq<CellIndex>,
    g: Graph<CellIndex>,
    ccs: Seq<usize>,
    parts: Seq<Graph<CellIndex>>,
) -> bool {
    &&& b.len() == 81
    &&& v.finite()
    &&& v.len() == 2
    &&& forall|k: int| 0 <= k < cells.len() ==> b[#[trigger] cells[k]@] == v
    &&& forall|k: int, l: int| 0 <= k < l < cells.len() ==> (#[trigger] cells[k])@ < (#[trigger] cells[l])@
    &&& cells.len() <= 81
    &&& g.node_seq() == cells
    &&& adjacency_by(g.adjacency(), cells.len(), sees_rel(cells))
    &&& valid_adjacency(g.adjacency())
    &&& component_labels(g.adjacency(), ccs)
    &&& split_by(cells, g.adjacency(), ccs, parts)
}

/// Each node of a part is a cell of the group.
proof fn lemma_part_cell(
    b: Seq<Set<int>>,
    v: Set<int>,
    cells: Seq<CellIndex>,
    g: Graph<CellIndex>,
    ccs: Seq<usize>,
    parts: Seq<Graph<CellIndex>>,
    c: int,
    a: int,
)
    requires
        pair_group_split(b, v, cells, g, ccs, parts),
        0 <= c < parts.len(),
        c <= usize::MAX,
        0 <= a < parts[c].node_seq().len(),
    ensures
        b[parts[c].node_seq()[a]@] == v,
        0 <= parts[c].node_seq()[a]@ < 81,
{
    lemma_part_node(cells, g.adjacency(), ccs, parts, c, a);
    let i0 = choose|i: int| 0 <= i < ccs.len() && ccs[i] == c && rank(ccs, i) == a;
    assert(parts[ccs[i0] as int].node_seq()[rank(ccs, i0) as int] == cells[i0]);
    CellIndex::lemma_flat(cells[i0]);
}

/// Along every edge of a part, a grid that the board allows puts the two candidates on the two
/// ends, one each.
proof fn lemma_part_edge(
    b: Seq<Set<int>>,
    v: Set<int>,
    cells: Seq<CellIndex>,
    g: Graph<CellIndex>,
    ccs: Seq<usize>,
    parts: Seq<Graph<CellIndex>>,
    c: int,
    sol: Seq<int>,
    a: int,
    k: int,
)
    requires
        pair_group_split(b, v, cells, g, ccs, parts),
        0 <= c < parts.len(),
        c <= usize::MAX,
        is_solution(sol),
        admits(b, sol),
        0 <= a < parts[c].node_seq().len(),
        0 <= k < parts[c].adjacency()[a].len(),
    ensures
        parts[c].adjacency()[a][k] < parts[c].node_seq().len(),
        v.contains(sol[parts[c].node_seq()[a]@]),
        v.contains(sol[parts[c].node_seq()[parts[c].adjacency()[a][k] as int]@]),
        sol[parts[c].node_seq()[a]@] != sol[parts[c].node_seq()[parts[c].adjacency()[a][k] as int]@],
{
    let adj = g.adjacency();
    lemma_part_node(cells, adj, ccs, parts, c, a);
    let i0 = choose|i: int| 0 <= i < ccs.len() && ccs[i] == c && rank(ccs, i) == a;
    assert(parts[ccs[i0] as int].adjacency()[rank(ccs, i0) as int] == renumbered(ccs, adj[i0]));
    let x = adj[i0][k];
    lemma_edge_same_label(adj, ccs, i0, k);
    lemma_rank(ccs, x as int, x as int);
    assert(parts[c].adjacency()[a][k] as int == rank(ccs, x as int));
    assert(parts[ccs[x as int] as int].node_seq()[rank(ccs, x as int) as int] == cells[x as int]);
    assert(parts[c].node_seq()[a] == cells[i0]);
    assert(adj[i0].contains(x));
    assert(sees(cells[i0], cells[x as int]));
    let lo = if i0 < x { i0 } else { x as int };
    let hi = if i0 < x { x as int } else { i0 };
    assert(cells[lo]@ < cells[hi]@);
    CellIndex::lemma_flat(cells[i0]);
    CellIndex::lemma_flat(cells[x as int]);
    assert(b[cells[i0]@].contains(sol[cells[i0]@]));
    assert(b[cells[x as int]@].contains(sol[cells[x as int]@]));
}

/// Remote pairs are sound: in a part of the visibility graph of cells with the same two
/// candidates, cells of the two colours hold the two candidates one each, so a cell that sees a
/// red cell and a black cell holds neither.
pub proof fn lemma_remote_pair_sound(
    b: Seq<Set<int>>,
    v: Set<int>,
    cells: Seq<CellIndex>,
    g: Graph<CellIndex>,
    ccs: Seq<usize>,
    parts: Seq<Graph<CellIndex>>,
    c: int,
    red: Seq<usize>,
    black: Seq<usize>,
    i: int,
    j: int,
    targets: Seq<CellIndex>,
)
    requires
        pair_group_split(b, v, cells, g, ccs, parts),
        0 <= c < parts.len(),
        c <= usize::MAX,
        two_coloring(parts[c].adjacency(), red, black),
        0 <= i < parts[c].node_seq().len(),
        0 <= j < parts[c].node_seq().len(),
        red.contains(i as usize),
        black.contains(j as usize),
        forall|y: CellIndex| targets.contains(y) <==> visible_pair(parts[c].node_seq()[i], parts[c].node_seq()[j], y),
    ensures
        keeps_solutions(masked(b, targets, full_set().difference(v)), b),
        refines(masked(b, targets, full_set().difference(v)), b),
{
    let pa = parts[c].adjacency();
    let pn = parts[c].node_seq();
    let n = pn.len();
    assert(pa.len() == n);
    let c0 = pn[i];
    let c1 = pn[j];
    vstd::set_lib::lemma_set_empty_equivalency_len(v);
    let p = v.choose();
    assert(v.contains(p));
    assert forall|sol: Seq<int>| is_solution(sol) && admits(b, sol) implies #[trigger] admits(
        masked(b, targets, full_set().difference(v)),
        sol,
    ) by {
        let t = Seq::new(n, |a: int| sol[pn[a]@] == p);
        let h = Seq::new(n, |a: int| red.contains(a as usize));
        assert forall|a: int, k: int| 0 <= a < pa.len() && 0 <= k < pa[a].len() implies t[a] != t[#[trigger] pa[a][k] as int] by {
            lemma_part_edge(b, v, cells, g, ccs, parts, c, sol, a, k);
            let y = pa[a][k] as int;
            if sol[pn[a]@] != p && sol[pn[y]@] != p {
                lemma_pair_set(v, sol[pn[a]@], sol[pn[y]@], p);
            }
        }
        assert forall|a: int, k: int| 0 <= a < pa.len() && 0 <= k < pa[a].len() implies h[a] != h[#[trigger] pa[a][k] as int] by {
            lemma_part_edge(b, v, cells, g, ccs, parts, c, sol, a, k);
            let y = pa[a][k];
            assert(red.contains(a as usize) <==> black.contains(y));
            assert(red.contains(y) <==> !black.contains(y));
        }
        lemma_split_parts_connected(g, ccs, parts, c, i, j);
        let path = choose|path: Seq<usize>| #[trigger] chain_between(pa, path, i, j);
        lemma_colorings_agree(pa, t, h, path);
        assert(!red.contains(j as usize));
        assert(t[i] != t[j]);
        lemma_part_cell(b, v, cells, g, ccs, parts, c, i);
        lemma_part_cell(b, v, cells, g, ccs, parts, c, j);
        assert(v.contains(sol[c0@]));
        assert(v.contains(sol[c1@]));
        assert(sol[c0@] != sol[c1@]);
        assert forall|x: int| 0 <= x < 81 implies #[trigger] masked(b, targets, full_set().difference(v))[x].contains(sol[x]) by {
            let y = cell_of(x);
            CellIndex::lemma_cell_of(x);
            if targets.contains(y) {
                assert(sol[y@] != sol[c0@]);
                assert(sol[y@] != sol[c1@]);
                if v.contains(sol[x]) {
                    lemma_pair_set(v, sol[c0@], sol[c1@], sol[x]);
                }
                assert(0 <= sol[x] < 9);
            }
        }
    }
}

/// The highlights of a remote pair step: both candidates in both cells, then the cells of a
/// shortest chain between them.
fn remote_pair_highlights(graph: &Graph<CellIndex>, i: usize, j: usize, value: DigitFlags) -> (r: Vec<Highlight>)
    requires
        i < graph.node_seq().len(),
        j < graph.node_seq().len(),
    ensures
        i != j && connected(graph.adjacency(), i as int, j as int) ==> exists|p: Seq<usize>|
            #[trigger] shortest_between(graph.adjacency(), p, i as int, j as int) && r@ == pair_marks(
                graph.node_seq()[i as int],
                graph.node_seq()[j as int],
                ascending(value@, 9),
            ) + chain_marks(graph.node_seq(), p),
{
    let c0 = *graph.node(i);
    let c1 = *graph.node(j);
    let digits = value.iter();
    let ghost ds = digits@.map_values(|d: DigitIndex| d@);
    let mut highlights: Vec<Highlight> = Vec::new();
    let mut t: usize = 0;
    while t < digits.len()
        invariant
            t <= digits@.len(),
            ds == digits@.map_values(|d: DigitIndex| d@),
            highlights@ == pair_marks(c0, c1, ds.take(t as int)),
        decreases digits@.len() - t,
    {
        let d = digits[t];
        proof {
            DigitIndex::lemma_view_injective(d, d);
            assert(ds.take(t + 1).drop_last() =~= ds.take(t as int));
        }
        highlights.push(Highlight::Digit((c0, d)));
        highlights.push(Highlight::Digit((c1, d)));
        t = t + 1;
    }
    proof {
        assert(ds.take(digits@.len() as int) =~= ds);
    }
    push_chain(&mut highlights, graph, i, j);
    highlights
}

/// The cells of the board with exactly two candidates, in flat order, with those candidates.
fn bivalue_cells(board: &SudokuBoard) -> (r: Vec<(CellIndex, DigitFlags)>)
    ensures
        forall|k: int| 0 <= k < r@.len() ==> board@[(#[trigger] r@[k]).0@] == r@[k].1@ && r@[k].1@.len() == 2,
        forall|k: int, l: int| 0 <= k < l < r@.len() ==> (#[trigger] r@[k]).0@ < (#[trigger] r@[l]).0@,
        forall|k: int| 0 <= k < r@.len() ==> 0 <= (#[trigger] r@[k]).0@ < 81,
        forall|x: int| 0 <= x < 81 && (#[trigger] board@[x]).len() == 2 ==> exists|k: int| 0 <= k < r@.len() && (#[trigger] r@[k]).0@ == x,
        r@.len() <= 81,
{
    let all = board.indexed_iter();
    let mut r: Vec<(CellIndex, DigitFlags)> = Vec::new();
    let mut t: usize = 0;
    while t < 81
        invariant
            t <= 81,
            all@.len() == 81,
            forall|i: int| 0 <= i < 81 ==> (#[trigger] all@[i]).0 == cell_of(i) && all@[i].1@ == board@[i],
            forall|k: int| 0 <= k < r@.len() ==> board@[(#[trigger] r@[k]).0@] == r@[k].1@ && r@[k].1@.len() == 2,
            forall|k: int, l: int| 0 <= k < l < r@.len() ==> (#[trigger] r@[k]).0@ < (#[trigger] r@[l]).0@,
            forall|k: int| 0 <= k < r@.len() ==> 0 <= (#[trigger] r@[k]).0@ < t,
            forall|x: int| 0 <= x < t && (#[trigger] board@[x]).len() == 2 ==> exists|k: int| 0 <= k < r@.len() && (#[trigger] r@[k]).0@ == x,
            r@.len() <= t,
        decreases 81 - t,
    {
        let (cell_idx, cell) = all[t];
        proof {
            CellIndex::lemma_cell_of(t as int);
        }
        let ghost before = r@;
        if cell.num_digits() == 2 {
            r.push((cell_idx, cell.digit_flags()));
        }
        proof {
            assert forall|x: int| 0 <= x < t + 1 && (#[trigger] board@[x]).len() == 2 implies exists|k: int|
                0 <= k < r@.len() && (#[trigger] r@[k]).0@ == x by {
                if x < t {
                    let k = choose|k: int| 0 <= k < before.len() && (#[trigger] before[k]).0@ == x;
                    assert(r@[k] == before[k]);
                } else {
                    assert(r@[r@.len() - 1].0@ == x);
                }
            }
        }
        t = t + 1;
    }
    r
}

/// The cells, in flat order among the first `m`, whose candidates are exactly `v`.
pub open spec fn cells_valued(b: Seq<Set<int>>, v: Set<int>, m: int) -> Seq<CellIndex>
    decreases m,
{
    if m <= 0 {
        Seq::empty()
    } else if b[m - 1] == v {
        cells_valued(b, v, m - 1).push(cell_of(m - 1))
    } else {
        cells_valued(b, v, m - 1)
    }
}

/// The cells with candidates `v` among the first `m` come in increasing flat order, and each
/// has those candidates.
pub proof fn lemma_cells_valued(b: Seq<Set<int>>, v: Set<int>, m: int)
    requires
        0 <= m <= 81,
    ensures
        forall|k: int| 0 <= k < cells_valued(b, v, m).len() ==> {
            &&& 0 <= (#[trigger] cells_valued(b, v, m)[k])@ < m
            &&& b[cells_valued(b, v, m)[k]@] == v
        },
        forall|k: int, l: int| 0 <= k < l < cells_valued(b, v, m).len() ==> (#[trigger] cells_valued(b, v, m)[k])@
            < (#[trigger] cells_valued(b, v, m)[l])@,
        cells_valued(b, v, m).len() <= m,
        forall|x: int| 0 <= x < m && b[x] == v ==> #[trigger] cells_valued(b, v, m).contains(cell_of(x)),
    decreases m,
{
    if m > 0 {
        lemma_cells_valued(b, v, m - 1);
        CellIndex::lemma_cell_of(m - 1);
        assert forall|x: int| 0 <= x < m && b[x] == v implies #[trigger] cells_valued(b, v, m).contains(cell_of(x)) by {
            if x < m - 1 {
                assert(cells_valued(b, v, m - 1).contains(cell_of(x)));
                let k = choose|k: int| 0 <= k < cells_valued(b, v, m - 1).len() && #[trigger] cells_valued(b, v, m - 1)[k] == cell_of(x);
                assert(cells_valued(b, v, m)[k] == cell_of(x));
            } else {
                assert(cells_valued(b, v, m).last() == cell_of(x));
            }
        }
    }
}

/// `parts` is a split into connected components of the visibility graph of `cells`.
pub open spec fn visibility_parts(cells: Seq<CellIndex>, parts: Seq<Graph<CellIndex>>) -> bool {
    exists|g: Graph<CellIndex>| #![trigger splits_into(g, parts)]
        g.node_seq() == cells && adjacency_by(g.adjacency(), cells.len(), sees_rel(cells)) && splits_into(g, parts)
}

/// The remote pair step on the candidates `v` with cells `x` and `z` removes a candidate: at
/// least three cells have exactly these candidates, a two-colouring of a component of their
/// visibility graph puts `x` and `z` on opposite sides, and some cell that sees both has one of
/// the candidates.
pub open spec fn remote_applies(b: Seq<Set<int>>, v: Set<int>, x: CellIndex, z: CellIndex) -> bool {
    &&& v.finite()
    &&& v.len() == 2
    &&& cells_valued(b, v, 81).len() >= 3
    &&& exists|parts: Seq<Graph<CellIndex>>, c: int| #![trigger visibility_parts(cells_valued(b, v, 81), parts), parts[c]]
        visibility_parts(cells_valued(b, v, 81), parts) && 0 <= c < parts.len() && opposite_sides(parts[c], x, z)
    &&& exists|y: CellIndex| #[trigger] visible_pair(x, z, y) && !b[y@].disjoint(v)
}

/// The board after the remote pair step on the candidates `v` with cells `x` and `z`: the cells
/// that see both lose both candidates.
pub open spec fn after_remote(b: Seq<Set<int>>, v: Set<int>, x: CellIndex, z: CellIndex) -> Seq<Set<int>> {
    cut_to(b, full_set().difference(v), |y: CellIndex| visible_pair(x, z, y))
}

/// The highlights of the remote pair step on the candidates `v` with cells `x` and `z`: each
/// candidate in both cells, then the cells of a shortest chain between them in their component
/// of the visibility graph.
pub open spec fn remote_marks(b: Seq<Set<int>>, v: Set<int>, x: CellIndex, z: CellIndex, hl: Seq<Highlight>) -> bool {
    exists|parts: Seq<Graph<CellIndex>>, c: int, i: int, j: int, p: Seq<usize>|
        #![trigger visibility_parts(cells_valued(b, v, 81), parts), shortest_between(parts[c].adjacency(), p, i, j)]
        visibility_parts(cells_valued(b, v, 81), parts) && 0 <= c < parts.len() && 0 <= i < parts[c].node_seq().len() && 0 <= j
            < parts[c].node_seq().len() && parts[c].node_seq()[i] == x && parts[c].node_seq()[j] == z && shortest_between(
            parts[c].adjacency(),
            p,
            i,
            j,
        ) && hl == pair_marks(x, z, ascending(v, 9)) + chain_marks(parts[c].node_seq(), p)
}

/// No remote pair step removes a candidate for a pair of candidates whose first cell comes
/// before the first cell with the candidates `v`.
pub open spec fn remote_clear_before(b: Seq<Set<int>>, v: Set<int>) -> bool {
    forall|v2: Set<int>|
        v2.finite() && v2.len() == 2 && cells_valued(b, v2, 81).len() > 0 && cells_valued(b, v2, 81)[0]@ < cells_valued(b, v, 81)[0]@
            ==> #[trigger] remote_done_for(b, v2)
}

/// The cells of the board whose candidates are `value`, in flat order.
fn cells_with_value(board: &SudokuBoard, value: DigitFlags) -> (r: Vec<CellIndex>)
    ensures
        r@ == cells_valued(board@, value@, 81),
{
    let all = board.indexed_iter();
    let mut r: Vec<CellIndex> = Vec::new();
    let mut t: usize = 0;
    while t < 81
        invariant
            t <= 81,
            all@.len() == 81,
            forall|i: int| 0 <= i < 81 ==> (#[trigger] all@[i]).0 == cell_of(i) && all@[i].1@ == board@[i],
            r@ == cells_valued(board@, value@, t as int),
        decreases 81 - t,
    {
        let (cell_idx, cell) = all[t];
        if cell.digit_flags() == value {
            r.push(cell_idx);
        }
        t = t + 1;
    }
    r
}

/// The remote pair step on the candidates `v` with cells `x` and `z` is the first for these
/// candidates in search order: the components of the visibility graph of the cells with these
/// candidates before the one that holds the two cells have no step to take; in that component
/// some split into red and black nodes, each side listed in increasing order with the
/// component's first node red, has `x` at red place `a` and `z` at black place `bb`; and no pair
/// of a red and a black node before them, by red place and then black place, removes a candidate.
pub open spec fn remote_first_pair(b: Seq<Set<int>>, v: Set<int>, x: CellIndex, z: CellIndex) -> bool {
    exists|parts: Seq<Graph<CellIndex>>, gi: int, red: Seq<usize>, black: Seq<usize>, a: int, bb: int|
        #![trigger visibility_parts(cells_valued(b, v, 81), parts), two_coloring(parts[gi].adjacency(), red, black), red[a], black[bb]]
        {
            let part = parts[gi];
            &&& visibility_parts(cells_valued(b, v, 81), parts)
            &&& 0 <= gi < parts.len()
            &&& forall|k: int| 0 <= k < gi ==> #[trigger] remote_part_done(b, v, parts[k])
            &&& two_coloring(part.adjacency(), red, black)
            &&& increasing(red)
            &&& increasing(black)
            &&& forall|i: int| 0 <= i < part.node_seq().len() && #[trigger] first_in_component(part.adjacency(), i) ==> red.contains(i as usize)
            &&& 0 <= a < red.len()
            &&& 0 <= bb < black.len()
            &&& part.node_seq()[red[a] as int] == x
            &&& part.node_seq()[black[bb] as int] == z
            &&& forall|a2: int, b2: int|
                (0 <= a2 < a || (a2 == a && b2 < bb)) && 0 <= b2 < black.len() ==> #[trigger] pair_cells_clear(
                    b,
                    v,
                    part.node_seq()[red[a2] as int],
                    part.node_seq()[black[b2] as int],
                )
        }
}

/// Whatever cell sees both `x` and `z` has neither of the candidates `v`.
pub open spec fn pair_cells_clear(b: Seq<Set<int>>, v: Set<int>, x: CellIndex, z: CellIndex) -> bool {
    forall|y: CellIndex| #[trigger] visible_pair(x, z, y) ==> b[y@].disjoint(v)
}

/// In a part of the visibility graph of the cells with candidates `v` that can be two-coloured,
/// no cell that sees two cells an odd number of links apart has either candidate.
pub open spec fn remote_part_done(b: Seq<Set<int>>, v: Set<int>, part: Graph<CellIndex>) -> bool {
    bipartite(part.adjacency()) ==> forall|q: Seq<usize>, a: int, c: int, y: CellIndex|
        #![trigger chain_between(part.adjacency(), q, a, c), visible_pair(part.node_seq()[a], part.node_seq()[c], y)]
        chain_between(part.adjacency(), q, a, c) && q.len() % 2 == 0 && visible_pair(part.node_seq()[a], part.node_seq()[c], y)
            ==> b[y@].disjoint(v)
}

/// No remote pair step on the candidates `v` removes a candidate: when at least three cells have
/// exactly these candidates, and two of them are an odd number of links apart in a component of
/// their visibility graph that can be two-coloured, no cell that sees both has either candidate.
pub open spec fn remote_done_for(b: Seq<Set<int>>, v: Set<int>) -> bool {
    cells_valued(b, v, 81).len() >= 3 ==> forall|adj: Seq<Seq<usize>>, p: Seq<usize>, i: int, j: int, y: CellIndex|
        #![trigger adjacency_by(adj, cells_valued(b, v, 81).len(), sees_rel(cells_valued(b, v, 81))), chain_between(adj, p, i, j), visible_pair(cells_valued(b, v, 81)[i], cells_valued(b, v, 81)[j], y)]
        adjacency_by(adj, cells_valued(b, v, 81).len(), sees_rel(cells_valued(b, v, 81))) && chain_between(adj, p, i, j) && p.len() % 2 == 0
            && component_bipartite(adj, i) && visible_pair(cells_valued(b, v, 81)[i], cells_valued(b, v, 81)[j], y) ==> b[y@].disjoint(v)
}

/// No remote pair step removes a candidate, whatever the pair of candidates.
pub open spec fn remote_done(b: Seq<Set<int>>) -> bool {
    forall|v: Set<int>| v.finite() && v.len() == 2 ==> #[trigger] remote_done_for(b, v)
}

/// What every part of the visibility graph of the cells with candidates `v` shows about the
/// whole graph.
proof fn lemma_remote_from_parts(b: Seq<Set<int>>, v: Set<int>, g: Graph<CellIndex>, parts: Seq<Graph<CellIndex>>)
    requires
        g.node_seq() == cells_valued(b, v, 81),
        adjacency_by(g.adjacency(), g.node_seq().len(), sees_rel(g.node_seq())),
        valid_adjacency(g.adjacency()),
        g.node_seq().len() <= 81,
        splits_into(g, parts),
        forall|k: int| 0 <= k < parts.len() ==> remote_part_done(b, v, #[trigger] parts[k]),
    ensures
        remote_done_for(b, v),
{
    let nodes = g.node_seq();
    assert forall|adj: Seq<Seq<usize>>, p: Seq<usize>, i: int, j: int, y: CellIndex|
        #![trigger adjacency_by(adj, cells_valued(b, v, 81).len(), sees_rel(cells_valued(b, v, 81))), chain_between(adj, p, i, j), visible_pair(cells_valued(b, v, 81)[i], cells_valued(b, v, 81)[j], y)]
        adjacency_by(adj, cells_valued(b, v, 81).len(), sees_rel(cells_valued(b, v, 81))) && chain_between(adj, p, i, j) && p.len() % 2 == 0
            && component_bipartite(adj, i) && visible_pair(cells_valued(b, v, 81)[i], cells_valued(b, v, 81)[j], y) implies b[y@].disjoint(v) by {
        lemma_adjacency_by_unique(adj, g.adjacency(), nodes.len(), sees_rel(nodes));
        assert(p[0] < adj.len());
        let ccs = choose|ccs: Seq<usize>| #![trigger component_labels(g.adjacency(), ccs)]
            component_labels(g.adjacency(), ccs) && split_by(g.node_seq(), g.adjacency(), ccs, parts);
        lemma_chain_to_part(g, ccs, parts, p, i, j);
        let c = ccs[i] as int;
        let part = parts[c];
        let q = p.map_values(|x: usize| rank(ccs, x as int) as usize);
        lemma_part_bipartite(g, ccs, parts, i);
        let f = choose|f: Seq<bool>| crate::graph::proper_coloring(part.adjacency(), f);
        lemma_chain_parity(part.adjacency(), f, q);
        assert(remote_part_done(b, v, parts[c]));
        assert(chain_between(part.adjacency(), q, rank(ccs, i) as int, rank(ccs, j) as int));
        assert(visible_pair(part.node_seq()[rank(ccs, i) as int], part.node_seq()[rank(ccs, j) as int], y));
    }
}

/// Remote pairs: cells with the same two candidates that see each other in a chain hold the two
/// candidates alternately, so cells at an odd distance hold one each and any cell that sees both
/// holds neither. Groups of at least three such cells are taken in the order in which their
/// first cell comes on the board; parts that cannot be two-coloured are passed over. Stops at the
/// first pair of cells whose common peers lose a candidate.
pub fn apply_remote_pairs(board: &mut SudokuBoard) -> (r: ControlFlow<Vec<Highlight>>)
    ensures
        r is Break <==> final(board)@ != old(board)@,
        refines(final(board)@, old(board)@),
        keeps_solutions(final(board)@, old(board)@),
        r is Continue ==> remote_done(old(board)@),
        r matches ControlFlow::Break(hl) ==> exists|v: Set<int>, x: CellIndex, z: CellIndex|
            #[trigger] remote_applies(old(board)@, v, x, z) && final(board)@ == after_remote(old(board)@, v, x, z) && remote_clear_before(
                old(board)@,
                v,
            ) && remote_marks(old(board)@, v, x, z, hl@) && remote_first_pair(old(board)@, v, x, z),
{
    let ghost b0 = board@;
    proof {
        SudokuBoard::lemma_view(*board);
    }
    let bv = bivalue_cells(board);
    let mut s: usize = 0;
    while s < bv.len()
        invariant
            s <= bv@.len(),
            board@ == b0,
            old(board)@ == b0,
            b0.len() == 81,
            forall|k: int| 0 <= k < bv@.len() ==> b0[(#[trigger] bv@[k]).0@] == bv@[k].1@ && bv@[k].1@.len() == 2,
            forall|k: int| 0 <= k < bv@.len() ==> 0 <= (#[trigger] bv@[k]).0@ < 81,
            forall|k: int| 0 <= k < s ==> #[trigger] remote_done_for(b0, bv@[k].1@),
            forall|k: int, l: int| 0 <= k < l < bv@.len() ==> (#[trigger] bv@[k]).0@ < (#[trigger] bv@[l]).0@,
            forall|x: int| 0 <= x < 81 && (#[trigger] b0[x]).len() == 2 ==> exists|k: int| 0 <= k < bv@.len() && (#[trigger] bv@[k]).0@ == x,
            forall|i: int| 0 <= i < 81 ==> (#[trigger] b0[i]).subset_of(full_set()),
            bv@.len() <= 81,
        decreases bv@.len() - s,
    {
        let value = bv[s].1;
        let mut seen = false;
        let mut q: usize = 0;
        while q < s
            invariant
                q <= s,
                s < bv@.len(),
                value == bv@[s as int].1,
                seen ==> exists|k: int| 0 <= k < q && (#[trigger] bv@[k]).1@ == value@,
            decreases s - q,
        {
            if bv[q].1 == value {
                seen = true;
            }
            q = q + 1;
        }
        if !seen {
            let cells = cells_with_value(board, value);
            let ghost v = value@;
            proof {
                lemma_cells_valued(b0, v, 81);
            }
            if cells.len() >= 3 {
                proof {
                    value.lemma_view();
                    assert(v.len() == 2);
                }
                let mask = value.complement();
                let graphs = visibility_graphs(cells.as_slice());
                let ghost g = choose|g: Graph<CellIndex>| #![trigger splits_into(g, graphs@)]
                    g.node_seq() == cells@ && adjacency_by(g.adjacency(), cells@.len(), sees_rel(cells@)) && splits_into(g, graphs@);
                proof {
                    assert(symmetric(sees_rel(cells@)));
                    lemma_adjacency_valid(g.adjacency(), cells@.len(), sees_rel(cells@));
                }
                let mut gi: usize = 0;
                while gi < graphs.len()
                    invariant
                        gi <= graphs@.len(),
                        board@ == b0,
                        old(board)@ == b0,
                        b0.len() == 81,
                        v.finite(),
                        v.len() == 2,
                        value@ == v,
                        mask@ == full_set().difference(v),
                        cells@ == cells_valued(b0, v, 81),
                        forall|k: int| 0 <= k < cells@.len() ==> b0[#[trigger] cells@[k]@] == v,
                        forall|k: int, l: int| 0 <= k < l < cells@.len() ==> (#[trigger] cells@[k])@ < (#[trigger] cells@[l])@,
                        cells@.len() >= 3,
                        cells@.len() <= 81,
                        cells@ == cells_valued(b0, v, 81),
                        s < bv@.len(),
                        bv@[s as int].1@ == v,
                        forall|k: int| 0 <= k < bv@.len() ==> b0[(#[trigger] bv@[k]).0@] == bv@[k].1@ && bv@[k].1@.len() == 2,
                        forall|k: int| 0 <= k < bv@.len() ==> 0 <= (#[trigger] bv@[k]).0@ < 81,
                        forall|k: int| 0 <= k < s ==> #[trigger] remote_done_for(b0, bv@[k].1@),
                        forall|k: int, l: int| 0 <= k < l < bv@.len() ==> (#[trigger] bv@[k]).0@ < (#[trigger] bv@[l]).0@,
                        forall|x: int| 0 <= x < 81 && (#[trigger] b0[x]).len() == 2 ==> exists|k: int| 0 <= k < bv@.len() && (#[trigger] bv@[k]).0@ == x,
                        forall|i: int| 0 <= i < 81 ==> (#[trigger] b0[i]).subset_of(full_set()),
                        g.node_seq() == cells@,
                        adjacency_by(g.adjacency(), cells@.len(), sees_rel(cells@)),
                        valid_adjacency(g.adjacency()),
                        splits_into(g, graphs@),
                        forall|k: int| 0 <= k < gi ==> remote_part_done(b0, v, #[trigger] graphs@[k]),
                    decreases graphs@.len() - gi,
                {
                    let graph = &graphs[gi];
                    let n = graph.len();
                    match graph.two_colorize() {
                        None => {
                            proof {
                                if bipartite(graph.adjacency()) {
                                    assert(graph.node_seq().len() == 0);
                                    assert forall|q: Seq<usize>, a: int, c2: int|
                                        #[trigger] chain_between(graph.adjacency(), q, a, c2) implies false by {
                                        assert(q[0] < graph.adjacency().len());
                                    }
                                }
                                assert(remote_part_done(b0, v, *graph));
                            }
                        },
                        Some((group_a, group_b)) => {
                            let mut a: usize = 0;
                            while a < group_a.len()
                                invariant
                                    a <= group_a@.len(),
                                    gi < graphs@.len(),
                                    board@ == b0,
                                    old(board)@ == b0,
                                    b0.len() == 81,
                                    v.finite(),
                                    v.len() == 2,
                                    value@ == v,
                                    mask@ == full_set().difference(v),
                                    n == graph.node_seq().len(),
                                    n == graph.adjacency().len(),
                                    two_coloring(graph.adjacency(), group_a@, group_b@),
                                    forall|k: int| 0 <= k < cells@.len() ==> b0[#[trigger] cells@[k]@] == v,
                                    forall|k: int, l: int| 0 <= k < l < cells@.len() ==> (#[trigger] cells@[k])@ < (#[trigger] cells@[l])@,
                                    cells@.len() >= 3,
                                    cells@.len() <= 81,
                                    cells@ == cells_valued(b0, v, 81),
                                    s < bv@.len(),
                                    bv@[s as int].1@ == v,
                                    forall|k: int| 0 <= k < bv@.len() ==> b0[(#[trigger] bv@[k]).0@] == bv@[k].1@ && bv@[k].1@.len() == 2,
                                    forall|k: int| 0 <= k < bv@.len() ==> 0 <= (#[trigger] bv@[k]).0@ < 81,
                                    forall|k: int| 0 <= k < s ==> #[trigger] remote_done_for(b0, bv@[k].1@),
                                    forall|k: int, l: int| 0 <= k < l < bv@.len() ==> (#[trigger] bv@[k]).0@ < (#[trigger] bv@[l]).0@,
                                    forall|x: int| 0 <= x < 81 && (#[trigger] b0[x]).len() == 2 ==> exists|k: int| 0 <= k < bv@.len() && (#[trigger] bv@[k]).0@ == x,
                                    forall|i: int| 0 <= i < 81 ==> (#[trigger] b0[i]).subset_of(full_set()),
                                    g.node_seq() == cells@,
                                    adjacency_by(g.adjacency(), cells@.len(), sees_rel(cells@)),
                                    valid_adjacency(g.adjacency()),
                                    splits_into(g, graphs@),
                                    *graph == graphs@[gi as int],
                                    increasing(group_a@),
                                    increasing(group_b@),
                                    forall|x: int| 0 <= x < graph.node_seq().len() && #[trigger] first_in_component(graph.adjacency(), x) ==> group_a@.contains(x as usize),
                                    forall|k: int| 0 <= k < gi ==> remote_part_done(b0, v, #[trigger] graphs@[k]),
                                    forall|a2: int, b2: int| 0 <= a2 < a && 0 <= b2 < group_b@.len() ==> #[trigger] pair_cells_clear(
                                        b0,
                                        v,
                                        graph.node_seq()[group_a@[a2] as int],
                                        graph.node_seq()[group_b@[b2] as int],
                                    ),
                                decreases group_a@.len() - a,
                            {
                                let mut bi: usize = 0;
                                while bi < group_b.len()
                                    invariant
                                        a < group_a@.len(),
                                        bi <= group_b@.len(),
                                        gi < graphs@.len(),
                                        board@ == b0,
                                        old(board)@ == b0,
                                        b0.len() == 81,
                                        v.finite(),
                                        v.len() == 2,
                                        value@ == v,
                                        mask@ == full_set().difference(v),
                                        n == graph.node_seq().len(),
                                        n == graph.adjacency().len(),
                                        two_coloring(graph.adjacency(), group_a@, group_b@),
                                        forall|k: int| 0 <= k < cells@.len() ==> b0[#[trigger] cells@[k]@] == v,
                                        forall|k: int, l: int| 0 <= k < l < cells@.len() ==> (#[trigger] cells@[k])@ < (#[trigger] cells@[l])@,
                                        cells@.len() >= 3,
                                        cells@.len() <= 81,
                                        cells@ == cells_valued(b0, v, 81),
                                        s < bv@.len(),
                                        bv@[s as int].1@ == v,
                                        forall|k: int| 0 <= k < bv@.len() ==> b0[(#[trigger] bv@[k]).0@] == bv@[k].1@ && bv@[k].1@.len() == 2,
                                        forall|k: int| 0 <= k < bv@.len() ==> 0 <= (#[trigger] bv@[k]).0@ < 81,
                                        forall|k: int| 0 <= k < s ==> #[trigger] remote_done_for(b0, bv@[k].1@),
                                        forall|k: int, l: int| 0 <= k < l < bv@.len() ==> (#[trigger] bv@[k]).0@ < (#[trigger] bv@[l]).0@,
                                        forall|x: int| 0 <= x < 81 && (#[trigger] b0[x]).len() == 2 ==> exists|k: int| 0 <= k < bv@.len() && (#[trigger] bv@[k]).0@ == x,
                                        forall|i: int| 0 <= i < 81 ==> (#[trigger] b0[i]).subset_of(full_set()),
                                        g.node_seq() == cells@,
                                        adjacency_by(g.adjacency(), cells@.len(), sees_rel(cells@)),
                                        valid_adjacency(g.adjacency()),
                                        splits_into(g, graphs@),
                                        *graph == graphs@[gi as int],
                                        increasing(group_a@),
                                        increasing(group_b@),
                                        forall|x: int| 0 <= x < graph.node_seq().len() && #[trigger] first_in_component(graph.adjacency(), x) ==> group_a@.contains(x as usize),
                                        forall|k: int| 0 <= k < gi ==> remote_part_done(b0, v, #[trigger] graphs@[k]),
                                        forall|a2: int, b2: int| (0 <= a2 < a || (a2 == a && b2 < bi)) && 0 <= b2 < group_b@.len() ==> #[trigger] pair_cells_clear(
                                            b0,
                                            v,
                                            graph.node_seq()[group_a@[a2] as int],
                                            graph.node_seq()[group_b@[b2] as int],
                                        ),
                                    decreases group_b@.len() - bi,
                                {
                                    let i = group_a[a];
                                    let j = group_b[bi];
                                    let c0 = *graph.node(i);
                                    let c1 = *graph.node(j);
                                    let targets = c0.cells_visible_with(&c1);
                                    let changed = board.apply_mask_cells(&targets, &mask);
                                    proof {
                                        if !changed {
                                            assert forall|y: CellIndex| #[trigger] visible_pair(c0, c1, y) implies b0[y@].disjoint(v) by {
                                                CellIndex::lemma_flat(y);
                                                assert(targets@.contains(y));
                                                assert(masked(b0, targets@, mask@)[y@] == b0[y@]);
                                                assert forall|x: int| b0[y@].contains(x) implies !v.contains(x) by {
                                                    assert(b0[y@].intersect(mask@).contains(x));
                                                }
                                            }
                                        }
                                    }
                                    if changed {
                                        proof {
                                            let ccs = choose|ccs: Seq<usize>| #![trigger component_labels(g.adjacency(), ccs)]
                                                component_labels(g.adjacency(), ccs) && split_by(g.node_seq(), g.adjacency(), ccs, graphs@);
                                            assert(group_a@.contains(i));
                                            assert(group_b@.contains(j));
                                            lemma_remote_pair_sound(
                                                b0,
                                                v,
                                                cells@,
                                                g,
                                                ccs,
                                                graphs@,
                                                gi as int,
                                                group_a@,
                                                group_b@,
                                                i as int,
                                                j as int,
                                                targets@,
                                            );
                                            lemma_masked_cut(b0, targets@, mask@, |y: CellIndex| visible_pair(c0, c1, y));
                                            let y = choose|y: CellIndex| #[trigger] visible_pair(c0, c1, y) && !b0[y@].subset_of(mask@);
                                            CellIndex::lemma_flat(y);
                                            assert(!b0[y@].disjoint(v));
                                            assert(two_coloring(graphs@[gi as int].adjacency(), group_a@, group_b@));
                                            assert(graphs@[gi as int].node_seq()[i as int] == c0 && graphs@[gi as int].node_seq()[j as int] == c1);
                                            assert(opposite_sides(graphs@[gi as int], c0, c1));
                                            assert(visibility_parts(cells_valued(b0, v, 81), graphs@));
                                            assert(remote_applies(b0, v, c0, c1));
                                            lemma_cells_valued(b0, v, 81);
                                            let x0 = bv@[s as int].0@;
                                            CellIndex::lemma_cell_of(x0);
                                            assert(cells_valued(b0, v, 81).contains(cell_of(x0)));
                                            assert(cells_valued(b0, v, 81)[0]@ <= x0) by {
                                                let t = choose|t: int| 0 <= t < cells_valued(b0, v, 81).len() && #[trigger] cells_valued(b0, v, 81)[t] == cell_of(x0);
                                                if t > 0 {
                                                    assert(cells_valued(b0, v, 81)[0]@ < cells_valued(b0, v, 81)[t]@);
                                                }
                                            }
                                            assert forall|v2: Set<int>|
                                                v2.finite() && v2.len() == 2 && cells_valued(b0, v2, 81).len() > 0 && cells_valued(b0, v2, 81)[0]@ < cells_valued(
                                                    b0,
                                                    v,
                                                    81,
                                                )[0]@ implies #[trigger] remote_done_for(b0, v2) by {
                                                lemma_cells_valued(b0, v2, 81);
                                                let x2 = cells_valued(b0, v2, 81)[0]@;
                                                assert(b0[x2] == v2);
                                                let q = choose|q: int| 0 <= q < bv@.len() && (#[trigger] bv@[q]).0@ == x2;
                                                if q >= s {
                                                    if q > s {
                                                        assert(bv@[s as int].0@ < bv@[q].0@);
                                                    }
                                                }
                                                assert(remote_done_for(b0, bv@[q].1@));
                                            }
                                        }
                                        let highlights = remote_pair_highlights(graph, i, j, value);
                                        proof {
                                            let ccs = choose|ccs: Seq<usize>| #![trigger component_labels(g.adjacency(), ccs)]
                                                component_labels(g.adjacency(), ccs) && split_by(g.node_seq(), g.adjacency(), ccs, graphs@);
                                            lemma_split_parts_connected(g, ccs, graphs@, gi as int, i as int, j as int);
                                            assert(i != j);
                                            let p = choose|p: Seq<usize>| #[trigger] shortest_between(graph.adjacency(), p, i as int, j as int) && highlights@
                                                == pair_marks(graph.node_seq()[i as int], graph.node_seq()[j as int], ascending(value@, 9)) + chain_marks(
                                                graph.node_seq(),
                                                p,
                                            );
                                            assert(shortest_between(graphs@[gi as int].adjacency(), p, i as int, j as int));
                                            assert(remote_marks(b0, v, c0, c1, highlights@));
                                            assert(graphs@[gi as int].node_seq()[group_a@[a as int] as int] == c0);
                                            assert(graphs@[gi as int].node_seq()[group_b@[bi as int] as int] == c1);
                                            assert(visibility_parts(cells_valued(b0, v, 81), graphs@));
                                            assert(remote_first_pair(b0, v, c0, c1));
                                        }
                                        return ControlFlow::Break(highlights);
                                    }
                                    bi = bi + 1;
                                }
                                a = a + 1;
                            }
                            proof {
                                use_type_invariant(graph);
                                graph.lemma_wf();
                                let pa = graph.adjacency();
                                let pn = graph.node_seq();
                                let f = Seq::new(n as nat, |x: int| group_a@.contains(x as usize));
                                assert forall|x: int, k: int| 0 <= x < pa.len() && 0 <= k < pa[x].len() implies f[x] != f[#[trigger] pa[x][k] as int] by {
                                    let z = pa[x][k];
                                    assert(group_a@.contains(x as usize) <==> group_b@.contains(z));
                                    assert(group_a@.contains(z) <==> !group_b@.contains(z));
                                }
                                assert forall|q: Seq<usize>, a0: int, c0: int, y: CellIndex|
                                    #![trigger chain_between(pa, q, a0, c0), visible_pair(pn[a0], pn[c0], y)]
                                    chain_between(pa, q, a0, c0) && q.len() % 2 == 0 && visible_pair(pn[a0], pn[c0], y) implies b0[y@].disjoint(v) by {
                                    lemma_chain_parity(pa, f, q);
                                    assert(a0 < n && c0 < n);
                                    if group_a@.contains(a0 as usize) {
                                        assert(!group_a@.contains(c0 as usize));
                                        assert(group_b@.contains(c0 as usize));
                                        let a2 = choose|a2: int| 0 <= a2 < group_a@.len() && group_a@[a2] == a0 as usize;
                                        let b2 = choose|b2: int| 0 <= b2 < group_b@.len() && group_b@[b2] == c0 as usize;
                                        assert(pair_cells_clear(b0, v, pn[group_a@[a2] as int], pn[group_b@[b2] as int]));
                                    } else {
                                        assert(group_a@.contains(c0 as usize));
                                        assert(group_b@.contains(a0 as usize));
                                        let a2 = choose|a2: int| 0 <= a2 < group_a@.len() && group_a@[a2] == c0 as usize;
                                        let b2 = choose|b2: int| 0 <= b2 < group_b@.len() && group_b@[b2] == a0 as usize;
                                        assert(pair_cells_clear(b0, v, pn[group_a@[a2] as int], pn[group_b@[b2] as int]));
                                        assert(visible_pair(pn[c0], pn[a0], y));
                                    }
                                }
                                assert(remote_part_done(b0, v, *graph));
                            }
                        },
                    }
                    gi = gi + 1;
                }
                proof {
                    lemma_remote_from_parts(b0, v, g, graphs@);
                }
            }
            assert(remote_done_for(b0, bv@[s as int].1@));
        } else {
            proof {
                let k = choose|k: int| 0 <= k < q && (#[trigger] bv@[k]).1@ == value@;
                assert(remote_done_for(b0, bv@[k].1@));
            }
        }
        s = s + 1;
    }
    proof {
        assert forall|v: Set<int>| v.finite() && v.len() == 2 implies #[trigger] remote_done_for(b0, v) by {
            lemma_cells_valued(b0, v, 81);
            if cells_valued(b0, v, 81).len() >= 3 {
                let x = cells_valued(b0, v, 81)[0]@;
                assert(b0[x] == v);
                let k = choose|k: int| 0 <= k < bv@.len() && (#[trigger] bv@[k]).0@ == x;
                assert(remote_done_for(b0, bv@[k].1@));
            }
        }
    }
    ControlFlow::Continue(())
}

} // verus!
