use std::ops::ControlFlow;

use vstd::prelude::*;

use crate::board::container::{lemma_masked_digit, masked, without_digit};
use crate::board::SudokuBoard;
use crate::flags::{full_set, DigitFlags};
use crate::graph::{
    adjacency_by, bipartite, chain_between, component_bipartite, component_labels, connected, lemma_adjacency_by_unique, lemma_chain_parity,
    lemma_chain_to_part, lemma_colorings_agree, lemma_edge_same_label, lemma_part_bipartite, lemma_part_node, lemma_rank,
    lemma_split_parts_connected, opposite_sides, rank, shortest_between, renumbered, split_by, splits_into, two_coloring, valid_adjacency, Graph,
    first_in_component, increasing,
};
use crate::highlight::{chain_marks, Highlight};
use crate::index::cell_index::{cell_of, sees, visible_pair};
use crate::index::{CellIndex, DigitIndex};
use crate::rules::{admits, is_solution, keeps_solutions, refines};

use super::common::{
    bilocation_graphs, push_chain, cells_with_candidate, lemma_cells_with_candidate, lemma_link_alternates, lemma_linked_parts, lemma_linked_parts_onto,
    link_rel, linked_parts,
};

verus! {

/// The facts about a digit's bilocation graph `g`, split by `ccs` into `parts`.
pub open spec fn bilocation_split(b: Seq<Set<int>>, d: int, g: Graph<CellIndex>, ccs: Seq<usize>, parts: Seq<Graph<CellIndex>>) -> bool {
    &&& b.len() == 81
    &&& 0 <= d < 9
    &&& g.node_seq() == cells_with_candidate(b, d, 81)
    &&& adjacency_by(g.adjacency(), g.node_seq().len(), link_rel(b, d, g.node_seq()))
    &&& valid_adjacency(g.adjacency())
    &&& g.node_seq().len() <= 81
    &&& component_labels(g.adjacency(), ccs)
    &&& split_by(g.node_seq(), g.adjacency(), ccs, parts)
}

/// Along every edge of a part of the bilocation graph, a grid that the board allows puts the
/// digit at exactly one end.
proof fn lemma_part_alternates(
    b: Seq<Set<int>>,
    d: int,
    g: Graph<CellIndex>,
    ccs: Seq<usize>,
    parts: Seq<Graph<CellIndex>>,
    c: int,
    sol: Seq<int>,
    a: int,
    k: int,
)
    requires
        bilocation_split(b, d, g, ccs, parts),
        0 <= c < parts.len(),
        c <= usize::MAX,
        is_solution(sol),
        admits(b, sol),
        0 <= a < parts[c].node_seq().len(),
        0 <= k < parts[c].adjacency()[a].len(),
    ensures
        parts[c].adjacency()[a][k] < parts[c].node_seq().len(),
        (sol[parts[c].node_seq()[a]@] == d) != (sol[parts[c].node_seq()[parts[c].adjacency()[a][k] as int]@] == d),
{
    let adj = g.adjacency();
    let nodes = g.node_seq();
    lemma_part_node(nodes, adj, ccs, parts, c, a);
    let i0 = choose|i: int| 0 <= i < ccs.len() && ccs[i] == c && rank(ccs, i) == a;
    assert(parts[ccs[i0] as int].adjacency()[rank(ccs, i0) as int] == renumbered(ccs, adj[i0]));
    let x = adj[i0][k];
    lemma_edge_same_label(adj, ccs, i0, k);
    lemma_rank(ccs, x as int, x as int);
    assert(parts[c].adjacency()[a][k] as int == rank(ccs, x as int));
    assert(parts[ccs[x as int] as int].node_seq()[rank(ccs, x as int) as int] == nodes[x as int]);
    assert(parts[c].node_seq()[a] == nodes[i0]);
    assert(adj[i0].contains(x));
    lemma_cells_with_candidate(b, d, 81);
    assert(nodes[i0]@ != nodes[x as int]@);
    lemma_link_alternates(b, d, nodes[i0], nodes[x as int], sol);
}

/// Simple colouring is sound: in a part of the bilocation graph, cells of the two colours hold
/// the digit on exactly one side, so a cell that sees a red cell and a black cell cannot hold it.
pub proof fn lemma_coloring_sound(
    b: Seq<Set<int>>,
    d: int,
    g: Graph<CellIndex>,
    ccs: Seq<usize>,
    parts: Seq<Graph<CellIndex>>,
    c: int,
    red: Seq<usize>,
    black: Seq<usize>,
    i: int,
    j: int,
    targets: Seq<CellIndex>,
)
    requires
        bilocation_split(b, d, g, ccs, parts),
        0 <= c < parts.len(),
        c <= usize::MAX,
        two_coloring(parts[c].adjacency(), red, black),
        0 <= i < parts[c].node_seq().len(),
        0 <= j < parts[c].node_seq().len(),
        red.contains(i as usize),
        black.contains(j as usize),
        forall|y: CellIndex| targets.contains(y) <==> visible_pair(parts[c].node_seq()[i], parts[c].node_seq()[j], y),
    ensures
        keeps_solutions(masked(b, targets, full_set().remove(d)), b),
        refines(masked(b, targets, full_set().remove(d)), b),
{
    let pa = parts[c].adjacency();
    let pn = parts[c].node_seq();
    let n = pn.len();
    assert(pa.len() == n);
    let c0 = pn[i];
    let c1 = pn[j];
    assert forall|sol: Seq<int>| is_solution(sol) && admits(b, sol) implies #[trigger] admits(masked(b, targets, full_set().remove(d)), sol) by {
        let t = Seq::new(n, |a: int| sol[pn[a]@] == d);
        let h = Seq::new(n, |a: int| red.contains(a as usize));
        assert forall|a: int, k: int| 0 <= a < pa.len() && 0 <= k < pa[a].len() implies t[a] != t[#[trigger] pa[a][k] as int] by {
            lemma_part_alternates(b, d, g, ccs, parts, c, sol, a, k);
        }
        assert forall|a: int, k: int| 0 <= a < pa.len() && 0 <= k < pa[a].len() implies h[a] != h[#[trigger] pa[a][k] as int] by {
            lemma_part_alternates(b, d, g, ccs, parts, c, sol, a, k);
            let y = pa[a][k];
            assert(red.contains(a as usize) <==> black.contains(y));
            assert(red.contains(y) <==> !black.contains(y));
        }
        lemma_split_parts_connected(g, ccs, parts, c, i, j);
        let p = choose|p: Seq<usize>| #[trigger] chain_between(pa, p, i, j);
        lemma_colorings_agree(pa, t, h, p);
        assert(!red.contains(j as usize));
        assert(t[i] != t[j]);
        assert forall|x: int| 0 <= x < 81 implies #[trigger] masked(b, targets, full_set().remove(d))[x].contains(sol[x]) by {
            let y = cell_of(x);
            CellIndex::lemma_cell_of(x);
            if targets.contains(y) {
                CellIndex::lemma_flat(c0);
                CellIndex::lemma_flat(c1);
                assert(sol[y@] != sol[c0@]);
                assert(sol[y@] != sol[c1@]);
            }
        }
    }
}

/// In a part of digit `d`'s bilocation graph that can be two-coloured, no cell that sees two
/// cells an odd number of links apart has `d`.
pub open spec fn part_done(b: Seq<Set<int>>, d: int, part: Graph<CellIndex>) -> bool {
    bipartite(part.adjacency()) ==> forall|q: Seq<usize>, a: int, c: int, y: CellIndex|
        #![trigger chain_between(part.adjacency(), q, a, c), visible_pair(part.node_seq()[a], part.node_seq()[c], y)]
        chain_between(part.adjacency(), q, a, c) && q.len() % 2 == 0 && visible_pair(part.node_seq()[a], part.node_seq()[c], y)
            ==> !b[y@].contains(d)
}

/// No simple colouring step on digit `d` removes a candidate: when two cells with the digit are
/// an odd number of bilocation links apart in a component that can be two-coloured, no cell that
/// sees both has the digit.
pub open spec fn coloring_done_for(b: Seq<Set<int>>, d: int) -> bool {
    forall|adj: Seq<Seq<usize>>, p: Seq<usize>, i: int, j: int, y: CellIndex|
        #![trigger adjacency_by(adj, cells_with_candidate(b, d, 81).len(), link_rel(b, d, cells_with_candidate(b, d, 81))), chain_between(adj, p, i, j), visible_pair(cells_with_candidate(b, d, 81)[i], cells_with_candidate(b, d, 81)[j], y)]
        adjacency_by(adj, cells_with_candidate(b, d, 81).len(), link_rel(b, d, cells_with_candidate(b, d, 81))) && chain_between(adj, p, i, j)
            && p.len() % 2 == 0 && component_bipartite(adj, i) && visible_pair(cells_with_candidate(b, d, 81)[i], cells_with_candidate(b, d, 81)[j], y)
            ==> !b[y@].contains(d)
}

/// No simple colouring step removes a candidate, whatever the digit.
pub open spec fn coloring_done(b: Seq<Set<int>>) -> bool {
    forall|d: int| 0 <= d < 9 ==> #[trigger] coloring_done_for(b, d)
}

/// `parts` is a split into connected components of the bilocation graph of digit `d`.
pub open spec fn bilocation_parts(b: Seq<Set<int>>, d: int, parts: Seq<Graph<CellIndex>>) -> bool {
    exists|g: Graph<CellIndex>| #![trigger splits_into(g, parts)]
        g.node_seq() == cells_with_candidate(b, d, 81) && adjacency_by(g.adjacency(), g.node_seq().len(), link_rel(b, d, g.node_seq()))
            && splits_into(g, parts)
}

/// The colouring step on digit `d` with cells `x` and `z` removes a candidate: in a component
/// of the digit's bilocation graph, a two-colouring puts `x` and `z` on opposite sides, and some
/// cell that sees both has the digit.
pub open spec fn coloring_applies(b: Seq<Set<int>>, d: int, x: CellIndex, z: CellIndex) -> bool {
    &&& 0 <= d < 9
    &&& exists|parts: Seq<Graph<CellIndex>>, c: int| #![trigger bilocation_parts(b, d, parts), parts[c]]
        bilocation_parts(b, d, parts) && 0 <= c < parts.len() && opposite_sides(parts[c], x, z)
    &&& exists|y: CellIndex| #[trigger] visible_pair(x, z, y) && b[y@].contains(d)
}

/// The board after the colouring step on digit `d` with cells `x` and `z`: the cells that see
/// both lose the digit.
pub open spec fn after_coloring(b: Seq<Set<int>>, d: int, x: CellIndex, z: CellIndex) -> Seq<Set<int>> {
    without_digit(b, d, |y: CellIndex| visible_pair(x, z, y))
}

/// The highlights of the colouring step on digit `d` with cells `x` and `z`: the digit in both
/// cells, then the cells of a shortest chain between them in their component of the digit's
/// bilocation graph.
pub open spec fn coloring_marks(b: Seq<Set<int>>, d: int, x: CellIndex, z: CellIndex, hl: Seq<Highlight>) -> bool {
    exists|parts: Seq<Graph<CellIndex>>, c: int, i: int, j: int, p: Seq<usize>|
        #![trigger bilocation_parts(b, d, parts), shortest_between(parts[c].adjacency(), p, i, j)]
        bilocation_parts(b, d, parts) && 0 <= c < parts.len() && 0 <= i < parts[c].node_seq().len() && 0 <= j < parts[c].node_seq().len()
            && parts[c].node_seq()[i] == x && parts[c].node_seq()[j] == z && shortest_between(parts[c].adjacency(), p, i, j) && hl == seq![
            Highlight::Digit((x, DigitIndex::from_int(d))),
            Highlight::Digit((z, DigitIndex::from_int(d))),
        ] + chain_marks(parts[c].node_seq(), p)
}

/// The colouring step on digit `d` with cells `x` and `z` is the first of its digit in search
/// order: the linked components of the digit's bilocation graph before the one that holds the two
/// cells have no step to take; in that component some split into red and black nodes, each side
/// listed in increasing order with the component's first node red, has `x` at red place `a` and
/// `z` at black place `bb`; and no pair of a red and a black node before them, by red place and
/// then black place, removes a candidate.
pub open spec fn coloring_first_pair(b: Seq<Set<int>>, d: int, x: CellIndex, z: CellIndex) -> bool {
    exists|parts: Seq<Graph<CellIndex>>, gi: int, red: Seq<usize>, black: Seq<usize>, a: int, bb: int|
        #![trigger bilocation_parts(b, d, parts), linked_parts(parts)[gi], two_coloring(linked_parts(parts)[gi].adjacency(), red, black), red[a], black[bb]]
        {
            let part = linked_parts(parts)[gi];
            &&& bilocation_parts(b, d, parts)
            &&& 0 <= gi < linked_parts(parts).len()
            &&& forall|k: int| 0 <= k < gi ==> #[trigger] part_done(b, d, linked_parts(parts)[k])
            &&& two_coloring(part.adjacency(), red, black)
            &&& increasing(red)
            &&& increasing(black)
            &&& forall|i: int| 0 <= i < part.node_seq().len() && #[trigger] first_in_component(part.adjacency(), i) ==> red.contains(i as usize)
            &&& 0 <= a < red.len()
            &&& 0 <= bb < black.len()
            &&& part.node_seq()[red[a] as int] == x
            &&& part.node_seq()[black[bb] as int] == z
            &&& forall|a2: int, b2: int|
                (0 <= a2 < a || (a2 == a && b2 < bb)) && 0 <= b2 < black.len() ==> #[trigger] pair_clear(
                    b,
                    d,
                    part.node_seq()[red[a2] as int],
                    part.node_seq()[black[b2] as int],
                )
        }
}

/// Whatever cell sees both `x` and `z` lacks digit `d`.
pub open spec fn pair_clear(b: Seq<Set<int>>, d: int, x: CellIndex, z: CellIndex) -> bool {
    forall|y: CellIndex| #[trigger] visible_pair(x, z, y) ==> !b[y@].contains(d)
}

/// What every part of digit `d`'s bilocation graph shows about the whole graph.
proof fn lemma_coloring_from_parts(b: Seq<Set<int>>, d: int, g: Graph<CellIndex>, parts: Seq<Graph<CellIndex>>)
    requires
        0 <= d < 9,
        g.node_seq() == cells_with_candidate(b, d, 81),
        adjacency_by(g.adjacency(), g.node_seq().len(), link_rel(b, d, g.node_seq())),
        valid_adjacency(g.adjacency()),
        g.node_seq().len() <= 81,
        splits_into(g, parts),
        forall|k: int| 0 <= k < linked_parts(parts).len() ==> part_done(b, d, #[trigger] linked_parts(parts)[k]),
    ensures
        coloring_done_for(b, d),
{
    let nodes = g.node_seq();
    assert forall|adj: Seq<Seq<usize>>, p: Seq<usize>, i: int, j: int, y: CellIndex|
        #![trigger adjacency_by(adj, cells_with_candidate(b, d, 81).len(), link_rel(b, d, cells_with_candidate(b, d, 81))), chain_between(adj, p, i, j), visible_pair(cells_with_candidate(b, d, 81)[i], cells_with_candidate(b, d, 81)[j], y)]
        adjacency_by(adj, cells_with_candidate(b, d, 81).len(), link_rel(b, d, cells_with_candidate(b, d, 81))) && chain_between(adj, p, i, j) && p.len()
            % 2 == 0 && component_bipartite(adj, i) && visible_pair(cells_with_candidate(b, d, 81)[i], cells_with_candidate(b, d, 81)[j], y) implies !b[y@].contains(
        d,
    ) by {
        lemma_adjacency_by_unique(adj, g.adjacency(), nodes.len(), link_rel(b, d, nodes));
        assert(p[0] < adj.len());
        let ccs = choose|ccs: Seq<usize>| #![trigger component_labels(g.adjacency(), ccs)]
            component_labels(g.adjacency(), ccs) && split_by(g.node_seq(), g.adjacency(), ccs, parts);
        lemma_chain_to_part(g, ccs, parts, p, i, j);
        let c = ccs[i] as int;
        let part = parts[c];
        let q = p.map_values(|x: usize| rank(ccs, x as int) as usize);
        lemma_part_bipartite(g, ccs, parts, i);
        let f = choose|f: Seq<bool>| crate::graph::proper_coloring(part.adjacency(), f);
        lemma_chain_parity(part.adjacency(), f, q);
        assert(part.node_seq().len() > 1) by {
            if part.node_seq().len() <= 1 {
                assert(rank(ccs, i) == 0 && rank(ccs, j) == 0);
            }
        }
        lemma_linked_parts_onto(parts, c);
        let k = choose|k: int| 0 <= k < linked_parts(parts).len() && linked_parts(parts)[k] == parts[c];
        assert(part_done(b, d, linked_parts(parts)[k]));
        assert(chain_between(part.adjacency(), q, rank(ccs, i) as int, rank(ccs, j) as int));
        assert(visible_pair(part.node_seq()[rank(ccs, i) as int], part.node_seq()[rank(ccs, j) as int], y));
    }
}

/// The highlights of a colouring step: the digit in both cells, then the cells of a shortest
/// chain between them.
fn coloring_highlights(graph: &Graph<CellIndex>, i: usize, j: usize, digit: DigitIndex) -> (r: Vec<Highlight>)
    requires
        i < graph.node_seq().len(),
        j < graph.node_seq().len(),
    ensures
        i != j && connected(graph.adjacency(), i as int, j as int) ==> exists|p: Seq<usize>|
            #[trigger] shortest_between(graph.adjacency(), p, i as int, j as int) && r@ == seq![
                Highlight::Digit((graph.node_seq()[i as int], digit)),
                Highlight::Digit((graph.node_seq()[j as int], digit)),
            ] + chain_marks(graph.node_seq(), p),
{
    let mut highlights: Vec<Highlight> = Vec::new();
    highlights.push(Highlight::Digit((*graph.node(i), digit)));
    highlights.push(Highlight::Digit((*graph.node(j), digit)));
    push_chain(&mut highlights, graph, i, j);
    highlights
}

/// Simple colouring: in each component of a digit's bilocation links, the two colours hold the
/// digit on one side and not on the other, so any cell that sees a cell of each colour loses the
/// digit. Components that cannot be two-coloured are passed over. Stops at the first pair of
/// cells whose common peers lose a candidate.
pub fn apply(board: &mut SudokuBoard) -> (r: ControlFlow<Vec<Highlight>>)
    ensures
        r is Break <==> final(board)@ != old(board)@,
        refines(final(board)@, old(board)@),
        keeps_solutions(final(board)@, old(board)@),
        r is Continue ==> coloring_done(old(board)@),
        r matches ControlFlow::Break(hl) ==> exists|d: int, x: CellIndex, z: CellIndex|
            #[trigger] coloring_applies(old(board)@, d, x, z) && final(board)@ == after_coloring(old(board)@, d, x, z)
                && (forall|e: int| 0 <= e < d ==> #[trigger] coloring_done_for(old(board)@, e)) && coloring_marks(old(board)@, d, x, z, hl@)
                && coloring_first_pair(old(board)@, d, x, z),
{
    let ghost b0 = board@;
    proof {
        SudokuBoard::lemma_view(*board);
    }
    let mut di: usize = 0;
    while di < 9
        invariant
            di <= 9,
            board@ == b0,
            old(board)@ == b0,
            b0.len() == 81,
            forall|i: int| 0 <= i < 81 ==> (#[trigger] b0[i]).subset_of(full_set()),
            forall|d: int| 0 <= d < di ==> #[trigger] coloring_done_for(b0, d),
        decreases 9 - di,
    {
        let digit = DigitIndex::from_value(di);
        let mask = DigitFlags::all_but(digit);
        let graphs = bilocation_graphs(board, digit);
        let ghost (g, parts) = choose|g: Graph<CellIndex>, parts: Seq<Graph<CellIndex>>| #![trigger splits_into(g, parts)] {
            &&& g.node_seq() == cells_with_candidate(board@, digit@, 81)
            &&& adjacency_by(g.adjacency(), g.node_seq().len(), link_rel(board@, digit@, g.node_seq()))
            &&& valid_adjacency(g.adjacency())
            &&& g.node_seq().len() <= 81
            &&& splits_into(g, parts)
            &&& graphs@ == linked_parts(parts)
        };
        let mut gi: usize = 0;
        while gi < graphs.len()
            invariant
                gi <= graphs@.len(),
                board@ == b0,
                old(board)@ == b0,
                b0.len() == 81,
                forall|i: int| 0 <= i < 81 ==> (#[trigger] b0[i]).subset_of(full_set()),
                forall|d: int| 0 <= d < digit@ ==> #[trigger] coloring_done_for(b0, d),
                0 <= digit@ < 9,
                mask@ == full_set().remove(digit@),
                g.node_seq() == cells_with_candidate(b0, digit@, 81),
                adjacency_by(g.adjacency(), g.node_seq().len(), link_rel(b0, digit@, g.node_seq())),
                valid_adjacency(g.adjacency()),
                g.node_seq().len() <= 81,
                splits_into(g, parts),
                graphs@ == linked_parts(parts),
                di < 9,
                digit@ == di,
                forall|k: int| 0 <= k < gi ==> part_done(b0, digit@, #[trigger] graphs@[k]),
            decreases graphs@.len() - gi,
        {
            let graph = &graphs[gi];
            let n = graph.len();
            proof {
                lemma_linked_parts(parts, gi as int);
            }
            let ghost c = choose|c: int| 0 <= c < parts.len() && parts[c] == linked_parts(parts)[gi as int];
            match graph.two_colorize() {
                None => {
                    proof {
                        if bipartite(graph.adjacency()) {
                            assert(graph.node_seq().len() == 0);
                            assert forall|q: Seq<usize>, a: int, c2: int|
                                #[trigger] chain_between(graph.adjacency(), q, a, c2) implies false by {
                                assert(q[0] < graph.adjacency().len());
                            }
                        }
                        assert(part_done(b0, digit@, *graph));
                    }
                },
                Some((group_a, group_b)) => {
                    let mut a: usize = 0;
                    while a < group_a.len()
                        invariant
                            a <= group_a@.len(),
                            board@ == b0,
                            old(board)@ == b0,
                            b0.len() == 81,
                            forall|i: int| 0 <= i < 81 ==> (#[trigger] b0[i]).subset_of(full_set()),
                            forall|d: int| 0 <= d < digit@ ==> #[trigger] coloring_done_for(b0, d),
                            0 <= digit@ < 9,
                            mask@ == full_set().remove(digit@),
                            n == graph.node_seq().len(),
                            n == graph.adjacency().len(),
                            two_coloring(graph.adjacency(), group_a@, group_b@),
                            g.node_seq() == cells_with_candidate(b0, digit@, 81),
                            adjacency_by(g.adjacency(), g.node_seq().len(), link_rel(b0, digit@, g.node_seq())),
                            valid_adjacency(g.adjacency()),
                            g.node_seq().len() <= 81,
                            splits_into(g, parts),
                            0 <= c < parts.len(),
                            parts[c] == *graph,
                            graph.node_seq().len() > 1,
                            increasing(group_a@),
                            increasing(group_b@),
                            forall|x: int| 0 <= x < graph.node_seq().len() && #[trigger] first_in_component(graph.adjacency(), x) ==> group_a@.contains(x as usize),
                            0 <= gi < linked_parts(parts).len(),
                            linked_parts(parts)[gi as int] == *graph,
                            forall|k: int| 0 <= k < gi ==> #[trigger] part_done(b0, digit@, linked_parts(parts)[k]),
                            forall|a2: int, b2: int| 0 <= a2 < a && 0 <= b2 < group_b@.len() ==> #[trigger] pair_clear(
                                b0,
                                digit@,
                                graph.node_seq()[group_a@[a2] as int],
                                graph.node_seq()[group_b@[b2] as int],
                            ),
                        decreases group_a@.len() - a,
                    {
                        let mut b: usize = 0;
                        while b < group_b.len()
                            invariant
                                a < group_a@.len(),
                                b <= group_b@.len(),
                                board@ == b0,
                                old(board)@ == b0,
                                b0.len() == 81,
                                forall|i: int| 0 <= i < 81 ==> (#[trigger] b0[i]).subset_of(full_set()),
                                forall|d: int| 0 <= d < digit@ ==> #[trigger] coloring_done_for(b0, d),
                                0 <= digit@ < 9,
                                mask@ == full_set().remove(digit@),
                                n == graph.node_seq().len(),
                                n == graph.adjacency().len(),
                                two_coloring(graph.adjacency(), group_a@, group_b@),
                                g.node_seq() == cells_with_candidate(b0, digit@, 81),
                                adjacency_by(g.adjacency(), g.node_seq().len(), link_rel(b0, digit@, g.node_seq())),
                                valid_adjacency(g.adjacency()),
                                g.node_seq().len() <= 81,
                                splits_into(g, parts),
                                0 <= c < parts.len(),
                                parts[c] == *graph,
                                graph.node_seq().len() > 1,
                                increasing(group_a@),
                                increasing(group_b@),
                                forall|x: int| 0 <= x < graph.node_seq().len() && #[trigger] first_in_component(graph.adjacency(), x) ==> group_a@.contains(x as usize),
                                0 <= gi < linked_parts(parts).len(),
                                linked_parts(parts)[gi as int] == *graph,
                                forall|k: int| 0 <= k < gi ==> #[trigger] part_done(b0, digit@, linked_parts(parts)[k]),
                                forall|a2: int, b2: int| (0 <= a2 < a || (a2 == a && b2 < b)) && 0 <= b2 < group_b@.len() ==> #[trigger] pair_clear(
                                    b0,
                                    digit@,
                                    graph.node_seq()[group_a@[a2] as int],
                                    graph.node_seq()[group_b@[b2] as int],
                                ),
                            decreases group_b@.len() - b,
                        {
                            let i = group_a[a];
                            let j = group_b[b];
                            let c0 = *graph.node(i);
                            let c1 = *graph.node(j);
                            let cells = c0.cells_visible_with(&c1);
                            let changed = board.apply_mask_cells(&cells, &mask);
                            proof {
                                if !changed {
                                    assert forall|y: CellIndex| #[trigger] visible_pair(c0, c1, y) implies !b0[y@].contains(digit@) by {
                                        CellIndex::lemma_flat(y);
                                        assert(cells@.contains(y));
                                        assert(masked(b0, cells@, mask@)[y@] == b0[y@]);
                                    }
                                }
                            }
                            if changed {
                                proof {
                                    let ccs = choose|ccs: Seq<usize>| #![trigger component_labels(g.adjacency(), ccs)]
                                        component_labels(g.adjacency(), ccs) && split_by(g.node_seq(), g.adjacency(), ccs, parts);
                                    assert(group_a@.contains(i));
                                    assert(group_b@.contains(j));
                                    lemma_coloring_sound(b0, digit@, g, ccs, parts, c, group_a@, group_b@, i as int, j as int, cells@);
                                    lemma_masked_digit(b0, cells@, digit@, |y: CellIndex| visible_pair(c0, c1, y));
                                    assert(two_coloring(parts[c].adjacency(), group_a@, group_b@));
                                    assert(parts[c].node_seq()[i as int] == c0 && parts[c].node_seq()[j as int] == c1);
                                    assert(opposite_sides(parts[c], c0, c1));
                                    assert(bilocation_parts(b0, digit@, parts));
                                    assert(coloring_applies(b0, digit@, c0, c1));
                                    lemma_split_parts_connected(g, ccs, parts, c, i as int, j as int);
                                    assert(i != j);
                                }
                                let highlights = coloring_highlights(graph, i, j, digit);
                                proof {
                                    let p = choose|p: Seq<usize>| #[trigger] shortest_between(graph.adjacency(), p, i as int, j as int) && highlights@ == seq![
                                        Highlight::Digit((graph.node_seq()[i as int], digit)),
                                        Highlight::Digit((graph.node_seq()[j as int], digit)),
                                    ] + chain_marks(graph.node_seq(), p);
                                    assert(shortest_between(parts[c].adjacency(), p, i as int, j as int));
                                    assert(coloring_marks(b0, digit@, c0, c1, highlights@));
                                    assert(graph.node_seq()[group_a@[a as int] as int] == c0);
                                    assert(graph.node_seq()[group_b@[b as int] as int] == c1);
                                    assert(linked_parts(parts)[gi as int] == *graph);
                                    assert(coloring_first_pair(b0, digit@, c0, c1));
                                }
                                return ControlFlow::Break(highlights);
                            }
                            b = b + 1;
                        }
                        a = a + 1;
                    }
                    proof {
                        use_type_invariant(graph);
                        graph.lemma_wf();
                        let pa = graph.adjacency();
                        let pn = graph.node_seq();
                        let f = Seq::new(n as nat, |x: int| group_a@.contains(x as usize));
                        assert forall|x: int, k: int| 0 <= x < pa.len() && 0 <= k < pa[x].len() implies f[x] != f[#[trigger] pa[x][k] as int] by {
                            let z = pa[x][k];
                            assert(group_a@.contains(x as usize) <==> group_b@.contains(z));
                            assert(group_a@.contains(z) <==> !group_b@.contains(z));
                        }
                        assert forall|q: Seq<usize>, a0: int, c0: int, y: CellIndex|
                            #![trigger chain_between(pa, q, a0, c0), visible_pair(pn[a0], pn[c0], y)]
                            chain_between(pa, q, a0, c0) && q.len() % 2 == 0 && visible_pair(pn[a0], pn[c0], y) implies !b0[y@].contains(digit@) by {
                            lemma_chain_parity(pa, f, q);
                            assert(a0 < n && c0 < n);
                            if group_a@.contains(a0 as usize) {
                                assert(!group_a@.contains(c0 as usize));
                                assert(group_b@.contains(c0 as usize));
                                let a2 = choose|a2: int| 0 <= a2 < group_a@.len() && group_a@[a2] == a0 as usize;
                                let b2 = choose|b2: int| 0 <= b2 < group_b@.len() && group_b@[b2] == c0 as usize;
                                assert(pair_clear(b0, digit@, pn[group_a@[a2] as int], pn[group_b@[b2] as int]));
                            } else {
                                assert(group_a@.contains(c0 as usize));
                                assert(group_b@.contains(a0 as usize));
                                let a2 = choose|a2: int| 0 <= a2 < group_a@.len() && group_a@[a2] == c0 as usize;
                                let b2 = choose|b2: int| 0 <= b2 < group_b@.len() && group_b@[b2] == a0 as usize;
                                assert(pair_clear(b0, digit@, pn[group_a@[a2] as int], pn[group_b@[b2] as int]));
                                assert(visible_pair(pn[c0], pn[a0], y));
                            }
                        }
                        assert(part_done(b0, digit@, *graph));
                    }
                },
            }
            gi = gi + 1;
        }
        proof {
            lemma_coloring_from_parts(b0, digit@, g, parts);
        }
        di = di + 1;
    }
    ControlFlow::Continue(())
}

} // verus!
