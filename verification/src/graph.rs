use vstd::prelude::*;

verus! {

/// Whether the `k`-th and `k + 1`-th entries of `p` are adjacent in `adj`.
pub open spec fn linked(adj: Seq<Seq<usize>>, p: Seq<usize>, k: int) -> bool {
    adj[p[k] as int].contains(p[k + 1])
}

/// A chain: a non-empty sequence of node numbers, each adjacent to the next.
pub open spec fn is_chain(adj: Seq<Seq<usize>>, p: Seq<usize>) -> bool {
    &&& p.len() >= 1
    &&& forall|k: int| 0 <= k < p.len() ==> (#[trigger] p[k]) < adj.len()
    &&& forall|k: int| 0 <= k < p.len() - 1 ==> #[trigger] linked(adj, p, k)
}

/// A chain from `i` to `j`.
pub open spec fn chain_between(adj: Seq<Seq<usize>>, p: Seq<usize>, i: int, j: int) -> bool {
    &&& is_chain(adj, p)
    &&& p[0] == i
    &&& p.last() == j
}

/// Some chain leads from `i` to `j`.
pub open spec fn connected(adj: Seq<Seq<usize>>, i: int, j: int) -> bool {
    exists|p: Seq<usize>| #[trigger] chain_between(adj, p, i, j)
}

/// Adjacency lists over nodes `0..adj.len()`: every neighbour is a node, no node is its own
/// neighbour, and the relation is symmetric.
pub open spec fn valid_adjacency(adj: Seq<Seq<usize>>) -> bool {
    forall|i: int, k: int| 0 <= i < adj.len() && 0 <= k < adj[i].len() ==> {
        &&& (#[trigger] adj[i][k]) < adj.len()
        &&& adj[i][k] != i
        &&& adj[adj[i][k] as int].contains(i as usize)
    }
}

/// The adjacency lists `edges` cut or padded with empty lists to `n` entries.
pub open spec fn adjacency_of(edges: Seq<Vec<usize>>, n: nat) -> Seq<Seq<usize>> {
    Seq::new(n, |i: int| if i < edges.len() { edges[i]@ } else { Seq::<usize>::empty() })
}

/// One of the two colours of a two-colouring.
#[derive(Clone, Copy, Debug, PartialEq, Eq, Structural)]
pub enum TwoColor {
    Red,
    Black,
}

impl TwoColor {
    /// The opposite colour.
    pub open spec fn flip(self) -> TwoColor {
        match self {
            TwoColor::Red => TwoColor::Black,
            TwoColor::Black => TwoColor::Red,
        }
    }

    /// The opposite colour.
    pub fn other(self) -> (r: TwoColor)
        ensures
            r == self.flip(),
    {
        match self {
            TwoColor::Black => TwoColor::Red,
            TwoColor::Red => TwoColor::Black,
        }
    }
}

/// `f` gives each node a side, and no edge joins two nodes of the same side.
pub open spec fn proper_coloring(adj: Seq<Seq<usize>>, f: Seq<bool>) -> bool {
    &&& f.len() == adj.len()
    &&& forall|i: int, k: int| 0 <= i < adj.len() && 0 <= k < adj[i].len() ==> f[i] != f[#[trigger] adj[i][k] as int]
}

/// The graph can be coloured with two colours so that every edge joins different colours.
pub open spec fn bipartite(adj: Seq<Seq<usize>>) -> bool {
    exists|f: Seq<bool>| proper_coloring(adj, f)
}

/// `s` is strictly increasing.
pub open spec fn increasing(s: Seq<usize>) -> bool {
    forall|a: int, b: int| 0 <= a < b < s.len() ==> s[a] < s[b]
}

/// `red` and `black` list, each in increasing order, the two sides of a proper two-colouring of
/// the nodes `0..adj.len()`.
pub open spec fn two_coloring(adj: Seq<Seq<usize>>, red: Seq<usize>, black: Seq<usize>) -> bool {
    &&& increasing(red)
    &&& increasing(black)
    &&& forall|k: int| 0 <= k < red.len() ==> (#[trigger] red[k]) < adj.len()
    &&& forall|k: int| 0 <= k < black.len() ==> (#[trigger] black[k]) < adj.len()
    &&& forall|i: usize| #![trigger red.contains(i)] #![trigger black.contains(i)] i < adj.len() ==> (red.contains(i) <==> !black.contains(i))
    &&& forall|i: int, k: int| 0 <= i < adj.len() && 0 <= k < adj[i].len() ==> (red.contains(i as usize) <==> black.contains(
        #[trigger] adj[i][k],
    ))
}

/// The number of nodes without a colour yet.
pub open spec fn count_uncolored(cs: Seq<Option<TwoColor>>) -> nat
    decreases cs.len(),
{
    if cs.len() == 0 {
        0
    } else {
        count_uncolored(cs.drop_last()) + if cs.last() is None { 1nat } else { 0nat }
    }
}

/// Colouring one more node lowers the number of uncoloured nodes by one.
proof fn lemma_count_uncolored(cs: Seq<Option<TwoColor>>, i: int, c: TwoColor)
    requires
        0 <= i < cs.len(),
        cs[i] is None,
    ensures
        count_uncolored(cs.update(i, Some(c))) + 1 == count_uncolored(cs),
    decreases cs.len(),
{
    let u = cs.update(i, Some(c));
    if i == cs.len() - 1 {
        assert(u.drop_last() =~= cs.drop_last());
    } else {
        assert(u.drop_last() =~= cs.drop_last().update(i, Some(c)));
        lemma_count_uncolored(cs.drop_last(), i, c);
    }
}

/// In every proper two-colouring `f`, each coloured node sits on the side of its root that its
/// colour says.
pub open spec fn colors_forced(adj: Seq<Seq<usize>>, cs: Seq<Option<TwoColor>>, roots: Seq<int>) -> bool {
    forall|f: Seq<bool>, i: int| #![trigger proper_coloring(adj, f), cs[i]]
        proper_coloring(adj, f) && 0 <= i < cs.len() && cs[i] is Some ==> f[i] == (f[roots[i]] == (cs[i] == Some(TwoColor::Red)))
}

/// Every coloured node of a finished component has its neighbours coloured, with the other colour
/// and the same root.
pub open spec fn colors_closed(adj: Seq<Seq<usize>>, cs: Seq<Option<TwoColor>>, roots: Seq<int>, cur: int) -> bool {
    forall|i: int, k: int| 0 <= i < cs.len() && 0 <= k < adj[i].len() && cs[i] is Some && roots[i] != cur ==> {
        &&& cs[#[trigger] adj[i][k] as int] == Some(cs[i]->0.flip())
        &&& roots[adj[i][k] as int] == roots[i]
    }
}

/// Every coloured node of the current component has each neighbour either coloured with the other
/// colour or waiting on the stack with it.
pub open spec fn colors_pending(adj: Seq<Seq<usize>>, cs: Seq<Option<TwoColor>>, roots: Seq<int>, cur: int, stack: Seq<(usize, TwoColor)>) -> bool {
    forall|i: int, k: int| 0 <= i < cs.len() && 0 <= k < adj[i].len() && cs[i] is Some && roots[i] == cur ==> {
        ||| cs[#[trigger] adj[i][k] as int] == Some(cs[i]->0.flip())
        ||| stack.contains((adj[i][k], cs[i]->0.flip()))
    }
}

/// Each stack entry was pushed by a coloured neighbour of the current component with the other
/// colour.
pub open spec fn stack_sourced(adj: Seq<Seq<usize>>, cs: Seq<Option<TwoColor>>, roots: Seq<int>, cur: int, stack: Seq<(usize, TwoColor)>) -> bool {
    forall|s: int| 0 <= s < stack.len() ==> {
        &&& (#[trigger] stack[s]).0 < cs.len()
        &&& exists|k: int| 0 <= k < cs.len() && cs[k] == Some(stack[s].1.flip()) && roots[k] == cur && #[trigger] adj[k].contains(stack[s].0)
    }
}

/// `p` is a chain from `i` to `j` with the fewest nodes, and of those the first in breadth-first
/// order.
pub open spec fn shortest_between(adj: Seq<Seq<usize>>, p: Seq<usize>, i: int, j: int) -> bool {
    &&& chain_between(adj, p, i, j)
    &&& forall|q: Seq<usize>| #[trigger] chain_between(adj, q, i, j) ==> p.len() <= q.len()
    &&& forall|q: Seq<usize>| #[trigger] chain_between(adj, q, i, j) && q.len() == p.len() ==> !chain_before(adj, q, p)
}

/// Some split of the nodes of `g` into red and black, with every edge joining the two, puts a
/// node holding `x` on the red side and a node holding `z` on the black side.
pub open spec fn opposite_sides<Node>(g: Graph<Node>, x: Node, z: Node) -> bool {
    exists|red: Seq<usize>, black: Seq<usize>, i: int, j: int|
        #![trigger two_coloring(g.adjacency(), red, black), g.node_seq()[i], g.node_seq()[j]]
        two_coloring(g.adjacency(), red, black) && 0 <= i < g.node_seq().len() && 0 <= j < g.node_seq().len() && red.contains(i as usize)
            && black.contains(j as usize) && g.node_seq()[i] == x && g.node_seq()[j] == z
}

/// Node `i` comes first in its connected component: no lower node is connected to it.
pub open spec fn first_in_component(adj: Seq<Seq<usize>>, i: int) -> bool {
    forall|j: int| 0 <= j < i ==> !#[trigger] connected(adj, j, i)
}

/// Every coloured node was reached from a red root no higher than itself, which is its own root.
pub open spec fn colors_rooted(adj: Seq<Seq<usize>>, cs: Seq<Option<TwoColor>>, roots: Seq<int>) -> bool {
    forall|i: int| 0 <= i < cs.len() && (#[trigger] cs[i]) is Some ==> {
        &&& 0 <= roots[i] <= i
        &&& connected(adj, roots[i], i)
        &&& cs[roots[i]] == Some(TwoColor::Red)
        &&& roots[roots[i]] == roots[i]
    }
}

/// Colouring a new root red keeps every coloured node rooted.
proof fn lemma_root_start(adj: Seq<Seq<usize>>, cs: Seq<Option<TwoColor>>, roots: Seq<int>, cur: int)
    requires
        cs.len() == adj.len(),
        roots.len() == adj.len(),
        adj.len() <= usize::MAX,
        0 <= cur < adj.len(),
        cs[cur] is None,
        colors_rooted(adj, cs, roots),
        forall|i: int| 0 <= i < cs.len() && (#[trigger] cs[i]) is Some ==> 0 <= roots[i] < cur,
    ensures
        colors_rooted(adj, cs.update(cur, Some(TwoColor::Red)), roots.update(cur, cur)),
{
    let cs2 = cs.update(cur, Some(TwoColor::Red));
    let roots2 = roots.update(cur, cur);
    lemma_connected_self(adj, cur);
    assert forall|i: int| 0 <= i < cs2.len() && (#[trigger] cs2[i]) is Some implies {
        &&& 0 <= roots2[i] <= i
        &&& connected(adj, roots2[i], i)
        &&& cs2[roots2[i]] == Some(TwoColor::Red)
        &&& roots2[roots2[i]] == roots2[i]
    } by {
        if i != cur {
            assert(cs[i] is Some);
            assert(roots[i] != cur);
        }
    }
}

/// Colouring a node popped from the stack of the walk from `cur` keeps every coloured node rooted.
proof fn lemma_root_step(adj: Seq<Seq<usize>>, cs: Seq<Option<TwoColor>>, roots: Seq<int>, cur: int, before: Seq<(usize, TwoColor)>, i: usize, c: TwoColor)
    requires
        valid_adjacency(adj),
        cs.len() == adj.len(),
        roots.len() == adj.len(),
        0 <= cur < adj.len(),
        before.len() > 0,
        before.last() == (i, c),
        i < cs.len(),
        cs[i as int] is None,
        cs[cur] is Some,
        roots[cur] == cur,
        forall|j: int| 0 <= j < cur ==> (#[trigger] cs[j]) is Some,
        stack_sourced(adj, cs, roots, cur, before),
        colors_rooted(adj, cs, roots),
    ensures
        colors_rooted(adj, cs.update(i as int, Some(c)), roots.update(i as int, cur)),
{
    let cs2 = cs.update(i as int, Some(c));
    let roots2 = roots.update(i as int, cur);
    let last = before.len() - 1;
    assert(before[last] == (i, c));
    let k = choose|k: int| 0 <= k < cs.len() && cs[k] == Some(before[last].1.flip()) && roots[k] == cur && #[trigger] adj[k].contains(before[last].0);
    let t = choose|t: int| 0 <= t < adj[k].len() && adj[k][t] == i;
    lemma_connected_step(adj, cur, k, t);
    assert(i as int >= cur) by {
        if (i as int) < cur {
            assert(cs[i as int] is Some);
        }
    }
    assert forall|x: int| 0 <= x < cs2.len() && (#[trigger] cs2[x]) is Some implies {
        &&& 0 <= roots2[x] <= x
        &&& connected(adj, roots2[x], x)
        &&& cs2[roots2[x]] == Some(TwoColor::Red)
        &&& roots2[roots2[x]] == roots2[x]
    } by {
        if x != i as int {
            assert(cs[x] is Some);
            assert(cs[roots[x]] is Some);
            assert(roots[x] != i as int);
        } else {
            assert(cs[cur] == Some(TwoColor::Red));
        }
    }
}

/// Colouring the root of a new component red and stacking its neighbours as black sets up the
/// walk of that component.
proof fn lemma_start_component(adj: Seq<Seq<usize>>, cs: Seq<Option<TwoColor>>, roots: Seq<int>, cur: int)
    requires
        valid_adjacency(adj),
        cs.len() == adj.len(),
        roots.len() == adj.len(),
        0 <= cur < adj.len(),
        cs[cur] is None,
        colors_closed(adj, cs, roots, -1),
        colors_forced(adj, cs, roots),
        forall|i: int| 0 <= i < cs.len() && (#[trigger] cs[i]) is Some ==> 0 <= roots[i] < cur,
    ensures
        ({
            let cs2 = cs.update(cur, Some(TwoColor::Red));
            let roots2 = roots.update(cur, cur);
            let st = adj[cur].map_values(|j: usize| (j, TwoColor::Black));
            &&& colors_closed(adj, cs2, roots2, cur)
            &&& colors_pending(adj, cs2, roots2, cur, st)
            &&& stack_sourced(adj, cs2, roots2, cur, st)
            &&& colors_forced(adj, cs2, roots2)
        }),
{
    let cs2 = cs.update(cur, Some(TwoColor::Red));
    let roots2 = roots.update(cur, cur);
    let st = adj[cur].map_values(|j: usize| (j, TwoColor::Black));
    assert forall|i: int, k: int| 0 <= i < cs2.len() && 0 <= k < adj[i].len() && cs2[i] is Some && roots2[i] != cur implies {
        &&& cs2[#[trigger] adj[i][k] as int] == Some(cs2[i]->0.flip())
        &&& roots2[adj[i][k] as int] == roots2[i]
    } by {
        assert(cs[i] is Some);
        assert(cs[adj[i][k] as int] is Some);
    }
    assert forall|i: int, k: int| 0 <= i < cs2.len() && 0 <= k < adj[i].len() && cs2[i] is Some && roots2[i] == cur implies {
        ||| cs2[#[trigger] adj[i][k] as int] == Some(cs2[i]->0.flip())
        ||| st.contains((adj[i][k], cs2[i]->0.flip()))
    } by {
        if i != cur {
            assert(cs[i] is Some);
        }
        assert(st[k] == (adj[i][k], TwoColor::Black));
    }
    assert forall|s: int| 0 <= s < st.len() implies {
        &&& (#[trigger] st[s]).0 < cs2.len()
        &&& exists|k: int| 0 <= k < cs2.len() && cs2[k] == Some(st[s].1.flip()) && roots2[k] == cur && #[trigger] adj[k].contains(st[s].0)
    } by {
        assert(st[s].0 == adj[cur][s]);
        assert(adj[cur].contains(st[s].0));
    }
    assert forall|f: Seq<bool>, i: int| proper_coloring(adj, f) && 0 <= i < cs2.len() && cs2[i] is Some
        implies f[i] == (f[roots2[i]] == (cs2[i] == Some(TwoColor::Red))) by {
        if i != cur {
            assert(cs[i] is Some);
        }
    }
}

/// Popping an entry whose node is uncoloured, colouring it and stacking its neighbours with the
/// other colour keeps the walk's invariants.
proof fn lemma_color_step(adj: Seq<Seq<usize>>, cs: Seq<Option<TwoColor>>, roots: Seq<int>, cur: int, before: Seq<(usize, TwoColor)>, i: usize, c: TwoColor)
    requires
        valid_adjacency(adj),
        cs.len() == adj.len(),
        roots.len() == adj.len(),
        0 <= cur < adj.len(),
        cs.len() <= usize::MAX,
        before.len() > 0,
        before.last() == (i, c),
        i < cs.len(),
        cs[i as int] is None,
        colors_closed(adj, cs, roots, cur),
        colors_pending(adj, cs, roots, cur, before),
        stack_sourced(adj, cs, roots, cur, before),
        colors_forced(adj, cs, roots),
    ensures
        ({
            let cs2 = cs.update(i as int, Some(c));
            let roots2 = roots.update(i as int, cur);
            let st = before.drop_last() + adj[i as int].map_values(|j: usize| (j, c.flip()));
            &&& colors_closed(adj, cs2, roots2, cur)
            &&& colors_pending(adj, cs2, roots2, cur, st)
            &&& stack_sourced(adj, cs2, roots2, cur, st)
            &&& colors_forced(adj, cs2, roots2)
        }),
{
    let cs2 = cs.update(i as int, Some(c));
    let roots2 = roots.update(i as int, cur);
    let rest = before.drop_last();
    let pushed = adj[i as int].map_values(|j: usize| (j, c.flip()));
    let st = rest + pushed;
    let last = before.len() - 1;
    assert forall|x: int, k: int| 0 <= x < cs2.len() && 0 <= k < adj[x].len() && cs2[x] is Some && roots2[x] != cur implies {
        &&& cs2[#[trigger] adj[x][k] as int] == Some(cs2[x]->0.flip())
        &&& roots2[adj[x][k] as int] == roots2[x]
    } by {
        assert(x != i);
        assert(cs[adj[x][k] as int] is Some);
    }
    assert forall|x: int, k: int| 0 <= x < cs2.len() && 0 <= k < adj[x].len() && cs2[x] is Some && roots2[x] == cur implies {
        ||| cs2[#[trigger] adj[x][k] as int] == Some(cs2[x]->0.flip())
        ||| st.contains((adj[x][k], cs2[x]->0.flip()))
    } by {
        let y = adj[x][k];
        if x == i {
            assert(st[rest.len() + k] == (y, c.flip()));
        } else {
            assert(cs[x] is Some && roots[x] == cur);
            if cs[y as int] == Some(cs[x]->0.flip()) {
                assert(y != i);
            } else {
                let s = choose|s: int| 0 <= s < before.len() && before[s] == (y, cs[x]->0.flip());
                if s == last {
                    assert(y == i && c == cs[x]->0.flip());
                } else {
                    assert(st[s] == before[s]);
                }
            }
        }
    }
    assert forall|s: int| 0 <= s < st.len() implies {
        &&& (#[trigger] st[s]).0 < cs2.len()
        &&& exists|k: int| 0 <= k < cs2.len() && cs2[k] == Some(st[s].1.flip()) && roots2[k] == cur && #[trigger] adj[k].contains(st[s].0)
    } by {
        if s < rest.len() {
            assert(st[s] == before[s]);
            let k = choose|k: int| 0 <= k < cs.len() && cs[k] == Some(before[s].1.flip()) && roots[k] == cur && #[trigger] adj[k].contains(before[s].0);
            assert(k != i);
            assert(cs2[k] == Some(st[s].1.flip()) && roots2[k] == cur && adj[k].contains(st[s].0));
        } else {
            let t = s - rest.len();
            assert(st[s] == (adj[i as int][t], c.flip()));
            assert(adj[i as int].contains(st[s].0));
            assert(cs2[i as int] == Some(st[s].1.flip()));
        }
    }
    assert(before[last] == (i, c));
    let k0 = choose|k: int| 0 <= k < cs.len() && cs[k] == Some(before[last].1.flip()) && roots[k] == cur && #[trigger] adj[k].contains(before[last].0);
    assert forall|f: Seq<bool>, x: int| proper_coloring(adj, f) && 0 <= x < cs2.len() && cs2[x] is Some
        implies f[x] == (f[roots2[x]] == (cs2[x] == Some(TwoColor::Red))) by {
        if x == i {
            assert(cs[k0] is Some);
            assert(f[k0] == (f[roots[k0]] == (cs[k0] == Some(TwoColor::Red))));
            let t = choose|t: int| 0 <= t < adj[k0].len() && adj[k0][t] == i;
            assert(f[k0] != f[adj[k0][t] as int]);
        } else {
            assert(cs[x] is Some);
        }
    }
}

/// Popping an entry whose node already has the expected colour keeps the walk's invariants.
proof fn lemma_revisit_step(adj: Seq<Seq<usize>>, cs: Seq<Option<TwoColor>>, roots: Seq<int>, cur: int, before: Seq<(usize, TwoColor)>, i: usize, c: TwoColor)
    requires
        before.len() > 0,
        before.last() == (i, c),
        i < cs.len(),
        cs[i as int] == Some(c),
        colors_pending(adj, cs, roots, cur, before),
        stack_sourced(adj, cs, roots, cur, before),
    ensures
        colors_pending(adj, cs, roots, cur, before.drop_last()),
        stack_sourced(adj, cs, roots, cur, before.drop_last()),
{
    let rest = before.drop_last();
    let last = before.len() - 1;
    assert forall|x: int, k: int| 0 <= x < cs.len() && 0 <= k < adj[x].len() && cs[x] is Some && roots[x] == cur implies {
        ||| cs[#[trigger] adj[x][k] as int] == Some(cs[x]->0.flip())
        ||| rest.contains((adj[x][k], cs[x]->0.flip()))
    } by {
        let y = adj[x][k];
        if cs[y as int] != Some(cs[x]->0.flip()) {
            let s = choose|s: int| 0 <= s < before.len() && before[s] == (y, cs[x]->0.flip());
            if s != last {
                assert(rest[s] == before[s]);
            }
        }
    }
    assert forall|s: int| 0 <= s < rest.len() implies {
        &&& (#[trigger] rest[s]).0 < cs.len()
        &&& exists|k: int| 0 <= k < cs.len() && cs[k] == Some(rest[s].1.flip()) && roots[k] == cur && #[trigger] adj[k].contains(rest[s].0)
    } by {
        assert(rest[s] == before[s]);
    }
}

/// An entry that finds its node coloured the same as the neighbour that stacked it shows an edge
/// whose ends every proper two-colouring would put on one side: no such colouring exists.
proof fn lemma_conflict(adj: Seq<Seq<usize>>, cs: Seq<Option<TwoColor>>, roots: Seq<int>, cur: int, before: Seq<(usize, TwoColor)>, i: usize, c: TwoColor)
    requires
        valid_adjacency(adj),
        cs.len() == adj.len(),
        roots.len() == adj.len(),
        cs.len() <= usize::MAX,
        before.len() > 0,
        before.last() == (i, c),
        i < cs.len(),
        cs[i as int] is Some,
        cs[i as int] != Some(c),
        colors_closed(adj, cs, roots, cur),
        stack_sourced(adj, cs, roots, cur, before),
        colors_forced(adj, cs, roots),
    ensures
        !bipartite(adj),
{
    let last = before.len() - 1;
    assert(before[last] == (i, c));
    let k = choose|k: int| 0 <= k < cs.len() && cs[k] == Some(before[last].1.flip()) && roots[k] == cur && #[trigger] adj[k].contains(before[last].0);
    let t = choose|t: int| 0 <= t < adj[k].len() && adj[k][t] == i;
    assert(adj[i as int].contains(k as usize));
    let t2 = choose|t2: int| 0 <= t2 < adj[i as int].len() && adj[i as int][t2] == k as usize;
    if roots[i as int] != cur {
        assert(roots[adj[i as int][t2] as int] == roots[i as int]);
    }
    assert(cs[i as int] == cs[k]);
    assert forall|f: Seq<bool>| !proper_coloring(adj, f) by {
        if proper_coloring(adj, f) {
            assert(f[k] != f[adj[k][t] as int]);
            assert(f[i as int] == (f[roots[i as int]] == (cs[i as int] == Some(TwoColor::Red))));
            assert(f[k] == (f[roots[k]] == (cs[k] == Some(TwoColor::Red))));
        }
    }
}

/// With the stack empty, the current component is finished: every coloured node has its
/// neighbours coloured with the other colour and the same root.
proof fn lemma_finish_component(adj: Seq<Seq<usize>>, cs: Seq<Option<TwoColor>>, roots: Seq<int>, cur: int)
    requires
        valid_adjacency(adj),
        cs.len() == adj.len(),
        roots.len() == adj.len(),
        cs.len() <= usize::MAX,
        cur >= 0,
        forall|i: int| 0 <= i < cs.len() && (#[trigger] cs[i]) is Some ==> 0 <= roots[i] <= cur,
        colors_closed(adj, cs, roots, cur),
        colors_pending(adj, cs, roots, cur, Seq::empty()),
    ensures
        colors_closed(adj, cs, roots, -1),
{
    assert forall|x: int, k: int| 0 <= x < cs.len() && 0 <= k < adj[x].len() && cs[x] is Some && roots[x] != -1 implies {
        &&& cs[#[trigger] adj[x][k] as int] == Some(cs[x]->0.flip())
        &&& roots[adj[x][k] as int] == roots[x]
    } by {
        if roots[x] == cur {
            let y = adj[x][k];
            assert(cs[y as int] == Some(cs[x]->0.flip()));
            if roots[y as int] != cur {
                assert(adj[y as int].contains(x as usize));
                let t = choose|t: int| 0 <= t < adj[y as int].len() && adj[y as int][t] == x as usize;
                assert(roots[adj[y as int][t] as int] == roots[y as int]);
            }
        }
    }
}

/// Once every node is coloured and every edge joins the two colours, the red and the black node
/// lists form a two-colouring, and the graph is bipartite.
proof fn lemma_sides(adj: Seq<Seq<usize>>, cs: Seq<Option<TwoColor>>, roots: Seq<int>, red: Seq<usize>, black: Seq<usize>)
    requires
        valid_adjacency(adj),
        cs.len() == adj.len(),
        roots.len() == adj.len(),
        cs.len() <= usize::MAX,
        forall|j: int| 0 <= j < cs.len() ==> (#[trigger] cs[j]) is Some,
        forall|j: int| 0 <= j < cs.len() && (#[trigger] cs[j]) is Some ==> 0 <= roots[j],
        colors_closed(adj, cs, roots, -1),
        increasing(red),
        increasing(black),
        forall|k: int| 0 <= k < red.len() ==> (#[trigger] red[k]) < cs.len() && cs[red[k] as int] == Some(TwoColor::Red),
        forall|k: int| 0 <= k < black.len() ==> (#[trigger] black[k]) < cs.len() && cs[black[k] as int] == Some(TwoColor::Black),
        forall|j: usize| j < cs.len() && cs[j as int] == Some(TwoColor::Red) ==> red.contains(j),
        forall|j: usize| j < cs.len() && cs[j as int] == Some(TwoColor::Black) ==> black.contains(j),
    ensures
        two_coloring(adj, red, black),
        bipartite(adj),
{
    assert forall|i: usize| #![trigger red.contains(i)] #![trigger black.contains(i)] i < adj.len() implies (red.contains(i) <==> !black.contains(i)) by {
        assert(cs[i as int] is Some);
        let ci = cs[i as int]->0;
        if ci == TwoColor::Red {
            assert(red.contains(i));
        } else {
            assert(ci == TwoColor::Black);
            assert(cs[i as int] == Some(TwoColor::Black));
            assert(black.contains(i));
        }
        if red.contains(i) {
            let t = choose|t: int| 0 <= t < red.len() && red[t] == i;
            assert(cs[red[t] as int] == Some(TwoColor::Red));
            if black.contains(i) {
                let u = choose|u: int| 0 <= u < black.len() && black[u] == i;
                assert(cs[black[u] as int] == Some(TwoColor::Black));
            }
        }
    }
    assert forall|i: int, k: int| 0 <= i < adj.len() && 0 <= k < adj[i].len() implies (red.contains(i as usize) <==> black.contains(
        #[trigger] adj[i][k],
    )) by {
        let y = adj[i][k];
        assert(cs[i] is Some);
        assert(cs[y as int] == Some(cs[i]->0.flip()));
        if red.contains(i as usize) {
            let t = choose|t: int| 0 <= t < red.len() && red[t] == i as usize;
            assert(cs[red[t] as int] == Some(TwoColor::Red));
        }
        if black.contains(y) {
            let u = choose|u: int| 0 <= u < black.len() && black[u] == y;
            assert(cs[black[u] as int] == Some(TwoColor::Black));
        }
    }
    let f = Seq::new(cs.len(), |j: int| cs[j] == Some(TwoColor::Red));
    assert forall|i: int, k: int| 0 <= i < adj.len() && 0 <= k < adj[i].len() implies f[i] != f[#[trigger] adj[i][k] as int] by {
        assert(cs[i] is Some);
        assert(cs[adj[i][k] as int] == Some(cs[i]->0.flip()));
    }
    assert(proper_coloring(adj, f));
}

/// `ccs` labels the nodes by connected component: two nodes share a label exactly when a chain
/// joins them, and labels are numbered in the order of each component's first node.
pub open spec fn component_labels(adj: Seq<Seq<usize>>, ccs: Seq<usize>) -> bool {
    &&& ccs.len() == adj.len()
    &&& forall|i: int, j: int| 0 <= i < adj.len() && 0 <= j < adj.len() ==> (ccs[i] == ccs[j] <==> #[trigger] connected(adj, i, j))
    &&& forall|i: int| 0 <= i < ccs.len() && #[trigger] ccs[i] > 0 ==> exists|j: int| 0 <= j < i && ccs[j] + 1 == ccs[i]
}

/// A single node is a chain to itself.
proof fn lemma_connected_self(adj: Seq<Seq<usize>>, i: int)
    requires
        0 <= i < adj.len(),
        adj.len() <= usize::MAX,
    ensures
        connected(adj, i, i),
{
    let p = seq![i as usize];
    assert(chain_between(adj, p, i, i));
}

/// A chain to `i` extends by any neighbour of `i`.
proof fn lemma_connected_step(adj: Seq<Seq<usize>>, r: int, i: int, k: int)
    requires
        valid_adjacency(adj),
        0 <= i < adj.len(),
        0 <= k < adj[i].len(),
        connected(adj, r, i),
    ensures
        connected(adj, r, adj[i][k] as int),
{
    let p = choose|p: Seq<usize>| #[trigger] chain_between(adj, p, r, i);
    let q = p.push(adj[i][k]);
    assert forall|t: int| 0 <= t < q.len() - 1 implies #[trigger] linked(adj, q, t) by {
        if t < p.len() - 1 {
            assert(linked(adj, p, t));
        } else {
            assert(q[t] == i);
        }
    }
    assert forall|t: int| 0 <= t < q.len() implies (#[trigger] q[t]) < adj.len() by {
        if t < p.len() {
            assert(q[t] == p[t]);
        }
    }
    assert(chain_between(adj, q, r, adj[i][k] as int));
}

/// Chains can be walked backwards.
proof fn lemma_connected_symmetric(adj: Seq<Seq<usize>>, i: int, j: int)
    requires
        valid_adjacency(adj),
        connected(adj, i, j),
    ensures
        connected(adj, j, i),
{
    let p = choose|p: Seq<usize>| #[trigger] chain_between(adj, p, i, j);
    let q = p.reverse();
    let n = p.len();
    assert forall|t: int| 0 <= t < q.len() - 1 implies #[trigger] linked(adj, q, t) by {
        assert(linked(adj, p, n - 2 - t));
        let a = p[n - 2 - t];
        let b = p[n - 1 - t];
        let k = choose|k: int| 0 <= k < adj[a as int].len() && adj[a as int][k] == b;
        assert(adj[b as int].contains(a));
    }
    assert forall|t: int| 0 <= t < q.len() implies (#[trigger] q[t]) < adj.len() by {
        assert(q[t] == p[n - 1 - t]);
    }
    assert(chain_between(adj, q, j, i));
}

/// Chains join end to end.
proof fn lemma_connected_transitive(adj: Seq<Seq<usize>>, i: int, j: int, l: int)
    requires
        connected(adj, i, j),
        connected(adj, j, l),
    ensures
        connected(adj, i, l),
{
    let p = choose|p: Seq<usize>| #[trigger] chain_between(adj, p, i, j);
    let q = choose|q: Seq<usize>| #[trigger] chain_between(adj, q, j, l);
    let w = p + q.drop_first();
    assert forall|t: int| 0 <= t < w.len() implies (#[trigger] w[t]) < adj.len() by {
        if t >= p.len() {
            assert(w[t] == q[t - p.len() + 1]);
        }
    }
    assert forall|t: int| 0 <= t < w.len() - 1 implies #[trigger] linked(adj, w, t) by {
        if t < p.len() - 1 {
            assert(linked(adj, p, t));
        } else if t == p.len() - 1 {
            assert(linked(adj, q, 0));
            assert(w[t] == j);
            assert(w[t + 1] == q[1]);
        } else {
            let u = t - p.len() + 1;
            assert(linked(adj, q, u));
            assert(w[t] == q[u]);
            assert(w[t + 1] == q[u + 1]);
        }
    }
    if q.len() == 1 {
        assert(w.last() == p.last());
    } else {
        assert(w.last() == q.last());
    }
    assert(chain_between(adj, w, i, l));
}

/// When every node's neighbours carry its label, a chain keeps the label of its start.
proof fn lemma_chain_keeps_label(adj: Seq<Seq<usize>>, ccs: Seq<usize>, p: Seq<usize>)
    requires
        ccs.len() == adj.len(),
        is_chain(adj, p),
        forall|i: int, k: int| 0 <= i < adj.len() && 0 <= k < adj[i].len() ==> ccs[#[trigger] adj[i][k] as int] == ccs[i],
    ensures
        ccs[p.last() as int] == ccs[p[0] as int],
    decreases p.len(),
{
    if p.len() > 1 {
        let q = p.drop_last();
        assert forall|t: int| 0 <= t < q.len() - 1 implies #[trigger] linked(adj, q, t) by {
            assert(linked(adj, p, t));
        }
        assert forall|t: int| 0 <= t < q.len() implies (#[trigger] q[t]) < adj.len() by {
            assert(q[t] == p[t]);
        }
        lemma_chain_keeps_label(adj, ccs, q);
        let a = p[p.len() - 2];
        assert(linked(adj, p, p.len() - 2));
        let k = choose|k: int| 0 <= k < adj[a as int].len() && adj[a as int][k] == p.last();
        assert(ccs[adj[a as int][k] as int] == ccs[a as int]);
    }
}

/// The number of `false` entries.
pub open spec fn count_false(s: Seq<bool>) -> nat
    decreases s.len(),
{
    if s.len() == 0 {
        0
    } else {
        count_false(s.drop_last()) + if s.last() { 0nat } else { 1nat }
    }
}

/// Marking one more entry lowers the number of `false` entries by one.
proof fn lemma_count_false(s: Seq<bool>, i: int)
    requires
        0 <= i < s.len(),
        !s[i],
    ensures
        count_false(s.update(i, true)) + 1 == count_false(s),
    decreases s.len(),
{
    let u = s.update(i, true);
    if i == s.len() - 1 {
        assert(u.drop_last() =~= s.drop_last());
    } else {
        assert(u.drop_last() =~= s.drop_last().update(i, true));
        lemma_count_false(s.drop_last(), i);
    }
}

/// Every finished node (one whose label is not `cc`) has its neighbours finished with its label.
pub open spec fn cc_closed(adj: Seq<Seq<usize>>, done: Seq<bool>, ccs: Seq<usize>, cc: int) -> bool {
    forall|i: int, k: int| 0 <= i < done.len() && 0 <= k < adj[i].len() && done[i] && ccs[i] != cc ==> {
        &&& done[#[trigger] adj[i][k] as int]
        &&& ccs[adj[i][k] as int] == ccs[i]
    }
}

/// Every node of the current component has each neighbour either visited or on the stack.
pub open spec fn cc_pending(adj: Seq<Seq<usize>>, done: Seq<bool>, ccs: Seq<usize>, cc: int, stack: Seq<usize>) -> bool {
    forall|i: int, k: int| 0 <= i < done.len() && 0 <= k < adj[i].len() && done[i] && ccs[i] == cc ==> {
        ||| done[#[trigger] adj[i][k] as int]
        ||| stack.contains(adj[i][k])
    }
}

/// The facts that hold while the walk of component `cc`, started at `root`, goes on.
pub open spec fn cc_walk(adj: Seq<Seq<usize>>, done: Seq<bool>, ccs: Seq<usize>, roots: Seq<int>, cc: int, root: int) -> bool {
    &&& valid_adjacency(adj)
    &&& adj.len() <= usize::MAX
    &&& done.len() == adj.len()
    &&& ccs.len() == adj.len()
    &&& 0 <= cc <= root < adj.len()
    &&& roots.len() == cc + 1
    &&& roots[cc] == root
    &&& forall|i: int| 0 <= i < root ==> #[trigger] done[i]
    &&& forall|k: int| 0 <= k < cc ==> 0 <= #[trigger] roots[k] < root && done[roots[k]] && ccs[roots[k]] == k
    &&& forall|i: int| 0 <= i < done.len() && #[trigger] done[i] ==> {
        &&& ccs[i] <= cc
        &&& ccs[i] <= i
        &&& connected(adj, roots[ccs[i] as int], i)
        &&& ccs[i] > 0 ==> exists|j: int| 0 <= j < i && done[j] && ccs[j] + 1 == ccs[i]
    }
    &&& cc_closed(adj, done, ccs, cc)
}

/// Every stacked node is a node connected to `root`.
pub open spec fn cc_stack(adj: Seq<Seq<usize>>, root: int, stack: Seq<usize>) -> bool {
    forall|s: int| 0 <= s < stack.len() ==> (#[trigger] stack[s]) < adj.len() && connected(adj, root, stack[s] as int)
}

/// Visiting a stacked node that was not visited yet labels it with the current component and
/// stacks its neighbours.
proof fn lemma_cc_visit(adj: Seq<Seq<usize>>, done: Seq<bool>, ccs: Seq<usize>, roots: Seq<int>, cc: int, root: int, before: Seq<usize>, x: usize)
    requires
        cc_walk(adj, done, ccs, roots, cc, root),
        cc_pending(adj, done, ccs, cc, before),
        cc_stack(adj, root, before),
        before.len() > 0,
        before.last() == x,
        !done[x as int],
    ensures
        ({
            let done2 = done.update(x as int, true);
            let ccs2 = ccs.update(x as int, cc as usize);
            let st = before.drop_last() + adj[x as int];
            &&& cc_walk(adj, done2, ccs2, roots, cc, root)
            &&& cc_pending(adj, done2, ccs2, cc, st)
            &&& cc_stack(adj, root, st)
        }),
{
    let done2 = done.update(x as int, true);
    let ccs2 = ccs.update(x as int, cc as usize);
    let rest = before.drop_last();
    let st = rest + adj[x as int];
    let last = before.len() - 1;
    assert(before[last] == x);
    assert(x >= root) by {
        if x < root {
            assert(done[x as int]);
        }
    }
    assert forall|i: int| 0 <= i < done2.len() && #[trigger] done2[i] implies {
        &&& ccs2[i] <= cc
        &&& ccs2[i] <= i
        &&& connected(adj, roots[ccs2[i] as int], i)
        &&& ccs2[i] > 0 ==> exists|j: int| 0 <= j < i && done2[j] && ccs2[j] + 1 == ccs2[i]
    } by {
        if i == x {
            if cc > 0 {
                let j = roots[cc - 1];
                assert(done[j] && ccs[j] == cc - 1);
                assert(done2[j] && ccs2[j] + 1 == ccs2[i]);
            }
        } else {
            assert(done[i]);
            if ccs[i] > 0 {
                let j = choose|j: int| 0 <= j < i && done[j] && ccs[j] + 1 == ccs[i];
                assert(done2[j] && ccs2[j] + 1 == ccs2[i]);
            }
        }
    }
    assert forall|i: int, k: int| 0 <= i < done2.len() && 0 <= k < adj[i].len() && done2[i] && ccs2[i] != cc implies {
        &&& done2[#[trigger] adj[i][k] as int]
        &&& ccs2[adj[i][k] as int] == ccs2[i]
    } by {
        assert(i != x);
        assert(done[adj[i][k] as int]);
    }
    assert forall|k: int| 0 <= k < cc implies 0 <= #[trigger] roots[k] < root && done2[roots[k]] && ccs2[roots[k]] == k by {
        assert(done[roots[k]]);
    }
    assert forall|i: int| 0 <= i < root implies #[trigger] done2[i] by {
        assert(done[i]);
    }
    assert forall|i: int, k: int| 0 <= i < done2.len() && 0 <= k < adj[i].len() && done2[i] && ccs2[i] == cc implies {
        ||| done2[#[trigger] adj[i][k] as int]
        ||| st.contains(adj[i][k])
    } by {
        let y = adj[i][k];
        if i == x {
            assert(st[rest.len() + k] == y);
        } else if !done[y as int] {
            let s = choose|s: int| 0 <= s < before.len() && before[s] == y;
            if s != last {
                assert(st[s] == before[s]);
            }
        }
    }
    assert forall|s: int| 0 <= s < st.len() implies (#[trigger] st[s]) < adj.len() && connected(adj, root, st[s] as int) by {
        if s < rest.len() {
            assert(st[s] == before[s]);
        } else {
            lemma_connected_step(adj, root, x as int, s - rest.len());
        }
    }
}

/// Popping a node that was visited already keeps the walk's facts.
proof fn lemma_cc_revisit(adj: Seq<Seq<usize>>, done: Seq<bool>, ccs: Seq<usize>, cc: int, root: int, before: Seq<usize>, x: usize)
    requires
        cc_pending(adj, done, ccs, cc, before),
        cc_stack(adj, root, before),
        before.len() > 0,
        before.last() == x,
        0 <= x < done.len(),
        done[x as int],
    ensures
        cc_pending(adj, done, ccs, cc, before.drop_last()),
        cc_stack(adj, root, before.drop_last()),
{
    let rest = before.drop_last();
    let last = before.len() - 1;
    assert forall|i: int, k: int| 0 <= i < done.len() && 0 <= k < adj[i].len() && done[i] && ccs[i] == cc implies {
        ||| done[#[trigger] adj[i][k] as int]
        ||| rest.contains(adj[i][k])
    } by {
        let y = adj[i][k];
        if !done[y as int] {
            let s = choose|s: int| 0 <= s < before.len() && before[s] == y;
            if s != last {
                assert(rest[s] == before[s]);
            }
        }
    }
    assert forall|s: int| 0 <= s < rest.len() implies (#[trigger] rest[s]) < adj.len() && connected(adj, root, rest[s] as int) by {
        assert(rest[s] == before[s]);
    }
}

/// With the stack empty, the component is complete: every visited node has its neighbours
/// visited with its label.
proof fn lemma_cc_finish(adj: Seq<Seq<usize>>, done: Seq<bool>, ccs: Seq<usize>, roots: Seq<int>, cc: int, root: int)
    requires
        cc_walk(adj, done, ccs, roots, cc, root),
        cc_pending(adj, done, ccs, cc, Seq::empty()),
    ensures
        cc_closed(adj, done, ccs, cc + 1),
{
    assert forall|i: int, k: int| 0 <= i < done.len() && 0 <= k < adj[i].len() && done[i] && ccs[i] != cc + 1 implies {
        &&& done[#[trigger] adj[i][k] as int]
        &&& ccs[adj[i][k] as int] == ccs[i]
    } by {
        if ccs[i] == cc {
            let y = adj[i][k];
            assert(done[y as int]);
            if ccs[y as int] != cc {
                assert(adj[y as int].contains(i as usize));
                let t = choose|t: int| 0 <= t < adj[y as int].len() && adj[y as int][t] == i as usize;
                assert(ccs[adj[y as int][t] as int] == ccs[y as int]);
            }
        }
    }
}

/// Once every node is visited and every component complete, the labels are the components.
proof fn lemma_cc_final(adj: Seq<Seq<usize>>, done: Seq<bool>, ccs: Seq<usize>, roots: Seq<int>, cc: int)
    requires
        valid_adjacency(adj),
        done.len() == adj.len(),
        ccs.len() == adj.len(),
        roots.len() == cc,
        forall|i: int| 0 <= i < done.len() ==> #[trigger] done[i],
        forall|i: int| 0 <= i < done.len() && #[trigger] done[i] ==> {
            &&& ccs[i] < cc
            &&& connected(adj, roots[ccs[i] as int], i)
            &&& ccs[i] > 0 ==> exists|j: int| 0 <= j < i && done[j] && ccs[j] + 1 == ccs[i]
        },
        cc_closed(adj, done, ccs, cc),
    ensures
        component_labels(adj, ccs),
{
    assert forall|i: int, k: int| 0 <= i < adj.len() && 0 <= k < adj[i].len() implies ccs[#[trigger] adj[i][k] as int] == ccs[i] by {
        assert(done[i]);
    }
    assert forall|i: int, j: int| 0 <= i < adj.len() && 0 <= j < adj.len() implies (ccs[i] == ccs[j] <==> #[trigger] connected(adj, i, j)) by {
        assert(done[i] && done[j]);
        if ccs[i] == ccs[j] {
            let r = roots[ccs[i] as int];
            lemma_connected_symmetric(adj, r, i);
            lemma_connected_transitive(adj, i, r, j);
        }
        if connected(adj, i, j) {
            let p = choose|p: Seq<usize>| #[trigger] chain_between(adj, p, i, j);
            lemma_chain_keeps_label(adj, ccs, p);
        }
    }
    assert forall|i: int| 0 <= i < ccs.len() && #[trigger] ccs[i] > 0 implies exists|j: int| 0 <= j < i && ccs[j] + 1 == ccs[i] by {
        assert(done[i]);
    }
}

/// Pushes each of `nbrs` onto `stack`.
fn push_all(stack: &mut Vec<usize>, nbrs: &[usize])
    ensures
        final(stack)@ == old(stack)@ + nbrs@,
{
    let mut t: usize = 0;
    while t < nbrs.len()
        invariant
            t <= nbrs@.len(),
            stack@ == old(stack)@ + nbrs@.take(t as int),
        decreases nbrs@.len() - t,
    {
        stack.push(nbrs[t]);
        assert(nbrs@.take(t + 1) =~= nbrs@.take(t as int).push(nbrs@[t as int]));
        t = t + 1;
    }
    assert(nbrs@.take(nbrs@.len() as int) =~= nbrs@);
}

/// The number of entries of `s` equal to `c`.
pub open spec fn count_label(s: Seq<usize>, c: usize) -> nat
    decreases s.len(),
{
    if s.len() == 0 {
        0
    } else {
        count_label(s.drop_last(), c) + if s.last() == c { 1nat } else { 0nat }
    }
}

/// The position of node `i` among the nodes that share its label.
pub open spec fn rank(ccs: Seq<usize>, i: int) -> nat {
    count_label(ccs.take(i), ccs[i])
}

/// The adjacency list `e` with each neighbour renumbered by its rank.
pub open spec fn renumbered(ccs: Seq<usize>, e: Seq<usize>) -> Seq<usize> {
    e.map_values(|x: usize| rank(ccs, x as int) as usize)
}

/// `parts` splits the graph of `nodes` and `adj` by the labels `ccs`: one part per label; each
/// node goes to the part of its label, at its rank, with its neighbours renumbered by rank.
pub open spec fn split_by<Node>(nodes: Seq<Node>, adj: Seq<Seq<usize>>, ccs: Seq<usize>, parts: Seq<Graph<Node>>) -> bool {
    &&& forall|i: int| 0 <= i < ccs.len() ==> (#[trigger] ccs[i]) < parts.len()
    &&& parts.len() <= ccs.len()
    &&& forall|c: int| 0 <= c < parts.len() ==> (#[trigger] parts[c]).node_seq().len() == count_label(ccs, c as usize)
    &&& forall|c: int| 0 <= c < parts.len() ==> (#[trigger] parts[c]).adjacency().len() == count_label(ccs, c as usize)
    &&& forall|c: int| 0 <= c < parts.len() ==> #[trigger] count_label(ccs, c as usize) > 0
    &&& forall|i: int| 0 <= i < ccs.len() ==> {
        &&& (#[trigger] parts[ccs[i] as int]).node_seq()[rank(ccs, i) as int] == nodes[i]
        &&& parts[ccs[i] as int].adjacency()[rank(ccs, i) as int] == renumbered(ccs, adj[i])
    }
}

/// Counting over a longer prefix adds the next entry.
proof fn lemma_count_take(s: Seq<usize>, i: int, c: usize)
    requires
        0 <= i < s.len(),
    ensures
        count_label(s.take(i + 1), c) == count_label(s.take(i), c) + if s[i] == c { 1nat } else { 0nat },
{
    assert(s.take(i + 1).drop_last() =~= s.take(i));
}

/// Counting over a longer prefix counts at least as many.
proof fn lemma_count_monotone(s: Seq<usize>, a: int, b: int, c: usize)
    requires
        0 <= a <= b <= s.len(),
    ensures
        count_label(s.take(a), c) <= count_label(s.take(b), c),
    decreases b - a,
{
    if a < b {
        lemma_count_take(s, b - 1, c);
        lemma_count_monotone(s, a, b - 1, c);
    }
}

/// A label is counted at most once per entry.
proof fn lemma_count_le_len(s: Seq<usize>, c: usize)
    ensures
        count_label(s, c) <= s.len(),
    decreases s.len(),
{
    if s.len() > 0 {
        lemma_count_le_len(s.drop_last(), c);
    }
}

/// Ranks within a label stay below the label's count and grow with the node number.
pub proof fn lemma_rank(s: Seq<usize>, i: int, j: int)
    requires
        0 <= i < s.len(),
        0 <= j < s.len(),
    ensures
        rank(s, i) < count_label(s, s[i]),
        count_label(s, s[i]) <= s.len(),
        i < j && s[i] == s[j] ==> rank(s, i) < rank(s, j),
{
    lemma_count_take(s, i, s[i]);
    lemma_count_le_len(s, s[i]);
    lemma_count_monotone(s, i + 1, s.len() as int, s[i]);
    assert(s.take(s.len() as int) =~= s);
    if i < j && s[i] == s[j] {
        lemma_count_monotone(s, i + 1, j, s[i]);
    }
}

/// Neighbours share their component's label.
pub proof fn lemma_edge_same_label(adj: Seq<Seq<usize>>, ccs: Seq<usize>, i: int, k: int)
    requires
        valid_adjacency(adj),
        adj.len() <= usize::MAX,
        component_labels(adj, ccs),
        0 <= i < adj.len(),
        0 <= k < adj[i].len(),
    ensures
        ccs[adj[i][k] as int] == ccs[i],
{
    lemma_connected_self(adj, i);
    lemma_connected_step(adj, i, i, k);
    assert(connected(adj, i, adj[i][k] as int));
}

/// The adjacency list `e` with each neighbour replaced by its entry in `reindex`.
fn map_edges(e: &Vec<usize>, reindex: &Vec<usize>) -> (r: Vec<usize>)
    requires
        forall|k: int| 0 <= k < e@.len() ==> (#[trigger] e@[k]) < reindex@.len(),
    ensures
        r@ == e@.map_values(|x: usize| reindex@[x as int]),
{
    let mut r: Vec<usize> = Vec::new();
    let mut k: usize = 0;
    while k < e.len()
        invariant
            k <= e@.len(),
            forall|t: int| 0 <= t < e@.len() ==> (#[trigger] e@[t]) < reindex@.len(),
            r@ == e@.take(k as int).map_values(|x: usize| reindex@[x as int]),
        decreases e@.len() - k,
    {
        r.push(reindex[e[k]]);
        assert(e@.take(k + 1).map_values(|x: usize| reindex@[x as int]) =~= e@.take(k as int).map_values(|x: usize| reindex@[x as int]).push(
            reindex@[e@[k as int] as int],
        ));
        k = k + 1;
    }
    assert(e@.take(e@.len() as int) =~= e@);
    r
}

/// Every rank below a label's count belongs to some node with that label.
proof fn lemma_rank_onto(s: Seq<usize>, c: usize, m: int, a: int)
    requires
        0 <= m <= s.len(),
        0 <= a < count_label(s.take(m), c),
    ensures
        exists|j: int| 0 <= j < m && s[j] == c && rank(s, j) == a,
    decreases m,
{
    if m > 0 {
        lemma_count_take(s, m - 1, c);
        if a < count_label(s.take(m - 1), c) {
            lemma_rank_onto(s, c, m - 1, a);
            let j = choose|j: int| 0 <= j < m - 1 && s[j] == c && rank(s, j) == a;
            assert(0 <= j < m && s[j] == c && rank(s, j) == a);
        } else {
            assert(s[m - 1] == c && rank(s, m - 1) == a);
        }
    }
}

/// With labels numbered in order of first appearance, every label below one in use is in use too.
proof fn lemma_labels_dense(s: Seq<usize>, i: int, c: int)
    requires
        0 <= i < s.len(),
        0 <= c <= s[i],
        forall|x: int| 0 <= x < s.len() && #[trigger] s[x] > 0 ==> exists|j: int| 0 <= j < x && s[j] + 1 == s[x],
    ensures
        exists|j: int| 0 <= j < s.len() && s[j] == c,
    decreases s[i] - c,
{
    if c < s[i] {
        let j = choose|j: int| 0 <= j < i && s[j] + 1 == s[i];
        lemma_labels_dense(s, j, c);
    }
}

/// A component's nodes, with neighbours renumbered by rank, form a valid adjacency.
#[verifier::rlimit(40)]
proof fn lemma_part_valid(adj: Seq<Seq<usize>>, ccs: Seq<usize>, c: usize, pe: Seq<Vec<usize>>)
    requires
        valid_adjacency(adj),
        adj.len() <= usize::MAX,
        component_labels(adj, ccs),
        pe.len() == count_label(ccs, c),
        forall|j: int| 0 <= j < ccs.len() && ccs[j] == c ==> (#[trigger] pe[rank(ccs, j) as int])@ == renumbered(ccs, adj[j]),
    ensures
        valid_adjacency(adjacency_of(pe, pe.len())),
{
    let pa = adjacency_of(pe, pe.len());
    assert(ccs.take(ccs.len() as int) =~= ccs);
    assert forall|a: int, k: int| 0 <= a < pa.len() && 0 <= k < pa[a].len() implies {
        &&& (#[trigger] pa[a][k]) < pa.len()
        &&& pa[a][k] != a
        &&& pa[pa[a][k] as int].contains(a as usize)
    } by {
        lemma_rank_onto(ccs, c, ccs.len() as int, a);
        let j = choose|j: int| 0 <= j < ccs.len() && ccs[j] == c && rank(ccs, j) == a;
        assert(pa[a] == pe[rank(ccs, j) as int]@);
        let x = adj[j][k];
        lemma_edge_same_label(adj, ccs, j, k);
        lemma_rank(ccs, x as int, j);
        lemma_rank(ccs, j, x as int);
        assert(rank(ccs, x as int) < ccs.len());
        assert(pa[a][k] == rank(ccs, x as int));
        assert(pa[rank(ccs, x as int) as int] == renumbered(ccs, adj[x as int]));
        let t = choose|t: int| 0 <= t < adj[x as int].len() && adj[x as int][t] == j as usize;
        assert(renumbered(ccs, adj[x as int])[t] == a);
    }
}

/// Every visited node other than `origin` has a visited parent one level up that it neighbours.
pub open spec fn bfs_parents(adj: Seq<Seq<usize>>, visited: Seq<bool>, parent: Seq<usize>, dist: Seq<int>, origin: int) -> bool {
    forall|v: int| #![trigger parent[v]] 0 <= v < adj.len() && visited[v] && v != origin ==> {
        &&& parent[v] < adj.len()
        &&& visited[parent[v] as int]
        &&& dist[parent[v] as int] + 1 == dist[v]
        &&& adj[parent[v] as int].contains(v as usize)
    }
}

/// Every visited node before level `d` has its neighbours visited at most one level on.
pub open spec fn bfs_closed_below(adj: Seq<Seq<usize>>, visited: Seq<bool>, dist: Seq<int>, d: int) -> bool {
    forall|u: int, k: int| 0 <= u < adj.len() && 0 <= k < adj[u].len() && visited[u] && dist[u] < d ==> {
        &&& visited[#[trigger] adj[u][k] as int]
        &&& dist[adj[u][k] as int] <= dist[u] + 1
    }
}

/// Breadth-first facts at level `d`: `origin` is at distance 0, every other visited node has a
/// visited parent one level up that it neighbours, no visited node is past level `d + 1`, and
/// nodes before level `d` have all their neighbours visited at most one level on.
pub open spec fn bfs_state(adj: Seq<Seq<usize>>, visited: Seq<bool>, parent: Seq<usize>, dist: Seq<int>, origin: int, d: int) -> bool {
    &&& visited.len() == adj.len()
    &&& parent.len() == adj.len()
    &&& dist.len() == adj.len()
    &&& 0 <= origin < adj.len()
    &&& visited[origin]
    &&& dist[origin] == 0
    &&& forall|v: int| 0 <= v < adj.len() && #[trigger] visited[v] ==> 0 <= dist[v] <= d + 1 && (v != origin ==> dist[v] >= 1)
    &&& bfs_parents(adj, visited, parent, dist, origin)
    &&& bfs_closed_below(adj, visited, dist, d)
}

/// Visiting `v` from `u`, one level past `u`, keeps the breadth-first facts.
proof fn lemma_bfs_visit(
    adj: Seq<Seq<usize>>,
    visited: Seq<bool>,
    parent: Seq<usize>,
    dist: Seq<int>,
    origin: int,
    d: int,
    u: usize,
    v: usize,
    vis2: Seq<bool>,
    par2: Seq<usize>,
    dist2: Seq<int>,
)
    requires
        vis2 == visited.update(v as int, true),
        par2 == parent.update(v as int, u),
        dist2 == dist.update(v as int, d + 1),
        bfs_state(adj, visited, parent, dist, origin, d),
        valid_adjacency(adj),
        adj.len() <= usize::MAX,
        d >= 0,
        u < adj.len(),
        v < adj.len(),
        visited[u as int],
        dist[u as int] == d,
        !visited[v as int],
        adj[u as int].contains(v),
    ensures
        bfs_state(adj, vis2, par2, dist2, origin, d),
{
    assert(v as int != origin);
    assert forall|w: int| #![trigger par2[w]] 0 <= w < adj.len() && vis2[w] && w != origin implies {
        &&& par2[w] < adj.len()
        &&& vis2[par2[w] as int]
        &&& dist2[par2[w] as int] + 1 == dist2[w]
        &&& adj[par2[w] as int].contains(w as usize)
    } by {
        if w != v {
            assert(par2[w] == parent[w]);
            assert(visited[w]);
            assert(visited[parent[w] as int]);
            assert(dist[w] >= 1);
            assert(dist2[w] == dist[w]);
        } else {
            assert(dist2[w] == d + 1);
        }
    }
    assert forall|x: int, k: int| 0 <= x < adj.len() && 0 <= k < adj[x].len() && vis2[x] && dist2[x] < d implies {
        &&& vis2[#[trigger] adj[x][k] as int]
        &&& dist2[adj[x][k] as int] <= dist2[x] + 1
    } by {
        assert(x != v);
        assert(visited[x]);
        assert(dist2[x] == dist[x]);
        let y = adj[x][k];
        assert(visited[y as int]);
        assert(y != v);
        assert(vis2[y as int]);
        assert(dist2[y as int] == dist[y as int]);
    }
    assert(bfs_parents(adj, vis2, par2, dist2, origin));
    assert(bfs_closed_below(adj, vis2, dist2, d));
    assert forall|w: int| 0 <= w < adj.len() && #[trigger] vis2[w] implies 0 <= dist2[w] <= d + 1 && (w != origin ==> dist2[w] >= 1) by {
        if w != v {
            assert(visited[w]);
        }
    }
}

/// Once every node of level `d` has its neighbours visited at most one level on, level `d` is
/// finished.
proof fn lemma_bfs_advance(adj: Seq<Seq<usize>>, visited: Seq<bool>, parent: Seq<usize>, dist: Seq<int>, origin: int, d: int)
    requires
        bfs_state(adj, visited, parent, dist, origin, d),
        forall|u: int, k: int| 0 <= u < adj.len() && 0 <= k < adj[u].len() && visited[u] && dist[u] == d ==> {
            &&& visited[#[trigger] adj[u][k] as int]
            &&& dist[adj[u][k] as int] <= d + 1
        },
    ensures
        bfs_state(adj, visited, parent, dist, origin, d + 1),
{
    assert forall|v: int| #![trigger parent[v]] 0 <= v < adj.len() && visited[v] && v != origin implies {
        &&& parent[v] < adj.len()
        &&& visited[parent[v] as int]
        &&& dist[parent[v] as int] + 1 == dist[v]
        &&& adj[parent[v] as int].contains(v as usize)
    } by {
        assert(visited[parent[v] as int]);
        assert(0 <= dist[parent[v] as int]);
    }
    assert(bfs_parents(adj, visited, parent, dist, origin));
    assert forall|u: int, k: int| 0 <= u < adj.len() && 0 <= k < adj[u].len() && visited[u] && dist[u] < d + 1 implies {
        &&& visited[#[trigger] adj[u][k] as int]
        &&& dist[adj[u][k] as int] <= dist[u] + 1
    } by {
    }
}

/// Index `i` holds the first occurrence of `v` in `s`.
pub open spec fn first_at(s: Seq<usize>, v: usize, i: int) -> bool {
    &&& 0 <= i < s.len()
    &&& s[i] == v
    &&& forall|j: int| 0 <= j < i ==> s[j] != v
}

/// Among the neighbours of `u`, `v` first occurs before `w`.
pub open spec fn neighbour_before(adj: Seq<Seq<usize>>, u: usize, v: usize, w: usize) -> bool {
    exists|i: int, j: int| first_at(adj[u as int], v, i) && first_at(adj[u as int], w, j) && i < j
}

/// Chain `p` comes before chain `q` in breadth-first order: they agree up to some node, from
/// which `p` goes on to an earlier neighbour than `q`.
pub open spec fn chain_before(adj: Seq<Seq<usize>>, p: Seq<usize>, q: Seq<usize>) -> bool {
    exists|t: int|
        1 <= t < p.len() && t < q.len() && (forall|s: int| 0 <= s < t ==> p[s] == q[s]) && #[trigger] neighbour_before(adj, p[t - 1], p[t], q[t])
}

/// The first occurrence of a value is at one index.
proof fn lemma_first_at_unique(s: Seq<usize>, v: usize, i: int, j: int)
    requires
        first_at(s, v, i),
        first_at(s, v, j),
    ensures
        i == j,
{
    if i < j {
        assert(s[i] != v);
    } else if j < i {
        assert(s[j] != v);
    }
}

/// Coming first among the neighbours of a node is a strict order.
proof fn lemma_neighbour_before_order(adj: Seq<Seq<usize>>, u: usize, a: usize, b: usize, c: usize)
    ensures
        !neighbour_before(adj, u, a, a),
        neighbour_before(adj, u, a, b) && neighbour_before(adj, u, b, c) ==> neighbour_before(adj, u, a, c),
{
    if neighbour_before(adj, u, a, a) {
        let (i, j) = choose|i: int, j: int| first_at(adj[u as int], a, i) && first_at(adj[u as int], a, j) && i < j;
        lemma_first_at_unique(adj[u as int], a, i, j);
    }
    if neighbour_before(adj, u, a, b) && neighbour_before(adj, u, b, c) {
        let (i, j) = choose|i: int, j: int| first_at(adj[u as int], a, i) && first_at(adj[u as int], b, j) && i < j;
        let (k, l) = choose|k: int, l: int| first_at(adj[u as int], b, k) && first_at(adj[u as int], c, l) && k < l;
        lemma_first_at_unique(adj[u as int], b, j, k);
        assert(first_at(adj[u as int], a, i) && first_at(adj[u as int], c, l) && i < l);
    }
}

/// No chain comes before itself, and of two chains at most one comes before the other; coming
/// before is transitive.
proof fn lemma_chain_before_order(adj: Seq<Seq<usize>>, a: Seq<usize>, b: Seq<usize>, c: Seq<usize>)
    ensures
        !chain_before(adj, a, a),
        chain_before(adj, a, b) && chain_before(adj, b, c) ==> chain_before(adj, a, c),
        !(chain_before(adj, a, b) && chain_before(adj, b, a)),
{
    if chain_before(adj, a, a) {
        let t = choose|t: int|
            1 <= t < a.len() && t < a.len() && (forall|s: int| 0 <= s < t ==> a[s] == a[s]) && #[trigger] neighbour_before(adj, a[t - 1], a[t], a[t]);
        lemma_neighbour_before_order(adj, a[t - 1], a[t], a[t], a[t]);
    }
    if chain_before(adj, a, b) && chain_before(adj, b, c) {
        let t1 = choose|t: int|
            1 <= t < a.len() && t < b.len() && (forall|s: int| 0 <= s < t ==> a[s] == b[s]) && #[trigger] neighbour_before(adj, a[t - 1], a[t], b[t]);
        let t2 = choose|t: int|
            1 <= t < b.len() && t < c.len() && (forall|s: int| 0 <= s < t ==> b[s] == c[s]) && #[trigger] neighbour_before(adj, b[t - 1], b[t], c[t]);
        if t1 < t2 {
            assert(b[t1] == c[t1] && b[t1 - 1] == c[t1 - 1]);
            assert(neighbour_before(adj, a[t1 - 1], a[t1], c[t1]));
        } else if t2 < t1 {
            assert(a[t2] == b[t2] && a[t2 - 1] == b[t2 - 1]);
            assert(neighbour_before(adj, a[t2 - 1], a[t2], c[t2]));
        } else {
            lemma_neighbour_before_order(adj, a[t1 - 1], a[t1], b[t1], c[t1]);
        }
    }
    if chain_before(adj, a, b) && chain_before(adj, b, a) {
        let t1 = choose|t: int|
            1 <= t < a.len() && t < b.len() && (forall|s: int| 0 <= s < t ==> a[s] == b[s]) && #[trigger] neighbour_before(adj, a[t - 1], a[t], b[t]);
        let t2 = choose|t: int|
            1 <= t < b.len() && t < a.len() && (forall|s: int| 0 <= s < t ==> b[s] == a[s]) && #[trigger] neighbour_before(adj, b[t - 1], b[t], a[t]);
        if t1 < t2 {
            assert(b[t1] == a[t1]);
            lemma_neighbour_before_order(adj, a[t1 - 1], a[t1], a[t1], a[t1]);
        } else if t2 < t1 {
            assert(a[t2] == b[t2]);
            lemma_neighbour_before_order(adj, b[t2 - 1], b[t2], b[t2], b[t2]);
        } else {
            lemma_neighbour_before_order(adj, a[t1 - 1], a[t1], b[t1], a[t1]);
        }
    }
}

/// Extending two chains keeps the order of the one that comes before, and a chain extended to
/// an earlier neighbour of its last node comes before it extended to a later one.
proof fn lemma_chain_before_push(adj: Seq<Seq<usize>>, p: Seq<usize>, q: Seq<usize>, x: usize, y: usize)
    requires
        p.len() >= 1,
    ensures
        chain_before(adj, p, q) ==> chain_before(adj, p.push(x), q.push(y)),
        neighbour_before(adj, p.last(), x, y) ==> chain_before(adj, p.push(x), p.push(y)),
{
    if chain_before(adj, p, q) {
        let t = choose|t: int|
            1 <= t < p.len() && t < q.len() && (forall|s: int| 0 <= s < t ==> p[s] == q[s]) && #[trigger] neighbour_before(adj, p[t - 1], p[t], q[t]);
        assert(p.push(x)[t - 1] == p[t - 1] && p.push(x)[t] == p[t] && q.push(y)[t] == q[t]);
        assert(forall|s: int| 0 <= s < t ==> p.push(x)[s] == q.push(y)[s]);
        assert(neighbour_before(adj, p.push(x)[t - 1], p.push(x)[t], q.push(y)[t]));
    }
    if neighbour_before(adj, p.last(), x, y) {
        let t = p.len() as int;
        assert(p.push(x)[t - 1] == p.last() && p.push(x)[t] == x && p.push(y)[t] == y);
        assert(forall|s: int| 0 <= s < t ==> p.push(x)[s] == p.push(y)[s]);
        assert(neighbour_before(adj, p.push(x)[t - 1], p.push(x)[t], p.push(y)[t]));
    }
}

/// A chain that comes before `c` extended by `v`, and also ends at `v`, has a part before `v` that
/// comes before `c`.
proof fn lemma_chain_before_drop(adj: Seq<Seq<usize>>, q: Seq<usize>, c: Seq<usize>, v: usize)
    requires
        q.len() == c.len() + 1,
        c.len() >= 1,
        q.last() == v,
        chain_before(adj, q, c.push(v)),
    ensures
        chain_before(adj, q.drop_last(), c),
{
    let cv = c.push(v);
    let t = choose|t: int|
        1 <= t < q.len() && t < cv.len() && (forall|s: int| 0 <= s < t ==> q[s] == cv[s]) && #[trigger] neighbour_before(adj, q[t - 1], q[t], cv[t]);
    if t == c.len() {
        assert(q[t] == v && cv[t] == v);
        lemma_neighbour_before_order(adj, q[t - 1], v, v, v);
    }
    let qd = q.drop_last();
    assert(qd[t - 1] == q[t - 1] && qd[t] == q[t] && c[t] == cv[t]);
    assert(forall|s: int| 0 <= s < t ==> qd[s] == c[s]);
    assert(neighbour_before(adj, qd[t - 1], qd[t], c[t]));
}

/// The chains of the visited nodes: each leads from `origin` to its node through its parent,
/// one node per level, and no chain of its length to that node comes before it.
#[verifier::opaque]
pub open spec fn bfs_chains(adj: Seq<Seq<usize>>, visited: Seq<bool>, parent: Seq<usize>, dist: Seq<int>, origin: int, chains: Seq<Seq<usize>>) -> bool {
    &&& chains.len() == adj.len()
    &&& forall|v: int| 0 <= v < adj.len() && #[trigger] visited[v] ==> {
        &&& chain_between(adj, chains[v], origin, v)
        &&& chains[v].len() == dist[v] + 1
        &&& (v == origin ==> chains[v] == seq![origin as usize])
        &&& (v != origin ==> chains[v] == chains[parent[v] as int].push(v as usize))
        &&& forall|q: Seq<usize>| #[trigger] chain_between(adj, q, origin, v) && q.len() == chains[v].len() ==> !chain_before(adj, q, chains[v])
    }
}

/// The chains of the listed nodes come in breadth-first order.
#[verifier::opaque]
pub open spec fn chains_in_order(adj: Seq<Seq<usize>>, chains: Seq<Seq<usize>>, list: Seq<usize>) -> bool {
    forall|f1: int, f2: int|
        #![trigger list[f1], list[f2]]
        0 <= f1 < f2 < list.len() ==> chain_before(adj, chains[list[f1] as int], chains[list[f2] as int])
}

/// Visiting `v` as neighbour number `k` of `u`, the node of the frontier at `fi`, gives `v` the
/// chain of `u` extended by `v`, which no other chain of its length to `v` comes before; `k` is
/// the first place of `v` among the neighbours of `u`.
proof fn lemma_chain_visit(
    adj: Seq<Seq<usize>>,
    visited: Seq<bool>,
    parent: Seq<usize>,
    dist: Seq<int>,
    origin: int,
    d: int,
    chains: Seq<Seq<usize>>,
    frontier: Seq<usize>,
    fi: int,
    k: int,
)
    requires
        valid_adjacency(adj),
        d >= 0,
        bfs_state(adj, visited, parent, dist, origin, d),
        bfs_chains(adj, visited, parent, dist, origin, chains),
        chains_in_order(adj, chains, frontier),
        forall|f: int| 0 <= f < frontier.len() ==> (#[trigger] frontier[f]) < adj.len() && visited[frontier[f] as int] && dist[frontier[f] as int] == d,
        forall|v: int| 0 <= v < adj.len() && #[trigger] visited[v] && dist[v] == d ==> frontier.contains(v as usize),
        forall|f: int, t: int| 0 <= f < fi && 0 <= t < adj[frontier[f] as int].len() ==> visited[#[trigger] adj[frontier[f] as int][t] as int],
        0 <= fi < frontier.len(),
        0 <= k < adj[frontier[fi] as int].len(),
        forall|t: int| 0 <= t < k ==> visited[#[trigger] adj[frontier[fi] as int][t] as int],
        !visited[adj[frontier[fi] as int][k] as int],
    ensures
        first_at(adj[frontier[fi] as int], adj[frontier[fi] as int][k], k),
        bfs_chains(
            adj,
            visited.update(adj[frontier[fi] as int][k] as int, true),
            parent.update(adj[frontier[fi] as int][k] as int, frontier[fi]),
            dist.update(adj[frontier[fi] as int][k] as int, d + 1),
            origin,
            chains.update(adj[frontier[fi] as int][k] as int, chains[frontier[fi] as int].push(adj[frontier[fi] as int][k])),
        ),
{
    reveal(bfs_chains);
    reveal(chains_in_order);
    let u = frontier[fi];
    let v = adj[u as int][k];
    let vis2 = visited.update(v as int, true);
    let par2 = parent.update(v as int, u);
    let dist2 = dist.update(v as int, d + 1);
    let cu = chains[u as int];
    let cv = cu.push(v);
    let chains2 = chains.update(v as int, cv);
    assert(v < adj.len() && v != u);
    assert(adj[v as int].contains(u));
    assert forall|t: int| 0 <= t < k implies adj[u as int][t] != v by {
        assert(visited[adj[u as int][t] as int]);
    }
    assert(chain_between(adj, cv, origin, v as int)) by {
        assert forall|t: int| 0 <= t < cv.len() implies (#[trigger] cv[t]) < adj.len() by {
            if t < cu.len() {
                assert(cv[t] == cu[t]);
            }
        }
        assert forall|t: int| 0 <= t < cv.len() - 1 implies #[trigger] linked(adj, cv, t) by {
            if t < cu.len() - 1 {
                assert(linked(adj, cu, t));
            } else {
                assert(cv[t] == u && cv[t + 1] == v);
                assert(adj[u as int][k] == v);
            }
        }
    }
    assert forall|q: Seq<usize>| #[trigger] chain_between(adj, q, origin, v as int) && q.len() == cv.len() implies !chain_before(adj, q, cv) by {
        if chain_before(adj, q, cv) {
            lemma_chain_before_drop(adj, q, cu, v);
            let qd = q.drop_last();
            let w = qd.last();
            assert(is_chain(adj, qd)) by {
                assert forall|t: int| 0 <= t < qd.len() - 1 implies #[trigger] linked(adj, qd, t) by {
                    assert(linked(adj, q, t));
                }
            }
            lemma_bfs_bound(adj, visited, parent, dist, origin, d, qd);
            assert(linked(adj, q, q.len() - 2));
            assert(adj[w as int].contains(v));
            let kw = choose|kw: int| 0 <= kw < adj[w as int].len() && adj[w as int][kw] == v;
            if dist[w as int] < d {
                assert(visited[adj[w as int][kw] as int]);
            }
            assert(dist[w as int] == d);
            assert(frontier.contains(w));
            let fw = choose|fw: int| 0 <= fw < frontier.len() && frontier[fw] == w;
            if fw < fi {
                assert(visited[adj[frontier[fw] as int][kw] as int]);
            }
            assert(chain_between(adj, qd, origin, w as int));
            if fw == fi {
                assert(!chain_before(adj, qd, chains[w as int]));
            } else {
                assert(chain_before(adj, chains[frontier[fi] as int], chains[frontier[fw] as int]));
                lemma_chain_before_order(adj, qd, cu, chains[w as int]);
                assert(!chain_before(adj, qd, chains[w as int]));
            }
        }
    }
    assert forall|x: int| 0 <= x < adj.len() && #[trigger] vis2[x] implies {
        &&& chain_between(adj, chains2[x], origin, x)
        &&& chains2[x].len() == dist2[x] + 1
        &&& (x == origin ==> chains2[x] == seq![origin as usize])
        &&& (x != origin ==> chains2[x] == chains2[par2[x] as int].push(x as usize))
        &&& forall|q: Seq<usize>| #[trigger] chain_between(adj, q, origin, x) && q.len() == chains2[x].len() ==> !chain_before(adj, q, chains2[x])
    } by {
        if x == v as int {
            assert(chains2[x] == cv);
            assert(v as int != origin);
            assert(par2[x] == u);
            assert(u as int != v as int);
            assert(chains2[u as int] == cu);
        } else {
            assert(visited[x]);
            assert(chains2[x] == chains[x]);
            if x != origin {
                assert(visited[parent[x] as int]);
                assert(parent[x] as int != v as int);
                assert(chains2[par2[x] as int] == chains[parent[x] as int]);
            }
        }
    }
}

/// The nodes found so far on the next level, each through the frontier node at `pf` as its
/// first occurrence among that node's neighbours, at `pk`, all before neighbour `k` of frontier
/// node `fi`; their chains come in breadth-first order.
#[verifier::opaque]
pub open spec fn next_facts(
    adj: Seq<Seq<usize>>,
    chains: Seq<Seq<usize>>,
    frontier: Seq<usize>,
    next: Seq<usize>,
    pf: Seq<int>,
    pk: Seq<int>,
    fi: int,
    k: int,
) -> bool {
    &&& pf.len() == next.len()
    &&& pk.len() == next.len()
    &&& forall|g: int| 0 <= g < next.len() ==> {
        &&& 0 <= #[trigger] pf[g] < frontier.len()
        &&& (pf[g] < fi || (pf[g] == fi && pk[g] < k))
        &&& chains[next[g] as int] == chains[frontier[pf[g]] as int].push(next[g])
        &&& first_at(adj[frontier[pf[g]] as int], next[g], pk[g])
    }
    &&& chains_in_order(adj, chains, next)
}

/// Once every neighbour of frontier node `fi` is seen, the next level is as at the start of
/// frontier node `fi + 1`.
proof fn lemma_next_advance(
    adj: Seq<Seq<usize>>,
    chains: Seq<Seq<usize>>,
    frontier: Seq<usize>,
    next: Seq<usize>,
    pf: Seq<int>,
    pk: Seq<int>,
    fi: int,
    k: int,
)
    requires
        next_facts(adj, chains, frontier, next, pf, pk, fi, k),
    ensures
        next_facts(adj, chains, frontier, next, pf, pk, fi + 1, 0),
{
    reveal(bfs_chains);
    reveal(chains_in_order);
    reveal(next_facts);
}

/// Seeing a neighbour already visited changes nothing on the next level.
proof fn lemma_next_skip(
    adj: Seq<Seq<usize>>,
    chains: Seq<Seq<usize>>,
    frontier: Seq<usize>,
    next: Seq<usize>,
    pf: Seq<int>,
    pk: Seq<int>,
    fi: int,
    k: int,
)
    requires
        next_facts(adj, chains, frontier, next, pf, pk, fi, k),
    ensures
        next_facts(adj, chains, frontier, next, pf, pk, fi, k + 1),
{
    reveal(next_facts);
}

/// Finding `v`, neighbour `k` of frontier node `fi`, keeps the next level in breadth-first order.
proof fn lemma_next_push(
    adj: Seq<Seq<usize>>,
    chains: Seq<Seq<usize>>,
    frontier: Seq<usize>,
    next: Seq<usize>,
    pf: Seq<int>,
    pk: Seq<int>,
    fi: int,
    k: int,
)
    requires
        0 <= fi < frontier.len(),
        0 <= k < adj[frontier[fi] as int].len(),
        next_facts(adj, chains, frontier, next, pf, pk, fi, k),
        chains_in_order(adj, chains, frontier),
        first_at(adj[frontier[fi] as int], adj[frontier[fi] as int][k], k),
        forall|g: int| 0 <= g < next.len() ==> next[g] != adj[frontier[fi] as int][k] && next[g] < adj.len(),
        forall|f: int| 0 <= f < frontier.len() ==> frontier[f] != adj[frontier[fi] as int][k] && frontier[f] < adj.len(),
        chains[frontier[fi] as int].len() >= 1,
        chains[frontier[fi] as int].last() == frontier[fi],
        chains.len() == adj.len(),
        adj[frontier[fi] as int][k] < adj.len(),
    ensures
        next_facts(
            adj,
            chains.update(adj[frontier[fi] as int][k] as int, chains[frontier[fi] as int].push(adj[frontier[fi] as int][k])),
            frontier,
            next.push(adj[frontier[fi] as int][k]),
            pf.push(fi),
            pk.push(k),
            fi,
            k + 1,
        ),
        chains_in_order(adj, chains.update(adj[frontier[fi] as int][k] as int, chains[frontier[fi] as int].push(adj[frontier[fi] as int][k])), frontier),
{
    reveal(bfs_chains);
    reveal(chains_in_order);
    reveal(next_facts);
    let u = frontier[fi];
    let v = adj[u as int][k];
    let cu = chains[u as int];
    let chains2 = chains.update(v as int, cu.push(v));
    let next2 = next.push(v);
    let pf2 = pf.push(fi);
    let pk2 = pk.push(k);
    assert forall|g: int| 0 <= g < next2.len() implies {
        &&& 0 <= #[trigger] pf2[g] < frontier.len()
        &&& (pf2[g] < fi || (pf2[g] == fi && pk2[g] < k + 1))
        &&& chains2[next2[g] as int] == chains2[frontier[pf2[g]] as int].push(next2[g])
        &&& first_at(adj[frontier[pf2[g]] as int], next2[g], pk2[g])
    } by {
        if g < next.len() {
            assert(pf2[g] == pf[g] && pk2[g] == pk[g] && next2[g] == next[g]);
            assert(frontier[pf[g]] != v);
            assert(next[g] != v);
            assert(chains2[next[g] as int] == chains[next[g] as int]);
            assert(chains2[frontier[pf[g]] as int] == chains[frontier[pf[g]] as int]);
        } else {
            assert(pf2[g] == fi && pk2[g] == k && next2[g] == v);
            assert(u != v);
            assert(chains2[u as int] == cu);
            assert(chains2[v as int] == cu.push(v));
        }
    }
    assert forall|f1: int, f2: int|
        #![trigger next2[f1], next2[f2]]
        0 <= f1 < f2 < next2.len() implies chain_before(adj, chains2[next2[f1] as int], chains2[next2[f2] as int]) by {
        assert(next2[f1] == next[f1]);
        assert(chains2[next[f1] as int] == chains[next[f1] as int]);
        if f2 < next.len() {
            assert(next2[f2] == next[f2]);
            assert(chains2[next[f2] as int] == chains[next[f2] as int]);
        } else {
            let w = next[f1];
            let fw = pf[f1];
            assert(chains2[v as int] == cu.push(v));
            assert(chains[w as int] == chains[frontier[fw] as int].push(w));
            if fw < fi {
                assert(chain_before(adj, chains[frontier[fw] as int], chains[frontier[fi] as int]));
                lemma_chain_before_push(adj, chains[frontier[fw] as int], cu, w, v);
            } else {
                assert(first_at(adj[u as int], w, pk[f1]) && first_at(adj[u as int], v, k) && pk[f1] < k);
                assert(neighbour_before(adj, u, w, v));
                lemma_chain_before_push(adj, cu, cu, w, v);
            }
        }
    }
    assert forall|f1: int, f2: int|
        #![trigger frontier[f1], frontier[f2]]
        0 <= f1 < f2 < frontier.len() implies chain_before(adj, chains2[frontier[f1] as int], chains2[frontier[f2] as int]) by {
        assert(chains2[frontier[f1] as int] == chains[frontier[f1] as int]);
        assert(chains2[frontier[f2] as int] == chains[frontier[f2] as int]);
    }
}

/// A chain of `m` steps from `origin`, with `m` within the finished levels, ends at a visited node
/// at most `m` levels out.
proof fn lemma_bfs_bound(adj: Seq<Seq<usize>>, visited: Seq<bool>, parent: Seq<usize>, dist: Seq<int>, origin: int, d: int, q: Seq<usize>)
    requires
        bfs_state(adj, visited, parent, dist, origin, d),
        is_chain(adj, q),
        q[0] == origin,
        q.len() - 1 <= d,
    ensures
        visited[q.last() as int],
        dist[q.last() as int] <= q.len() - 1,
    decreases q.len(),
{
    if q.len() > 1 {
        let p = q.drop_last();
        assert forall|t: int| 0 <= t < p.len() - 1 implies #[trigger] linked(adj, p, t) by {
            assert(linked(adj, q, t));
        }
        assert forall|t: int| 0 <= t < p.len() implies (#[trigger] p[t]) < adj.len() by {
            assert(p[t] == q[t]);
        }
        lemma_bfs_bound(adj, visited, parent, dist, origin, d, p);
        let u = p.last();
        assert(linked(adj, q, q.len() - 2));
        let k = choose|k: int| 0 <= k < adj[u as int].len() && adj[u as int][k] == q.last();
        assert(visited[adj[u as int][k] as int]);
    }
}

/// When every visited node has its neighbours visited, every chain from `origin` stays on visited
/// nodes.
proof fn lemma_bfs_closed(adj: Seq<Seq<usize>>, visited: Seq<bool>, origin: int, q: Seq<usize>)
    requires
        visited.len() == adj.len(),
        0 <= origin < adj.len(),
        visited[origin],
        forall|u: int, k: int| 0 <= u < adj.len() && 0 <= k < adj[u].len() && visited[u] ==> visited[#[trigger] adj[u][k] as int],
        is_chain(adj, q),
        q[0] == origin,
    ensures
        visited[q.last() as int],
    decreases q.len(),
{
    if q.len() > 1 {
        let p = q.drop_last();
        assert forall|t: int| 0 <= t < p.len() - 1 implies #[trigger] linked(adj, p, t) by {
            assert(linked(adj, q, t));
        }
        assert forall|t: int| 0 <= t < p.len() implies (#[trigger] p[t]) < adj.len() by {
            assert(p[t] == q[t]);
        }
        lemma_bfs_closed(adj, visited, origin, p);
        let u = p.last();
        assert(linked(adj, q, q.len() - 2));
        let k = choose|k: int| 0 <= k < adj[u as int].len() && adj[u as int][k] == q.last();
        assert(visited[adj[u as int][k] as int]);
    }
}

/// `adj` lists, for each of the `n` nodes and in increasing order, the other nodes that `rel`
/// relates to it.
pub open spec fn adjacency_by(adj: Seq<Seq<usize>>, n: nat, rel: spec_fn(int, int) -> bool) -> bool {
    &&& adj.len() == n
    &&& forall|x: int| 0 <= x < n ==> increasing(#[trigger] adj[x])
    &&& forall|x: int, y: usize| 0 <= x < n ==> (#[trigger] adj[x].contains(y) <==> (y < n && y != x && rel(x, y as int)))
}

/// The pair of distinct nodes `x`, `y` comes before the pair `i`, `j` (`i < j`) when taken in
/// order of their smaller and then their larger node.
pub open spec fn pair_before(x: int, y: int, i: int, j: int) -> bool {
    let lo = if x < y { x } else { y };
    let hi = if x < y { y } else { x };
    lo < i || (lo == i && hi < j)
}

/// `adj` relates, in increasing order, the pairs before `i`, `j` that `rel` relates.
pub open spec fn adjacency_upto(adj: Seq<Seq<usize>>, n: nat, rel: spec_fn(int, int) -> bool, i: int, j: int) -> bool {
    &&& adj.len() == n
    &&& forall|x: int| 0 <= x < n ==> increasing(#[trigger] adj[x])
    &&& forall|x: int, y: usize| 0 <= x < n ==> (#[trigger] adj[x].contains(y) <==> (y < n && y != x && rel(x, y as int) && pair_before(
        x,
        y as int,
        i,
        j,
    )))
}

/// A symmetric relation.
pub open spec fn symmetric(rel: spec_fn(int, int) -> bool) -> bool {
    forall|x: int, y: int| #[trigger] rel(x, y) == rel(y, x)
}

/// Before any pair, nothing is related.
pub proof fn lemma_adjacency_start(n: nat, rel: spec_fn(int, int) -> bool)
    ensures
        adjacency_upto(Seq::new(n, |x: int| Seq::<usize>::empty()), n, rel, 0, 1),
{
}

/// Deciding the pair `i`, `j` moves on to the next pair.
pub proof fn lemma_adjacency_pair(adj: Seq<Seq<usize>>, n: nat, rel: spec_fn(int, int) -> bool, i: int, j: int, adj2: Seq<Seq<usize>>)
    requires
        adjacency_upto(adj, n, rel, i, j),
        symmetric(rel),
        0 <= i < j < n,
        n <= usize::MAX,
        adj2 == (if rel(i, j) { adj.update(i, adj[i].push(j as usize)).update(j, adj[j].push(i as usize)) } else { adj }),
    ensures
        adjacency_upto(adj2, n, rel, i, j + 1),
{
    broadcast use vstd::seq_lib::lemma_seq_contains_after_push;
    assert forall|x: int, y: usize| 0 <= x < n implies (#[trigger] adj2[x].contains(y) <==> (y < n && y != x && rel(x, y as int) && pair_before(
        x,
        y as int,
        i,
        j + 1,
    ))) by {
        if rel(i, j) && x == i {
            assert(adj2[x] == adj[i].push(j as usize));
        } else if rel(i, j) && x == j {
            assert(adj2[x] == adj[j].push(i as usize));
            assert(rel(j, i) == rel(i, j));
        }
    }
    assert forall|x: int| 0 <= x < n implies increasing(#[trigger] adj2[x]) by {
        if rel(i, j) && (x == i || x == j) {
            let other: usize = if x == i { j as usize } else { i as usize };
            assert(adj2[x] == adj[x].push(other));
            assert forall|a: int| 0 <= a < adj[x].len() implies adj[x][a] < other by {
                assert(adj[x].contains(adj[x][a]));
            }
        }
    }
}

/// After the last pair of a row, the next row starts.
pub proof fn lemma_adjacency_row(adj: Seq<Seq<usize>>, n: nat, rel: spec_fn(int, int) -> bool, i: int)
    requires
        adjacency_upto(adj, n, rel, i, n as int),
        0 <= i,
    ensures
        adjacency_upto(adj, n, rel, i + 1, i + 2),
{
    assert forall|x: int, y: usize| 0 <= x < n implies (#[trigger] adj[x].contains(y) <==> (y < n && y != x && rel(x, y as int) && pair_before(
        x,
        y as int,
        i + 1,
        i + 2,
    ))) by {
    }
}

/// Once every row is done, the lists relate every related pair.
pub proof fn lemma_adjacency_done(adj: Seq<Seq<usize>>, n: nat, rel: spec_fn(int, int) -> bool)
    requires
        adjacency_upto(adj, n, rel, n as int, n as int + 1),
    ensures
        adjacency_by(adj, n, rel),
{
}

/// The relation of an adjacency: symmetric pairs of distinct nodes give valid lists.
pub proof fn lemma_adjacency_valid(adj: Seq<Seq<usize>>, n: nat, rel: spec_fn(int, int) -> bool)
    requires
        adjacency_by(adj, n, rel),
        symmetric(rel),
        n <= usize::MAX,
    ensures
        valid_adjacency(adj),
{
    assert forall|i: int, k: int| 0 <= i < adj.len() && 0 <= k < adj[i].len() implies {
        &&& (#[trigger] adj[i][k]) < adj.len()
        &&& adj[i][k] != i
        &&& adj[adj[i][k] as int].contains(i as usize)
    } by {
        let y = adj[i][k];
        assert(adj[i].contains(y));
        assert(rel(y as int, i) == rel(i, y as int));
    }
}

/// `parts` are the components of `g`, as split by `split_connected_components`.
pub open spec fn splits_into<Node>(g: Graph<Node>, parts: Seq<Graph<Node>>) -> bool {
    &&& g.node_seq().len() == 0 ==> parts == seq![g]
    &&& g.node_seq().len() > 0 ==> exists|ccs: Seq<usize>| #![trigger component_labels(g.adjacency(), ccs)]
        component_labels(g.adjacency(), ccs) && split_by(g.node_seq(), g.adjacency(), ccs, parts)
}

/// Every label below the number of labels is counted at least once.
proof fn lemma_labels_counted(ccs: Seq<usize>, num_ccs: int)
    requires
        forall|x: int| 0 <= x < ccs.len() && #[trigger] ccs[x] > 0 ==> exists|j: int| 0 <= j < x && ccs[j] + 1 == ccs[x],
        exists|j: int| 0 <= j < ccs.len() && ccs[j] + 1 == num_ccs,
    ensures
        forall|d: int| 0 <= d < num_ccs ==> #[trigger] count_label(ccs, d as usize) > 0,
{
    assert forall|d: int| 0 <= d < num_ccs implies #[trigger] count_label(ccs, d as usize) > 0 by {
        let j0 = choose|j: int| 0 <= j < ccs.len() && ccs[j] + 1 == num_ccs;
        lemma_labels_dense(ccs, j0, d);
        let j = choose|j: int| 0 <= j < ccs.len() && ccs[j] == d;
        lemma_rank(ccs, j, j);
    }
}

/// The parts assembled from the per-component node and adjacency lists split the graph.
#[verifier::rlimit(30)]
proof fn lemma_split_parts<Node>(
    all_nodes: Seq<Node>,
    adj: Seq<Seq<usize>>,
    ccs: Seq<usize>,
    cn: Seq<Vec<Node>>,
    ce: Seq<Vec<Vec<usize>>>,
    parts: Seq<Graph<Node>>,
    num_ccs: int,
)
    requires
        ccs.len() == adj.len(),
        all_nodes.len() == adj.len(),
        adj.len() > 0,
        forall|x: int| 0 <= x < ccs.len() && #[trigger] ccs[x] > 0 ==> exists|j: int| 0 <= j < x && ccs[j] + 1 == ccs[x],
        parts.len() == num_ccs,
        cn.len() == num_ccs,
        ce.len() == num_ccs,
        exists|j: int| 0 <= j < ccs.len() && ccs[j] + 1 == num_ccs,
        forall|j: int| 0 <= j < ccs.len() ==> #[trigger] ccs[j] <= j,
        forall|j: int| 0 <= j < ccs.len() ==> #[trigger] ccs[j] < num_ccs,
        forall|d: int| 0 <= d < num_ccs ==> (#[trigger] cn[d])@.len() == count_label(ccs, d as usize),
        forall|d: int| 0 <= d < num_ccs ==> (#[trigger] ce[d])@.len() == count_label(ccs, d as usize),
        forall|j: int| 0 <= j < ccs.len() ==> (#[trigger] cn[ccs[j] as int])@[rank(ccs, j) as int] == all_nodes[j],
        forall|j: int| 0 <= j < ccs.len() ==> (#[trigger] ce[ccs[j] as int])@[rank(ccs, j) as int]@ == renumbered(ccs, adj[j]),
        forall|d: int| 0 <= d < parts.len() ==> {
            &&& (#[trigger] parts[d]).node_seq() == cn[d + 0]@
            &&& parts[d].adjacency() == adjacency_of(ce[d + 0]@, cn[d + 0]@.len())
        },
    ensures
        split_by(all_nodes, adj, ccs, parts),
{
    lemma_labels_counted(ccs, num_ccs);
    assert forall|d: int| 0 <= d < parts.len() implies (#[trigger] parts[d]).node_seq().len() == count_label(ccs, d as usize) by {
        assert(parts[d].node_seq() == cn[d + 0]@);
    }
    assert forall|d: int| 0 <= d < parts.len() implies (#[trigger] parts[d]).adjacency().len() == count_label(ccs, d as usize) by {
        assert(parts[d].adjacency() == adjacency_of(ce[d + 0]@, cn[d + 0]@.len()));
    }
    assert forall|i: int| 0 <= i < ccs.len() implies {
        &&& (#[trigger] parts[ccs[i] as int]).node_seq()[rank(ccs, i) as int] == all_nodes[i]
        &&& parts[ccs[i] as int].adjacency()[rank(ccs, i) as int] == renumbered(ccs, adj[i])
    } by {
        let d = ccs[i] as int;
        lemma_rank(ccs, i, i);
        assert(parts[d].node_seq() == cn[d + 0]@);
        assert(parts[d].adjacency() == adjacency_of(ce[d + 0]@, cn[d + 0]@.len()));
        assert(ce[d]@.len() == count_label(ccs, d as usize));
        assert(adjacency_of(ce[d]@, cn[d]@.len())[rank(ccs, i) as int] == ce[d]@[rank(ccs, i) as int]@);
    }
}

/// Every node of a chain carries the label of its first node.
proof fn lemma_chain_labels(adj: Seq<Seq<usize>>, ccs: Seq<usize>, p: Seq<usize>)
    requires
        valid_adjacency(adj),
        adj.len() <= usize::MAX,
        component_labels(adj, ccs),
        is_chain(adj, p),
    ensures
        forall|t: int| 0 <= t < p.len() ==> ccs[#[trigger] p[t] as int] == ccs[p[0] as int],
{
    assert forall|t: int| 0 <= t < p.len() implies ccs[#[trigger] p[t] as int] == ccs[p[0] as int] by {
        let q = p.take(t + 1);
        assert forall|u: int| 0 <= u < q.len() - 1 implies #[trigger] linked(adj, q, u) by {
            assert(linked(adj, p, u));
        }
        assert forall|u: int| 0 <= u < q.len() implies (#[trigger] q[u]) < adj.len() by {
            assert(q[u] == p[u]);
        }
        assert(chain_between(adj, q, p[0] as int, p[t] as int));
        assert(connected(adj, p[0] as int, p[t] as int));
    }
}

/// A chain within one component, renumbered by rank, is a chain of that component's part.
proof fn lemma_map_chain<Node>(nodes: Seq<Node>, adj: Seq<Seq<usize>>, ccs: Seq<usize>, parts: Seq<Graph<Node>>, c: int, p: Seq<usize>)
    requires
        split_by(nodes, adj, ccs, parts),
        ccs.len() == adj.len(),
        ccs.len() <= usize::MAX,
        0 <= c < parts.len(),
        is_chain(adj, p),
        forall|t: int| 0 <= t < p.len() ==> ccs[#[trigger] p[t] as int] == c,
    ensures
        is_chain(parts[c].adjacency(), p.map_values(|x: usize| rank(ccs, x as int) as usize)),
{
    let pa = parts[c].adjacency();
    let q = p.map_values(|x: usize| rank(ccs, x as int) as usize);
    assert forall|t: int| 0 <= t < q.len() implies (#[trigger] q[t]) < pa.len() by {
        lemma_rank(ccs, p[t] as int, p[t] as int);
        assert(ccs[p[t] as int] == c);
    }
    assert forall|t: int| 0 <= t < q.len() - 1 implies #[trigger] linked(pa, q, t) by {
        assert(linked(adj, p, t));
        let x = p[t];
        let y = p[t + 1];
        assert(ccs[x as int] == c);
        assert(ccs[y as int] == c);
        lemma_rank(ccs, x as int, x as int);
        lemma_rank(ccs, y as int, y as int);
        assert(q[t] as int == rank(ccs, x as int));
        assert(q[t + 1] as int == rank(ccs, y as int));
        assert(pa[q[t] as int] == renumbered(ccs, adj[x as int]));
        let k = choose|k: int| 0 <= k < adj[x as int].len() && adj[x as int][k] == y;
        assert(renumbered(ccs, adj[x as int])[k] == q[t + 1]);
        assert(pa[q[t] as int].contains(q[t + 1]));
    }
}

/// A node of a part stands for a node of the whole graph with that part's label and that rank.
pub proof fn lemma_part_node<Node>(nodes: Seq<Node>, adj: Seq<Seq<usize>>, ccs: Seq<usize>, parts: Seq<Graph<Node>>, c: int, a: int)
    requires
        split_by(nodes, adj, ccs, parts),
        0 <= c < parts.len(),
        c <= usize::MAX,
        0 <= a < parts[c].node_seq().len(),
    ensures
        exists|i: int| 0 <= i < ccs.len() && ccs[i] == c && rank(ccs, i) == a,
{
    assert(ccs.take(ccs.len() as int) =~= ccs);
    assert(parts[c].node_seq().len() == count_label(ccs, c as usize));
    lemma_rank_onto(ccs, c as usize, ccs.len() as int, a);
}

/// Each component that `split_connected_components` returns is connected: a chain joins any two
/// of its nodes.
pub proof fn lemma_split_parts_connected<Node>(g: Graph<Node>, ccs: Seq<usize>, parts: Seq<Graph<Node>>, c: int, a: int, b: int)
    requires
        valid_adjacency(g.adjacency()),
        g.adjacency().len() == g.node_seq().len(),
        g.node_seq().len() <= usize::MAX,
        component_labels(g.adjacency(), ccs),
        split_by(g.node_seq(), g.adjacency(), ccs, parts),
        0 <= c < parts.len(),
        c <= usize::MAX,
        0 <= a < parts[c].node_seq().len(),
        0 <= b < parts[c].node_seq().len(),
    ensures
        connected(parts[c].adjacency(), a, b),
{
    let adj = g.adjacency();
    lemma_part_node(g.node_seq(), adj, ccs, parts, c, a);
    lemma_part_node(g.node_seq(), adj, ccs, parts, c, b);
    let i = choose|i: int| 0 <= i < ccs.len() && ccs[i] == c && rank(ccs, i) == a;
    let j = choose|i: int| 0 <= i < ccs.len() && ccs[i] == c && rank(ccs, i) == b;
    lemma_connect_in_part(g.node_seq(), adj, ccs, parts, c, i, j);
}

/// Two nodes of one component are joined, in that component's part, by the renumbered chain.
proof fn lemma_connect_in_part<Node>(nodes: Seq<Node>, adj: Seq<Seq<usize>>, ccs: Seq<usize>, parts: Seq<Graph<Node>>, c: int, i: int, j: int)
    requires
        valid_adjacency(adj),
        adj.len() <= usize::MAX,
        component_labels(adj, ccs),
        split_by(nodes, adj, ccs, parts),
        0 <= c < parts.len(),
        0 <= i < ccs.len(),
        0 <= j < ccs.len(),
        ccs[i] == c,
        ccs[j] == c,
    ensures
        connected(parts[c].adjacency(), rank(ccs, i) as int, rank(ccs, j) as int),
{
    assert(connected(adj, i, j));
    let p = choose|p: Seq<usize>| #[trigger] chain_between(adj, p, i, j);
    lemma_chain_labels(adj, ccs, p);
    lemma_map_chain(nodes, adj, ccs, parts, c, p);
    let q = p.map_values(|x: usize| rank(ccs, x as int) as usize);
    lemma_rank(ccs, i, i);
    lemma_rank(ccs, j, j);
    assert(chain_between(parts[c].adjacency(), q, rank(ccs, i) as int, rank(ccs, j) as int));
}

/// Two colourings that each give the two ends of every edge different sides agree or disagree
/// along a chain alike: the ends of a chain are on the same side in one exactly when they are
/// in the other.
pub proof fn lemma_colorings_agree(adj: Seq<Seq<usize>>, f: Seq<bool>, h: Seq<bool>, p: Seq<usize>)
    requires
        f.len() == adj.len(),
        h.len() == adj.len(),
        forall|i: int, k: int| 0 <= i < adj.len() && 0 <= k < adj[i].len() ==> f[i] != f[#[trigger] adj[i][k] as int],
        forall|i: int, k: int| 0 <= i < adj.len() && 0 <= k < adj[i].len() ==> h[i] != h[#[trigger] adj[i][k] as int],
        is_chain(adj, p),
    ensures
        (f[p[0] as int] == f[p.last() as int]) == (h[p[0] as int] == h[p.last() as int]),
    decreases p.len(),
{
    if p.len() > 1 {
        let q = p.drop_last();
        assert forall|u: int| 0 <= u < q.len() - 1 implies #[trigger] linked(adj, q, u) by {
            assert(linked(adj, p, u));
        }
        assert forall|u: int| 0 <= u < q.len() implies (#[trigger] q[u]) < adj.len() by {
            assert(q[u] == p[u]);
        }
        lemma_colorings_agree(adj, f, h, q);
        let x = p[p.len() - 2];
        assert(linked(adj, p, p.len() - 2));
        let k = choose|k: int| 0 <= k < adj[x as int].len() && adj[x as int][k] == p.last();
        assert(f[x as int] != f[adj[x as int][k] as int]);
        assert(h[x as int] != h[adj[x as int][k] as int]);
    }
}

/// The component of node `i` can be coloured with two colours so that every edge inside it
/// joins different colours.
pub open spec fn component_bipartite(adj: Seq<Seq<usize>>, i: int) -> bool {
    exists|f: Seq<bool>| #[trigger] component_coloring(adj, i, f)
}

/// `f` gives the two ends of every edge of the component of node `i` different sides.
pub open spec fn component_coloring(adj: Seq<Seq<usize>>, i: int, f: Seq<bool>) -> bool {
    &&& f.len() == adj.len()
    &&& forall|x: int, k: int| 0 <= x < adj.len() && connected(adj, i, x) && 0 <= k < adj[x].len() ==> f[x] != f[#[trigger] adj[x][k] as int]
}

/// Along a chain, a colouring that gives the two ends of every edge different sides changes side
/// at each step: the ends of the chain are on the same side exactly when it has an odd number of
/// nodes.
pub proof fn lemma_chain_parity(adj: Seq<Seq<usize>>, f: Seq<bool>, p: Seq<usize>)
    requires
        f.len() == adj.len(),
        forall|i: int, k: int| 0 <= i < adj.len() && 0 <= k < adj[i].len() ==> f[i] != f[#[trigger] adj[i][k] as int],
        is_chain(adj, p),
    ensures
        (f[p[0] as int] == f[p.last() as int]) == (p.len() % 2 == 1),
    decreases p.len(),
{
    if p.len() > 1 {
        let q = p.drop_last();
        assert forall|u: int| 0 <= u < q.len() - 1 implies #[trigger] linked(adj, q, u) by {
            assert(linked(adj, p, u));
        }
        assert forall|u: int| 0 <= u < q.len() implies (#[trigger] q[u]) < adj.len() by {
            assert(q[u] == p[u]);
        }
        lemma_chain_parity(adj, f, q);
        let x = p[p.len() - 2];
        assert(linked(adj, p, p.len() - 2));
        let k = choose|k: int| 0 <= k < adj[x as int].len() && adj[x as int][k] == p.last();
        assert(f[x as int] != f[adj[x as int][k] as int]);
    }
}

/// A chain of the graph lies in the part of its first node, renumbered by rank, with as many
/// nodes, from the rank of its first node to the rank of its last.
pub proof fn lemma_chain_to_part<Node>(g: Graph<Node>, ccs: Seq<usize>, parts: Seq<Graph<Node>>, p: Seq<usize>, i: int, j: int)
    requires
        valid_adjacency(g.adjacency()),
        g.adjacency().len() == g.node_seq().len(),
        g.node_seq().len() <= usize::MAX,
        component_labels(g.adjacency(), ccs),
        split_by(g.node_seq(), g.adjacency(), ccs, parts),
        chain_between(g.adjacency(), p, i, j),
    ensures
        0 <= ccs[i] < parts.len(),
        ccs[j] == ccs[i],
        rank(ccs, i) < parts[ccs[i] as int].node_seq().len(),
        rank(ccs, j) < parts[ccs[i] as int].node_seq().len(),
        parts[ccs[i] as int].node_seq()[rank(ccs, i) as int] == g.node_seq()[i],
        parts[ccs[i] as int].node_seq()[rank(ccs, j) as int] == g.node_seq()[j],
        chain_between(
            parts[ccs[i] as int].adjacency(),
            p.map_values(|x: usize| rank(ccs, x as int) as usize),
            rank(ccs, i) as int,
            rank(ccs, j) as int,
        ),
        p.map_values(|x: usize| rank(ccs, x as int) as usize).len() == p.len(),
{
    let adj = g.adjacency();
    lemma_chain_labels(adj, ccs, p);
    assert(ccs[p.last() as int] == ccs[p[0] as int]);
    let c = ccs[i] as int;
    lemma_map_chain(g.node_seq(), adj, ccs, parts, c, p);
    lemma_rank(ccs, i, i);
    lemma_rank(ccs, j, j);
}

/// The node of label `c` with rank `a`.
pub open spec fn part_member(ccs: Seq<usize>, c: int, a: int) -> int {
    choose|x: int| 0 <= x < ccs.len() && ccs[x] == c && rank(ccs, x) == a
}

/// An edge of a part comes from an edge of the graph between the nodes with those ranks.
proof fn lemma_part_edge<Node>(nodes: Seq<Node>, adj: Seq<Seq<usize>>, ccs: Seq<usize>, parts: Seq<Graph<Node>>, c: int, a: int, k: int)
    requires
        valid_adjacency(adj),
        adj.len() <= usize::MAX,
        component_labels(adj, ccs),
        split_by(nodes, adj, ccs, parts),
        0 <= c < parts.len(),
        c <= usize::MAX,
        0 <= a < parts[c].adjacency().len(),
        0 <= k < parts[c].adjacency()[a].len(),
    ensures
        0 <= part_member(ccs, c, a) < adj.len(),
        ccs[part_member(ccs, c, a)] == c,
        k < adj[part_member(ccs, c, a)].len(),
        adj[part_member(ccs, c, a)][k] as int == part_member(ccs, c, parts[c].adjacency()[a][k] as int),
        parts[c].adjacency()[a][k] < parts[c].adjacency().len(),
{
    let pa = parts[c].adjacency();
    lemma_part_node(nodes, adj, ccs, parts, c, a);
    let xa = part_member(ccs, c, a);
    assert(parts[ccs[xa] as int].adjacency()[rank(ccs, xa) as int] == renumbered(ccs, adj[xa]));
    assert(pa[a] == renumbered(ccs, adj[xa]));
    let y = adj[xa][k];
    lemma_edge_same_label(adj, ccs, xa, k);
    lemma_rank(ccs, y as int, y as int);
    let b = pa[a][k] as int;
    assert(pa[a][k] == rank(ccs, y as int) as usize);
    assert(b == rank(ccs, y as int));
    lemma_part_node(nodes, adj, ccs, parts, c, b);
    let xb = part_member(ccs, c, b);
    if xb != y as int {
        lemma_rank(ccs, xb, y as int);
        lemma_rank(ccs, y as int, xb);
    }
}

/// When the component of node `i` can be two-coloured, so can the part that holds it.
#[verifier::spinoff_prover]
#[verifier::rlimit(50)]
pub proof fn lemma_part_bipartite<Node>(g: Graph<Node>, ccs: Seq<usize>, parts: Seq<Graph<Node>>, i: int)
    requires
        valid_adjacency(g.adjacency()),
        g.adjacency().len() == g.node_seq().len(),
        g.node_seq().len() <= usize::MAX,
        component_labels(g.adjacency(), ccs),
        split_by(g.node_seq(), g.adjacency(), ccs, parts),
        0 <= i < g.node_seq().len(),
        component_bipartite(g.adjacency(), i),
    ensures
        bipartite(parts[ccs[i] as int].adjacency()),
{
    let adj = g.adjacency();
    let c = ccs[i] as int;
    let f = choose|f: Seq<bool>| #[trigger] component_coloring(adj, i, f);
    let pa = parts[c].adjacency();
    let n = pa.len();
    let fp = Seq::new(n, |a: int| f[part_member(ccs, c, a)]);
    assert forall|a: int, k: int| 0 <= a < pa.len() && 0 <= k < pa[a].len() implies fp[a] != fp[#[trigger] pa[a][k] as int] by {
        lemma_part_edge(g.node_seq(), adj, ccs, parts, c, a, k);
        let xa = part_member(ccs, c, a);
        assert(connected(adj, i, xa));
        assert(f[xa] != f[adj[xa][k] as int]);
    }
    assert(proper_coloring(pa, fp));
}

/// Two increasing lists with the same members are equal.
proof fn lemma_increasing_eq(s: Seq<usize>, t: Seq<usize>)
    requires
        increasing(s),
        increasing(t),
        forall|x: usize| s.contains(x) <==> t.contains(x),
    ensures
        s == t,
    decreases s.len(),
{
    if s.len() == 0 {
        if t.len() > 0 {
            assert(t.contains(t[0]));
        }
        assert(s =~= t);
    } else {
        assert(s.contains(s[0]));
        assert(t.contains(s[0]));
        assert(t.len() > 0);
        assert(t.contains(t[0]));
        assert(s.contains(t[0]));
        let a = choose|a: int| 0 <= a < s.len() && s[a] == t[0];
        let b = choose|b: int| 0 <= b < t.len() && t[b] == s[0];
        assert(s[0] == t[0]) by {
            if a > 0 {
                assert(s[0] < s[a]);
            }
            if b > 0 {
                assert(t[0] < t[b]);
            }
        }
        let s1 = s.drop_first();
        let t1 = t.drop_first();
        assert forall|x: usize| s1.contains(x) <==> t1.contains(x) by {
            if s1.contains(x) {
                let u = choose|u: int| 0 <= u < s1.len() && s1[u] == x;
                assert(s[u + 1] == x);
                assert(s[0] < x);
                assert(t.contains(x));
                let v = choose|v: int| 0 <= v < t.len() && t[v] == x;
                assert(v != 0);
                assert(t1[v - 1] == x);
            }
            if t1.contains(x) {
                let u = choose|u: int| 0 <= u < t1.len() && t1[u] == x;
                assert(t[u + 1] == x);
                assert(t[0] < x);
                assert(s.contains(x));
                let v = choose|v: int| 0 <= v < s.len() && s[v] == x;
                assert(v != 0);
                assert(s1[v - 1] == x);
            }
        }
        lemma_increasing_eq(s1, t1);
        assert(s =~= t) by {
            assert forall|k: int| 0 <= k < s.len() implies s[k] == t[k] by {
                if k > 0 {
                    assert(s1[k - 1] == t1[k - 1]);
                }
            }
        }
    }
}

/// A relation has only one adjacency in increasing order.
pub proof fn lemma_adjacency_by_unique(a1: Seq<Seq<usize>>, a2: Seq<Seq<usize>>, n: nat, rel: spec_fn(int, int) -> bool)
    requires
        adjacency_by(a1, n, rel),
        adjacency_by(a2, n, rel),
    ensures
        a1 == a2,
{
    assert forall|x: int| 0 <= x < n implies a1[x] == a2[x] by {
        assert forall|y: usize| a1[x].contains(y) <==> a2[x].contains(y) by {}
        lemma_increasing_eq(a1[x], a2[x]);
    }
    assert(a1 =~= a2);
}

/// Pushes each of `nbrs`, paired with `c`, onto `stack`.
fn push_neighbours(stack: &mut Vec<(usize, TwoColor)>, nbrs: &[usize], c: TwoColor)
    ensures
        final(stack)@ == old(stack)@ + nbrs@.map_values(|j: usize| (j, c)),
{
    let mut t: usize = 0;
    while t < nbrs.len()
        invariant
            t <= nbrs@.len(),
            stack@ == old(stack)@ + nbrs@.take(t as int).map_values(|j: usize| (j, c)),
        decreases nbrs@.len() - t,
    {
        stack.push((nbrs[t], c));
        assert(nbrs@.take(t + 1).map_values(|j: usize| (j, c)) =~= nbrs@.take(t as int).map_values(|j: usize| (j, c)).push((nbrs@[t as int], c)));
        t = t + 1;
    }
    assert(nbrs@.take(nbrs@.len() as int) =~= nbrs@);
}

/// An undirected graph over `nodes`, stored as adjacency lists of node numbers.
pub struct Graph<Node> {
    nodes: Vec<Node>,
    edges: Vec<Vec<usize>>,
}

impl<Node> Graph<Node> {
    /// One adjacency list per node, and the lists form a valid undirected graph.
    #[verifier::type_invariant]
    pub closed spec fn wf(&self) -> bool {
        &&& self.nodes@.len() == self.edges@.len()
        &&& valid_adjacency(self.adjacency())
    }

    /// The nodes, in order.
    pub closed spec fn node_seq(&self) -> Seq<Node> {
        self.nodes@
    }

    /// The adjacency list of each node.
    pub closed spec fn adjacency(&self) -> Seq<Seq<usize>> {
        Seq::new(self.edges@.len(), |i: int| self.edges@[i]@)
    }

    /// A well-formed graph has one valid adjacency list per node.
    pub proof fn lemma_wf(&self)
        requires
            self.wf(),
        ensures
            self.adjacency().len() == self.node_seq().len(),
            valid_adjacency(self.adjacency()),
    {
    }

    /// A graph over `nodes` with the adjacency lists `edges`, cut or padded with empty lists to
    /// one per node.
    pub fn new(nodes: Vec<Node>, edges: Vec<Vec<usize>>) -> (r: Self)
        requires
            valid_adjacency(adjacency_of(edges@, nodes@.len())),
        ensures
            r.node_seq() == nodes@,
            r.adjacency() == adjacency_of(edges@, nodes@.len()),
    {
        let ghost target = adjacency_of(edges@, nodes@.len());
        let n = nodes.len();
        let mut edges = edges;
        let ghost original = edges@;
        while edges.len() > n
            invariant
                n == nodes@.len(),
                edges@.len() <= original.len(),
                edges@.len() < original.len() ==> edges@.len() >= n,
                forall|i: int| 0 <= i < edges@.len() ==> edges@[i] == original[i],
            decreases edges@.len(),
        {
            edges.pop();
        }
        while edges.len() < n
            invariant
                n == nodes@.len(),
                edges@.len() <= n,
                edges@.len() < n ==> edges@.len() >= original.len(),
                forall|i: int| 0 <= i < edges@.len() ==> #[trigger] edges@[i]@ == target[i],
                forall|i: int| 0 <= i < edges@.len() && i < original.len() ==> edges@[i] == original[i],
                forall|i: int| 0 <= i < n ==> #[trigger] target[i] == (if i < original.len() { original[i]@ } else { Seq::<usize>::empty() }),
            decreases n - edges@.len(),
        {
            edges.push(Vec::new());
        }
        let r = Graph { nodes, edges };
        assert(r.adjacency() =~= target);
        r
    }

    /// The nodes, in order.
    pub fn nodes(&self) -> (r: &[Node])
        ensures
            r@ == self.node_seq(),
    {
        self.nodes.as_slice()
    }

    /// The number of nodes.
    pub fn len(&self) -> (r: usize)
        ensures
            r == self.node_seq().len(),
            r == self.adjacency().len(),
    {
        proof {
            use_type_invariant(self);
        }
        self.nodes.len()
    }

    /// The neighbours of node `i`, in the order the edges were added.
    pub fn edges_of(&self, i: usize) -> (r: &[usize])
        requires
            i < self.node_seq().len(),
        ensures
            r@ == self.adjacency()[i as int],
    {
        proof {
            use_type_invariant(self);
        }
        self.edges[i].as_slice()
    }

    /// Whether the graph has no node.
    pub fn is_empty(&self) -> (r: bool)
        ensures
            r == (self.node_seq().len() == 0),
    {
        self.len() == 0
    }

    /// The node numbered `i`.
    pub fn node(&self, i: usize) -> (r: &Node)
        requires
            i < self.node_seq().len(),
        ensures
            *r == self.node_seq()[i as int],
    {
        &self.nodes[i]
    }

    /// Appends a node without neighbours.
    pub fn add_node(&mut self, node: Node)
        ensures
            final(self).node_seq() == old(self).node_seq().push(node),
            final(self).adjacency() == old(self).adjacency().push(Seq::<usize>::empty()),
    {
        proof {
            use_type_invariant(&*self);
        }
        let mut taken = Graph { nodes: Vec::new(), edges: Vec::new() };
        assert(taken.adjacency() =~= Seq::<Seq<usize>>::empty());
        std::mem::swap(self, &mut taken);
        let Graph { mut nodes, mut edges } = taken;
        let ghost old_adj = Seq::new(edges@.len(), |i: int| edges@[i]@);
        nodes.push(node);
        edges.push(Vec::new());
        let ghost adj = Seq::new(edges@.len(), |i: int| edges@[i]@);
        assert(adj =~= old_adj.push(Seq::<usize>::empty()));
        assert forall|i: int, k: int| 0 <= i < adj.len() && 0 <= k < adj[i].len() implies {
            &&& (#[trigger] adj[i][k]) < adj.len()
            &&& adj[i][k] != i
            &&& adj[adj[i][k] as int].contains(i as usize)
        } by {
            assert(adj[i] == old_adj[i]);
            assert(adj[adj[i][k] as int] == old_adj[old_adj[i][k] as int]);
        }
        *self = Graph { nodes, edges };
    }

    /// Adds the edge between nodes `i` and `j`, appending each to the other's neighbours.
    pub fn add_edge(&mut self, i: usize, j: usize)
        requires
            i < old(self).node_seq().len(),
            j < old(self).node_seq().len(),
            i != j,
        ensures
            final(self).node_seq() == old(self).node_seq(),
            final(self).adjacency() == old(self).adjacency().update(i as int, old(self).adjacency()[i as int].push(j)).update(
                j as int,
                old(self).adjacency()[j as int].push(i),
            ),
    {
        proof {
            use_type_invariant(&*self);
        }
        let mut taken = Graph { nodes: Vec::new(), edges: Vec::new() };
        assert(taken.adjacency() =~= Seq::<Seq<usize>>::empty());
        std::mem::swap(self, &mut taken);
        let Graph { nodes, mut edges } = taken;
        let ghost old_adj = Seq::new(edges@.len(), |x: int| edges@[x]@);
        edges[i].push(j);
        edges[j].push(i);
        let ghost adj = Seq::new(edges@.len(), |x: int| edges@[x]@);
        let ghost expected = old_adj.update(i as int, old_adj[i as int].push(j)).update(j as int, old_adj[j as int].push(i));
        assert(adj =~= expected);
        assert forall|a: int, k: int| 0 <= a < adj.len() && 0 <= k < adj[a].len() implies {
            &&& (#[trigger] adj[a][k]) < adj.len()
            &&& adj[a][k] != a
            &&& adj[adj[a][k] as int].contains(a as usize)
        } by {
            let b = adj[a][k];
            if k < old_adj[a].len() {
                assert(adj[a][k] == old_adj[a][k]);
                let t = choose|t: int| 0 <= t < old_adj[b as int].len() && old_adj[b as int][t] == a as usize;
                assert(adj[b as int][t] == a as usize);
            } else if a == i {
                assert(b == j);
                assert(adj[j as int][old_adj[j as int].len() as int] == i);
            } else {
                assert(a == j && b == i);
                assert(adj[i as int][old_adj[i as int].len() as int] == j);
            }
        }
        *self = Graph { nodes, edges };
    }

    /// Splits the nodes into two sides so that every edge joins the two sides: `None` when the
    /// graph is empty or no such split exists, else the red and the black node numbers in
    /// increasing order. Each component is walked from its first node, which is red.
    pub fn two_colorize(&self) -> (r: Option<(Vec<usize>, Vec<usize>)>)
        ensures
            r is None <==> (self.node_seq().len() == 0 || !bipartite(self.adjacency())),
            r matches Some((red, black)) ==> two_coloring(self.adjacency(), red@, black@),
            r matches Some((red, black)) ==> increasing(red@) && increasing(black@),
            r matches Some((red, black)) ==> forall|i: int|
                0 <= i < self.node_seq().len() && #[trigger] first_in_component(self.adjacency(), i) ==> red@.contains(i as usize),
    {
        proof {
            use_type_invariant(self);
        }
        let ghost adj = self.adjacency();
        let n = self.len();
        if n == 0 {
            return None;
        }
        let mut colors: Vec<Option<TwoColor>> = Vec::new();
        while colors.len() < n
            invariant
                colors@.len() <= n,
                forall|i: int| 0 <= i < colors@.len() ==> colors@[i] is None,
            decreases n - colors@.len(),
        {
            colors.push(None);
        }
        let ghost mut roots: Seq<int> = Seq::new(n as nat, |i: int| i);
        let mut root: usize = 0;
        while root < n
            invariant
                n == adj.len(),
                n == self.node_seq().len(),
                adj == self.adjacency(),
                valid_adjacency(adj),
                colors@.len() == n,
                roots.len() == n,
                root <= n,
                forall|i: int| 0 <= i < root ==> (#[trigger] colors@[i]) is Some,
                colors_closed(adj, colors@, roots, -1),
                colors_forced(adj, colors@, roots),
                colors_rooted(adj, colors@, roots),
                forall|i: int| 0 <= i < n && (#[trigger] colors@[i]) is Some ==> 0 <= roots[i] < root,
            decreases n - root,
        {
            if colors[root].is_none() {
                let cur = root;
                let ghost old_colors = colors@;
                let ghost old_roots = roots;
                proof {
                    lemma_count_uncolored(colors@, cur as int, TwoColor::Red);
                    lemma_root_start(adj, old_colors, old_roots, cur as int);
                }
                colors[cur] = Some(TwoColor::Red);
                proof {
                    roots = roots.update(cur as int, cur as int);
                }
                let mut stack: Vec<(usize, TwoColor)> = Vec::new();
                push_neighbours(&mut stack, self.edges_of(cur), TwoColor::Black);
                proof {
                    lemma_start_component(adj, old_colors, old_roots, cur as int);
                    assert(stack@ =~= adj[cur as int].map_values(|j: usize| (j, TwoColor::Black)));
                }
                loop
                    invariant
                        n == adj.len(),
                        n == self.node_seq().len(),
                        adj == self.adjacency(),
                        valid_adjacency(adj),
                        colors@.len() == n,
                        roots.len() == n,
                        cur < n,
                        root == cur,
                        colors@[cur as int] is Some,
                        forall|i: int| 0 <= i < root ==> (#[trigger] colors@[i]) is Some,
                        colors_closed(adj, colors@, roots, cur as int),
                        colors_pending(adj, colors@, roots, cur as int, stack@),
                        stack_sourced(adj, colors@, roots, cur as int, stack@),
                        colors_forced(adj, colors@, roots),
                        colors_rooted(adj, colors@, roots),
                        roots[cur as int] == cur as int,
                        forall|i: int| 0 <= i < n && (#[trigger] colors@[i]) is Some ==> 0 <= roots[i] <= cur,
                    ensures
                        colors@.len() == n,
                        roots.len() == n,
                        colors@[cur as int] is Some,
                        forall|i: int| 0 <= i < root ==> (#[trigger] colors@[i]) is Some,
                        colors_closed(adj, colors@, roots, -1),
                        colors_forced(adj, colors@, roots),
                        colors_rooted(adj, colors@, roots),
                        forall|i: int| 0 <= i < n && (#[trigger] colors@[i]) is Some ==> 0 <= roots[i] <= cur,
                    decreases count_uncolored(colors@), stack@.len(),
                {
                    let ghost before = stack@;
                    let top = stack.pop();
                    match top {
                        None => {
                            proof {
                                lemma_finish_component(adj, colors@, roots, cur as int);
                            }
                            break;
                        },
                        Some((i, color)) => {
                            match colors[i] {
                                Some(expected) => {
                                    if expected != color {
                                        proof {
                                            lemma_conflict(adj, colors@, roots, cur as int, before, i, color);
                                        }
                                        return None;
                                    }
                                    proof {
                                        lemma_revisit_step(adj, colors@, roots, cur as int, before, i, color);
                                    }
                                },
                                None => {
                                    let ghost cs = colors@;
                                    let ghost rs = roots;
                                    proof {
                                        lemma_count_uncolored(colors@, i as int, color);
                                        lemma_color_step(adj, cs, rs, cur as int, before, i, color);
                                        lemma_root_step(adj, cs, rs, cur as int, before, i, color);
                                    }
                                    colors[i] = Some(color);
                                    proof {
                                        roots = roots.update(i as int, cur as int);
                                    }
                                    push_neighbours(&mut stack, self.edges_of(i), color.other());
                                    assert(stack@ =~= before.drop_last() + adj[i as int].map_values(|j: usize| (j, color.flip())));
                                },
                            }
                        },
                    }
                }
            }
            root = root + 1;
        }
        let mut red: Vec<usize> = Vec::new();
        let mut black: Vec<usize> = Vec::new();
        let mut i: usize = 0;
        while i < n
            invariant
                i <= n,
                n == colors@.len(),
                forall|j: int| 0 <= j < n ==> (#[trigger] colors@[j]) is Some,
                increasing(red@),
                increasing(black@),
                adj.len() == n,
                roots.len() == n,
                colors_closed(adj, colors@, roots, -1),
                colors_rooted(adj, colors@, roots),
                forall|j: int| 0 <= j < n && (#[trigger] colors@[j]) is Some ==> 0 <= roots[j],
                forall|k: int| 0 <= k < red@.len() ==> (#[trigger] red@[k]) < i && colors@[red@[k] as int] == Some(TwoColor::Red),
                forall|k: int| 0 <= k < black@.len() ==> (#[trigger] black@[k]) < i && colors@[black@[k] as int] == Some(TwoColor::Black),
                forall|j: usize| j < i && colors@[j as int] == Some(TwoColor::Red) ==> red@.contains(j),
                forall|j: usize| j < i && colors@[j as int] == Some(TwoColor::Black) ==> black@.contains(j),
            decreases n - i,
        {
            let ghost red0 = red@;
            let ghost black0 = black@;
            match colors[i] {
                Some(TwoColor::Red) => {
                    red.push(i);
                    assert(red@[red@.len() - 1] == i);
                },
                _ => {
                    black.push(i);
                    assert(black@[black@.len() - 1] == i);
                },
            }
            assert forall|j: usize| j < i + 1 && colors@[j as int] == Some(TwoColor::Red) implies red@.contains(j) by {
                if j < i {
                    let t = choose|t: int| 0 <= t < red0.len() && red0[t] == j;
                    assert(red@[t] == j);
                }
            }
            assert forall|j: usize| j < i + 1 && colors@[j as int] == Some(TwoColor::Black) implies black@.contains(j) by {
                if j < i {
                    let t = choose|t: int| 0 <= t < black0.len() && black0[t] == j;
                    assert(black@[t] == j);
                }
            }
            i = i + 1;
        }
        proof {
            lemma_sides(adj, colors@, roots, red@, black@);
            assert forall|x: int| 0 <= x < n && #[trigger] first_in_component(adj, x) implies red@.contains(x as usize) by {
                assert(colors@[x] is Some);
                if roots[x] < x {
                    assert(!connected(adj, roots[x], x));
                }
                assert(colors@[x as usize as int] == Some(TwoColor::Red));
            }
        }
        Some((red, black))
    }


    /// Labels each node with its connected component, numbering the components in the order of
    /// their first nodes.
    pub fn find_connected_components(&self) -> (r: Vec<usize>)
        ensures
            component_labels(self.adjacency(), r@),
            forall|i: int| 0 <= i < r@.len() ==> #[trigger] r@[i] <= i,
    {
        proof {
            use_type_invariant(self);
        }
        let ghost adj = self.adjacency();
        let n = self.len();
        let mut ccs: Vec<usize> = Vec::new();
        let mut processed: Vec<bool> = Vec::new();
        while ccs.len() < n
            invariant
                ccs@.len() == processed@.len(),
                ccs@.len() <= n,
                forall|i: int| 0 <= i < processed@.len() ==> !(#[trigger] processed@[i]),
            decreases n - ccs@.len(),
        {
            ccs.push(0);
            processed.push(false);
        }
        let mut current_cc: usize = 0;
        let ghost mut roots: Seq<int> = Seq::empty();
        let mut root: usize = 0;
        while root < n
            invariant
                n == adj.len(),
                n == self.node_seq().len(),
                adj == self.adjacency(),
                valid_adjacency(adj),
                n <= usize::MAX,
                processed@.len() == n,
                ccs@.len() == n,
                current_cc <= root <= n,
                roots.len() == current_cc,
                forall|i: int| 0 <= i < root ==> #[trigger] processed@[i],
                forall|k: int| 0 <= k < current_cc ==> 0 <= #[trigger] roots[k] < root && processed@[roots[k]] && ccs@[roots[k]] == k,
                forall|i: int| 0 <= i < n && #[trigger] processed@[i] ==> {
                    &&& ccs@[i] < current_cc
                    &&& ccs@[i] <= i
                    &&& connected(adj, roots[ccs@[i] as int], i)
                    &&& ccs@[i] > 0 ==> exists|j: int| 0 <= j < i && processed@[j] && ccs@[j] + 1 == ccs@[i]
                },
                cc_closed(adj, processed@, ccs@, current_cc as int),
            decreases n - root,
        {
            if !processed[root] {
                proof {
                    roots = roots.push(root as int);
                    lemma_connected_self(adj, root as int);
                }
                let mut stack: Vec<usize> = Vec::new();
                stack.push(root);
                assert(cc_walk(adj, processed@, ccs@, roots, current_cc as int, root as int)) by {
                    assert forall|i: int| 0 <= i < n && #[trigger] processed@[i] implies {
                        &&& ccs@[i] <= current_cc
                        &&& ccs@[i] <= i
                        &&& connected(adj, roots[ccs@[i] as int], i)
                        &&& ccs@[i] > 0 ==> exists|j: int| 0 <= j < i && processed@[j] && ccs@[j] + 1 == ccs@[i]
                    } by {
                        assert(roots[ccs@[i] as int] == roots.drop_last()[ccs@[i] as int]);
                    }
                    assert forall|k: int| 0 <= k < current_cc implies 0 <= #[trigger] roots[k] < root && processed@[roots[k]] && ccs@[roots[k]] == k by {
                        assert(roots[k] == roots.drop_last()[k]);
                    }
                }
                assert(cc_pending(adj, processed@, ccs@, current_cc as int, stack@));
                assert(stack@[0] == root);
                loop
                    invariant
                        n == adj.len(),
                        n == self.node_seq().len(),
                        adj == self.adjacency(),
                        cc_walk(adj, processed@, ccs@, roots, current_cc as int, root as int),
                        cc_pending(adj, processed@, ccs@, current_cc as int, stack@),
                        cc_stack(adj, root as int, stack@),
                        processed@[root as int] || stack@.contains(root),
                        processed@[root as int] ==> ccs@[root as int] == current_cc,
                    ensures
                        cc_walk(adj, processed@, ccs@, roots, current_cc as int, root as int),
                        cc_closed(adj, processed@, ccs@, current_cc + 1),
                        processed@[root as int],
                        ccs@[root as int] == current_cc,
                    decreases count_false(processed@), stack@.len(),
                {
                    let ghost before = stack@;
                    match stack.pop() {
                        None => {
                            proof {
                                lemma_cc_finish(adj, processed@, ccs@, roots, current_cc as int, root as int);
                                assert(before.len() == 0);
                                assert(stack@.len() == 0);
                            }
                            break;
                        },
                        Some(i) => {
                            if !processed[i] {
                                let ghost pre = processed@;
                                proof {
                                    lemma_cc_visit(adj, processed@, ccs@, roots, current_cc as int, root as int, before, i);
                                    lemma_count_false(processed@, i as int);
                                }
                                processed[i] = true;
                                ccs[i] = current_cc;
                                push_all(&mut stack, self.edges_of(i));
                                proof {
                                    if !pre[root as int] && i != root {
                                        let s = choose|s: int| 0 <= s < before.len() && before[s] == root;
                                        assert(s != before.len() - 1);
                                        assert(stack@[s] == root);
                                    }
                                }
                            } else {
                                proof {
                                    lemma_cc_revisit(adj, processed@, ccs@, current_cc as int, root as int, before, i);
                                    if !processed@[root as int] {
                                        let s = choose|s: int| 0 <= s < before.len() && before[s] == root;
                                        assert(stack@[s] == root);
                                    }
                                }
                            }
                        },
                    }
                }
                current_cc = current_cc + 1;
            }
            root = root + 1;
        }
        proof {
            lemma_cc_final(adj, processed@, ccs@, roots, current_cc as int);
            assert forall|i: int| 0 <= i < ccs@.len() implies #[trigger] ccs@[i] <= i by {
                assert(processed@[i]);
            }
        }
        ccs
    }


    /// Splits the graph into its connected components, numbered in the order of their first
    /// nodes; each keeps its nodes in order, with neighbours renumbered within the component. An
    /// empty graph comes back alone.
    #[verifier::rlimit(40)]
    pub fn split_connected_components(self) -> (r: Vec<Graph<Node>>)
        ensures
            splits_into(self, r@),
    {
        proof {
            use_type_invariant(&self);
        }
        if self.is_empty() {
            let ghost g = self;
            let r = vec![self];
            assert(r@ =~= seq![g]);
            return r;
        }
        let ghost adj = self.adjacency();
        let ghost all_nodes = self.node_seq();
        let n = self.len();
        let ccs = self.find_connected_components();
        let mut num_ccs: usize = 0;
        let mut i: usize = 0;
        while i < n
            invariant
                i <= n,
                n == ccs@.len(),
                num_ccs <= i,
                forall|j: int| 0 <= j < ccs@.len() ==> #[trigger] ccs@[j] <= j,
                forall|j: int| 0 <= j < i ==> #[trigger] ccs@[j] < num_ccs,
                i > 0 ==> exists|j: int| 0 <= j < i && ccs@[j] + 1 == num_ccs,
            decreases n - i,
        {
            if ccs[i] + 1 > num_ccs {
                num_ccs = ccs[i] + 1;
            }
            i = i + 1;
        }
        let mut current_index: Vec<usize> = Vec::new();
        while current_index.len() < num_ccs
            invariant
                current_index@.len() <= num_ccs,
                forall|c: int| 0 <= c < current_index@.len() ==> #[trigger] current_index@[c] == 0,
            decreases num_ccs - current_index@.len(),
        {
            current_index.push(0);
        }
        let mut reindex: Vec<usize> = Vec::new();
        let mut i: usize = 0;
        while i < n
            invariant
                i <= n,
                n == ccs@.len(),
                current_index@.len() == num_ccs,
                forall|j: int| 0 <= j < n ==> #[trigger] ccs@[j] < num_ccs,
                reindex@.len() == i,
                forall|j: int| 0 <= j < i ==> #[trigger] reindex@[j] == rank(ccs@, j),
                forall|c: int| 0 <= c < num_ccs ==> #[trigger] current_index@[c] == count_label(ccs@.take(i as int), c as usize),
                forall|c: int| 0 <= c < num_ccs ==> #[trigger] current_index@[c] <= i,
            decreases n - i,
        {
            let c = ccs[i];
            proof {
                assert forall|d: int| 0 <= d < num_ccs implies #[trigger] count_label(ccs@.take(i + 1), d as usize) == count_label(ccs@.take(i as int), d as usize) + if ccs@[i as int] == d as usize { 1nat } else { 0nat } by {
                    lemma_count_take(ccs@, i as int, d as usize);
                }
            }
            reindex.push(current_index[c]);
            current_index[c] = current_index[c] + 1;
            i = i + 1;
        }
        let Graph { mut nodes, edges } = self;
        let mut comp_nodes: Vec<Vec<Node>> = Vec::new();
        let mut comp_edges: Vec<Vec<Vec<usize>>> = Vec::new();
        while comp_nodes.len() < num_ccs
            invariant
                comp_nodes@.len() == comp_edges@.len(),
                comp_nodes@.len() <= num_ccs,
                forall|c: int| 0 <= c < comp_nodes@.len() ==> (#[trigger] comp_nodes@[c])@.len() == 0,
                forall|c: int| 0 <= c < comp_edges@.len() ==> (#[trigger] comp_edges@[c])@.len() == 0,
            decreases num_ccs - comp_nodes@.len(),
        {
            comp_nodes.push(Vec::new());
            comp_edges.push(Vec::new());
        }
        let mut i: usize = 0;
        while i < n
            invariant
                i <= n,
                n == ccs@.len(),
                n == adj.len(),
                valid_adjacency(adj),
                adj == Seq::new(edges@.len(), |x: int| edges@[x]@),
                nodes@ == all_nodes.skip(i as int),
                all_nodes.len() == n,
                reindex@.len() == n,
                forall|j: int| 0 <= j < n ==> #[trigger] reindex@[j] == rank(ccs@, j),
                forall|j: int| 0 <= j < n ==> #[trigger] ccs@[j] < num_ccs,
                comp_nodes@.len() == num_ccs,
                comp_edges@.len() == num_ccs,
                forall|c: int| 0 <= c < num_ccs ==> (#[trigger] comp_nodes@[c])@.len() == count_label(ccs@.take(i as int), c as usize),
                forall|c: int| 0 <= c < num_ccs ==> (#[trigger] comp_edges@[c])@.len() == count_label(ccs@.take(i as int), c as usize),
                forall|j: int| 0 <= j < i ==> (#[trigger] comp_nodes@[ccs@[j] as int])@[rank(ccs@, j) as int] == all_nodes[j],
                forall|j: int| 0 <= j < i ==> (#[trigger] comp_edges@[ccs@[j] as int])@[rank(ccs@, j) as int]@ == renumbered(ccs@, adj[j]),
            decreases n - i,
        {
            let ghost cn0 = comp_nodes@;
            let ghost ce0 = comp_edges@;
            let node = nodes.remove(0);
            let c = ccs[i];
            assert(forall|k: int| 0 <= k < edges@[i as int]@.len() ==> (#[trigger] edges@[i as int]@[k]) < reindex@.len()) by {
                assert(adj[i as int] == edges@[i as int]@);
            }
            let mapped = map_edges(&edges[i], &reindex);
            assert(mapped@ =~= renumbered(ccs@, adj[i as int])) by {
                assert(adj[i as int] == edges@[i as int]@);
            }
            proof {
                lemma_count_take(ccs@, i as int, c);
                assert(rank(ccs@, i as int) == count_label(ccs@.take(i as int), c));
            }
            comp_nodes[c].push(node);
            comp_edges[c].push(mapped);
            proof {
                assert(nodes@ =~= all_nodes.skip(i + 1));
                assert forall|d: int| 0 <= d < num_ccs implies (#[trigger] comp_nodes@[d])@.len() == count_label(ccs@.take(i + 1), d as usize) by {
                    lemma_count_take(ccs@, i as int, d as usize);
                }
                assert forall|d: int| 0 <= d < num_ccs implies (#[trigger] comp_edges@[d])@.len() == count_label(ccs@.take(i + 1), d as usize) by {
                    lemma_count_take(ccs@, i as int, d as usize);
                }
                assert forall|j: int| 0 <= j < i + 1 implies (#[trigger] comp_nodes@[ccs@[j] as int])@[rank(ccs@, j) as int] == all_nodes[j] by {
                    if j < i {
                        if ccs@[j] == c {
                            lemma_rank(ccs@, j, i as int);
                        }
                        assert(comp_nodes@[ccs@[j] as int]@[rank(ccs@, j) as int] == cn0[ccs@[j] as int]@[rank(ccs@, j) as int]);
                    }
                }
                assert forall|j: int| 0 <= j < i + 1 implies (#[trigger] comp_edges@[ccs@[j] as int])@[rank(ccs@, j) as int]@ == renumbered(ccs@, adj[j]) by {
                    if j < i {
                        if ccs@[j] == c {
                            lemma_rank(ccs@, j, i as int);
                        }
                        assert(comp_edges@[ccs@[j] as int]@[rank(ccs@, j) as int] == ce0[ccs@[j] as int]@[rank(ccs@, j) as int]);
                    }
                }
            }
            i = i + 1;
        }
        assert(ccs@.take(n as int) =~= ccs@);
        let ghost cn = comp_nodes@;
        let ghost ce = comp_edges@;
        let mut result: Vec<Graph<Node>> = Vec::new();
        let mut c: usize = num_ccs;
        while c > 0
            invariant
                c <= num_ccs,
                n == ccs@.len(),
                n == adj.len(),
                n <= usize::MAX,
                valid_adjacency(adj),
                component_labels(adj, ccs@),
                cn.len() == num_ccs,
                ce.len() == num_ccs,
                forall|d: int| 0 <= d < num_ccs ==> (#[trigger] cn[d])@.len() == count_label(ccs@, d as usize),
                forall|d: int| 0 <= d < num_ccs ==> (#[trigger] ce[d])@.len() == count_label(ccs@, d as usize),
                forall|j: int| 0 <= j < n ==> (#[trigger] ce[ccs@[j] as int])@[rank(ccs@, j) as int]@ == renumbered(ccs@, adj[j]),
                forall|j: int| 0 <= j < n ==> #[trigger] ccs@[j] < num_ccs,
                comp_nodes@ == cn.take(c as int),
                comp_edges@ == ce.take(c as int),
                result@.len() == num_ccs - c,
                forall|d: int| 0 <= d < result@.len() ==> {
                    &&& (#[trigger] result@[d]).node_seq() == cn[d + c]@
                    &&& result@[d].adjacency() == adjacency_of(ce[d + c]@, cn[d + c]@.len())
                },
            decreases c,
        {
            let part_nodes = match comp_nodes.pop() {
                Some(v) => v,
                None => Vec::new(),
            };
            let part_edges = match comp_edges.pop() {
                Some(v) => v,
                None => Vec::new(),
            };
            c = c - 1;
            proof {
                assert(part_nodes@ == cn[c as int]@);
                assert(part_edges@ == ce[c as int]@);
                assert forall|j: int| 0 <= j < ccs@.len() && ccs@[j] == c implies (#[trigger] part_edges@[rank(ccs@, j) as int])@ == renumbered(ccs@, adj[j]) by {
                    assert(ce[ccs@[j] as int] == ce[c as int]);
                }
                lemma_part_valid(adj, ccs@, c, part_edges@);
            }
            let ghost before = result@;
            let g = Graph::new(part_nodes, part_edges);
            result.insert(0, g);
            assert forall|d: int| 0 <= d < result@.len() implies {
                &&& (#[trigger] result@[d]).node_seq() == cn[d + c]@
                &&& result@[d].adjacency() == adjacency_of(ce[d + c]@, cn[d + c]@.len())
            } by {
                if d > 0 {
                    assert(result@[d] == before[d - 1]);
                    assert(d - 1 + (c + 1) == d + c);
                } else {
                    assert(result@[d] == g);
                }
            }
            proof {
                assert(comp_nodes@ =~= cn.take(c as int));
                assert(comp_edges@ =~= ce.take(c as int));
            }
        }
        proof {
            lemma_split_parts(all_nodes, adj, ccs@, cn, ce, result@, num_ccs as int);
        }
        result
    }


    /// A chain with the fewest nodes from `origin` to `dest`, found breadth first: among the
    /// chains of its length, the first in breadth-first order, which goes at each node to the
    /// earliest neighbour it can; `None` when no chain joins them.
    #[verifier::rlimit(60)]
    pub fn shortest_chain(&self, origin: usize, dest: usize) -> (r: Option<Vec<usize>>)
        requires
            origin < self.node_seq().len() || origin == dest,
        ensures
            origin == dest ==> (r matches Some(p) && p@ == seq![origin]),
            origin != dest ==> (r is Some <==> connected(self.adjacency(), origin as int, dest as int)),
            r matches Some(p) ==> forall|q: Seq<usize>|
                #[trigger] chain_between(self.adjacency(), q, origin as int, dest as int) && q.len() == p@.len() ==> !chain_before(
                    self.adjacency(),
                    q,
                    p@,
                ),
            r matches Some(p) ==> origin != dest ==> {
                &&& chain_between(self.adjacency(), p@, origin as int, dest as int)
                &&& p@.no_duplicates()
                &&& forall|q: Seq<usize>| #[trigger] chain_between(self.adjacency(), q, origin as int, dest as int) ==> p@.len() <= q.len()
            },
    {
        if origin == dest {
            return Some(vec![origin]);
        }
        proof {
            use_type_invariant(self);
        }
        let ghost adj = self.adjacency();
        let n = self.len();
        if dest >= n {
            assert forall|q: Seq<usize>| !chain_between(adj, q, origin as int, dest as int) by {
                if chain_between(adj, q, origin as int, dest as int) {
                    assert(q[q.len() - 1] < adj.len());
                }
            }
            return None;
        }
        let mut visited: Vec<bool> = Vec::new();
        let mut parent: Vec<usize> = Vec::new();
        while visited.len() < n
            invariant
                visited@.len() == parent@.len(),
                visited@.len() <= n,
                forall|v: int| 0 <= v < visited@.len() ==> !(#[trigger] visited@[v]),
            decreases n - visited@.len(),
        {
            visited.push(false);
            parent.push(0);
        }
        visited[origin] = true;
        let ghost mut dist: Seq<int> = Seq::new(n as nat, |v: int| 0int);
        let ghost mut d: int = 0;
        let mut frontier: Vec<usize> = Vec::new();
        frontier.push(origin);
        assert forall|v: int| 0 <= v < adj.len() && #[trigger] visited@[v] implies v == origin by {
        }
        assert(frontier@[0] == origin);
        assert(bfs_state(adj, visited@, parent@, dist, origin as int, d));
        let ghost mut chains: Seq<Seq<usize>> = Seq::new(n as nat, |v: int| seq![origin]);
        assert(bfs_chains(adj, visited@, parent@, dist, origin as int, chains)) by {
            reveal(bfs_chains);
            assert(chain_between(adj, chains[origin as int], origin as int, origin as int));
        }
        assert(chains_in_order(adj, chains, frontier@)) by {
            reveal(chains_in_order);
        }
        while frontier.len() > 0 && !visited[dest]
            invariant
                n == adj.len(),
                n == self.node_seq().len(),
                adj == self.adjacency(),
                valid_adjacency(adj),
                origin != dest,
                dest < n,
                d >= 0,
                bfs_state(adj, visited@, parent@, dist, origin as int, d),
                forall|v: int| 0 <= v < n && #[trigger] visited@[v] ==> dist[v] <= d,
                forall|f: int| 0 <= f < frontier@.len() ==> (#[trigger] frontier@[f]) < n && visited@[frontier@[f] as int] && dist[frontier@[f] as int] == d,
                forall|v: int| 0 <= v < n && #[trigger] visited@[v] && dist[v] == d ==> frontier@.contains(v as usize),
                bfs_chains(adj, visited@, parent@, dist, origin as int, chains),
                chains_in_order(adj, chains, frontier@),
            decreases 2 * count_false(visited@) + if frontier@.len() > 0 { 1int } else { 0int },
        {
            let ghost c0 = count_false(visited@);
            let mut next: Vec<usize> = Vec::new();
            let ghost mut pf: Seq<int> = Seq::empty();
            let ghost mut pk: Seq<int> = Seq::empty();
            assert(next_facts(adj, chains, frontier@, next@, pf, pk, 0, 0)) by {
                reveal(next_facts);
                reveal(chains_in_order);
            }
            let mut fi: usize = 0;
            while fi < frontier.len()
                invariant
                    n == adj.len(),
                    n == self.node_seq().len(),
                    adj == self.adjacency(),
                    valid_adjacency(adj),
                    d >= 0,
                    fi <= frontier@.len(),
                    bfs_state(adj, visited@, parent@, dist, origin as int, d),
                    forall|f: int| 0 <= f < frontier@.len() ==> (#[trigger] frontier@[f]) < n && visited@[frontier@[f] as int] && dist[frontier@[f] as int] == d,
                    forall|v: int| 0 <= v < n && #[trigger] visited@[v] && dist[v] == d ==> frontier@.contains(v as usize),
                    forall|g: int| 0 <= g < next@.len() ==> (#[trigger] next@[g]) < n && visited@[next@[g] as int] && dist[next@[g] as int] == d + 1,
                    forall|v: int| 0 <= v < n && #[trigger] visited@[v] && dist[v] == d + 1 ==> next@.contains(v as usize),
                    forall|f: int, k: int| 0 <= f < fi && 0 <= k < adj[frontier@[f] as int].len() ==> {
                        &&& visited@[#[trigger] adj[frontier@[f] as int][k] as int]
                        &&& dist[adj[frontier@[f] as int][k] as int] <= d + 1
                    },
                    count_false(visited@) + next@.len() == c0,
                    bfs_chains(adj, visited@, parent@, dist, origin as int, chains),
                    chains_in_order(adj, chains, frontier@),
                    next_facts(adj, chains, frontier@, next@, pf, pk, fi as int, 0),
                decreases frontier@.len() - fi,
            {
                let u = frontier[fi];
                let nbrs = self.edges_of(u);
                let mut k: usize = 0;
                while k < nbrs.len()
                    invariant
                        n == adj.len(),
                        valid_adjacency(adj),
                        d >= 0,
                        fi < frontier@.len(),
                        u == frontier@[fi as int],
                        nbrs@ == adj[u as int],
                        k <= nbrs@.len(),
                        bfs_state(adj, visited@, parent@, dist, origin as int, d),
                        forall|f: int| 0 <= f < frontier@.len() ==> (#[trigger] frontier@[f]) < n && visited@[frontier@[f] as int] && dist[frontier@[f] as int] == d,
                        forall|v: int| 0 <= v < n && #[trigger] visited@[v] && dist[v] == d ==> frontier@.contains(v as usize),
                        forall|g: int| 0 <= g < next@.len() ==> (#[trigger] next@[g]) < n && visited@[next@[g] as int] && dist[next@[g] as int] == d + 1,
                        forall|v: int| 0 <= v < n && #[trigger] visited@[v] && dist[v] == d + 1 ==> next@.contains(v as usize),
                        forall|f: int, t: int| 0 <= f < fi && 0 <= t < adj[frontier@[f] as int].len() ==> {
                            &&& visited@[#[trigger] adj[frontier@[f] as int][t] as int]
                            &&& dist[adj[frontier@[f] as int][t] as int] <= d + 1
                        },
                        forall|t: int| 0 <= t < k ==> {
                            &&& visited@[#[trigger] adj[u as int][t] as int]
                            &&& dist[adj[u as int][t] as int] <= d + 1
                        },
                        count_false(visited@) + next@.len() == c0,
                        bfs_chains(adj, visited@, parent@, dist, origin as int, chains),
                        chains_in_order(adj, chains, frontier@),
                        next_facts(adj, chains, frontier@, next@, pf, pk, fi as int, k as int),
                    decreases nbrs@.len() - k,
                {
                    let v = nbrs[k];
                    if !visited[v] {
                        let ghost vis0 = visited@;
                        let ghost next0 = next@;
                        proof {
                            lemma_count_false(visited@, v as int);
                            assert(adj[u as int][k as int] == v);
                            assert(adj[u as int].contains(v));
                            lemma_bfs_visit(adj, visited@, parent@, dist, origin as int, d, u, v, visited@.update(v as int, true), parent@.update(v as int, u), dist.update(v as int, d + 1));
                            lemma_chain_visit(adj, visited@, parent@, dist, origin as int, d, chains, frontier@, fi as int, k as int);
                            assert forall|g: int| 0 <= g < next@.len() implies next@[g] != v && next@[g] < adj.len() by {
                                assert(visited@[next@[g] as int]);
                            }
                            assert forall|f: int| 0 <= f < frontier@.len() implies frontier@[f] != v && frontier@[f] < adj.len() by {
                                assert(visited@[frontier@[f] as int]);
                            }
                            assert(chain_between(adj, chains[u as int], origin as int, u as int) && chains.len() == adj.len()) by {
                                reveal(bfs_chains);
                            }
                            lemma_next_push(adj, chains, frontier@, next@, pf, pk, fi as int, k as int);
                        }
                        visited[v] = true;
                        parent[v] = u;
                        next.push(v);
                        proof {
                            dist = dist.update(v as int, d + 1);
                            chains = chains.update(v as int, chains[u as int].push(v));
                            pf = pf.push(fi as int);
                            pk = pk.push(k as int);
                            assert(adj[u as int][k as int] == v);
                            assert(adj[u as int].contains(v));
                            assert(v != origin);
                            assert forall|w: int| 0 <= w < n && #[trigger] visited@[w] && dist[w] == d + 1 implies next@.contains(w as usize) by {
                                if w != v {
                                    assert(vis0[w]);
                                    let g = choose|g: int| 0 <= g < next0.len() && next0[g] == w as usize;
                                    assert(next@[g] == w as usize);
                                } else {
                                    assert(next@[next0.len() as int] == v);
                                }
                            }
                        }
                    } else {
                        proof {
                            lemma_next_skip(adj, chains, frontier@, next@, pf, pk, fi as int, k as int);
                        }
                    }
                    k = k + 1;
                }
                proof {
                    lemma_next_advance(adj, chains, frontier@, next@, pf, pk, fi as int, k as int);
                }
                fi = fi + 1;
            }
            assert(chains_in_order(adj, chains, next@)) by {
                reveal(next_facts);
            }
            proof {
                assert forall|u: int, k: int| 0 <= u < adj.len() && 0 <= k < adj[u].len() && visited@[u] && dist[u] == d implies {
                    &&& visited@[#[trigger] adj[u][k] as int]
                    &&& dist[adj[u][k] as int] <= d + 1
                } by {
                    let f = choose|f: int| 0 <= f < frontier@.len() && frontier@[f] == u as usize;
                    assert(frontier@[f] as int == u);
                }
                lemma_bfs_advance(adj, visited@, parent@, dist, origin as int, d);
                d = d + 1;
            }
            frontier = next;
        }
        if !visited[dest] {
            proof {
                assert forall|u: int, k: int| 0 <= u < adj.len() && 0 <= k < adj[u].len() && visited@[u] implies visited@[#[trigger] adj[u][k] as int] by {
                    if dist[u] == d {
                        assert(frontier@.contains(u as usize));
                    }
                }
                assert forall|q: Seq<usize>| !chain_between(adj, q, origin as int, dest as int) by {
                    if chain_between(adj, q, origin as int, dest as int) {
                        lemma_bfs_closed(adj, visited@, origin as int, q);
                    }
                }
            }
            return None;
        }
        let mut chain: Vec<usize> = Vec::new();
        chain.push(dest);
        let mut x: usize = dest;
        while x != origin
            invariant
                n == adj.len(),
                bfs_state(adj, visited@, parent@, dist, origin as int, d),
                x < n,
                visited@[x as int],
                chain_between(adj, chain@, x as int, dest as int),
                chain@.len() == dist[dest as int] - dist[x as int] + 1,
                bfs_chains(adj, visited@, parent@, dist, origin as int, chains),
                chains[dest as int] == chains[x as int] + chain@.subrange(1, chain@.len() as int),
                forall|t: int| 0 <= t < chain@.len() ==> #[trigger] dist[chain@[t] as int] == dist[x as int] + t,
            decreases dist[x as int],
        {
            let ghost old_chain = chain@;
            let px = parent[x];
            assert(chains[x as int] == chains[px as int].push(x)) by {
                reveal(bfs_chains);
            }
            chain.insert(0, px);
            proof {
                assert(chain@ == seq![px].add(old_chain));
                assert(old_chain[0] == x);
                assert(chains[x as int] + old_chain.subrange(1, old_chain.len() as int) =~= chains[px as int] + chain@.subrange(1, chain@.len() as int));
                assert forall|t: int| 0 <= t < chain@.len() implies (#[trigger] chain@[t]) < adj.len() by {
                    if t > 0 {
                        assert(chain@[t] == old_chain[t - 1]);
                    }
                }
                assert forall|t: int| 0 <= t < chain@.len() - 1 implies #[trigger] linked(adj, chain@, t) by {
                    if t > 0 {
                        assert(linked(adj, old_chain, t - 1));
                        assert(chain@[t] == old_chain[t - 1]);
                        assert(chain@[t + 1] == old_chain[t]);
                    } else {
                        assert(chain@[1] == x);
                    }
                }
                assert forall|t: int| 0 <= t < chain@.len() implies #[trigger] dist[chain@[t] as int] == dist[px as int] + t by {
                    if t > 0 {
                        assert(chain@[t] == old_chain[t - 1]);
                        assert(dist[old_chain[t - 1] as int] == dist[x as int] + t - 1);
                    }
                }
            }
            x = px;
        }
        proof {
            assert forall|a: int, b: int| 0 <= a < chain@.len() && 0 <= b < chain@.len() && a != b implies chain@[a] != chain@[b] by {
                assert(dist[chain@[a] as int] == dist[x as int] + a);
                assert(dist[chain@[b] as int] == dist[x as int] + b);
            }
            assert forall|q: Seq<usize>| #[trigger] chain_between(adj, q, origin as int, dest as int) implies chain@.len() <= q.len() by {
                if q.len() < chain@.len() {
                    lemma_bfs_bound(adj, visited@, parent@, dist, origin as int, d, q);
                }
            }
            assert(connected(adj, origin as int, dest as int));
            assert(chain@ =~= chains[dest as int]) by {
                reveal(bfs_chains);
            }
            assert forall|q: Seq<usize>| #[trigger] chain_between(adj, q, origin as int, dest as int) && q.len() == chain@.len() implies !chain_before(
                adj,
                q,
                chain@,
            ) by {
                reveal(bfs_chains);
            }
        }
        Some(chain)
    }

}

impl<Node> Default for Graph<Node> {
    /// The graph with no node.
    fn default() -> (r: Self)
        ensures
            r.node_seq() == Seq::<Node>::empty(),
            r.adjacency() == Seq::<Seq<usize>>::empty(),
    {
        let r = Graph { nodes: Vec::new(), edges: Vec::new() };
        assert(r.adjacency() =~= Seq::<Seq<usize>>::empty());
        r
    }
}

} // verus!
