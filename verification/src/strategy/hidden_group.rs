use std::ops::ControlFlow;

use vstd::prelude::*;

use crate::board::container::{cut_to, house_number, lemma_all_houses, lemma_house_number_at, lemma_masked_cut, masked, positions_with, refines_board};
use crate::board::SudokuBoard;
use crate::flags::{ascending, full_set, DigitFlags, SudokuFlags};
use crate::highlight::{group_marks, Highlight};
use crate::index::cell_index::cell_of;
use crate::index::region::{house_cells, lemma_house_cells};
use crate::index::{all_houses, CellIndex, DigitIndex, HouseIndex, HouseRegion, SudokuIndex};
use crate::rules::{admits, hcell, is_solution, keeps_solutions, lemma_hidden_group, positions, refines};

use super::common::group_highlights;

verus! {

/// An entry for one digit `x` that can take part in a hidden group of `n` digits: the set `{x}`
/// and the positions of `x` in house `h`.
pub open spec fn single_digit_entry(b: Seq<Set<int>>, h: HouseIndex, n: int, ds: Set<int>, ps: Set<int>) -> bool {
    exists|x: int| 0 <= x < 9 && digit_qualifies(b, h, n, x) && ds == Set::<int>::empty().insert(x) && ps == positions_with(b, h, x)
}

/// Every digit of `ds` can take part in a hidden group of `n` digits in house `h`.
pub open spec fn all_qualify(b: Seq<Set<int>>, h: HouseIndex, n: int, ds: Set<int>) -> bool {
    forall|x: int| #[trigger] ds.contains(x) ==> digit_qualifies(b, h, n, x)
}

/// A hidden group in the making: digits `ds` whose candidate positions in house `h` all lie in
/// `ps`, with at most `n` positions.
pub open spec fn hidden_candidate(b: Seq<Set<int>>, h: HouseIndex, n: int, ds: Set<int>, ps: Set<int>) -> bool {
    &&& ds.subset_of(full_set())
    &&& ps.subset_of(positions())
    &&& ps.finite()
    &&& ps.len() <= n
    &&& forall|x: int| ds.contains(x) ==> positions_with(b, h, x).subset_of(ps)
}

/// Digit `x` can take part in a hidden group of `n` digits in house `h`: it has at most `n`
/// candidate positions there, none of them on a cell that is already set.
pub open spec fn digit_qualifies(b: Seq<Set<int>>, h: HouseIndex, n: int, x: int) -> bool {
    &&& 0 <= x < 9
    &&& positions_with(b, h, x).len() <= n
    &&& forall|k: int| #[trigger] positions_with(b, h, x).contains(k) ==> b[hcell(h, k)].len() != 1
}

/// The positions of house `h` whose cell has a candidate in `ds`.
pub open spec fn digits_positions(b: Seq<Set<int>>, h: HouseIndex, ds: Set<int>) -> Set<int> {
    Set::new(|k: int| 0 <= k < 9 && exists|x: int| ds.contains(x) && #[trigger] b[hcell(h, k)].contains(x))
}

/// `ds` is a hidden group of house `h`: `n` qualifying digits whose candidates lie on at most `n`
/// positions.
pub open spec fn hidden_instance(b: Seq<Set<int>>, h: HouseIndex, n: int, ds: Set<int>) -> bool {
    &&& ds.finite()
    &&& ds.len() == n
    &&& forall|x: int| #[trigger] ds.contains(x) ==> digit_qualifies(b, h, n, x)
    &&& digits_positions(b, h, ds).len() <= n
}

/// The cells at the positions of `ds` hold no candidate outside `ds`.
pub open spec fn hidden_clear(b: Seq<Set<int>>, h: HouseIndex, ds: Set<int>) -> bool {
    forall|k: int| #[trigger] digits_positions(b, h, ds).contains(k) ==> b[hcell(h, k)].subset_of(ds)
}

/// No hidden group of `n` digits removes a candidate.
pub open spec fn hidden_done(b: Seq<Set<int>>, n: int) -> bool {
    forall|h: HouseIndex, ds: Set<int>| #[trigger] hidden_instance(b, h, n, ds) ==> hidden_clear(b, h, ds)
}

/// Cell `c` is the cell of house `h` at one of the positions `ps`.
pub open spec fn at_positions(h: HouseIndex, ps: Set<int>, c: CellIndex) -> bool {
    exists|k: int| 0 <= k < 9 && ps.contains(k) && #[trigger] house_cells(h)[k] == c
}

/// The cells of house `h` at the listed positions, in order.
pub open spec fn cells_at_positions(h: HouseIndex, ps: Seq<int>) -> Seq<CellIndex> {
    Seq::new(ps.len(), |l: int| house_cells(h)[ps[l]])
}

/// The hidden group `ds` of house `h` removes a candidate.
pub open spec fn hidden_applies(b: Seq<Set<int>>, h: HouseIndex, n: int, ds: Set<int>) -> bool {
    hidden_instance(b, h, n, ds) && !hidden_clear(b, h, ds)
}

/// The board after the hidden group `ds` of house `h`: the cells at the positions of `ds` keep
/// only the digits of `ds`.
pub open spec fn after_hidden(b: Seq<Set<int>>, h: HouseIndex, ds: Set<int>) -> Seq<Set<int>> {
    cut_to(b, ds, |c: CellIndex| at_positions(h, digits_positions(b, h, ds), c))
}

/// No hidden group of `n` digits in a house before `h` (rows, columns, then blocks) removes a
/// candidate.
pub open spec fn hidden_clear_before(b: Seq<Set<int>>, h: HouseIndex, n: int) -> bool {
    forall|h2: HouseIndex, ds: Set<int>| house_number(h2) < house_number(h) && #[trigger] hidden_instance(b, h2, n, ds) ==> hidden_clear(b, h2, ds)
}

/// Digit sequence `c` comes before digit sequence `e` in lexicographic order: they agree up to
/// some index, where `c` has the smaller digit.
pub open spec fn seq_before(c: Seq<int>, e: Seq<int>) -> bool {
    exists|i: int| 0 <= i < c.len() && i < e.len() && (forall|j: int| 0 <= j < i ==> c[j] == e[j]) && #[trigger] c[i] < e[i]
}

/// No hidden group of `n` digits in house `h` whose digits, in increasing order, come before
/// those of `ds` in lexicographic order removes a candidate.
pub open spec fn hidden_group_clear_before(b: Seq<Set<int>>, h: HouseIndex, n: int, ds: Set<int>) -> bool {
    forall|ds2: Set<int>|
        seq_before(ascending(ds2, 9), ascending(ds, 9)) && #[trigger] hidden_instance(b, h, n, ds2) ==> hidden_clear(b, h, ds2)
}

/// `t` lists distinct digits that can each take part in a hidden group of `n` digits in house
/// `h`, whose candidates together lie on at most `n` positions.
pub open spec fn digit_order(b: Seq<Set<int>>, h: HouseIndex, n: int, t: Seq<int>) -> bool {
    &&& t.no_duplicates()
    &&& forall|i: int| 0 <= i < t.len() ==> #[trigger] digit_qualifies(b, h, n, t[i])
    &&& digits_positions(b, h, t.to_set()).len() <= n
}

/// No sequence comes before itself, and of two sequences at most one comes before the other.
proof fn lemma_seq_before_asymmetric(c: Seq<int>, e: Seq<int>)
    ensures
        !seq_before(c, c),
        !(seq_before(c, e) && seq_before(e, c)),
{
    if seq_before(c, e) && seq_before(e, c) {
        let i = choose|i: int| 0 <= i < c.len() && i < e.len() && (forall|j: int| 0 <= j < i ==> c[j] == e[j]) && #[trigger] c[i] < e[i];
        let i2 = choose|i: int| 0 <= i < e.len() && i < c.len() && (forall|j: int| 0 <= j < i ==> e[j] == c[j]) && #[trigger] e[i] < c[i];
        if i < i2 {
            assert(e[i] == c[i]);
        } else if i2 < i {
            assert(c[i2] == e[i2]);
        }
    }
}

/// Coming before is transitive.
proof fn lemma_seq_before_transitive(a: Seq<int>, b: Seq<int>, c: Seq<int>)
    requires
        seq_before(a, b),
        seq_before(b, c),
    ensures
        seq_before(a, c),
{
    let i = choose|i: int| 0 <= i < a.len() && i < b.len() && (forall|j: int| 0 <= j < i ==> a[j] == b[j]) && #[trigger] a[i] < b[i];
    let k = choose|k: int| 0 <= k < b.len() && k < c.len() && (forall|j: int| 0 <= j < k ==> b[j] == c[j]) && #[trigger] b[k] < c[k];
    if i < k {
        assert(b[i] == c[i]);
        assert(a[i] < c[i]);
    } else if k < i {
        assert(a[k] == b[k]);
        assert(a[k] < c[k]);
    } else {
        assert(a[i] < c[i]);
    }
}

/// Extending two sequences keeps the order of the first that comes before the other, and one
/// sequence extended by a smaller digit comes before it extended by a larger one.
proof fn lemma_seq_before_push(a: Seq<int>, b: Seq<int>, x: int, y: int)
    ensures
        seq_before(a, b) ==> seq_before(a.push(x), b.push(y)),
        x < y ==> seq_before(a.push(x), a.push(y)),
{
    if seq_before(a, b) {
        let i = choose|i: int| 0 <= i < a.len() && i < b.len() && (forall|j: int| 0 <= j < i ==> a[j] == b[j]) && #[trigger] a[i] < b[i];
        assert(a.push(x)[i] < b.push(y)[i]);
        assert(forall|j: int| 0 <= j < i ==> a.push(x)[j] == b.push(y)[j]);
    }
    if x < y {
        assert(a.push(x)[a.len() as int] < a.push(y)[a.len() as int]);
        assert(forall|j: int| 0 <= j < a.len() ==> a.push(x)[j] == a.push(y)[j]);
    }
}

/// Two different sequences of the same length first differ at some index.
proof fn lemma_first_difference(t: Seq<int>, a: Seq<int>, m: int) -> (i: int)
    requires
        t.len() == a.len(),
        0 <= m <= t.len(),
        t != a,
        forall|j: int| 0 <= j < m ==> t[j] == a[j],
    ensures
        m <= i < t.len(),
        t[i] != a[i],
        forall|j: int| 0 <= j < i ==> t[j] == a[j],
    decreases t.len() - m,
{
    if m == t.len() {
        assert(t =~= a);
        m
    } else if t[m] != a[m] {
        m
    } else {
        lemma_first_difference(t, a, m + 1)
    }
}

/// Of the arrangements of a set of digits, the increasing one comes first.
proof fn lemma_ascending_first(s: Set<int>, t: Seq<int>)
    requires
        s.subset_of(full_set()),
        t.no_duplicates(),
        t.to_set() == s,
    ensures
        t == ascending(s, 9) || seq_before(ascending(s, 9), t),
{
    let a = ascending(s, 9);
    crate::flags::lemma_ascending_len(s);
    crate::flags::lemma_ascending(s, 9);
    t.unique_seq_to_set();
    if t != a {
        let i = lemma_first_difference(t, a, 0);
        assert(t.to_set().contains(t[i]));
        assert(a.to_set().contains(t[i]));
        let p = choose|p: int| 0 <= p < a.len() && a[p] == t[i];
        if p < i {
            assert(t[p] == a[p]);
        }
        assert(p != i);
        assert(p > i);
        assert(a[i] < a[p]);
        assert(forall|j: int| 0 <= j < i ==> a[j] == t[j]);
        assert(a[i] < t[i]);
    }
}

/// Dropping the last digit of a digit order leaves a digit order.
proof fn lemma_digit_order_prefix(b: Seq<Set<int>>, h: HouseIndex, n: int, t: Seq<int>)
    requires
        t.len() > 0,
        digit_order(b, h, n, t),
    ensures
        digit_order(b, h, n, t.drop_last()),
{
    let tp = t.drop_last();
    assert(tp.no_duplicates()) by {
        assert forall|i: int, j: int| 0 <= i < tp.len() && 0 <= j < tp.len() && i != j implies tp[i] != tp[j] by {
            assert(tp[i] == t[i] && tp[j] == t[j]);
        }
    }
    assert forall|i: int| 0 <= i < tp.len() implies #[trigger] digit_qualifies(b, h, n, tp[i]) by {
        assert(tp[i] == t[i]);
    }
    lemma_digits_positions(b, h, t.to_set());
    lemma_digits_positions(b, h, tp.to_set());
    assert(digits_positions(b, h, tp.to_set()).subset_of(digits_positions(b, h, t.to_set()))) by {
        assert forall|k: int| digits_positions(b, h, tp.to_set()).contains(k) implies digits_positions(b, h, t.to_set()).contains(k) by {
            let y = choose|y: int| tp.to_set().contains(y) && #[trigger] b[hcell(h, k)].contains(y);
            let i = choose|i: int| 0 <= i < tp.len() && tp[i] == y;
            assert(t[i] == y);
            assert(t.to_set().contains(y));
        }
    }
    vstd::set_lib::lemma_len_subset(digits_positions(b, h, tp.to_set()), digits_positions(b, h, t.to_set()));
}

/// With the digit orders of `n` digits listed in `sq` in lexicographic order, each for the
/// candidate at its index, and every candidate before index `ci` clear, no hidden group whose
/// increasing digits come before those of candidate `ci` removes a candidate.
proof fn lemma_first_in_order(
    b0: Seq<Set<int>>,
    house: HouseIndex,
    n: int,
    candidates: Seq<(DigitFlags, SudokuFlags)>,
    sq: Seq<Seq<int>>,
    ci: int,
)
    requires
        0 <= ci < candidates.len(),
        candidates[ci].0@.subset_of(full_set()),
        orders_of(sq, candidates, n),
        orders_complete(b0, house, n, sq, n),
        forall|k: int| 0 <= k < ci ==> hidden_clear(b0, house, (#[trigger] candidates[k]).0@),
    ensures
        hidden_group_clear_before(b0, house, n, candidates[ci].0@),
{
    reveal(orders_of);
    reveal(orders_complete);
    let ds = candidates[ci].0@;
    assert forall|ds2: Set<int>| seq_before(ascending(ds2, 9), ascending(ds, 9)) && #[trigger] hidden_instance(b0, house, n, ds2) implies hidden_clear(
        b0,
        house,
        ds2,
    ) by {
        let a2 = ascending(ds2, 9);
        assert(ds2.subset_of(full_set())) by {
            assert forall|x: int| ds2.contains(x) implies full_set().contains(x) by {
                assert(digit_qualifies(b0, house, n, x));
            }
        }
        crate::flags::lemma_ascending_len(ds2);
        crate::flags::lemma_ascending(ds2, 9);
        assert forall|i: int| 0 <= i < a2.len() implies #[trigger] digit_qualifies(b0, house, n, a2[i]) by {
            assert(ds2.contains(a2[i]));
        }
        assert(digit_order(b0, house, n, a2));
        let k2 = choose|k: int| 0 <= k < sq.len() && #[trigger] sq[k] == a2;
        lemma_ascending_first(ds, sq[ci]);
        if sq[ci] != ascending(ds, 9) {
            lemma_seq_before_transitive(a2, ascending(ds, 9), sq[ci]);
        }
        assert(seq_before(sq[k2], sq[ci]));
        lemma_seq_before_asymmetric(sq[k2], sq[ci]);
        if k2 > ci {
            assert(seq_before(sq[ci], sq[k2]));
        }
        assert(k2 < ci);
        assert(candidates[k2].0@ == ds2);
    }
}

/// `xs` lists, by increasing digit, the digits of the single-digit entries `dc`, each with its
/// positions in house `h`; every digit that can take part in a hidden group of `n` digits there
/// is listed.
#[verifier::opaque]
spec fn listed_digits(b: Seq<Set<int>>, h: HouseIndex, n: int, dc: Seq<(DigitFlags, SudokuFlags)>, xs: Seq<int>) -> bool {
    &&& xs.len() == dc.len()
    &&& forall|k: int| 0 <= k < xs.len() ==> (#[trigger] dc[k]).0@ == Set::<int>::empty().insert(xs[k]) && dc[k].1@ == positions_with(b, h, xs[k])
        && digit_qualifies(b, h, n, xs[k])
    &&& forall|a: int, c: int| 0 <= a < c < xs.len() ==> xs[a] < xs[c]
    &&& forall|x: int| #[trigger] digit_qualifies(b, h, n, x) ==> exists|k: int| 0 <= k < xs.len() && #[trigger] xs[k] == x
}

/// `sq` holds, for each candidate, a digit order of length `len` whose digits are the
/// candidate's, and the orders come in lexicographic order.
#[verifier::opaque]
spec fn orders_of(sq: Seq<Seq<int>>, cands: Seq<(DigitFlags, SudokuFlags)>, len: int) -> bool {
    &&& sq.len() == cands.len()
    &&& forall|k: int| 0 <= k < sq.len() ==> (#[trigger] sq[k]).len() == len && sq[k].no_duplicates() && sq[k].to_set() == cands[k].0@
    &&& forall|k1: int, k2: int| 0 <= k1 < k2 < sq.len() ==> seq_before(#[trigger] sq[k1], #[trigger] sq[k2])
}

/// Every digit order of length `len` is listed in `sq`.
#[verifier::opaque]
spec fn orders_complete(b: Seq<Set<int>>, h: HouseIndex, n: int, sq: Seq<Seq<int>>, len: int) -> bool {
    forall|t: Seq<int>| t.len() == len && #[trigger] digit_order(b, h, n, t) ==> exists|k: int| 0 <= k < sq.len() && #[trigger] sq[k] == t
}

/// The extensions made so far in a round: each new order is an order of `sq` (made before
/// `(ci, di)`) extended by a listed digit it does not hold, for the new candidate at its index,
/// and the new orders come in lexicographic order.
#[verifier::opaque]
spec fn extensions_so_far(
    sq: Seq<Seq<int>>,
    xs: Seq<int>,
    nsq: Seq<Seq<int>>,
    next: Seq<(DigitFlags, SudokuFlags)>,
    oa: Seq<int>,
    oj: Seq<int>,
    len: int,
    ci: int,
    di: int,
) -> bool {
    &&& nsq.len() == next.len()
    &&& oa.len() == next.len()
    &&& oj.len() == next.len()
    &&& forall|t: int| 0 <= t < nsq.len() ==> {
        &&& (#[trigger] nsq[t]).len() == len + 1
        &&& nsq[t].no_duplicates()
        &&& nsq[t].to_set() == next[t].0@
        &&& 0 <= oa[t] && (oa[t] < ci || (oa[t] == ci && oj[t] < di))
        &&& 0 <= oj[t] < xs.len()
        &&& nsq[t] == sq[oa[t]].push(xs[oj[t]])
    }
    &&& forall|t1: int, t2: int| 0 <= t1 < t2 < nsq.len() ==> seq_before(#[trigger] nsq[t1], #[trigger] nsq[t2])
}

/// Every extension before `(ci, di)` of an order of `sq` by a listed digit that it does not hold,
/// keeping the positions to at most `n`, is among the new orders.
#[verifier::opaque]
spec fn extensions_cover(b: Seq<Set<int>>, h: HouseIndex, n: int, sq: Seq<Seq<int>>, xs: Seq<int>, nsq: Seq<Seq<int>>, ci: int, di: int) -> bool {
    forall|a: int, j: int|
        #![trigger sq[a], xs[j]]
        (0 <= a < ci || (a == ci && 0 <= j < di)) && 0 <= a < sq.len() && 0 <= j < xs.len() && !sq[a].contains(xs[j])
            && digits_positions(b, h, sq[a].push(xs[j]).to_set()).len() <= n ==> exists|t: int|
            0 <= t < nsq.len() && #[trigger] nsq[t] == sq[a].push(xs[j])
}

/// The digits of an order extended by a digit are its digits and that digit.
proof fn lemma_push_to_set(t: Seq<int>, x: int)
    ensures
        t.push(x).to_set() == t.to_set().insert(x),
{
    assert forall|y: int| t.push(x).to_set().contains(y) <==> t.to_set().insert(x).contains(y) by {
        vstd::seq_lib::lemma_seq_contains_after_push(t, x, y);
    }
    assert(t.push(x).to_set() =~= t.to_set().insert(x));
}

/// Extending order `ci` by the listed digit `di`, which it does not hold, keeps the extensions
/// in order.
proof fn lemma_extend_push(
    sq: Seq<Seq<int>>,
    cands: Seq<(DigitFlags, SudokuFlags)>,
    xs: Seq<int>,
    nsq: Seq<Seq<int>>,
    next: Seq<(DigitFlags, SudokuFlags)>,
    oa: Seq<int>,
    oj: Seq<int>,
    len: int,
    ci: int,
    di: int,
    e: (DigitFlags, SudokuFlags),
)
    requires
        orders_of(sq, cands, len),
        0 <= ci < cands.len(),
        0 <= di < xs.len(),
        forall|a: int, c: int| 0 <= a < c < xs.len() ==> xs[a] < xs[c],
        extensions_so_far(sq, xs, nsq, next, oa, oj, len, ci, di),
        !sq[ci].contains(xs[di]),
        e.0@ == cands[ci].0@.insert(xs[di]),
    ensures
        extensions_so_far(sq, xs, nsq.push(sq[ci].push(xs[di])), next.push(e), oa.push(ci), oj.push(di), len, ci, di + 1),
{
    reveal(orders_of);
    reveal(extensions_so_far);
    let ns = sq[ci].push(xs[di]);
    let nsq2 = nsq.push(ns);
    let next2 = next.push(e);
    let oa2 = oa.push(ci);
    let oj2 = oj.push(di);
    lemma_push_to_set(sq[ci], xs[di]);
    assert(ns.no_duplicates()) by {
        assert forall|i: int, j: int| 0 <= i < ns.len() && 0 <= j < ns.len() && i != j implies ns[i] != ns[j] by {
            if i == ns.len() - 1 {
                assert(sq[ci][j] == ns[j]);
            } else if j == ns.len() - 1 {
                assert(sq[ci][i] == ns[i]);
            }
        }
    }
    assert forall|t: int| 0 <= t < nsq.len() implies seq_before(#[trigger] nsq[t], ns) by {
        if oa[t] < ci {
            lemma_seq_before_push(sq[oa[t]], sq[ci], xs[oj[t]], xs[di]);
        } else {
            lemma_seq_before_push(sq[ci], sq[ci], xs[oj[t]], xs[di]);
        }
    }
    assert forall|t: int| 0 <= t < nsq2.len() implies {
        &&& (#[trigger] nsq2[t]).len() == len + 1
        &&& nsq2[t].no_duplicates()
        &&& nsq2[t].to_set() == next2[t].0@
        &&& 0 <= oa2[t] && (oa2[t] < ci || (oa2[t] == ci && oj2[t] < di + 1))
        &&& 0 <= oj2[t] < xs.len()
        &&& nsq2[t] == sq[oa2[t]].push(xs[oj2[t]])
    } by {
        if t < nsq.len() {
            assert(nsq2[t] == nsq[t] && next2[t] == next[t] && oa2[t] == oa[t] && oj2[t] == oj[t]);
        } else {
            assert(nsq2[t] == ns && next2[t] == e && oa2[t] == ci && oj2[t] == di);
        }
    }
    assert forall|t1: int, t2: int| 0 <= t1 < t2 < nsq2.len() implies seq_before(#[trigger] nsq2[t1], #[trigger] nsq2[t2]) by {
        assert(nsq2[t1] == nsq[t1]);
        if t2 < nsq.len() {
            assert(nsq2[t2] == nsq[t2]);
        }
    }
}

/// Moving on from `(ci, di)` to `(ci, di + 1)`: the extension there is made, or is not one to
/// make.
proof fn lemma_cover_step(b: Seq<Set<int>>, h: HouseIndex, n: int, sq: Seq<Seq<int>>, xs: Seq<int>, nsq: Seq<Seq<int>>, ci: int, di: int, pushed: bool)
    requires
        0 <= ci < sq.len(),
        0 <= di < xs.len(),
        extensions_cover(b, h, n, sq, xs, nsq, ci, di),
        !pushed ==> (sq[ci].contains(xs[di]) || digits_positions(b, h, sq[ci].push(xs[di]).to_set()).len() > n),
    ensures
        pushed ==> extensions_cover(b, h, n, sq, xs, nsq.push(sq[ci].push(xs[di])), ci, di + 1),
        !pushed ==> extensions_cover(b, h, n, sq, xs, nsq, ci, di + 1),
{
    reveal(extensions_cover);
    if pushed {
        let nsq2 = nsq.push(sq[ci].push(xs[di]));
        assert forall|a: int, j: int|
            #![trigger sq[a], xs[j]]
            (0 <= a < ci || (a == ci && 0 <= j < di + 1)) && 0 <= a < sq.len() && 0 <= j < xs.len() && !sq[a].contains(xs[j])
                && digits_positions(b, h, sq[a].push(xs[j]).to_set()).len() <= n implies exists|t: int|
                0 <= t < nsq2.len() && #[trigger] nsq2[t] == sq[a].push(xs[j]) by {
            if a == ci && j == di {
                assert(nsq2[nsq.len() as int] == sq[a].push(xs[j]));
            } else {
                let t = choose|t: int| 0 <= t < nsq.len() && #[trigger] nsq[t] == sq[a].push(xs[j]);
                assert(nsq2[t] == nsq[t]);
            }
        }
    }
}

/// Moving on from `(ci, di)` to `(ci, di + 1)` without an extension keeps the extensions made.
proof fn lemma_so_far_skip(
    sq: Seq<Seq<int>>,
    xs: Seq<int>,
    nsq: Seq<Seq<int>>,
    next: Seq<(DigitFlags, SudokuFlags)>,
    oa: Seq<int>,
    oj: Seq<int>,
    len: int,
    ci: int,
    di: int,
)
    requires
        extensions_so_far(sq, xs, nsq, next, oa, oj, len, ci, di),
    ensures
        extensions_so_far(sq, xs, nsq, next, oa, oj, len, ci, di + 1),
{
    reveal(extensions_so_far);
}

/// At the end of a candidate's extensions, the next candidate starts.
proof fn lemma_extend_next(
    b: Seq<Set<int>>,
    h: HouseIndex,
    n: int,
    sq: Seq<Seq<int>>,
    xs: Seq<int>,
    nsq: Seq<Seq<int>>,
    next: Seq<(DigitFlags, SudokuFlags)>,
    oa: Seq<int>,
    oj: Seq<int>,
    len: int,
    ci: int,
)
    requires
        extensions_so_far(sq, xs, nsq, next, oa, oj, len, ci, xs.len() as int),
        extensions_cover(b, h, n, sq, xs, nsq, ci, xs.len() as int),
    ensures
        extensions_so_far(sq, xs, nsq, next, oa, oj, len, ci + 1, 0),
        extensions_cover(b, h, n, sq, xs, nsq, ci + 1, 0),
{
    reveal(extensions_cover);
    reveal(extensions_so_far);
}

/// At the end of a round, the new orders are exactly ordered and complete for one digit more.
proof fn lemma_round_done(
    b: Seq<Set<int>>,
    h: HouseIndex,
    n: int,
    dc: Seq<(DigitFlags, SudokuFlags)>,
    xs: Seq<int>,
    sq: Seq<Seq<int>>,
    cands: Seq<(DigitFlags, SudokuFlags)>,
    nsq: Seq<Seq<int>>,
    next: Seq<(DigitFlags, SudokuFlags)>,
    oa: Seq<int>,
    oj: Seq<int>,
    len: int,
)
    requires
        0 <= len,
        listed_digits(b, h, n, dc, xs),
        orders_of(sq, cands, len),
        orders_complete(b, h, n, sq, len),
        extensions_so_far(sq, xs, nsq, next, oa, oj, len, cands.len() as int, 0),
        extensions_cover(b, h, n, sq, xs, nsq, cands.len() as int, 0),
    ensures
        orders_of(nsq, next, len + 1),
        orders_complete(b, h, n, nsq, len + 1),
        nsq.len() == next.len(),
{
    reveal(listed_digits);
    reveal(orders_of);
    reveal(orders_complete);
    reveal(extensions_so_far);
    reveal(extensions_cover);
    assert forall|t: Seq<int>| t.len() == len + 1 && #[trigger] digit_order(b, h, n, t) implies exists|k: int|
        0 <= k < nsq.len() && #[trigger] nsq[k] == t by {
        lemma_digit_order_prefix(b, h, n, t);
        let tp = t.drop_last();
        let x = t.last();
        let a = choose|k: int| 0 <= k < sq.len() && #[trigger] sq[k] == tp;
        assert(digit_qualifies(b, h, n, t[t.len() - 1]));
        let j = choose|k: int| 0 <= k < xs.len() && #[trigger] xs[k] == x;
        assert(sq[a].push(xs[j]) =~= t);
        assert(!sq[a].contains(xs[j])) by {
            if sq[a].contains(xs[j]) {
                let i = choose|i: int| 0 <= i < tp.len() && tp[i] == x;
                assert(t[i] == t[t.len() - 1]);
            }
        }
    }
}

/// The positions of a set of digits are a finite set of positions.
proof fn lemma_digits_positions(b: Seq<Set<int>>, h: HouseIndex, ds: Set<int>)
    ensures
        digits_positions(b, h, ds).finite(),
        digits_positions(b, h, ds).subset_of(positions()),
        digits_positions(b, h, ds).len() <= 9,
{
    vstd::set_lib::lemma_int_range(0, 9);
    assert(positions() =~= vstd::set_lib::set_int_range(0, 9));
    vstd::set_lib::lemma_len_subset(digits_positions(b, h, ds), positions());
}

/// The positions of `ds` with one more digit `x` are those of `ds` and those of `x`.
proof fn lemma_digits_positions_insert(b: Seq<Set<int>>, h: HouseIndex, ds: Set<int>, x: int)
    requires
        0 <= x < 9,
    ensures
        digits_positions(b, h, ds.insert(x)) == digits_positions(b, h, ds).union(positions_with(b, h, x)),
{
    assert(digits_positions(b, h, ds.insert(x)) =~= digits_positions(b, h, ds).union(positions_with(b, h, x))) by {
        assert forall|k: int| digits_positions(b, h, ds.insert(x)).contains(k) implies digits_positions(b, h, ds).union(
            positions_with(b, h, x),
        ).contains(k) by {
            let y = choose|y: int| ds.insert(x).contains(y) && #[trigger] b[hcell(h, k)].contains(y);
            if y != x {
                assert(ds.contains(y));
            }
        }        assert forall|k: int| digits_positions(b, h, ds).union(positions_with(b, h, x)).contains(k) implies digits_positions(
            b,
            h,
            ds.insert(x),
        ).contains(k) by {
            if positions_with(b, h, x).contains(k) {
                assert(b[hcell(h, k)].contains(x));
                assert(ds.insert(x).contains(x));
            } else {
                let y = choose|y: int| ds.contains(y) && #[trigger] b[hcell(h, k)].contains(y);
                assert(ds.insert(x).contains(y));
            }
        }
    }
}

/// Finds, house by house, `n` digits whose candidates in the house lie on only `n` cells, and
/// removes every other candidate from those cells. Within a house the groups go by their digits,
/// in increasing order, in lexicographic order. Stops at the first group that removes something;
/// breaks only then, and otherwise no hidden group removes anything.
pub fn apply_hidden_group(board: &mut SudokuBoard, n: usize) -> (r: ControlFlow<Vec<Highlight>>)
    requires
        n < 9,
    ensures
        r is Break <==> final(board)@ != old(board)@,
        refines(final(board)@, old(board)@),
        keeps_solutions(final(board)@, old(board)@),
        r is Continue ==> hidden_done(old(board)@, n as int),
        r matches ControlFlow::Break(hl) ==> exists|h: HouseIndex, ds: Set<int>|
            #[trigger] hidden_applies(old(board)@, h, n as int, ds) && final(board)@ == after_hidden(old(board)@, h, ds)
                && hidden_clear_before(old(board)@, h, n as int) && hidden_group_clear_before(old(board)@, h, n as int, ds) && hl@ == seq![
                Highlight::House(h),
            ] + group_marks(
                final(board)@,
                cells_at_positions(h, ascending(digits_positions(old(board)@, h, ds), 9)),
                ascending(ds, 9),
            ),
{
    let ghost b0 = board@;
    proof {
        SudokuBoard::lemma_view(*board);
    }
    let houses = HouseIndex::iter();
    let mut hi: usize = 0;
    while hi < 27
        invariant
            hi <= 27,
            n < 9,
            old(board)@ == b0,
            b0.len() == 81,
            houses@ == all_houses(),
            board@ == b0,
            forall|h: HouseIndex, ds: Set<int>|
                house_number(h) < hi && #[trigger] hidden_instance(b0, h, n as int, ds) ==> hidden_clear(b0, h, ds),
        decreases 27 - hi,
    {
        let house = houses[hi];
        proof {
            lemma_house_cells(house);
        }
        let mut digit_cells: Vec<(DigitFlags, SudokuFlags)> = Vec::new();
        let ghost mut xs: Seq<int> = Seq::empty();
        let mut d: usize = 0;
        while d < 9
            invariant
                d <= 9,
                board@ == b0,
                b0.len() == 81,
                forall|k: int| 0 <= k < digit_cells@.len() ==> single_digit_entry(b0, house, n as int, (#[trigger] digit_cells@[k]).0@, digit_cells@[k].1@),
                xs.len() == digit_cells@.len(),
                forall|k: int| 0 <= k < xs.len() ==> (#[trigger] digit_cells@[k]).0@ == Set::<int>::empty().insert(xs[k]) && digit_qualifies(
                    b0,
                    house,
                    n as int,
                    xs[k],
                ),
                forall|k: int| 0 <= k < xs.len() ==> 0 <= #[trigger] xs[k] < d,
                forall|a: int, c: int| 0 <= a < c < xs.len() ==> xs[a] < xs[c],
                forall|x: int| 0 <= x < d && #[trigger] digit_qualifies(b0, house, n as int, x) ==> exists|k: int|
                    0 <= k < digit_cells@.len() && (#[trigger] digit_cells@[k]).0@ == Set::<int>::empty().insert(x) && digit_cells@[k].1@
                        == positions_with(b0, house, x),
            decreases 9 - d,
        {
            let digit = DigitIndex::from_value(d);
            let which = board.cells_with(&house, digit);
            assert(which@ =~= positions_with(b0, house, d as int));
            let ghost before = digit_cells@;
            proof {
                which.lemma_view();
            }
            if which.count() <= n && positions_are_open(board, house, which) {
                let only = DigitFlags::only(digit);
                assert(single_digit_entry(b0, house, n as int, only@, which@));
                digit_cells.push((only, which));
                proof {
                    xs = xs.push(d as int);
                }
            }
            assert forall|x: int| 0 <= x < d + 1 && #[trigger] digit_qualifies(b0, house, n as int, x) implies exists|k: int|
                0 <= k < digit_cells@.len() && (#[trigger] digit_cells@[k]).0@ == Set::<int>::empty().insert(x) && digit_cells@[k].1@
                    == positions_with(b0, house, x) by {
                if x == d {
                    assert(digit_cells@[digit_cells@.len() - 1].0@ == Set::<int>::empty().insert(x));
                } else {
                    let k = choose|k: int| 0 <= k < before.len() && (#[trigger] before[k]).0@ == Set::<int>::empty().insert(x) && before[k].1@
                        == positions_with(b0, house, x);
                    assert(digit_cells@[k] == before[k]);
                }
            }
            d = d + 1;
        }
        proof {
            assert forall|ds: Set<int>| #[trigger] hidden_instance(b0, house, n as int, ds) implies n <= digit_cells@.len() by {
                assert(ds.subset_of(xs.to_set())) by {
                    assert forall|x: int| ds.contains(x) implies xs.to_set().contains(x) by {
                        assert(digit_qualifies(b0, house, n as int, x));
                        let k = choose|k: int| 0 <= k < digit_cells@.len() && (#[trigger] digit_cells@[k]).0@ == Set::<int>::empty().insert(x)
                            && digit_cells@[k].1@ == positions_with(b0, house, x);
                        assert(Set::<int>::empty().insert(xs[k]).contains(x));
                        assert(xs[k] == x);
                    }
                }
                assert(xs.no_duplicates()) by {
                    assert forall|a: int, c: int| 0 <= a < xs.len() && 0 <= c < xs.len() && a != c implies xs[a] != xs[c] by {
                        if a < c {
                            assert(xs[a] < xs[c]);
                        } else {
                            assert(xs[c] < xs[a]);
                        }
                    }
                }
                xs.unique_seq_to_set();
                vstd::set_lib::lemma_len_subset(ds, xs.to_set());
            }
        }
        if digit_cells.len() >= n {
            let mut candidates: Vec<(DigitFlags, SudokuFlags)> = Vec::new();
            candidates.push((DigitFlags::zero(), SudokuFlags::zero()));
            let mut round: usize = 0;
            proof {
                let e = candidates@[0];
                assert(e.1@ =~= Set::<int>::empty());
                assert(e.1@.len() == 0);
                assert(digits_positions(b0, house, e.0@) =~= e.1@);
                assert forall|sv: Set<int>| sv.finite() && sv.len() == 0 implies exists|k: int| 0 <= k < candidates@.len() && (#[trigger] candidates@[k]).0@
                    == sv by {
                    vstd::set_lib::lemma_set_empty_equivalency_len(sv);
                    assert(candidates@[0].0@ == sv);
                }
            }
            let ghost mut sq: Seq<Seq<int>> = seq![Seq::<int>::empty()];
            proof {
                assert(orders_of(sq, candidates@, 0)) by {
                    reveal(orders_of);
                    assert(sq[0].to_set() =~= candidates@[0].0@);
                }
                assert(orders_complete(b0, house, n as int, sq, 0)) by {
                    reveal(orders_complete);
                    assert forall|t: Seq<int>| t.len() == 0 && #[trigger] digit_order(b0, house, n as int, t) implies exists|k: int|
                        0 <= k < sq.len() && #[trigger] sq[k] == t by {
                        assert(sq[0] =~= t);
                    }
                }
                assert(listed_digits(b0, house, n as int, digit_cells@, xs)) by {
                    reveal(listed_digits);
                    assert forall|k: int| 0 <= k < xs.len() implies (#[trigger] digit_cells@[k]).1@ == positions_with(b0, house, xs[k]) by {
                        let x = choose|x: int|
                            0 <= x < 9 && digit_qualifies(b0, house, n as int, x) && digit_cells@[k].0@ == Set::<int>::empty().insert(x)
                                && digit_cells@[k].1@ == positions_with(b0, house, x);
                        assert(Set::<int>::empty().insert(x).contains(xs[k]));
                    }
                    assert forall|x: int| #[trigger] digit_qualifies(b0, house, n as int, x) implies exists|k: int| 0 <= k < xs.len() && #[trigger] xs[k] == x by {
                        let k = choose|k: int|
                            0 <= k < digit_cells@.len() && (#[trigger] digit_cells@[k]).0@ == Set::<int>::empty().insert(x) && digit_cells@[k].1@
                                == positions_with(b0, house, x);
                        assert(Set::<int>::empty().insert(xs[k]).contains(x));
                    }
                }
            }
            while round < n
                invariant
                    round <= n,
                    n < 9,
                    b0.len() == 81,
                    forall|k: int| 0 <= k < digit_cells@.len() ==> single_digit_entry(b0, house, n as int, (#[trigger] digit_cells@[k]).0@, digit_cells@[k].1@),
                    forall|x: int| #[trigger] digit_qualifies(b0, house, n as int, x) ==> exists|k: int|
                        0 <= k < digit_cells@.len() && (#[trigger] digit_cells@[k]).0@ == Set::<int>::empty().insert(x) && digit_cells@[k].1@
                            == positions_with(b0, house, x),
                    forall|k: int| 0 <= k < candidates@.len() ==> (#[trigger] candidates@[k]).0@.finite()
                        && candidates@[k].0@.len() == round && hidden_candidate(b0, house, n as int, candidates@[k].0@, candidates@[k].1@)
                        && all_qualify(b0, house, n as int, candidates@[k].0@)
                        && candidates@[k].1@ == digits_positions(b0, house, candidates@[k].0@),
                    forall|sv: Set<int>| sv.finite() && sv.len() == round && (forall|x: int| #[trigger] sv.contains(x) ==> digit_qualifies(b0, house, n as int, x))
                        && digits_positions(b0, house, sv).len() <= n ==> exists|k: int| 0 <= k < candidates@.len() && (#[trigger] candidates@[k]).0@ == sv,
                    listed_digits(b0, house, n as int, digit_cells@, xs),
                    xs.len() == digit_cells@.len(),
                    forall|a: int, c: int| 0 <= a < c < xs.len() ==> xs[a] < xs[c],
                    orders_of(sq, candidates@, round as int),
                    sq.len() == candidates@.len(),
                    orders_complete(b0, house, n as int, sq, round as int),
                decreases n - round,
            {
                let mut next: Vec<(DigitFlags, SudokuFlags)> = Vec::new();
                let ghost mut nsq: Seq<Seq<int>> = Seq::empty();
                let ghost mut oa: Seq<int> = Seq::empty();
                let ghost mut oj: Seq<int> = Seq::empty();
                proof {
                    reveal(extensions_so_far);
                    reveal(extensions_cover);
                }
                let mut ci: usize = 0;
                while ci < candidates.len()
                    invariant
                        ci <= candidates@.len(),
                        round < n,
                        n < 9,
                        b0.len() == 81,
                        forall|k: int| 0 <= k < digit_cells@.len() ==> single_digit_entry(b0, house, n as int, (#[trigger] digit_cells@[k]).0@, digit_cells@[k].1@),
                        forall|k: int| 0 <= k < candidates@.len() ==> (#[trigger] candidates@[k]).0@.finite()
                            && candidates@[k].0@.len() == round && hidden_candidate(b0, house, n as int, candidates@[k].0@, candidates@[k].1@)
                        && all_qualify(b0, house, n as int, candidates@[k].0@)
                            && candidates@[k].1@ == digits_positions(b0, house, candidates@[k].0@),
                        forall|k: int| 0 <= k < next@.len() ==> (#[trigger] next@[k]).0@.finite()
                            && next@[k].0@.len() == round + 1 && hidden_candidate(b0, house, n as int, next@[k].0@, next@[k].1@)
                            && all_qualify(b0, house, n as int, next@[k].0@)
                            && next@[k].1@ == digits_positions(b0, house, next@[k].0@),
                        forall|x: int| #[trigger] digit_qualifies(b0, house, n as int, x) ==> exists|k: int|
                            0 <= k < digit_cells@.len() && (#[trigger] digit_cells@[k]).0@ == Set::<int>::empty().insert(x) && digit_cells@[k].1@
                                == positions_with(b0, house, x),
                        forall|sv: Set<int>| sv.finite() && sv.len() == round && (forall|x: int| #[trigger] sv.contains(x) ==> digit_qualifies(b0, house, n as int, x))
                            && digits_positions(b0, house, sv).len() <= n ==> exists|k: int| 0 <= k < candidates@.len() && (#[trigger] candidates@[k]).0@ == sv,
                        forall|a: int, j: int| 0 <= a < ci && 0 <= j < digit_cells@.len() && (#[trigger] candidates@[a]).0@.disjoint(
                            (#[trigger] digit_cells@[j]).0@,
                        ) && candidates@[a].1@.union(digit_cells@[j].1@).len() <= n ==> exists|t: int|
                            0 <= t < next@.len() && (#[trigger] next@[t]).0@ == candidates@[a].0@.union(digit_cells@[j].0@),
                        listed_digits(b0, house, n as int, digit_cells@, xs),
                        xs.len() == digit_cells@.len(),
                        forall|a: int, c: int| 0 <= a < c < xs.len() ==> xs[a] < xs[c],
                        orders_of(sq, candidates@, round as int),
                        sq.len() == candidates@.len(),
                        orders_complete(b0, house, n as int, sq, round as int),
                        extensions_so_far(sq, xs, nsq, next@, oa, oj, round as int, ci as int, 0),
                        extensions_cover(b0, house, n as int, sq, xs, nsq, ci as int, 0),
                    decreases candidates@.len() - ci,
                {
                    let (digits, cells) = candidates[ci];
                    let mut di: usize = 0;
                    while di < digit_cells.len()
                        invariant
                            di <= digit_cells@.len(),
                            ci < candidates@.len(),
                            (digits, cells) == candidates@[ci as int],
                            n < 9,
                            b0.len() == 81,
                            digits@.finite(),
                            digits@.len() == round,
                            hidden_candidate(b0, house, n as int, digits@, cells@),
                            all_qualify(b0, house, n as int, digits@),
                            cells@ == digits_positions(b0, house, digits@),
                            forall|k: int| 0 <= k < digit_cells@.len() ==> single_digit_entry(b0, house, n as int, (#[trigger] digit_cells@[k]).0@, digit_cells@[k].1@),
                            forall|k: int| 0 <= k < next@.len() ==> (#[trigger] next@[k]).0@.finite()
                                && next@[k].0@.len() == round + 1 && hidden_candidate(b0, house, n as int, next@[k].0@, next@[k].1@)
                            && all_qualify(b0, house, n as int, next@[k].0@)
                                && next@[k].1@ == digits_positions(b0, house, next@[k].0@),
                            forall|a: int, j: int| (0 <= a < ci || (a == ci && j < di)) && 0 <= j < digit_cells@.len() && (#[trigger] candidates@[a]).0@.disjoint(
                                (#[trigger] digit_cells@[j]).0@,
                            ) && candidates@[a].1@.union(digit_cells@[j].1@).len() <= n ==> exists|t: int|
                                0 <= t < next@.len() && (#[trigger] next@[t]).0@ == candidates@[a].0@.union(digit_cells@[j].0@),
                            listed_digits(b0, house, n as int, digit_cells@, xs),
                            xs.len() == digit_cells@.len(),
                            forall|a: int, c: int| 0 <= a < c < xs.len() ==> xs[a] < xs[c],
                            orders_of(sq, candidates@, round as int),
                            sq.len() == candidates@.len(),
                            orders_complete(b0, house, n as int, sq, round as int),
                            extensions_so_far(sq, xs, nsq, next@, oa, oj, round as int, ci as int, di as int),
                            extensions_cover(b0, house, n as int, sq, xs, nsq, ci as int, di as int),
                        decreases digit_cells@.len() - di,
                    {
                        let (dg, cs) = digit_cells[di];
                        assert(single_digit_entry(b0, house, n as int, dg@, cs@));
                        let new_digit = digits.intersection(dg) == DigitFlags::zero();
                        let merged = cells.union(cs);
                        let compatible = merged.count() <= n;
                        let ghost before = next@;
                        let ghost x = choose|x: int| 0 <= x < 9 && dg@ == Set::<int>::empty().insert(x) && cs@ == positions_with(b0, house, x);
                        if new_digit && compatible {
                            let nd = digits.union(dg);
                            proof {
                                assert(!digits@.contains(x)) by {
                                    if digits@.contains(x) {
                                        assert(digits@.intersect(dg@).contains(x));
                                    }
                                }
                                assert(nd@ =~= digits@.insert(x));
                                merged.lemma_view();
                                assert forall|y: int| nd@.contains(y) implies positions_with(b0, house, y).subset_of(merged@) by {
                                    if y != x {
                                        assert(digits@.contains(y));
                                    }
                                }
                                lemma_digits_positions_insert(b0, house, digits@, x);
                                let x2 = choose|x2: int| 0 <= x2 < 9 && digit_qualifies(b0, house, n as int, x2) && dg@ == Set::<int>::empty().insert(x2)
                                    && cs@ == positions_with(b0, house, x2);
                                assert(dg@.contains(x2));
                                assert(all_qualify(b0, house, n as int, nd@));
                            }
                            next.push((nd, merged));
                            proof {
                                assert(sq[ci as int].to_set() == digits@) by {
                                    reveal(orders_of);
                                }
                                assert(xs[di as int] == x) by {
                                    reveal(listed_digits);
                                    assert(dg@.contains(x));
                                }
                                assert(!sq[ci as int].contains(x)) by {
                                    if sq[ci as int].contains(x) {
                                        assert(sq[ci as int].to_set().contains(x));
                                    }
                                }
                                lemma_extend_push(sq, candidates@, xs, nsq, before, oa, oj, round as int, ci as int, di as int, (nd, merged));
                                lemma_cover_step(b0, house, n as int, sq, xs, nsq, ci as int, di as int, true);
                                assert(next@ == before.push((nd, merged)));
                                nsq = nsq.push(sq[ci as int].push(xs[di as int]));
                                oa = oa.push(ci as int);
                                oj = oj.push(di as int);
                            }
                        } else {
                            proof {
                                assert(sq[ci as int].to_set() == digits@) by {
                                    reveal(orders_of);
                                }
                                assert(xs[di as int] == x) by {
                                    reveal(listed_digits);
                                    assert(dg@.contains(x));
                                }
                                if !sq[ci as int].contains(x) && digits_positions(b0, house, sq[ci as int].push(x).to_set()).len() <= n {
                                    assert(!digits@.contains(x)) by {
                                        if digits@.contains(x) {
                                            assert(sq[ci as int].to_set().contains(x));
                                        }
                                    }
                                    assert(digits@.intersect(dg@) =~= Set::<int>::empty());
                                    lemma_push_to_set(sq[ci as int], x);
                                    lemma_digits_positions_insert(b0, house, digits@, x);
                                    merged.lemma_view();
                                    assert(merged@ =~= digits_positions(b0, house, digits@.insert(x)));
                                    assert(false);
                                }
                                lemma_so_far_skip(sq, xs, nsq, next@, oa, oj, round as int, ci as int, di as int);
                                lemma_cover_step(b0, house, n as int, sq, xs, nsq, ci as int, di as int, false);
                            }
                        }
                        proof {
                            assert forall|a: int, j: int| (0 <= a < ci || (a == ci && j < di + 1)) && 0 <= j < digit_cells@.len() && (#[trigger] candidates@[a]).0@.disjoint(
                                (#[trigger] digit_cells@[j]).0@,
                            ) && candidates@[a].1@.union(digit_cells@[j].1@).len() <= n implies exists|t: int|
                                0 <= t < next@.len() && (#[trigger] next@[t]).0@ == candidates@[a].0@.union(digit_cells@[j].0@) by {
                                if a == ci && j == di {
                                    assert(digits@.intersect(dg@) =~= Set::<int>::empty()) by {
                                        assert forall|y: int| !(digits@.intersect(dg@).contains(y)) by {
                                            if digits@.contains(y) && dg@.contains(y) {
                                                assert(!digits@.disjoint(dg@));
                                            }
                                        }
                                    }
                                    assert(next@[next@.len() - 1].0@ =~= digits@.union(dg@));
                                } else {
                                    let t = choose|t: int| 0 <= t < before.len() && (#[trigger] before[t]).0@ == candidates@[a].0@.union(digit_cells@[j].0@);
                                    assert(next@[t] == before[t]);
                                }
                            }
                        }
                        di = di + 1;
                    }
                    proof {
                        lemma_extend_next(b0, house, n as int, sq, xs, nsq, next@, oa, oj, round as int, ci as int);
                    }
                    ci = ci + 1;
                }
                proof {
                    assert forall|sv: Set<int>| sv.finite() && sv.len() == round + 1 && (forall|x: int| #[trigger] sv.contains(x) ==> digit_qualifies(
                        b0,
                        house,
                        n as int,
                        x,
                    )) && digits_positions(b0, house, sv).len() <= n implies exists|k: int| 0 <= k < next@.len() && (#[trigger] next@[k]).0@ == sv by {
                        vstd::set_lib::lemma_set_empty_equivalency_len(sv);
                        let x = sv.choose();
                        assert(sv.contains(x));
                        let sp = sv.remove(x);
                        assert(digit_qualifies(b0, house, n as int, x));
                        lemma_digits_positions(b0, house, sv);
                        lemma_digits_positions(b0, house, sp);
                        assert(digits_positions(b0, house, sp).subset_of(digits_positions(b0, house, sv))) by {
                            assert forall|k: int| digits_positions(b0, house, sp).contains(k) implies digits_positions(b0, house, sv).contains(k) by {
                                let y = choose|y: int| sp.contains(y) && #[trigger] b0[hcell(house, k)].contains(y);
                            }
                        }
                        vstd::set_lib::lemma_len_subset(digits_positions(b0, house, sp), digits_positions(b0, house, sv));
                        assert forall|y: int| #[trigger] sp.contains(y) implies digit_qualifies(b0, house, n as int, y) by {
                            assert(sv.contains(y));
                        }
                        assert(sp.finite());
                        assert(sp.len() == round);
                        assert(digits_positions(b0, house, sp).len() <= n);
                        assert(exists|k: int| 0 <= k < candidates@.len() && (#[trigger] candidates@[k]).0@ == sp);
                        let a = choose|a: int| 0 <= a < candidates@.len() && (#[trigger] candidates@[a]).0@ == sp;
                        let j = choose|j: int| 0 <= j < digit_cells@.len() && (#[trigger] digit_cells@[j]).0@ == Set::<int>::empty().insert(x)
                            && digit_cells@[j].1@ == positions_with(b0, house, x);
                        assert(sp.insert(x) =~= sv);
                        lemma_digits_positions_insert(b0, house, sp, x);
                        assert(candidates@[a].0@.disjoint(digit_cells@[j].0@)) by {
                            assert forall|y: int| !(candidates@[a].0@.contains(y) && digit_cells@[j].0@.contains(y)) by {
                                if digit_cells@[j].0@.contains(y) {
                                    assert(y == x);
                                }
                            }
                        }
                        assert(candidates@[a].1@.union(digit_cells@[j].1@) == digits_positions(b0, house, sv));
                        let t = choose|t: int| 0 <= t < next@.len() && (#[trigger] next@[t]).0@ == candidates@[a].0@.union(digit_cells@[j].0@);
                        assert(candidates@[a].0@.union(digit_cells@[j].0@) =~= sv);
                    }
                }
                proof {
                    lemma_round_done(b0, house, n as int, digit_cells@, xs, sq, candidates@, nsq, next@, oa, oj, round as int);
                    sq = nsq;
                }
                candidates = next;
                round = round + 1;
            }
            let mut ci: usize = 0;
            while ci < candidates.len()
                invariant
                    ci <= candidates@.len(),
                    board@ == b0,
                    old(board)@ == b0,
                    b0.len() == 81,
                    forall|k: int| 0 <= k < candidates@.len() ==> (#[trigger] candidates@[k]).0@.finite()
                        && candidates@[k].0@.len() == n && hidden_candidate(b0, house, n as int, candidates@[k].0@, candidates@[k].1@)
                        && all_qualify(b0, house, n as int, candidates@[k].0@)
                        && candidates@[k].1@ == digits_positions(b0, house, candidates@[k].0@),
                    forall|sv: Set<int>| sv.finite() && sv.len() == n && (forall|x: int| #[trigger] sv.contains(x) ==> digit_qualifies(b0, house, n as int, x))
                        && digits_positions(b0, house, sv).len() <= n ==> exists|k: int| 0 <= k < candidates@.len() && (#[trigger] candidates@[k]).0@ == sv,
                    forall|k: int| 0 <= k < ci ==> hidden_clear(b0, house, (#[trigger] candidates@[k]).0@),
                    orders_of(sq, candidates@, n as int),
                    orders_complete(b0, house, n as int, sq, n as int),
                    hi < 27,
                    house == all_houses()[hi as int],
                    forall|h: HouseIndex, ds: Set<int>|
                        house_number(h) < hi && #[trigger] hidden_instance(b0, h, n as int, ds) ==> hidden_clear(b0, h, ds),
                decreases candidates@.len() - ci,
            {
                let (digits, cells) = candidates[ci];
                let positions_list = cells.iter();
                let cell_list = house_positions_to_cells(house, &positions_list);
                let changed = board.apply_mask_cells(&cell_list, &digits);
                proof {
                    if !changed {
                        lemma_house_cells(house);
                        cells.lemma_view();
                        crate::flags::lemma_ascending(cells@, 9);
                        assert forall|k: int| #[trigger] digits_positions(b0, house, digits@).contains(k) implies b0[hcell(house, k)].subset_of(digits@) by {
                            let asc = crate::flags::ascending(cells@, 9);
                            assert(asc.contains(k));
                            let j = choose|j: int| 0 <= j < asc.len() && asc[j] == k;
                            assert(positions_list@.map_values(|s: SudokuIndex| s@)[j] == positions_list@[j]@);
                            let x = house_cells(house)[k];
                            assert(cell_list@[j] == x);
                            CellIndex::lemma_flat(x);
                            assert(masked(b0, cell_list@, digits@)[x@] == b0[x@]);
                        }
                    }
                }
                if changed {
                    proof {
                        lemma_hidden_step_sound(b0, house, n as int, digits@, cells@, cell_list@, positions_list@);
                        let ps = digits_positions(b0, house, digits@);
                        lemma_house_cells(house);
                        cells.lemma_view();
                        crate::flags::lemma_ascending(cells@, 9);
                        let asc = crate::flags::ascending(cells@, 9);
                        assert forall|c: CellIndex| cell_list@.contains(c) <==> #[trigger] at_positions(house, ps, c) by {
                            if cell_list@.contains(c) {
                                let j = choose|j: int| 0 <= j < cell_list@.len() && cell_list@[j] == c;
                                assert(positions_list@.map_values(|s: SudokuIndex| s@)[j] == positions_list@[j]@);
                                assert(asc[j] == positions_list@[j]@);
                                assert(house_cells(house)[asc[j]] == c);
                            }
                            if at_positions(house, ps, c) {
                                let k = choose|k: int| 0 <= k < 9 && ps.contains(k) && #[trigger] house_cells(house)[k] == c;
                                assert(asc.contains(k));
                                let j = choose|j: int| 0 <= j < asc.len() && asc[j] == k;
                                assert(positions_list@.map_values(|s: SudokuIndex| s@)[j] == positions_list@[j]@);
                                assert(cell_list@[j] == c);
                            }
                        }
                        lemma_masked_cut(b0, cell_list@, digits@, |c: CellIndex| at_positions(house, ps, c));
                        let c = choose|c: CellIndex| #[trigger] at_positions(house, ps, c) && !b0[c@].subset_of(digits@);
                        let k = choose|k: int| 0 <= k < 9 && ps.contains(k) && #[trigger] house_cells(house)[k] == c;
                        assert(!b0[hcell(house, k)].subset_of(digits@));
                        assert(!hidden_clear(b0, house, digits@));
                        assert(hidden_instance(b0, house, n as int, digits@));
                        lemma_house_number_at(hi as int);
                        assert(hidden_applies(b0, house, n as int, digits@));
                        assert(hidden_clear_before(b0, house, n as int));
                        lemma_first_in_order(b0, house, n as int, candidates@, sq, ci as int);
                        assert forall|l: int| 0 <= l < cell_list@.len() implies cell_list@[l] == cells_at_positions(house, asc)[l] by {
                            assert(positions_list@.map_values(|s: SudokuIndex| s@)[l] == positions_list@[l]@);
                        }
                        assert(cell_list@ =~= cells_at_positions(house, asc));
                    }
                    let highlights = group_highlights(board, house, &digits.iter(), &cell_list);
                    return ControlFlow::Break(highlights);
                }
                ci = ci + 1;
            }
            proof {
                assert forall|ds: Set<int>| #[trigger] hidden_instance(b0, house, n as int, ds) implies hidden_clear(b0, house, ds) by {
                    let k = choose|k: int| 0 <= k < candidates@.len() && (#[trigger] candidates@[k]).0@ == ds;
                }
            }
        }
        proof {
            assert(house == all_houses()[hi as int]);
        }
        hi = hi + 1;
    }
    proof {
        assert forall|h: HouseIndex, ds: Set<int>| #[trigger] hidden_instance(b0, h, n as int, ds) implies hidden_clear(b0, h, ds) by {
            lemma_all_houses(h);
        }
    }
    ControlFlow::Continue(())
}

/// Whether none of the listed positions of the house holds a set cell.
fn positions_are_open(board: &SudokuBoard, house: HouseIndex, which: SudokuFlags) -> (r: bool)
    ensures
        r == forall|k: int| which@.contains(k) ==> board@[hcell(house, k)].len() != 1,
{
    proof {
        lemma_house_cells(house);
        which.lemma_view();
        crate::flags::lemma_ascending(which@, 9);
        SudokuBoard::lemma_view(*board);
    }
    let list = which.iter();
    let mut i: usize = 0;
    while i < list.len()
        invariant
            i <= list@.len(),
            list@.map_values(|s: SudokuIndex| s@) == crate::flags::ascending(which@, 9),
            forall|k: int| 0 <= k < i ==> board@[hcell(house, (#[trigger] list@[k])@)].len() != 1,
        decreases list@.len() - i,
    {
        assert(list@.map_values(|s: SudokuIndex| s@)[i as int] == list@[i as int]@);
        if board.get(house.get(list[i])).is_digit() {
            proof {
                let asc = crate::flags::ascending(which@, 9);
                crate::flags::lemma_ascending(which@, 9);
                assert(asc[i as int] == list@[i as int]@);
                assert(which@.contains(asc[i as int]));
            }
            return false;
        }
        i = i + 1;
    }
    proof {
        assert forall|k: int| which@.contains(k) implies board@[hcell(house, k)].len() != 1 by {
            let asc = crate::flags::ascending(which@, 9);
            assert(asc.contains(k));
            let j = choose|j: int| 0 <= j < asc.len() && asc[j] == k;
            assert(list@.map_values(|s: SudokuIndex| s@)[j] == list@[j]@);
        }
    }
    true
}

/// The cells at the listed positions of a house.
pub fn house_positions_to_cells(house: HouseIndex, list: &Vec<SudokuIndex>) -> (r: Vec<CellIndex>)
    ensures
        r@.len() == list@.len(),
        forall|k: int| 0 <= k < r@.len() ==> #[trigger] r@[k] == house_cells(house)[list@[k]@],
{
    let mut r: Vec<CellIndex> = Vec::new();
    let mut i: usize = 0;
    while i < list.len()
        invariant
            i <= list@.len(),
            r@.len() == i,
            forall|k: int| 0 <= k < i ==> #[trigger] r@[k] == house_cells(house)[list@[k]@],
        decreases list@.len() - i,
    {
        r.push(house.get(list[i]));
        i = i + 1;
    }
    r
}

/// Keeping only the group's digits on the group's cells keeps every solution.
proof fn lemma_hidden_step_sound(
    b0: Seq<Set<int>>,
    house: HouseIndex,
    n: int,
    ds: Set<int>,
    ps: Set<int>,
    cells: Seq<CellIndex>,
    list: Seq<SudokuIndex>,
)
    requires
        b0.len() == 81,
        ds.finite(),
        ds.len() == n,
        hidden_candidate(b0, house, n, ds, ps),
        list.map_values(|s: SudokuIndex| s@) == crate::flags::ascending(ps, 9),
        cells.len() == list.len(),
        forall|k: int| 0 <= k < cells.len() ==> #[trigger] cells[k] == house_cells(house)[list[k]@],
    ensures
        keeps_solutions(masked(b0, cells, ds), b0),
        refines(masked(b0, cells, ds), b0),
{
    lemma_house_cells(house);
    crate::flags::lemma_ascending(ps, 9);
    assert forall|sol: Seq<int>| is_solution(sol) && admits(b0, sol) implies #[trigger] admits(masked(b0, cells, ds), sol) by {
        assert forall|x: int, k: int| ds.contains(x) && 0 <= k < 9 && #[trigger] b0[hcell(house, k)].contains(x) implies ps.contains(k) by {
            assert(positions_with(b0, house, x).contains(k));
        }
        lemma_hidden_group(b0, sol, house, ds, ps);
        assert forall|i: int| 0 <= i < 81 implies #[trigger] masked(b0, cells, ds)[i].contains(sol[i]) by {
            if cells.contains(cell_of(i)) {
                let j = choose|j: int| 0 <= j < cells.len() && cells[j] == cell_of(i);
                let k = list[j]@;
                assert(list.map_values(|s: SudokuIndex| s@)[j] == k);
                assert(ps.contains(k));
                CellIndex::lemma_cell_of(i);
                assert(hcell(house, k) == i);
            }
        }
    }
}

} // verus!
