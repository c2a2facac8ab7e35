//! The topology of a circuit, before any numbers are put on it. Each element joins two nodes
//! (its two ends). The nodes touched by at least two elements are kept; from the first element
//! joined to others at both ends, a walk over the kept elements notes one pair (in-node,
//! out-node) per element reached; the kept nodes no pair uses are then dropped.
use vstd::prelude::*;

verus! {

/// An element reached by the walk, entered at `in_node` and left at `out_node`. `good` records
/// that the pair was traced back to the node the walk started from.
#[derive(Clone, Copy, Debug, PartialEq, Eq, Structural)]
pub struct Pair {
    pub in_node: usize,
    pub out_node: usize,
    pub good: bool,
    pub element_index: usize,
}

/// The walk's state: the stack of nodes still to visit, the pairs noted, and whether the first
/// pair is still to be noted.
pub type WalkState = (Seq<usize>, Seq<Pair>, bool);

pub open spec fn touches(e: (usize, usize), x: usize) -> bool {
    e.0 == x || e.1 == x
}

/// How many elements touch node `x`.
pub open spec fn touch_count(ends: Seq<(usize, usize)>, x: usize) -> nat
    decreases ends.len(),
{
    if ends.len() == 0 {
        0
    } else {
        touch_count(ends.drop_last(), x) + if touches(ends.last(), x) {
            1nat
        } else {
            0nat
        }
    }
}

/// The nodes in the order they first appear, each element giving its first end, then its second.
pub open spec fn node_list(ends: Seq<(usize, usize)>) -> Seq<usize>
    decreases ends.len(),
{
    if ends.len() == 0 {
        Seq::empty()
    } else {
        let d = node_list(ends.drop_last());
        let e = ends.last();
        let d1 = if d.contains(e.0) {
            d
        } else {
            d.push(e.0)
        };
        if d1.contains(e.1) {
            d1
        } else {
            d1.push(e.1)
        }
    }
}

/// The nodes of `nodes` touched by at least two elements, in order.
pub open spec fn well_touched(nodes: Seq<usize>, ends: Seq<(usize, usize)>) -> Seq<usize>
    decreases nodes.len(),
{
    if nodes.len() == 0 {
        Seq::empty()
    } else {
        let rest = well_touched(nodes.drop_last(), ends);
        if touch_count(ends, nodes.last()) >= 2 {
            rest.push(nodes.last())
        } else {
            rest
        }
    }
}

/// The kept nodes: those touched by at least two elements, in order of first appearance.
pub open spec fn kept_nodes(ends: Seq<(usize, usize)>) -> Seq<usize> {
    well_touched(node_list(ends), ends)
}

/// Some element other than `g` touches node `x`.
pub open spec fn touched_by_other(ends: Seq<(usize, usize)>, g: int, x: usize) -> bool {
    exists|i: int| 0 <= i < ends.len() && i != g && #[trigger] touches(ends[i], x)
}

/// Element `g` is joined to other elements at both of its ends.
pub open spec fn joined(ends: Seq<(usize, usize)>, g: int) -> bool {
    touched_by_other(ends, g, ends[g].0) && touched_by_other(ends, g, ends[g].1)
}

/// The first joined element from `g` on.
pub open spec fn first_joined_from(ends: Seq<(usize, usize)>, g: int) -> Option<int>
    decreases ends.len() - g,
{
    if g < 0 || g >= ends.len() {
        None
    } else if joined(ends, g) {
        Some(g)
    } else {
        first_joined_from(ends, g + 1)
    }
}

/// The first pair from `i` on that leaves at `node`, or the number of pairs where none does.
pub open spec fn first_feeding(pairs: Seq<Pair>, node: usize, i: int) -> int
    decreases pairs.len() - i,
{
    if i < 0 || i >= pairs.len() {
        pairs.len() as int
    } else if pairs[i].out_node == node {
        i
    } else {
        first_feeding(pairs, node, i + 1)
    }
}

pub open spec fn with_good(p: Pair, good: bool) -> Pair {
    Pair { in_node: p.in_node, out_node: p.out_node, good, element_index: p.element_index }
}

/// Traces pair `k` back to `exit`: a pair entered at `exit` is good; otherwise the first pair
/// leaving where pair `k` is entered is traced, and pair `k` becomes good if that one is.
/// (Within the walk the first such pair always comes before pair `k`; the last branch, which
/// leaves the pairs as they are, is never taken there.)
pub open spec fn mark_good(pairs: Seq<Pair>, k: int, exit: usize) -> (Seq<Pair>, bool)
    decreases k,
{
    if k < 0 || k >= pairs.len() {
        (pairs, false)
    } else if pairs[k].in_node == exit {
        (pairs.update(k, with_good(pairs[k], true)), true)
    } else {
        let i = first_feeding(pairs, pairs[k].in_node, 0);
        if 0 <= i < k {
            let r = mark_good(pairs, i, exit);
            (r.0.update(k, with_good(r.0[k], r.0[k].good || r.1)), r.1)
        } else {
            (pairs, false)
        }
    }
}

/// One visit of `node`: the elements from `i` on are taken in order. An element touching
/// `node` whose two ends are kept gives the pair from `node` to its other end. The first such
/// pair of the walk is noted and its far end stacked. A pair already noted for that element
/// either way round is passed over, except that a good one noted the same way round is traced
/// again. A new pair that leads back to `exit` is noted, traced and marked good, and ends the
/// visit; any other new pair is noted and its far end stacked.
pub open spec fn visit(
    ends: Seq<(usize, usize)>,
    kept: Seq<usize>,
    exit: usize,
    node: usize,
    st: WalkState,
    i: int,
) -> WalkState
    decreases ends.len() - i,
{
    if i < 0 || i >= ends.len() {
        st
    } else {
        let e = ends[i];
        if !touches(e, node) || !kept.contains(e.0) || !kept.contains(e.1) {
            visit(ends, kept, exit, node, st, i + 1)
        } else {
            let next = if node == e.0 {
                e.1
            } else {
                e.0
            };
            let ix = i as usize;
            let pair = Pair { in_node: node, out_node: next, good: false, element_index: ix };
            let st1 = if st.2 {
                (st.0.push(next), st.1.push(pair), false)
            } else {
                st
            };
            let ps = st1.1;
            if ps.contains(pair) || ps.contains(
                Pair { in_node: next, out_node: node, good: false, element_index: ix },
            ) || ps.contains(Pair { in_node: next, out_node: node, good: true, element_index: ix })
            {
                visit(ends, kept, exit, node, st1, i + 1)
            } else if ps.contains(
                Pair { in_node: node, out_node: next, good: true, element_index: ix },
            ) {
                visit(
                    ends,
                    kept,
                    exit,
                    node,
                    (st1.0, mark_good(ps, ps.len() - 1, exit).0, st1.2),
                    i + 1,
                )
            } else if next == exit {
                let p2 = ps.push(pair);
                let r = mark_good(p2, p2.len() - 1, exit).0;
                (st1.0, r.update(r.len() - 1, with_good(r[r.len() - 1], true)), st1.2)
            } else {
                visit(ends, kept, exit, node, (st1.0.push(next), ps.push(pair), st1.2), i + 1)
            }
        }
    }
}

/// The walk: while the stack is not empty, its top node is taken off and visited (at most
/// `fuel` visits).
pub open spec fn walk(
    ends: Seq<(usize, usize)>,
    kept: Seq<usize>,
    exit: usize,
    st: WalkState,
    fuel: nat,
) -> WalkState
    decreases fuel,
{
    if fuel == 0 || st.0.len() == 0 {
        st
    } else {
        walk(
            ends,
            kept,
            exit,
            visit(ends, kept, exit, st.0.last(), (st.0.drop_last(), st.1, st.2), 0),
            (fuel - 1) as nat,
        )
    }
}

/// Some pair leaves at or enters at node `x`.
pub open spec fn used_by_pairs(pairs: Seq<Pair>, x: usize) -> bool {
    exists|j: int|
        0 <= j < pairs.len() && ((#[trigger] pairs[j]).in_node == x || pairs[j].out_node == x)
}

/// The nodes of `nodes` that some pair uses, in order.
pub open spec fn used_nodes(nodes: Seq<usize>, pairs: Seq<Pair>) -> Seq<usize>
    decreases nodes.len(),
{
    if nodes.len() == 0 {
        Seq::empty()
    } else {
        let rest = used_nodes(nodes.drop_last(), pairs);
        if used_by_pairs(pairs, nodes.last()) {
            rest.push(nodes.last())
        } else {
            rest
        }
    }
}

/// The topology of the circuit whose elements have the ends `ends`: where the first element
/// was already discovered, nothing; where no element is joined at both ends, no result;
/// otherwise the used nodes and the pairs of the walk that starts from the first end of the
/// first joined element. (The walk ends within `ends.len() + 1` visits.)
pub open spec fn topology(ends: Seq<(usize, usize)>, first_discovered: bool) -> Option<
    (Seq<usize>, Seq<Pair>),
> {
    if first_discovered {
        Some((Seq::empty(), Seq::empty()))
    } else {
        match first_joined_from(ends, 0) {
            None => None,
            Some(g) => {
                let kept = kept_nodes(ends);
                let exit = ends[g].0;
                let st = walk(ends, kept, exit, (seq![exit], Seq::empty(), true), (ends.len() + 1) as nat);
                Some((used_nodes(kept, st.1), st.1))
            },
        }
    }
}


/// Some pair before `bound` leaves at node `x`.
pub open spec fn fed(pairs: Seq<Pair>, x: usize, bound: int) -> bool {
    exists|j: int| 0 <= j < bound && (#[trigger] pairs[j]).out_node == x
}

/// Every node of `nodes` is `exit` or a node some pair leaves at.
pub open spec fn all_fed(nodes: Seq<usize>, pairs: Seq<Pair>, exit: usize) -> bool {
    forall|q: int|
        0 <= q < nodes.len() ==> #[trigger] nodes[q] == exit || fed(pairs, nodes[q], pairs.len() as int)
}

/// The pair runs between the two ends of its element, one way or the other.
pub open spec fn spans(ends: Seq<(usize, usize)>, p: Pair) -> bool {
    let e = ends[p.element_index as int];
    &&& p.element_index < ends.len()
    &&& (p.in_node == e.0 && p.out_node == e.1) || (p.in_node == e.1 && p.out_node == e.0)
}

/// No two pairs belong to the same element.
pub open spec fn one_pair_per_element(pairs: Seq<Pair>) -> bool {
    forall|k: int, l: int|
        0 <= k < l < pairs.len() ==> (#[trigger] pairs[k]).element_index
            != (#[trigger] pairs[l]).element_index
}

/// What holds of the walk's state between visits.
pub open spec fn walk_inv(ends: Seq<(usize, usize)>, exit: usize, st: WalkState) -> bool {
    &&& forall|k: int| 0 <= k < st.1.len() ==> spans(ends, #[trigger] st.1[k])
    &&& one_pair_per_element(st.1)
    &&& forall|k: int|
        0 <= k < st.1.len() ==> (#[trigger] st.1[k]).in_node == exit || fed(st.1, st.1[k].in_node, k)
    &&& all_fed(st.0, st.1, exit)
    &&& st.2 ==> st.1.len() == 0
}

/// Two lists of pairs that differ at most in their `good` flags.
pub open spec fn same_links(p: Seq<Pair>, p2: Seq<Pair>) -> bool {
    &&& p2.len() == p.len()
    &&& forall|j: int|
        0 <= j < p.len() ==> (#[trigger] p2[j]).in_node == p[j].in_node && p2[j].out_node
            == p[j].out_node && p2[j].element_index == p[j].element_index
}

proof fn lemma_mark_good_links(pairs: Seq<Pair>, k: int, exit: usize)
    ensures
        same_links(pairs, mark_good(pairs, k, exit).0),
    decreases k,
{
    if 0 <= k < pairs.len() && pairs[k].in_node != exit {
        let i = first_feeding(pairs, pairs[k].in_node, 0);
        if 0 <= i < k {
            lemma_mark_good_links(pairs, i, exit);
        }
    }
}

proof fn lemma_links_inv(ends: Seq<(usize, usize)>, exit: usize, st: WalkState, p2: Seq<Pair>)
    requires
        walk_inv(ends, exit, st),
        same_links(st.1, p2),
    ensures
        walk_inv(ends, exit, (st.0, p2, st.2)),
{
    let p = st.1;
    assert forall|k: int| 0 <= k < p2.len() implies spans(ends, #[trigger] p2[k]) by {
        assert(spans(ends, p[k]));
    }
    assert forall|k: int, l: int| 0 <= k < l < p2.len() implies (#[trigger] p2[k]).element_index
        != (#[trigger] p2[l]).element_index by {
        assert(p[k].element_index != p[l].element_index);
    }
    assert forall|k: int| 0 <= k < p2.len() implies (#[trigger] p2[k]).in_node == exit || fed(
        p2,
        p2[k].in_node,
        k,
    ) by {
        assert(p[k].in_node == p2[k].in_node);
        if p[k].in_node != exit {
            assert(fed(p, p[k].in_node, k));
            let j = choose|j: int| 0 <= j < k && (#[trigger] p[j]).out_node == p[k].in_node;
            assert(p2[j].out_node == p[j].out_node);
        }
    }
    lemma_fed_links(st.0, p, p2, exit);
}

proof fn lemma_fed_links(nodes: Seq<usize>, p: Seq<Pair>, p2: Seq<Pair>, exit: usize)
    requires
        all_fed(nodes, p, exit),
        same_links(p, p2),
    ensures
        all_fed(nodes, p2, exit),
{
    assert forall|q: int| 0 <= q < nodes.len() implies #[trigger] nodes[q] == exit || fed(
        p2,
        nodes[q],
        p2.len() as int,
    ) by {
        if nodes[q] != exit {
            assert(fed(p, nodes[q], p.len() as int));
            let j = choose|j: int| 0 <= j < p.len() && (#[trigger] p[j]).out_node == nodes[q];
            assert(p2[j].out_node == p[j].out_node);
        }
    }
}

proof fn lemma_fed_push(nodes: Seq<usize>, p: Seq<Pair>, pair: Pair, exit: usize)
    requires
        all_fed(nodes, p, exit),
    ensures
        all_fed(nodes, p.push(pair), exit),
        all_fed(nodes.push(pair.out_node), p.push(pair), exit),
{
    let p2 = p.push(pair);
    assert forall|q: int| 0 <= q < nodes.len() implies #[trigger] nodes[q] == exit || fed(
        p2,
        nodes[q],
        p2.len() as int,
    ) by {
        if nodes[q] != exit {
            assert(fed(p, nodes[q], p.len() as int));
            let j = choose|j: int| 0 <= j < p.len() && (#[trigger] p[j]).out_node == nodes[q];
            assert(p2[j] == p[j]);
        }
    }
    let n2 = nodes.push(pair.out_node);
    assert forall|q: int| 0 <= q < n2.len() implies #[trigger] n2[q] == exit || fed(
        p2,
        n2[q],
        p2.len() as int,
    ) by {
        if q < nodes.len() {
            assert(n2[q] == nodes[q]);
        } else {
            assert(p2[p.len() as int] == pair);
        }
    }
}

/// Noting a new pair keeps the invariant; `stack_it` says whether its far end is stacked too.
proof fn lemma_push_inv(
    ends: Seq<(usize, usize)>,
    exit: usize,
    st: WalkState,
    pair: Pair,
    stack_it: bool,
)
    requires
        walk_inv(ends, exit, st),
        spans(ends, pair),
        forall|k: int| 0 <= k < st.1.len() ==> (#[trigger] st.1[k]).element_index != pair.element_index,
        pair.in_node == exit || fed(st.1, pair.in_node, st.1.len() as int),
    ensures
        walk_inv(
            ends,
            exit,
            (
                if stack_it {
                    st.0.push(pair.out_node)
                } else {
                    st.0
                },
                st.1.push(pair),
                false,
            ),
        ),
{
    let p = st.1;
    let p2 = p.push(pair);
    lemma_fed_push(st.0, p, pair, exit);
    assert forall|k: int| 0 <= k < p2.len() implies spans(ends, #[trigger] p2[k]) by {
        if k < p.len() {
            assert(p2[k] == p[k]);
        }
    }
    assert forall|k: int, l: int| 0 <= k < l < p2.len() implies (#[trigger] p2[k]).element_index
        != (#[trigger] p2[l]).element_index by {
        assert(p2[k] == p[k]);
        if l < p.len() {
            assert(p2[l] == p[l]);
        }
    }
    assert forall|k: int| 0 <= k < p2.len() implies (#[trigger] p2[k]).in_node == exit || fed(
        p2,
        p2[k].in_node,
        k,
    ) by {
        if k < p.len() {
            assert(p2[k] == p[k]);
            if p[k].in_node != exit {
                assert(fed(p, p[k].in_node, k));
                let j = choose|j: int| 0 <= j < k && (#[trigger] p[j]).out_node == p[k].in_node;
                assert(p2[j] == p[j]);
            }
        } else if pair.in_node != exit {
            let j = choose|j: int| 0 <= j < p.len() && (#[trigger] p[j]).out_node == pair.in_node;
            assert(p2[j] == p[j]);
        }
    }
}

/// Where none of the four ways of noting element `i` between `node` and `next` is there, no
/// pair belongs to element `i`.
proof fn lemma_no_pair_for_element(
    ends: Seq<(usize, usize)>,
    pairs: Seq<Pair>,
    node: usize,
    next: usize,
    i: int,
)
    requires
        forall|k: int| 0 <= k < pairs.len() ==> spans(ends, #[trigger] pairs[k]),
        0 <= i < ends.len(),
        i <= usize::MAX,
        touches(ends[i], node),
        next == if node == ends[i].0 {
            ends[i].1
        } else {
            ends[i].0
        },
        !pairs.contains(Pair { in_node: node, out_node: next, good: false, element_index: i as usize }),
        !pairs.contains(Pair { in_node: next, out_node: node, good: false, element_index: i as usize }),
        !pairs.contains(Pair { in_node: next, out_node: node, good: true, element_index: i as usize }),
        !pairs.contains(Pair { in_node: node, out_node: next, good: true, element_index: i as usize }),
    ensures
        forall|k: int| 0 <= k < pairs.len() ==> (#[trigger] pairs[k]).element_index != i,
{
    assert forall|k: int| 0 <= k < pairs.len() implies (#[trigger] pairs[k]).element_index != i by {
        if pairs[k].element_index == i {
            assert(spans(ends, pairs[k]));
            let p = pairs[k];
            let ix = i as usize;
            if p.in_node == node && p.out_node == next {
                assert(p == Pair { in_node: node, out_node: next, good: p.good, element_index: ix });
                if p.good {
                    assert(pairs.contains(Pair { in_node: node, out_node: next, good: true, element_index: ix }));
                } else {
                    assert(pairs.contains(Pair { in_node: node, out_node: next, good: false, element_index: ix }));
                }
            } else {
                assert(p.in_node == next && p.out_node == node);
                assert(p == Pair { in_node: next, out_node: node, good: p.good, element_index: ix });
                if p.good {
                    assert(pairs.contains(Pair { in_node: next, out_node: node, good: true, element_index: ix }));
                } else {
                    assert(pairs.contains(Pair { in_node: next, out_node: node, good: false, element_index: ix }));
                }
            }
        }
    }
}

/// At most one pair per element: no more pairs than elements.
proof fn lemma_pairs_bounded(ends: Seq<(usize, usize)>, pairs: Seq<Pair>)
    requires
        forall|k: int| 0 <= k < pairs.len() ==> spans(ends, #[trigger] pairs[k]),
        one_pair_per_element(pairs),
    ensures
        pairs.len() <= ends.len(),
{
    let idx = pairs.map_values(|p: Pair| p.element_index as int);
    assert(idx.no_duplicates()) by {
        assert forall|a: int, b: int| 0 <= a < idx.len() && 0 <= b < idx.len() && a != b implies idx[a]
            != idx[b] by {
            if a < b {
                assert(pairs[a].element_index != pairs[b].element_index);
            } else {
                assert(pairs[b].element_index != pairs[a].element_index);
            }
        }
    }
    idx.unique_seq_to_set();
    let range = vstd::set_lib::set_int_range(0, ends.len() as int);
    vstd::set_lib::lemma_int_range(0, ends.len() as int);
    assert(idx.to_set().subset_of(range)) by {
        assert forall|x: int| idx.to_set().contains(x) implies range.contains(x) by {
            let a = choose|a: int| 0 <= a < idx.len() && idx[a] == x;
            assert(spans(ends, pairs[a]));
        }
    }
    vstd::set_lib::lemma_len_subset(idx.to_set(), range);
}


/// A visit keeps the invariant, and stacks no more nodes than it notes pairs.
proof fn lemma_visit(
    ends: Seq<(usize, usize)>,
    kept: Seq<usize>,
    exit: usize,
    node: usize,
    st: WalkState,
    i: int,
)
    requires
        walk_inv(ends, exit, st),
        all_fed(seq![node], st.1, exit),
        0 <= i,
        ends.len() <= usize::MAX,
    ensures
        walk_inv(ends, exit, visit(ends, kept, exit, node, st, i)),
        visit(ends, kept, exit, node, st, i).0.len() + st.1.len() <= st.0.len() + visit(
            ends,
            kept,
            exit,
            node,
            st,
            i,
        ).1.len(),
    decreases ends.len() - i,
{
    if i >= ends.len() {
        return;
    }
    let e = ends[i];
    if !touches(e, node) || !kept.contains(e.0) || !kept.contains(e.1) {
        lemma_visit(ends, kept, exit, node, st, i + 1);
        return;
    }
    let next = if node == e.0 {
        e.1
    } else {
        e.0
    };
    let ix = i as usize;
    let pair = Pair { in_node: node, out_node: next, good: false, element_index: ix };
    assert(spans(ends, pair));
    assert(node == exit || fed(st.1, node, st.1.len() as int)) by {
        assert(seq![node][0] == node);
    }
    let st1 = if st.2 {
        (st.0.push(next), st.1.push(pair), false)
    } else {
        st
    };
    if st.2 {
        lemma_push_inv(ends, exit, st, pair, true);
    }
    assert(all_fed(seq![node], st1.1, exit)) by {
        if st.2 {
            lemma_fed_push(seq![node], st.1, pair, exit);
        }
    }
    let ps = st1.1;
    if ps.contains(pair) || ps.contains(
        Pair { in_node: next, out_node: node, good: false, element_index: ix },
    ) || ps.contains(Pair { in_node: next, out_node: node, good: true, element_index: ix }) {
        lemma_visit(ends, kept, exit, node, st1, i + 1);
    } else if ps.contains(Pair { in_node: node, out_node: next, good: true, element_index: ix }) {
        let p2 = mark_good(ps, ps.len() - 1, exit).0;
        lemma_mark_good_links(ps, ps.len() - 1, exit);
        lemma_links_inv(ends, exit, st1, p2);
        lemma_fed_links(seq![node], ps, p2, exit);
        lemma_visit(ends, kept, exit, node, (st1.0, p2, st1.2), i + 1);
    } else {
        lemma_no_pair_for_element(ends, ps, node, next, i);
        assert(node == exit || fed(ps, node, ps.len() as int)) by {
            assert(seq![node][0] == node);
        }
        if next == exit {
            let p2 = ps.push(pair);
            lemma_push_inv(ends, exit, st1, pair, false);
            let r = mark_good(p2, p2.len() - 1, exit).0;
            lemma_mark_good_links(p2, p2.len() - 1, exit);
            lemma_links_inv(ends, exit, (st1.0, p2, false), r);
            let r2 = r.update(r.len() - 1, with_good(r[r.len() - 1], true));
            assert(same_links(r, r2));
            lemma_links_inv(ends, exit, (st1.0, r, false), r2);
        } else {
            lemma_push_inv(ends, exit, st1, pair, true);
            lemma_fed_push(seq![node], ps, pair, exit);
            lemma_visit(ends, kept, exit, node, (st1.0.push(next), ps.push(pair), st1.2), i + 1);
        }
    }
}

/// The walk keeps the invariant.
proof fn lemma_walk(ends: Seq<(usize, usize)>, kept: Seq<usize>, exit: usize, st: WalkState, fuel: nat)
    requires
        walk_inv(ends, exit, st),
        ends.len() <= usize::MAX,
    ensures
        walk_inv(ends, exit, walk(ends, kept, exit, st, fuel)),
    decreases fuel,
{
    if fuel > 0 && st.0.len() > 0 {
        let st2 = lemma_pop_inv(ends, exit, st);
        lemma_visit(ends, kept, exit, st.0.last(), st2, 0);
        lemma_walk(
            ends,
            kept,
            exit,
            visit(ends, kept, exit, st.0.last(), st2, 0),
            (fuel - 1) as nat,
        );
    }
}

/// Taking the top node off the stack keeps the invariant, and the node is fed.
proof fn lemma_pop_inv(ends: Seq<(usize, usize)>, exit: usize, st: WalkState) -> (st2: WalkState)
    requires
        walk_inv(ends, exit, st),
        st.0.len() > 0,
    ensures
        st2 == (st.0.drop_last(), st.1, st.2),
        walk_inv(ends, exit, st2),
        all_fed(seq![st.0.last()], st.1, exit),
{
    let st2 = (st.0.drop_last(), st.1, st.2);
    assert forall|q: int| 0 <= q < st2.0.len() implies #[trigger] st2.0[q] == exit || fed(
        st2.1,
        st2.0[q],
        st2.1.len() as int,
    ) by {
        assert(st2.0[q] == st.0[q]);
    }
    assert forall|q: int| 0 <= q < 1 implies #[trigger] seq![st.0.last()][q] == exit || fed(
        st.1,
        seq![st.0.last()][q],
        st.1.len() as int,
    ) by {
        assert(seq![st.0.last()][q] == st.0[st.0.len() - 1]);
    }
    st2
}


fn contains_node(v: &Vec<usize>, x: usize) -> (b: bool)
    ensures
        b == v@.contains(x),
{
    let mut k: usize = 0;
    while k < v.len()
        invariant
            k <= v@.len(),
            forall|t: int| 0 <= t < k ==> v@[t] != x,
        decreases v.len() - k,
    {
        if v[k] == x {
            assert(v@[k as int] == x);
            return true;
        }
        k = k + 1;
    }
    false
}

fn has_pair(pairs: &Vec<Pair>, p: Pair) -> (b: bool)
    ensures
        b == pairs@.contains(p),
{
    let mut k: usize = 0;
    while k < pairs.len()
        invariant
            k <= pairs@.len(),
            forall|t: int| 0 <= t < k ==> pairs@[t] != p,
        decreases pairs.len() - k,
    {
        let q = pairs[k];
        if q.in_node == p.in_node && q.out_node == p.out_node && q.good == p.good && q.element_index
            == p.element_index {
            assert(pairs@[k as int] == p);
            return true;
        }
        k = k + 1;
    }
    false
}

/// How many elements touch node `x`.
fn count_touches(ends: &Vec<(usize, usize)>, x: usize) -> (n: usize)
    ensures
        n == touch_count(ends@, x),
{
    let mut n: usize = 0;
    let mut i: usize = 0;
    while i < ends.len()
        invariant
            i <= ends@.len(),
            n == touch_count(ends@.take(i as int), x),
            n <= i,
        decreases ends.len() - i,
    {
        assert(ends@.take(i + 1).drop_last() =~= ends@.take(i as int));
        let (a, b) = ends[i];
        if a == x || b == x {
            n = n + 1;
        }
        i = i + 1;
    }
    assert(ends@.take(ends@.len() as int) =~= ends@);
    n
}

/// The kept nodes, in order of first appearance.
fn kept_node_list(ends: &Vec<(usize, usize)>) -> (kept: Vec<usize>)
    ensures
        kept@ == kept_nodes(ends@),
{
    let mut nodes: Vec<usize> = Vec::new();
    let mut i: usize = 0;
    while i < ends.len()
        invariant
            i <= ends@.len(),
            nodes@ == node_list(ends@.take(i as int)),
        decreases ends.len() - i,
    {
        assert(ends@.take(i + 1).drop_last() =~= ends@.take(i as int));
        let (a, b) = ends[i];
        if !contains_node(&nodes, a) {
            nodes.push(a);
        }
        if !contains_node(&nodes, b) {
            nodes.push(b);
        }
        i = i + 1;
    }
    assert(ends@.take(ends@.len() as int) =~= ends@);
    let mut kept: Vec<usize> = Vec::new();
    let mut k: usize = 0;
    while k < nodes.len()
        invariant
            k <= nodes@.len(),
            nodes@ == node_list(ends@),
            kept@ == well_touched(nodes@.take(k as int), ends@),
        decreases nodes.len() - k,
    {
        assert(nodes@.take(k + 1).drop_last() =~= nodes@.take(k as int));
        let x = nodes[k];
        if count_touches(ends, x) >= 2 {
            kept.push(x);
        }
        k = k + 1;
    }
    assert(nodes@.take(nodes@.len() as int) =~= nodes@);
    kept
}

/// Whether an element other than `g` touches node `x`.
fn other_touches(ends: &Vec<(usize, usize)>, g: usize, x: usize) -> (b: bool)
    ensures
        b == touched_by_other(ends@, g as int, x),
{
    let mut i: usize = 0;
    while i < ends.len()
        invariant
            i <= ends@.len(),
            forall|t: int| 0 <= t < i && t != g ==> !touches(ends@[t], x),
        decreases ends.len() - i,
    {
        if i != g {
            let (a, b) = ends[i];
            if a == x || b == x {
                assert(touches(ends@[i as int], x));
                return true;
            }
        }
        i = i + 1;
    }
    false
}

/// Traces pair `k` back to `exit` (see `mark_good`).
fn is_pair_good(pairs: &mut Vec<Pair>, k: usize, exit: usize) -> (b: bool)
    ensures
        (final(pairs)@, b) == mark_good(old(pairs)@, k as int, exit),
        final(pairs)@.len() == old(pairs)@.len(),
    decreases k,
{
    proof {
        lemma_mark_good_links(pairs@, k as int, exit);
    }
    if k >= pairs.len() {
        return false;
    }
    let cur = pairs[k];
    if cur.in_node == exit {
        pairs.set(k, Pair { in_node: cur.in_node, out_node: cur.out_node, good: true, element_index: cur.element_index });
        return true;
    }
    let ghost p0 = pairs@;
    let mut i: usize = 0;
    while i < pairs.len() && pairs[i].out_node != cur.in_node
        invariant
            i <= pairs@.len(),
            pairs@ == p0,
            first_feeding(p0, cur.in_node, 0) == first_feeding(p0, cur.in_node, i as int),
        decreases pairs.len() - i,
    {
        i = i + 1;
    }
    if i < k {
        let b = is_pair_good(pairs, i, exit);
        let p = pairs[k];
        pairs.set(k, Pair { in_node: p.in_node, out_node: p.out_node, good: p.good || b, element_index: p.element_index });
        b
    } else {
        false
    }
}

/// One visit of `node` (see `visit`).
fn visit_node(
    ends: &Vec<(usize, usize)>,
    kept: &Vec<usize>,
    exit: usize,
    node: usize,
    stack: &mut Vec<usize>,
    pairs: &mut Vec<Pair>,
    init: &mut bool,
)
    ensures
        (final(stack)@, final(pairs)@, *final(init)) == visit(
            ends@,
            kept@,
            exit,
            node,
            (old(stack)@, old(pairs)@, *old(init)),
            0,
        ),
{
    let ghost goal = visit(ends@, kept@, exit, node, (stack@, pairs@, *init), 0);
    let mut i: usize = 0;
    while i < ends.len()
        invariant
            i <= ends@.len(),
            visit(ends@, kept@, exit, node, (stack@, pairs@, *init), i as int) == goal,
            goal == visit(ends@, kept@, exit, node, (old(stack)@, old(pairs)@, *old(init)), 0),
        decreases ends.len() - i,
    {
        let ghost st_i = (stack@, pairs@, *init);
        let (a, b) = ends[i];
        if (node == a || node == b) && contains_node(kept, a) && contains_node(kept, b) {
            let next = if node == a {
                b
            } else {
                a
            };
            let pair = Pair { in_node: node, out_node: next, good: false, element_index: i };
            if *init {
                stack.push(next);
                pairs.push(pair);
                *init = false;
            }
            if has_pair(pairs, pair) || has_pair(
                pairs,
                Pair { in_node: next, out_node: node, good: false, element_index: i },
            ) || has_pair(pairs, Pair { in_node: next, out_node: node, good: true, element_index: i })
            {
            } else if has_pair(
                pairs,
                Pair { in_node: node, out_node: next, good: true, element_index: i },
            ) {
                let last = pairs.len() - 1;
                let _ = is_pair_good(pairs, last, exit);
            } else if next == exit {
                let ghost ps = pairs@;
                pairs.push(pair);
                let last = pairs.len() - 1;
                let ghost p2 = pairs@;
                let _ = is_pair_good(pairs, last, exit);
                let ghost r = pairs@;
                let p = pairs[last];
                pairs.set(last, Pair { in_node: p.in_node, out_node: p.out_node, good: true, element_index: p.element_index });
                proof {
                    assert(p2 == ps.push(pair));
                    assert(r == mark_good(p2, p2.len() - 1, exit).0);
                    assert(pairs@ =~= r.update(r.len() - 1, with_good(r[r.len() - 1], true)));
                    assert((stack@, pairs@, *init) == visit(ends@, kept@, exit, node, st_i, i as int));
                }
                return;
            } else {
                stack.push(next);
                pairs.push(pair);
            }
        }
        i = i + 1;
    }
}

/// The nodes of `kept` some pair uses.
fn used_node_list(kept: &Vec<usize>, pairs: &Vec<Pair>) -> (nodes: Vec<usize>)
    ensures
        nodes@ == used_nodes(kept@, pairs@),
{
    let mut nodes: Vec<usize> = Vec::new();
    let mut k: usize = 0;
    while k < kept.len()
        invariant
            k <= kept@.len(),
            nodes@ == used_nodes(kept@.take(k as int), pairs@),
        decreases kept.len() - k,
    {
        assert(kept@.take(k + 1).drop_last() =~= kept@.take(k as int));
        let x = kept[k];
        let mut used = false;
        let mut j: usize = 0;
        while j < pairs.len() && !used
            invariant
                j <= pairs@.len(),
                used ==> used_by_pairs(pairs@, x),
                !used ==> forall|t: int|
                    0 <= t < j ==> pairs@[t].in_node != x && pairs@[t].out_node != x,
            decreases pairs.len() - j,
        {
            if pairs[j].in_node == x || pairs[j].out_node == x {
                assert(pairs@[j as int].in_node == x || pairs@[j as int].out_node == x);
                used = true;
            }
            j = j + 1;
        }
        if used {
            nodes.push(x);
        }
        k = k + 1;
    }
    assert(kept@.take(kept@.len() as int) =~= kept@);
    nodes
}


/// The topology of a circuit whose elements have the ends `ends` (see `topology`);
/// `first_discovered` tells whether the first element is already discovered. `None` where no
/// element is joined to others at both of its ends.
pub fn circuit_topology(ends: &Vec<(usize, usize)>, first_discovered: bool) -> (r: Option<
    (Vec<usize>, Vec<Pair>),
>)
    requires
        ends@.len() > 0,
    ensures
        r is None <==> topology(ends@, first_discovered) is None,
        r matches Some((nodes, pairs)) ==> topology(ends@, first_discovered) == Some(
            (nodes@, pairs@),
        ),
{
    if first_discovered {
        return Some((Vec::new(), Vec::new()));
    }
    let n = ends.len();
    let mut g: usize = 0;
    loop
        invariant
            g < n,
            n == ends@.len(),
            !first_discovered,
            first_joined_from(ends@, g as int) == first_joined_from(ends@, 0),
        ensures
            g < n,
            first_joined_from(ends@, 0) == Some(g as int),
        decreases n - g,
    {
        let (a, b) = ends[g];
        if other_touches(ends, g, a) && other_touches(ends, g, b) {
            break;
        }
        g = g + 1;
        if g >= n {
            assert(first_joined_from(ends@, g as int) is None);
            return None;
        }
    }
    let kept = kept_node_list(ends);
    let exit = ends[g].0;
    let ghost start: WalkState = (seq![exit], Seq::empty(), true);
    let ghost total = walk(ends@, kept@, exit, start, (n + 1) as nat);
    let mut stack: Vec<usize> = Vec::new();
    stack.push(exit);
    let mut pairs: Vec<Pair> = Vec::new();
    let mut init = true;
    let ghost mut fuel: nat = (n + 1) as nat;
    proof {
        assert(stack@ =~= seq![exit]);
        assert(pairs@ =~= Seq::<Pair>::empty());
        assert(all_fed(stack@, pairs@, exit)) by {
            assert(stack@[0] == exit);
        }
    }
    while stack.len() > 0
        invariant
            n == ends@.len(),
            walk_inv(ends@, exit, (stack@, pairs@, init)),
            walk(ends@, kept@, exit, (stack@, pairs@, init), fuel) == total,
            stack@.len() + n <= fuel + pairs@.len(),
        decreases fuel,
    {
        proof {
            lemma_pairs_bounded(ends@, pairs@);
        }
        let ghost st = (stack@, pairs@, init);
        let node = stack.pop().unwrap();
        proof {
            let st2 = lemma_pop_inv(ends@, exit, st);
            assert(stack@ =~= st.0.drop_last());
            lemma_visit(ends@, kept@, exit, node, st2, 0);
        }
        visit_node(ends, &kept, exit, node, &mut stack, &mut pairs, &mut init);
        proof {
            fuel = (fuel - 1) as nat;
        }
    }
    proof {
        lemma_pairs_bounded(ends@, pairs@);
    }
    let nodes = used_node_list(&kept, &pairs);
    Some((nodes, pairs))
}


proof fn lemma_first_joined(ends: Seq<(usize, usize)>, s: int)
    requires
        first_joined_from(ends, s) is Some,
    ensures
        s <= first_joined_from(ends, s).unwrap() < ends.len(),
        joined(ends, first_joined_from(ends, s).unwrap()),
    decreases ends.len() - s,
{
    if 0 <= s < ends.len() && !joined(ends, s) {
        lemma_first_joined(ends, s + 1);
    }
}

proof fn lemma_touch_one(ends: Seq<(usize, usize)>, g: int, x: usize)
    requires
        0 <= g < ends.len(),
        touches(ends[g], x),
    ensures
        touch_count(ends, x) >= 1,
    decreases ends.len(),
{
    if g < ends.len() - 1 {
        assert(ends.drop_last()[g] == ends[g]);
        lemma_touch_one(ends.drop_last(), g, x);
    }
}

proof fn lemma_touch_two(ends: Seq<(usize, usize)>, g: int, i: int, x: usize)
    requires
        0 <= g < ends.len(),
        0 <= i < ends.len(),
        g != i,
        touches(ends[g], x),
        touches(ends[i], x),
    ensures
        touch_count(ends, x) >= 2,
    decreases ends.len(),
{
    let last = ends.len() - 1;
    let rest = ends.drop_last();
    if g == last {
        assert(rest[i] == ends[i]);
        lemma_touch_one(rest, i, x);
    } else if i == last {
        assert(rest[g] == ends[g]);
        lemma_touch_one(rest, g, x);
    } else {
        assert(rest[g] == ends[g]);
        assert(rest[i] == ends[i]);
        lemma_touch_two(rest, g, i, x);
    }
}

proof fn lemma_node_list_has(ends: Seq<(usize, usize)>, i: int)
    requires
        0 <= i < ends.len(),
    ensures
        node_list(ends).contains(ends[i].0),
        node_list(ends).contains(ends[i].1),
    decreases ends.len(),
{
    let rest = ends.drop_last();
    let d = node_list(rest);
    let e = ends.last();
    let d1 = if d.contains(e.0) {
        d
    } else {
        d.push(e.0)
    };
    let r = node_list(ends);
    assert(forall|x: usize| d.contains(x) ==> d1.contains(x)) by {
        assert forall|x: usize| d.contains(x) implies d1.contains(x) by {
            if !d.contains(e.0) {
                let k = choose|k: int| 0 <= k < d.len() && d[k] == x;
                assert(d1[k] == x);
            }
        }
    }
    assert(forall|x: usize| d1.contains(x) ==> r.contains(x)) by {
        assert forall|x: usize| d1.contains(x) implies r.contains(x) by {
            if !d1.contains(e.1) {
                let k = choose|k: int| 0 <= k < d1.len() && d1[k] == x;
                assert(r[k] == x);
            }
        }
    }
    assert(d1.contains(e.0)) by {
        if !d.contains(e.0) {
            assert(d1[d.len() as int] == e.0);
        }
    }
    assert(r.contains(e.1)) by {
        if !d1.contains(e.1) {
            assert(r[d1.len() as int] == e.1);
        }
    }
    if i < ends.len() - 1 {
        assert(rest[i] == ends[i]);
        lemma_node_list_has(rest, i);
    }
}

proof fn lemma_well_touched_has(nodes: Seq<usize>, ends: Seq<(usize, usize)>, x: usize)
    requires
        nodes.contains(x),
        touch_count(ends, x) >= 2,
    ensures
        well_touched(nodes, ends).contains(x),
    decreases nodes.len(),
{
    let rest = well_touched(nodes.drop_last(), ends);
    let r = well_touched(nodes, ends);
    if nodes.last() == x {
        assert(r[rest.len() as int] == x);
    } else {
        let k = choose|k: int| 0 <= k < nodes.len() && nodes[k] == x;
        assert(nodes.drop_last()[k] == x);
        lemma_well_touched_has(nodes.drop_last(), ends, x);
        let j = choose|j: int| 0 <= j < rest.len() && rest[j] == x;
        assert(r[j] == x);
    }
}

/// The walk always starts from a kept node: the first end of the first element joined at both
/// ends is touched by at least two elements, so it is never pruned.
pub proof fn lemma_start_is_kept(ends: Seq<(usize, usize)>)
    requires
        first_joined_from(ends, 0) is Some,
    ensures
        kept_nodes(ends).contains(ends[first_joined_from(ends, 0).unwrap()].0),
{
    lemma_first_joined(ends, 0);
    let g = first_joined_from(ends, 0).unwrap();
    let x = ends[g].0;
    let i = choose|i: int| 0 <= i < ends.len() && i != g && #[trigger] touches(ends[i], x);
    lemma_touch_two(ends, g, i, x);
    lemma_node_list_has(ends, g);
    lemma_well_touched_has(node_list(ends), ends, x);
}

/// Every pair of a topology runs between the two ends of its element, no element has two
/// pairs, and so there are no more pairs than elements.
pub proof fn lemma_topology_pairs(ends: Seq<(usize, usize)>, first_discovered: bool)
    requires
        topology(ends, first_discovered) is Some,
        ends.len() <= usize::MAX,
    ensures
        forall|k: int|
            0 <= k < topology(ends, first_discovered).unwrap().1.len() ==> spans(
                ends,
                #[trigger] topology(ends, first_discovered).unwrap().1[k],
            ),
        one_pair_per_element(topology(ends, first_discovered).unwrap().1),
        topology(ends, first_discovered).unwrap().1.len() <= ends.len(),
{
    if !first_discovered {
        let g = first_joined_from(ends, 0).unwrap();
        let exit = ends[g].0;
        let start: WalkState = (seq![exit], Seq::empty(), true);
        assert(all_fed(start.0, start.1, exit)) by {
            assert(start.0[0] == exit);
        }
        lemma_walk(ends, kept_nodes(ends), exit, start, (ends.len() + 1) as nat);
        let st = walk(ends, kept_nodes(ends), exit, start, (ends.len() + 1) as nat);
        lemma_pairs_bounded(ends, st.1);
    }
}


/// Every pair enters and leaves at kept nodes.
pub open spec fn pairs_kept(pairs: Seq<Pair>, kept: Seq<usize>) -> bool {
    forall|k: int|
        0 <= k < pairs.len() ==> kept.contains((#[trigger] pairs[k]).in_node) && kept.contains(
            pairs[k].out_node,
        )
}

proof fn lemma_links_kept(p: Seq<Pair>, p2: Seq<Pair>, kept: Seq<usize>)
    requires
        pairs_kept(p, kept),
        same_links(p, p2),
    ensures
        pairs_kept(p2, kept),
{
    assert forall|k: int| 0 <= k < p2.len() implies kept.contains((#[trigger] p2[k]).in_node)
        && kept.contains(p2[k].out_node) by {
        assert(kept.contains(p[k].in_node) && kept.contains(p[k].out_node));
    }
}

proof fn lemma_push_kept(p: Seq<Pair>, pair: Pair, kept: Seq<usize>)
    requires
        pairs_kept(p, kept),
        kept.contains(pair.in_node),
        kept.contains(pair.out_node),
    ensures
        pairs_kept(p.push(pair), kept),
{
    assert forall|k: int| 0 <= k < p.push(pair).len() implies kept.contains(
        (#[trigger] p.push(pair)[k]).in_node,
    ) && kept.contains(p.push(pair)[k].out_node) by {
        if k < p.len() {
            assert(p.push(pair)[k] == p[k]);
        }
    }
}

proof fn lemma_visit_kept(
    ends: Seq<(usize, usize)>,
    kept: Seq<usize>,
    exit: usize,
    node: usize,
    st: WalkState,
    i: int,
)
    requires
        pairs_kept(st.1, kept),
    ensures
        pairs_kept(visit(ends, kept, exit, node, st, i).1, kept),
    decreases ends.len() - i,
{
    if i < 0 || i >= ends.len() {
        return;
    }
    let e = ends[i];
    if !touches(e, node) || !kept.contains(e.0) || !kept.contains(e.1) {
        lemma_visit_kept(ends, kept, exit, node, st, i + 1);
        return;
    }
    let next = if node == e.0 {
        e.1
    } else {
        e.0
    };
    let ix = i as usize;
    let pair = Pair { in_node: node, out_node: next, good: false, element_index: ix };
    let st1 = if st.2 {
        (st.0.push(next), st.1.push(pair), false)
    } else {
        st
    };
    lemma_push_kept(st.1, pair, kept);
    let ps = st1.1;
    if ps.contains(pair) || ps.contains(
        Pair { in_node: next, out_node: node, good: false, element_index: ix },
    ) || ps.contains(Pair { in_node: next, out_node: node, good: true, element_index: ix }) {
        lemma_visit_kept(ends, kept, exit, node, st1, i + 1);
    } else if ps.contains(Pair { in_node: node, out_node: next, good: true, element_index: ix }) {
        let p2 = mark_good(ps, ps.len() - 1, exit).0;
        lemma_mark_good_links(ps, ps.len() - 1, exit);
        lemma_links_kept(ps, p2, kept);
        lemma_visit_kept(ends, kept, exit, node, (st1.0, p2, st1.2), i + 1);
    } else if next == exit {
        let p2 = ps.push(pair);
        lemma_push_kept(ps, pair, kept);
        let r = mark_good(p2, p2.len() - 1, exit).0;
        lemma_mark_good_links(p2, p2.len() - 1, exit);
        lemma_links_kept(p2, r, kept);
        let r2 = r.update(r.len() - 1, with_good(r[r.len() - 1], true));
        assert(same_links(r, r2));
        lemma_links_kept(r, r2, kept);
    } else {
        lemma_push_kept(ps, pair, kept);
        lemma_visit_kept(ends, kept, exit, node, (st1.0.push(next), ps.push(pair), st1.2), i + 1);
    }
}

proof fn lemma_walk_kept(
    ends: Seq<(usize, usize)>,
    kept: Seq<usize>,
    exit: usize,
    st: WalkState,
    fuel: nat,
)
    requires
        pairs_kept(st.1, kept),
    ensures
        pairs_kept(walk(ends, kept, exit, st, fuel).1, kept),
    decreases fuel,
{
    if fuel > 0 && st.0.len() > 0 {
        let st2 = (st.0.drop_last(), st.1, st.2);
        lemma_visit_kept(ends, kept, exit, st.0.last(), st2, 0);
        lemma_walk_kept(
            ends,
            kept,
            exit,
            visit(ends, kept, exit, st.0.last(), st2, 0),
            (fuel - 1) as nat,
        );
    }
}

proof fn lemma_used_nodes_used(nodes: Seq<usize>, pairs: Seq<Pair>)
    ensures
        forall|i: int|
            0 <= i < used_nodes(nodes, pairs).len() ==> used_by_pairs(
                pairs,
                #[trigger] used_nodes(nodes, pairs)[i],
            ),
    decreases nodes.len(),
{
    if nodes.len() > 0 {
        let rest = used_nodes(nodes.drop_last(), pairs);
        lemma_used_nodes_used(nodes.drop_last(), pairs);
        let r = used_nodes(nodes, pairs);
        assert forall|i: int| 0 <= i < r.len() implies used_by_pairs(pairs, #[trigger] r[i]) by {
            if i < rest.len() {
                assert(r[i] == rest[i]);
            }
        }
    }
}

proof fn lemma_used_nodes_has(nodes: Seq<usize>, pairs: Seq<Pair>, x: usize)
    requires
        nodes.contains(x),
        used_by_pairs(pairs, x),
    ensures
        used_nodes(nodes, pairs).contains(x),
    decreases nodes.len(),
{
    let rest = used_nodes(nodes.drop_last(), pairs);
    let r = used_nodes(nodes, pairs);
    if nodes.last() == x {
        assert(r[rest.len() as int] == x);
    } else {
        let k = choose|k: int| 0 <= k < nodes.len() && nodes[k] == x;
        assert(nodes.drop_last()[k] == x);
        lemma_used_nodes_has(nodes.drop_last(), pairs, x);
        let j = choose|j: int| 0 <= j < rest.len() && rest[j] == x;
        assert(r[j] == x);
    }
}

/// Some pair of `pairs` enters or leaves at node `x`.
pub open spec fn some_pair_at(pairs: Seq<Pair>, x: usize) -> bool {
    exists|j: int| 0 <= j < pairs.len() && ((#[trigger] pairs[j]).in_node == x || pairs[j].out_node == x)
}

/// The nodes of a topology are exactly those its pairs use: every listed node is entered or
/// left by some pair, and every node a pair enters or leaves is listed.
pub proof fn lemma_topology_nodes(
    ends: Seq<(usize, usize)>,
    first_discovered: bool,
    nodes: Seq<usize>,
    pairs: Seq<Pair>,
)
    requires
        topology(ends, first_discovered) == Some((nodes, pairs)),
    ensures
        forall|i: int| 0 <= i < nodes.len() ==> some_pair_at(pairs, #[trigger] nodes[i]),
        forall|j: int|
            0 <= j < pairs.len() ==> nodes.contains((#[trigger] pairs[j]).in_node)
                && nodes.contains(pairs[j].out_node),
{
    if !first_discovered {
        let g = first_joined_from(ends, 0).unwrap();
        let exit = ends[g].0;
        let kept = kept_nodes(ends);
        let start: WalkState = (seq![exit], Seq::empty(), true);
        lemma_walk_kept(ends, kept, exit, start, (ends.len() + 1) as nat);
        lemma_used_nodes_used(kept, pairs);
        assert forall|i: int| 0 <= i < nodes.len() implies some_pair_at(pairs, #[trigger] nodes[i]) by {
            assert(nodes[i] == used_nodes(kept, pairs)[i]);
            assert(used_by_pairs(pairs, nodes[i]));
            let j = choose|j: int|
                0 <= j < pairs.len() && ((#[trigger] pairs[j]).in_node == nodes[i]
                    || pairs[j].out_node == nodes[i]);
            assert(pairs[j].in_node == nodes[i] || pairs[j].out_node == nodes[i]);
        }
        assert forall|j: int| 0 <= j < pairs.len() implies nodes.contains(
            (#[trigger] pairs[j]).in_node,
        ) && nodes.contains(pairs[j].out_node) by {
            assert(kept.contains(pairs[j].in_node) && kept.contains(pairs[j].out_node));
            lemma_used_nodes_has(kept, pairs, pairs[j].in_node);
            lemma_used_nodes_has(kept, pairs, pairs[j].out_node);
        }
    }
}

} // verus!
