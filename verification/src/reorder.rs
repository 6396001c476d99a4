//! Post-build pass that permutes each inner node's children into
//! ray-direction-coherent slots.
//!
//! For a node with center `p`, each of the eight slots stands for one
//! octant direction (all sign combinations of the unit axes). The cost of
//! putting a child into a slot is the dot product of the child's center
//! offset from `p` with the slot's direction; children are placed by a
//! greedy matching that repeatedly takes the globally cheapest pair of an
//! unassigned child and an unfilled slot. The result is always a
//! permutation of the original child array.
//!
//! Costs are computed on doubled coordinates (`min + max` instead of the
//! halved center), which keeps the integer arithmetic exact and preserves
//! the cost ordering.

use vstd::prelude::*;
use vstd::pervasive::unreached;
use crate::aabb::Aabb;
use crate::node::{BRANCHING, ChildSlot, Inner, Node, NodeArena, node_wf, slot_ok};
use crate::cwbvh::the_child;

verus! {

/// Number of entries of `a` still holding the "unassigned" sentinel
/// `BRANCHING`.
pub open spec fn count_unassigned(a: Seq<usize>) -> int
    decreases a.len(),
{
    if a.len() == 0 {
        0
    } else {
        count_unassigned(a.drop_last()) + if a.last() == BRANCHING {
            1int
        } else {
            0int
        }
    }
}

/// Number of entries of `b` still false.
pub open spec fn count_unfilled(b: Seq<bool>) -> int
    decreases b.len(),
{
    if b.len() == 0 {
        0
    } else {
        count_unfilled(b.drop_last()) + if b.last() {
            0int
        } else {
            1int
        }
    }
}

proof fn lemma_count_unassigned_update(a: Seq<usize>, i: int, v: usize)
    requires
        0 <= i < a.len(),
        a[i] == BRANCHING,
        v != BRANCHING,
    ensures
        count_unassigned(a.update(i, v)) == count_unassigned(a) - 1,
    decreases a.len(),
{
    if i == a.len() - 1 {
        assert(a.update(i, v).drop_last() =~= a.drop_last());
    } else {
        assert(a.update(i, v).drop_last() =~= a.drop_last().update(i, v));
        lemma_count_unassigned_update(a.drop_last(), i, v);
    }
}

proof fn lemma_count_unfilled_update(b: Seq<bool>, i: int)
    requires
        0 <= i < b.len(),
        !b[i],
    ensures
        count_unfilled(b.update(i, true)) == count_unfilled(b) - 1,
    decreases b.len(),
{
    if i == b.len() - 1 {
        assert(b.update(i, true).drop_last() =~= b.drop_last());
    } else {
        assert(b.update(i, true).drop_last() =~= b.drop_last().update(i, true));
        lemma_count_unfilled_update(b.drop_last(), i);
    }
}

proof fn lemma_count_unassigned_pos(a: Seq<usize>)
    requires
        count_unassigned(a) > 0,
    ensures
        exists|c: int| 0 <= c < a.len() && a[c] == BRANCHING,
    decreases a.len(),
{
    if a.len() > 0 {
        if a.last() == BRANCHING {
        } else {
            lemma_count_unassigned_pos(a.drop_last());
        }
    }
}

proof fn lemma_count_unfilled_pos(b: Seq<bool>)
    requires
        count_unfilled(b) > 0,
    ensures
        exists|s: int| 0 <= s < b.len() && !b[s],
    decreases b.len(),
{
    if b.len() > 0 {
        if b.last() {
            lemma_count_unfilled_pos(b.drop_last());
        }
    }
}

proof fn lemma_count_unassigned_zero(a: Seq<usize>)
    requires
        count_unassigned(a) == 0,
    ensures
        forall|c: int| 0 <= c < a.len() ==> a[c] != BRANCHING,
    decreases a.len(),
{
    if a.len() > 0 {
        assert(count_unassigned(a.drop_last()) >= 0) by {
            lemma_count_unassigned_nonneg(a.drop_last());
        }
        lemma_count_unassigned_zero(a.drop_last());
        assert(forall|c: int|
            0 <= c < a.len() - 1 ==> a[c] == a.drop_last()[c] && a[c] != BRANCHING);
    }
}

proof fn lemma_count_unassigned_nonneg(a: Seq<usize>)
    ensures
        count_unassigned(a) >= 0,
    decreases a.len(),
{
    if a.len() > 0 {
        lemma_count_unassigned_nonneg(a.drop_last());
    }
}

proof fn lemma_count_unassigned_all(a: Seq<usize>)
    requires
        forall|c: int| 0 <= c < a.len() ==> a[c] == BRANCHING,
    ensures
        count_unassigned(a) == a.len(),
    decreases a.len(),
{
    if a.len() > 0 {
        lemma_count_unassigned_all(a.drop_last());
    }
}

proof fn lemma_count_unfilled_all(b: Seq<bool>)
    requires
        forall|s: int| 0 <= s < b.len() ==> !b[s],
    ensures
        count_unfilled(b) == b.len(),
    decreases b.len(),
{
    if b.len() > 0 {
        lemma_count_unfilled_all(b.drop_last());
    }
}


/// The matching cost of putting a child into a direction slot: the dot
/// product of the child's center offset from the node center with the
/// slot's octant sign vector, computed on doubled coordinates
/// (`min + max` instead of the halved center) so it is exact. Slot `s`
/// points along negative x when `s >= 4`, negative y when bit 1 of `s`
/// is set, negative z when `s` is odd.
pub open spec fn slot_cost(children: Seq<ChildSlot>, self_bounds: Aabb, c: int, s: int) -> int
    recommends
        0 <= c < children.len(),
        0 <= s < BRANCHING,
{
    let dx = (children[c].bounds.min.x + children[c].bounds.max.x) - (self_bounds.min.x
        + self_bounds.max.x);
    let dy = (children[c].bounds.min.y + children[c].bounds.max.y) - (self_bounds.min.y
        + self_bounds.max.y);
    let dz = (children[c].bounds.min.z + children[c].bounds.max.z) - (self_bounds.min.z
        + self_bounds.max.z);
    (if s >= 4 {
        -dx
    } else {
        dx
    }) + (if s % 4 >= 2 {
        -dy
    } else {
        dy
    }) + (if s % 2 == 1 {
        -dz
    } else {
        dz
    })
}

/// Some child is already assigned to slot `s`.
pub open spec fn slot_taken(a: Seq<usize>, s: int) -> bool {
    exists|c: int| 0 <= c < a.len() && a[c] == s
}

/// Child `c` is still unassigned and slot `s` still unfilled.
pub open spec fn pair_free(a: Seq<usize>, c: int, s: int) -> bool {
    &&& 0 <= c < a.len()
    &&& 0 <= s < BRANCHING
    &&& a[c] == BRANCHING
    &&& !slot_taken(a, s)
}

/// Scan the (child, slot) pairs in row-major order over the first `k`
/// pair indices, keeping the first strictly-cheapest free pair — exactly
/// the search one greedy round performs.
pub open spec fn scan_best(
    children: Seq<ChildSlot>,
    self_bounds: Aabb,
    a: Seq<usize>,
    k: int,
) -> Option<(int, int)>
    decreases k,
{
    if k <= 0 {
        Option::None
    } else {
        let prev = scan_best(children, self_bounds, a, k - 1);
        let c = (k - 1) / 8;
        let s = (k - 1) % 8;
        if pair_free(a, c, s) {
            match prev {
                Option::None => Option::Some((c, s)),
                Option::Some(p) => if slot_cost(children, self_bounds, c, s) < slot_cost(
                    children,
                    self_bounds,
                    p.0,
                    p.1,
                ) {
                    Option::Some((c, s))
                } else {
                    prev
                },
            }
        } else {
            prev
        }
    }
}

/// Run `rounds` more greedy rounds from the partial assignment `a`: each
/// round assigns the globally cheapest free (child, slot) pair.
pub open spec fn greedy_rounds(
    children: Seq<ChildSlot>,
    self_bounds: Aabb,
    a: Seq<usize>,
    rounds: nat,
) -> Seq<usize>
    decreases rounds,
{
    if rounds == 0 {
        a
    } else {
        match scan_best(children, self_bounds, a, 64) {
            Option::Some(p) => greedy_rounds(
                children,
                self_bounds,
                a.update(p.0, p.1 as usize),
                (rounds - 1) as nat,
            ),
            Option::None => a,
        }
    }
}

/// The all-unassigned starting state.
pub open spec fn unassigned_all() -> Seq<usize> {
    Seq::new(BRANCHING as nat, |c: int| BRANCHING)
}

/// The greedy octant matching of spec: entry `c` is the slot that child
/// `c` is moved to, after eight rounds of taking the globally cheapest
/// unassigned-child / unfilled-slot pair.
pub open spec fn greedy_assignment(children: Seq<ChildSlot>, self_bounds: Aabb) -> Seq<usize> {
    greedy_rounds(children, self_bounds, unassigned_all(), BRANCHING as nat)
}

/// Scanning a row whose child is already assigned finds nothing new.
proof fn lemma_scan_skip_row(
    children: Seq<ChildSlot>,
    self_bounds: Aabb,
    a: Seq<usize>,
    c: int,
    s: int,
)
    requires
        a.len() == BRANCHING,
        0 <= c < BRANCHING,
        0 <= s <= BRANCHING,
        a[c] != BRANCHING,
    ensures
        scan_best(children, self_bounds, a, c * 8 + s) == scan_best(children, self_bounds, a, c * 8),
    decreases s,
{
    if s > 0 {
        lemma_scan_skip_row(children, self_bounds, a, c, s - 1);
        lemma_pair_index(c, s - 1);
        assert(!pair_free(a, c, s - 1));
    }
}

/// Row-major pair index arithmetic: pair `c * 8 + s` names child `c`
/// and slot `s`.
proof fn lemma_pair_index(c: int, s: int)
    requires
        0 <= c,
        0 <= s < 8,
    ensures
        (c * 8 + s) / 8 == c,
        (c * 8 + s) % 8 == s,
{
    vstd::arithmetic::div_mod::lemma_fundamental_div_mod_converse(c * 8 + s, 8, c, s);
}


/// Once the scan has found some free pair, longer scans still return one.
proof fn lemma_scan_some_monotone(
    children: Seq<ChildSlot>,
    self_bounds: Aabb,
    a: Seq<usize>,
    k1: int,
    k2: int,
)
    requires
        0 <= k1 <= k2,
        scan_best(children, self_bounds, a, k1) is Some,
    ensures
        scan_best(children, self_bounds, a, k2) is Some,
    decreases k2 - k1,
{
    if k1 < k2 {
        lemma_scan_some_monotone(children, self_bounds, a, k1, k2 - 1);
    }
}

/// While some child is unassigned and some slot unfilled, the full scan
/// finds a pair.
proof fn lemma_scan_finds_free(
    children: Seq<ChildSlot>,
    self_bounds: Aabb,
    a: Seq<usize>,
    cu: int,
    su: int,
)
    requires
        a.len() == BRANCHING,
        0 <= cu < BRANCHING,
        0 <= su < BRANCHING,
        a[cu] == BRANCHING,
        !slot_taken(a, su),
    ensures
        scan_best(children, self_bounds, a, 64) is Some,
{
    lemma_pair_index(cu, su);
    assert(pair_free(a, cu, su));
    assert(scan_best(children, self_bounds, a, cu * 8 + su + 1) is Some);
    assert(cu * 8 + su + 1 <= 64) by (nonlinear_arith)
        requires
            0 <= cu < 8,
            0 <= su < 8,
    ;
    lemma_scan_some_monotone(children, self_bounds, a, cu * 8 + su + 1, 64);
}

/// Placing each element `olds[c]` at a distinct position `f[c]` of `news`
/// leaves the multiset of elements unchanged.
proof fn lemma_placement_permutes(olds: Seq<ChildSlot>, news: Seq<ChildSlot>, f: Seq<int>)
    requires
        olds.len() == news.len(),
        f.len() == olds.len(),
        forall|c: int| 0 <= c < f.len() ==> 0 <= #[trigger] f[c] < news.len(),
        forall|c1: int, c2: int| 0 <= c1 < c2 < f.len() ==> f[c1] != f[c2],
        forall|c: int| 0 <= c < f.len() ==> news[#[trigger] f[c]] == olds[c],
    ensures
        news.to_multiset() == olds.to_multiset(),
    decreases olds.len(),
{
    broadcast use vstd::seq_lib::group_to_multiset_ensures;
    broadcast use vstd::multiset::group_multiset_axioms;

    if olds.len() == 0 {
        assert(news =~= olds);
    } else {
        let n = olds.len() as int;
        let s = f[n - 1];
        let x = olds[n - 1];
        let news2 = news.remove(s);
        let olds2 = olds.drop_last();
        let f2 = Seq::new((n - 1) as nat, |c: int| if f[c] < s { f[c] } else { f[c] - 1 });
        assert forall|c: int| 0 <= c < f2.len() implies 0 <= #[trigger] f2[c] < news2.len() by {
            assert(f[c] != s);
        }
        assert forall|c1: int, c2: int| 0 <= c1 < c2 < f2.len() implies f2[c1] != f2[c2] by {
            assert(f[c1] != f[c2]);
            assert(f[c1] != s);
            assert(f[c2] != s);
        }
        assert forall|c: int| 0 <= c < f2.len() implies news2[#[trigger] f2[c]] == olds2[c] by {
            assert(f[c] != s);
            if f[c] < s {
                assert(news2[f2[c]] == news[f[c]]);
            } else {
                assert(news2[f2[c]] == news[f[c]]);
            }
        }
        lemma_placement_permutes(olds2, news2, f2);
        // Relate the multisets with and without the placed last element.
        assert(olds.remove(n - 1) =~= olds2);
        assert(olds2.to_multiset() =~= olds.to_multiset().remove(x));
        assert(news2.to_multiset() =~= news.to_multiset().remove(x)) by {
            assert(news[s] == x);
        }
        assert(olds.contains(x));
        assert(olds.to_multiset().count(x) > 0);
        assert(news.contains(x)) by {
            assert(news[s] == x);
        }
        assert(news.to_multiset().count(x) > 0);
        assert forall|y: ChildSlot| news.to_multiset().count(y) == olds.to_multiset().count(
            y,
        ) by {
            if y == x {
                assert(news.to_multiset().remove(x).count(x) == news.to_multiset().count(x) - 1);
                assert(olds.to_multiset().remove(x).count(x) == olds.to_multiset().count(x) - 1);
            } else {
                assert(news.to_multiset().remove(x).count(y) == news.to_multiset().count(y));
                assert(olds.to_multiset().remove(x).count(y) == olds.to_multiset().count(y));
            }
        }
        assert(news.to_multiset() =~= olds.to_multiset());
    }
}


/// Node `j` lies in the subtree rooted at `idx`: it is `idx` itself or
/// reachable through child slots.
pub open spec fn in_subtree(arena: NodeArena, idx: int, j: int) -> bool
    decreases arena.nodes@.len() - idx,
    when arena.wf() && 0 <= idx < arena.nodes@.len()
{
    j == idx || match arena.nodes@[idx] {
        Node::Leaf(_) => false,
        Node::Inner(inner) => exists|s: int|
            0 <= s < inner.children@.len() && ((#[trigger] inner.children@[s]).child matches Some(c)
                && in_subtree(arena, c as int, j)),
    }
}

/// Every node of a subtree sits at or past its root in the arena.
proof fn lemma_reach_lower(arena: NodeArena, idx: int, j: int)
    requires
        arena.wf(),
        0 <= idx < arena.nodes@.len(),
        in_subtree(arena, idx, j),
    ensures
        idx <= j < arena.nodes@.len(),
    decreases arena.nodes@.len() - idx,
{
    if j != idx {
        match arena.nodes@[idx] {
            Node::Leaf(_) => {},
            Node::Inner(inner) => {
                let s = choose|s: int|
                    0 <= s < inner.children@.len() && ((#[trigger] inner.children@[s]).child
                        matches Some(c) && in_subtree(arena, c as int, j));
                assert(node_wf(arena.nodes@[idx], idx, arena.nodes@.len() as int));
                assert(slot_ok(inner.children@[s], idx, arena.nodes@.len() as int));
                match inner.children@[s].child {
                    Option::Some(c) => {
                        lemma_reach_lower(arena, c as int, j);
                    },
                    Option::None => {},
                }
            },
        }
    }
}

/// Reordering permutes slots but keeps every node's set of children, so
/// reachability is the same in two reorder-related arenas.
proof fn lemma_related_reach(a1: NodeArena, a2: NodeArena, idx: int, j: int)
    requires
        a1.wf(),
        a2.wf(),
        a1.nodes@.len() == a2.nodes@.len(),
        forall|i: int|
            0 <= i < a1.nodes@.len() ==> reorder_related(a1.nodes@[i], #[trigger] a2.nodes@[i]),
        0 <= idx < a1.nodes@.len(),
    ensures
        in_subtree(a1, idx, j) == in_subtree(a2, idx, j),
    decreases a1.nodes@.len() - idx,
{
    let len = a1.nodes@.len() as int;
    assert(reorder_related(a1.nodes@[idx], a2.nodes@[idx]));
    match a1.nodes@[idx] {
        Node::Leaf(_) => {},
        Node::Inner(_) => {
            let ch1 = a1.nodes@[idx].children_view();
            let ch2 = a2.nodes@[idx].children_view();
            if in_subtree(a1, idx, j) && j != idx {
                let s = choose|s: int|
                    0 <= s < ch1.len() && ((#[trigger] ch1[s]).child matches Some(c)
                        && in_subtree(a1, c as int, j));
                lemma_permuted_slot_origin(ch2, ch1, s);
                let t = choose|t: int| 0 <= t < ch2.len() && ch2[t] == ch1[s];
                match ch1[s].child {
                    Option::Some(c) => {
                        assert(node_wf(a1.nodes@[idx], idx, len));
                        assert(slot_ok(ch1[s], idx, len));
                        lemma_related_reach(a1, a2, c as int, j);
                        assert((#[trigger] ch2[t]).child matches Some(c2)
                            && in_subtree(a2, c2 as int, j));
                    },
                    Option::None => {},
                }
            }
            if in_subtree(a2, idx, j) && j != idx {
                let s = choose|s: int|
                    0 <= s < ch2.len() && ((#[trigger] ch2[s]).child matches Some(c)
                        && in_subtree(a2, c as int, j));
                lemma_permuted_slot_origin(ch1, ch2, s);
                let t = choose|t: int| 0 <= t < ch1.len() && ch1[t] == ch2[s];
                match ch2[s].child {
                    Option::Some(c) => {
                        assert(node_wf(a2.nodes@[idx], idx, len));
                        assert(slot_ok(ch2[s], idx, len));
                        lemma_related_reach(a1, a2, c as int, j);
                        assert((#[trigger] ch1[t]).child matches Some(c1)
                            && in_subtree(a1, c1 as int, j));
                    },
                    Option::None => {},
                }
            }
        },
    }
}


/// The children of every inner node root pairwise-disjoint subtrees: the
/// tree shape the builder's callback protocol materializes, where every
/// node is created exactly once and wired to one parent.
pub open spec fn subtree_unshared(arena: NodeArena, idx: int) -> bool
    decreases arena.nodes@.len() - idx,
    when arena.wf() && 0 <= idx < arena.nodes@.len()
{
    match arena.nodes@[idx] {
        Node::Leaf(_) => true,
        Node::Inner(inner) => {
            &&& forall|s: int|
                0 <= s < inner.children@.len() ==> ((#[trigger] inner.children@[s]).child matches
                    Some(c) ==> subtree_unshared(arena, c as int))
            &&& forall|s1: int, s2: int, j: int|
                #![trigger in_subtree(arena, the_child(inner.children@[s1]), j), in_subtree(arena, the_child(inner.children@[s2]), j)]
                0 <= s1 < s2 < inner.children@.len() && inner.children@[s1].child is Some
                    && inner.children@[s2].child is Some ==> !(in_subtree(
                    arena,
                    the_child(inner.children@[s1]),
                    j,
                ) && in_subtree(arena, the_child(inner.children@[s2]), j))
        },
    }
}

/// The whole-tree description of the reorder pass over an unshared
/// subtree: every inner node now carries the greedy arrangement of its
/// previous children under the bounds recorded for it, and every leaf is
/// untouched.
pub open spec fn reordered_from(a_old: NodeArena, a_new: NodeArena, idx: int, bounds: Aabb) -> bool
    decreases a_old.nodes@.len() - idx,
    when a_old.wf() && 0 <= idx < a_old.nodes@.len()
{
    match a_old.nodes@[idx] {
        Node::Leaf(_) => a_new.nodes@[idx] == a_old.nodes@[idx],
        Node::Inner(inner) => {
            let asg = greedy_assignment(inner.children@, bounds);
            &&& a_new.nodes@[idx] is Inner
            &&& a_new.nodes@[idx].children_view().len() == BRANCHING
            &&& forall|c: int| 0 <= c < BRANCHING ==> #[trigger] asg[c] < BRANCHING
            &&& forall|c1: int, c2: int| 0 <= c1 < c2 < BRANCHING ==> asg[c1] != asg[c2]
            &&& forall|c: int|
                0 <= c < BRANCHING ==> a_new.nodes@[idx].children_view()[#[trigger] asg[c] as int]
                    == inner.children@[c]
            &&& forall|c: int|
                0 <= c < BRANCHING ==> ((#[trigger] inner.children@[c]).child matches Some(ch)
                    ==> reordered_from(a_old, a_new, ch as int, inner.children@[c].bounds))
        },
    }
}

/// Reordering does not change which subtrees share nodes.
proof fn lemma_related_unshared(a1: NodeArena, a2: NodeArena, idx: int)
    requires
        a1.wf(),
        a2.wf(),
        a1.nodes@.len() == a2.nodes@.len(),
        forall|i: int|
            0 <= i < a1.nodes@.len() ==> reorder_related(a1.nodes@[i], #[trigger] a2.nodes@[i]),
        0 <= idx < a1.nodes@.len(),
        subtree_unshared(a1, idx),
    ensures
        subtree_unshared(a2, idx),
    decreases a1.nodes@.len() - idx,
{
    let len = a1.nodes@.len() as int;
    assert(reorder_related(a1.nodes@[idx], a2.nodes@[idx]));
    match a2.nodes@[idx] {
        Node::Leaf(_) => {},
        Node::Inner(_) => {
            let ch1 = a1.nodes@[idx].children_view();
            let ch2 = a2.nodes@[idx].children_view();
            assert forall|s: int|
                0 <= s < ch2.len() implies ((#[trigger] ch2[s]).child matches Some(c)
                ==> subtree_unshared(a2, c as int)) by {
                match ch2[s].child {
                    Option::Some(c) => {
                        lemma_permuted_slot_origin(ch1, ch2, s);
                        let t = choose|t: int| 0 <= t < ch1.len() && ch1[t] == ch2[s];
                        assert(node_wf(a2.nodes@[idx], idx, len));
                        assert(slot_ok(ch2[s], idx, len));
                        assert(subtree_unshared(a1, c as int));
                        lemma_related_unshared(a1, a2, c as int);
                    },
                    Option::None => {},
                }
            }
            assert forall|s1: int, s2: int, j: int|
                0 <= s1 < s2 < ch2.len() && ch2[s1].child is Some && ch2[s2].child is Some
                    implies !(in_subtree(a2, the_child(ch2[s1]), j) && in_subtree(
                a2,
                the_child(ch2[s2]),
                j,
            )) by {
                if in_subtree(a2, the_child(ch2[s1]), j) && in_subtree(a2, the_child(ch2[s2]), j) {
                    lemma_permuted_slot_origin(ch1, ch2, s1);
                    let t1 = choose|t: int| 0 <= t < ch1.len() && ch1[t] == ch2[s1];
                    lemma_permuted_slot_origin(ch1, ch2, s2);
                    let t2 = choose|t: int| 0 <= t < ch1.len() && ch1[t] == ch2[s2];
                    assert(node_wf(a2.nodes@[idx], idx, len));
                    assert(slot_ok(ch2[s1], idx, len));
                    assert(slot_ok(ch2[s2], idx, len));
                    lemma_related_reach(a1, a2, the_child(ch2[s1]), j);
                    lemma_related_reach(a1, a2, the_child(ch2[s2]), j);
                    if t1 == t2 {
                        // two distinct slots holding the same value mean
                        // the old array held that child twice, and two
                        // old slots with one child already overlap at it
                        assert(ch2[s1] == ch2[s2]);
                        let v = ch2[s1];
                        broadcast use vstd::seq_lib::group_to_multiset_ensures;
                        broadcast use vstd::multiset::group_multiset_axioms;

                        assert(ch2.remove(s1).to_multiset() =~= ch2.to_multiset().remove(v));
                        let s2r = if s2 < s1 {
                            s2
                        } else {
                            s2 - 1
                        };
                        assert(ch2.remove(s1)[s2r] == v);
                        assert(ch2.remove(s1).contains(v));
                        assert(ch2.contains(v));
                        assert(ch2.to_multiset().count(v) >= 1);
                        assert(ch2.remove(s1).to_multiset().count(v) >= 1);
                        assert(ch2.to_multiset().remove(v).count(v) == ch2.to_multiset().count(v)
                            - 1);
                        assert(ch2.to_multiset().count(v) >= 2);
                        assert(ch1.to_multiset().count(v) >= 2);
                        assert(ch1.contains(v));
                        let i1 = choose|i: int| 0 <= i < ch1.len() && ch1[i] == v;
                        assert(ch1.remove(i1).to_multiset() =~= ch1.to_multiset().remove(v));
                        assert(ch1.remove(i1).to_multiset().count(v) >= 1);
                        assert(ch1.remove(i1).contains(v));
                        let k = choose|k: int| 0 <= k < ch1.remove(i1).len() && ch1.remove(i1)[k]
                            == v;
                        let i2 = if k < i1 {
                            k
                        } else {
                            k + 1
                        };
                        assert(ch1[i2] == v && i2 != i1);
                        let c = the_child(v);
                        assert(node_wf(a1.nodes@[idx], idx, len));
                        assert(slot_ok(ch1[i1], idx, len));
                        assert(in_subtree(a1, c, c));
                        if i1 < i2 {
                            assert(!(in_subtree(a1, the_child(ch1[i1]), c) && in_subtree(
                                a1,
                                the_child(ch1[i2]),
                                c,
                            )));
                        } else {
                            assert(!(in_subtree(a1, the_child(ch1[i2]), c) && in_subtree(
                                a1,
                                the_child(ch1[i1]),
                                c,
                            )));
                        }
                        assert(false);
                    } else if t1 < t2 {
                        assert(!(in_subtree(a1, the_child(ch1[t1]), j) && in_subtree(
                            a1,
                            the_child(ch1[t2]),
                            j,
                        )));
                    } else {
                        assert(!(in_subtree(a1, the_child(ch1[t2]), j) && in_subtree(
                            a1,
                            the_child(ch1[t1]),
                            j,
                        )));
                    }
                }
            }
        },
    }
}


/// Framing on the reordered side: the relation only reads nodes of the
/// old subtree, so an arena agreeing there satisfies it too.
proof fn lemma_reordered_frame(
    a_old: NodeArena,
    a1: NodeArena,
    a2: NodeArena,
    idx: int,
    bounds: Aabb,
)
    requires
        a_old.wf(),
        0 <= idx < a_old.nodes@.len(),
        a1.nodes@.len() == a_old.nodes@.len(),
        a2.nodes@.len() == a_old.nodes@.len(),
        reordered_from(a_old, a1, idx, bounds),
        forall|j: int|
            #[trigger] in_subtree(a_old, idx, j) ==> a2.nodes@[j] == a1.nodes@[j],
    ensures
        reordered_from(a_old, a2, idx, bounds),
    decreases a_old.nodes@.len() - idx,
{
    let len = a_old.nodes@.len() as int;
    assert(in_subtree(a_old, idx, idx));
    assert(a2.nodes@[idx] == a1.nodes@[idx]);
    match a_old.nodes@[idx] {
        Node::Leaf(_) => {},
        Node::Inner(inner) => {
            assert forall|c: int|
                0 <= c < BRANCHING implies ((#[trigger] inner.children@[c]).child matches Some(ch)
                ==> reordered_from(a_old, a2, ch as int, inner.children@[c].bounds)) by {
                match inner.children@[c].child {
                    Option::Some(ch) => {
                        assert(node_wf(a_old.nodes@[idx], idx, len));
                        assert(slot_ok(inner.children@[c], idx, len));
                        assert forall|j: int|
                            #[trigger] in_subtree(a_old, ch as int, j) implies a2.nodes@[j]
                            == a1.nodes@[j] by {
                            assert((inner.children@[c]).child matches Some(cc) && in_subtree(
                                a_old,
                                cc as int,
                                j,
                            ));
                            assert(in_subtree(a_old, idx, j));
                        }
                        lemma_reordered_frame(a_old, a1, a2, ch as int, inner.children@[c].bounds);
                    },
                    Option::None => {},
                }
            }
        },
    }
}

/// Framing on the old side: the relation only reads old nodes of the old
/// subtree, so it transfers to an old arena agreeing there.
proof fn lemma_reordered_oldframe(
    a_o1: NodeArena,
    a_o2: NodeArena,
    a_new: NodeArena,
    idx: int,
    bounds: Aabb,
)
    requires
        a_o1.wf(),
        a_o2.wf(),
        0 <= idx < a_o1.nodes@.len(),
        a_o2.nodes@.len() == a_o1.nodes@.len(),
        a_new.nodes@.len() == a_o1.nodes@.len(),
        reordered_from(a_o1, a_new, idx, bounds),
        forall|j: int|
            #[trigger] in_subtree(a_o1, idx, j) ==> a_o2.nodes@[j] == a_o1.nodes@[j],
    ensures
        reordered_from(a_o2, a_new, idx, bounds),
    decreases a_o1.nodes@.len() - idx,
{
    let len = a_o1.nodes@.len() as int;
    assert(in_subtree(a_o1, idx, idx));
    assert(a_o2.nodes@[idx] == a_o1.nodes@[idx]);
    match a_o1.nodes@[idx] {
        Node::Leaf(_) => {},
        Node::Inner(inner) => {
            assert forall|c: int|
                0 <= c < BRANCHING implies ((#[trigger] inner.children@[c]).child matches Some(ch)
                ==> reordered_from(a_o2, a_new, ch as int, inner.children@[c].bounds)) by {
                match inner.children@[c].child {
                    Option::Some(ch) => {
                        assert(node_wf(a_o1.nodes@[idx], idx, len));
                        assert(slot_ok(inner.children@[c], idx, len));
                        assert forall|j: int|
                            #[trigger] in_subtree(a_o1, ch as int, j) implies a_o2.nodes@[j]
                            == a_o1.nodes@[j] by {
                            assert((inner.children@[c]).child matches Some(cc) && in_subtree(
                                a_o1,
                                cc as int,
                                j,
                            ));
                            assert(in_subtree(a_o1, idx, j));
                        }
                        lemma_reordered_oldframe(
                            a_o1,
                            a_o2,
                            a_new,
                            ch as int,
                            inner.children@[c].bounds,
                        );
                    },
                    Option::None => {},
                }
            }
        },
    }
}

/// Two different slots of a reordered unshared node hold children whose
/// old subtrees are disjoint.
proof fn lemma_unshared_distinct_children(
    a_old: NodeArena,
    a_mid: NodeArena,
    idx: int,
    sp1: int,
    sp2: int,
)
    requires
        a_old.wf(),
        a_mid.wf(),
        a_old.nodes@.len() == a_mid.nodes@.len(),
        forall|i: int|
            0 <= i < a_old.nodes@.len() ==> reorder_related(
                a_old.nodes@[i],
                #[trigger] a_mid.nodes@[i],
            ),
        0 <= idx < a_old.nodes@.len(),
        a_old.nodes@[idx] is Inner,
        subtree_unshared(a_old, idx),
        0 <= sp1 < BRANCHING,
        0 <= sp2 < BRANCHING,
        sp1 != sp2,
        a_mid.nodes@[idx].children_view()[sp1].child is Some,
        a_mid.nodes@[idx].children_view()[sp2].child is Some,
    ensures
        forall|j: int|
            !(in_subtree(a_old, the_child(a_mid.nodes@[idx].children_view()[sp1]), j)
                && #[trigger] in_subtree(
                a_old,
                the_child(a_mid.nodes@[idx].children_view()[sp2]),
                j,
            )),
{
    let len = a_old.nodes@.len() as int;
    let ch_o = a_old.nodes@[idx].children_view();
    let ch_m = a_mid.nodes@[idx].children_view();
    assert(reorder_related(a_old.nodes@[idx], a_mid.nodes@[idx]));
    lemma_permuted_slot_origin(ch_o, ch_m, sp1);
    let t1 = choose|t: int| 0 <= t < ch_o.len() && ch_o[t] == ch_m[sp1];
    lemma_permuted_slot_origin(ch_o, ch_m, sp2);
    let t2 = choose|t: int| 0 <= t < ch_o.len() && ch_o[t] == ch_m[sp2];
    assert forall|j: int|
        !(in_subtree(a_old, the_child(ch_m[sp1]), j) && #[trigger] in_subtree(
            a_old,
            the_child(ch_m[sp2]),
            j,
        )) by {
        if in_subtree(a_old, the_child(ch_m[sp1]), j) && in_subtree(
            a_old,
            the_child(ch_m[sp2]),
            j,
        ) {
            if t1 == t2 {
                // the same value twice in the permuted array means the
                // old array held that child twice
                assert(ch_m[sp1] == ch_m[sp2]);
                let v = ch_m[sp1];
                broadcast use vstd::seq_lib::group_to_multiset_ensures;
                broadcast use vstd::multiset::group_multiset_axioms;

                let lo = if sp1 < sp2 {
                    sp1
                } else {
                    sp2
                };
                let hi = if sp1 < sp2 {
                    sp2
                } else {
                    sp1
                };
                assert(ch_m.remove(lo).to_multiset() =~= ch_m.to_multiset().remove(v));
                assert(ch_m.remove(lo)[hi - 1] == v);
                assert(ch_m.remove(lo).contains(v));
                assert(ch_m.contains(v));
                assert(ch_m.to_multiset().count(v) >= 1);
                assert(ch_m.remove(lo).to_multiset().count(v) >= 1);
                assert(ch_m.to_multiset().remove(v).count(v) == ch_m.to_multiset().count(v) - 1);
                assert(ch_m.to_multiset().count(v) >= 2);
                assert(ch_o.to_multiset().count(v) >= 2);
                assert(ch_o.contains(v));
                let i1 = choose|i: int| 0 <= i < ch_o.len() && ch_o[i] == v;
                assert(ch_o.remove(i1).to_multiset() =~= ch_o.to_multiset().remove(v));
                assert(ch_o.remove(i1).to_multiset().count(v) >= 1);
                assert(ch_o.remove(i1).contains(v));
                let k = choose|k: int| 0 <= k < ch_o.remove(i1).len() && ch_o.remove(i1)[k] == v;
                let i2 = if k < i1 {
                    k
                } else {
                    k + 1
                };
                assert(ch_o[i2] == v && i2 != i1);
                let c = the_child(v);
                assert(node_wf(a_old.nodes@[idx], idx, len));
                assert(slot_ok(ch_o[i1], idx, len));
                assert(in_subtree(a_old, c, c));
                if i1 < i2 {
                    assert(!(in_subtree(a_old, the_child(ch_o[i1]), c) && in_subtree(
                        a_old,
                        the_child(ch_o[i2]),
                        c,
                    )));
                } else {
                    assert(!(in_subtree(a_old, the_child(ch_o[i2]), c) && in_subtree(
                        a_old,
                        the_child(ch_o[i1]),
                        c,
                    )));
                }
                assert(false);
            } else if t1 < t2 {
                assert(!(in_subtree(a_old, the_child(ch_o[t1]), j) && in_subtree(
                    a_old,
                    the_child(ch_o[t2]),
                    j,
                )));
            } else {
                assert(!(in_subtree(a_old, the_child(ch_o[t2]), j) && in_subtree(
                    a_old,
                    the_child(ch_o[t1]),
                    j,
                )));
            }
        }
    }
}

/// Two arenas are related by reordering when every leaf is unchanged and
/// every inner node's child array is a permutation of what it was.
pub open spec fn reorder_related(a: Node, b: Node) -> bool {
    match a {
        Node::Leaf(_) => b == a,
        Node::Inner(_) => {
            &&& b is Inner
            &&& b.children_view().len() == a.children_view().len()
            &&& b.children_view().to_multiset() == a.children_view().to_multiset()
        },
    }
}

proof fn lemma_reorder_related_refl(a: Node)
    ensures
        reorder_related(a, a),
{
}

proof fn lemma_reorder_related_trans(a: Node, b: Node, c: Node)
    requires
        reorder_related(a, b),
        reorder_related(b, c),
    ensures
        reorder_related(a, c),
{
}

/// Every slot of a permuted child array already occurred in the original.
pub proof fn lemma_permuted_slot_origin(olds: Seq<ChildSlot>, news: Seq<ChildSlot>, s: int)
    requires
        news.to_multiset() == olds.to_multiset(),
        0 <= s < news.len(),
    ensures
        exists|t: int| 0 <= t < olds.len() && olds[t] == news[s],
    decreases olds.len(),
{
    broadcast use vstd::seq_lib::group_to_multiset_ensures;

    assert(news.contains(news[s]));
    assert(news.to_multiset().count(news[s]) > 0);
    assert(olds.to_multiset().count(news[s]) > 0);
    assert(olds.contains(news[s]));
    let t = choose|t: int| 0 <= t < olds.len() && olds[t] == news[s];
    assert(0 <= t < olds.len() && olds[t] == news[s]);
}

impl Inner {
    /// Greedy octant matching: permute the child slots so that each
    /// child lands in the slot the greedy matching of `greedy_assignment`
    /// picks for it — round after round, the globally cheapest pair of an
    /// unassigned child and an unfilled slot, costs being center-offset
    /// dot octant-direction. The output child array is exactly that
    /// arrangement, and hence a permutation of the input array: the same
    /// multiset of (child, bounds) slots, nothing dropped, nothing
    /// duplicated.
    pub fn order_children(&mut self, self_bounds: &Aabb)
        requires
            old(self).children@.len() == BRANCHING,
        ensures
            final(self).children@.len() == BRANCHING,
            final(self).children@.to_multiset() == old(self).children@.to_multiset(),
            ({
                let asg = greedy_assignment(old(self).children@, *self_bounds);
                &&& forall|c: int| 0 <= c < BRANCHING ==> #[trigger] asg[c] < BRANCHING
                &&& forall|c1: int, c2: int|
                    0 <= c1 < c2 < BRANCHING ==> asg[c1] != asg[c2]
                &&& forall|c: int|
                    0 <= c < BRANCHING ==> final(self).children@[#[trigger] asg[c] as int] == old(
                        self,
                    ).children@[c]
            }),
    {
        let ghost children0 = self.children@;
        let ghost pbounds = *self_bounds;
        // Doubled center of the node itself, per axis.
        let px: i64 = self_bounds.min.x as i64 + self_bounds.max.x as i64;
        let py: i64 = self_bounds.min.y as i64 + self_bounds.max.y as i64;
        let pz: i64 = self_bounds.min.z as i64 + self_bounds.max.z as i64;

        // Cost table, row per child, column per direction slot.
        let mut cost: Vec<i64> = Vec::new();
        let mut c: usize = 0;
        while c < BRANCHING
            invariant
                c <= BRANCHING,
                cost@.len() == c * BRANCHING,
                self == old(self),
                self.children@.len() == BRANCHING,
                children0 == self.children@,
                pbounds == *self_bounds,
                -0x1_0000_0000i64 <= px <= 0x1_0000_0000i64,
                -0x1_0000_0000i64 <= py <= 0x1_0000_0000i64,
                -0x1_0000_0000i64 <= pz <= 0x1_0000_0000i64,
                px == pbounds.min.x + pbounds.max.x,
                py == pbounds.min.y + pbounds.max.y,
                pz == pbounds.min.z + pbounds.max.z,
                forall|c2: int, s2: int|
                    0 <= c2 < c && 0 <= s2 < BRANCHING ==> #[trigger] cost@[c2 * 8 + s2]
                        == slot_cost(children0, pbounds, c2, s2),
            decreases BRANCHING - c,
        {
            let b = &self.children[c].bounds;
            let dx: i64 = (b.min.x as i64 + b.max.x as i64) - px;
            let dy: i64 = (b.min.y as i64 + b.max.y as i64) - py;
            let dz: i64 = (b.min.z as i64 + b.max.z as i64) - pz;
            let mut s: usize = 0;
            while s < BRANCHING
                invariant
                    s <= BRANCHING,
                    c < BRANCHING,
                    cost@.len() == c * BRANCHING + s,
                    -0x2_0000_0000i64 <= dx <= 0x2_0000_0000i64,
                    -0x2_0000_0000i64 <= dy <= 0x2_0000_0000i64,
                    -0x2_0000_0000i64 <= dz <= 0x2_0000_0000i64,
                    self == old(self),
                    self.children@.len() == BRANCHING,
                    children0 == self.children@,
                    pbounds == *self_bounds,
                    dx == (children0[c as int].bounds.min.x + children0[c as int].bounds.max.x) - (
                    pbounds.min.x + pbounds.max.x),
                    dy == (children0[c as int].bounds.min.y + children0[c as int].bounds.max.y) - (
                    pbounds.min.y + pbounds.max.y),
                    dz == (children0[c as int].bounds.min.z + children0[c as int].bounds.max.z) - (
                    pbounds.min.z + pbounds.max.z),
                    forall|c2: int, s2: int|
                        0 <= c2 < c && 0 <= s2 < BRANCHING ==> #[trigger] cost@[c2 * 8 + s2]
                            == slot_cost(children0, pbounds, c2, s2),
                    forall|s2: int|
                        0 <= s2 < s ==> #[trigger] cost@[c * 8 + s2] == slot_cost(
                            children0,
                            pbounds,
                            c as int,
                            s2,
                        ),
                decreases BRANCHING - s,
            {
                // octant sign bits of the slot index, tested arithmetically
                let tx: i64 = if s >= 4 {
                    -dx
                } else {
                    dx
                };
                let ty: i64 = if s % 4 >= 2 {
                    -dy
                } else {
                    dy
                };
                let tz: i64 = if s % 2 == 1 {
                    -dz
                } else {
                    dz
                };
                cost.push(tx + ty + tz);
                proof {
                    assert forall|c2: int, s2: int|
                        0 <= c2 < c && 0 <= s2 < BRANCHING implies #[trigger] cost@[c2 * 8 + s2]
                        == slot_cost(children0, pbounds, c2, s2) by {
                        assert(c2 * 8 + s2 < c * 8 + s + 1) by (nonlinear_arith)
                            requires
                                c2 < c,
                                s2 < 8,
                                0 <= c2,
                                0 <= s2,
                        ;
                    }
                }
                s = s + 1;
            }
            c = c + 1;
        }

        // Greedy matching of children to direction slots.
        let mut assignment: Vec<usize> = vec![BRANCHING; BRANCHING];
        let mut slot_filled: Vec<bool> = vec![false; BRANCHING];
        proof {
            lemma_count_unassigned_all(assignment@);
            lemma_count_unfilled_all(slot_filled@);
            assert(assignment@ =~= unassigned_all());
        }
        let mut round: usize = 0;
        while round < BRANCHING
            invariant
                round <= BRANCHING,
                assignment@.len() == BRANCHING,
                slot_filled@.len() == BRANCHING,
                cost@.len() == BRANCHING * BRANCHING,
                forall|c2: int, s2: int|
                    0 <= c2 < BRANCHING && 0 <= s2 < BRANCHING ==> #[trigger] cost@[c2 * 8 + s2]
                        == slot_cost(children0, pbounds, c2, s2),
                count_unassigned(assignment@) == BRANCHING - round,
                count_unfilled(slot_filled@) == BRANCHING - round,
                forall|j: int|
                    0 <= j < BRANCHING && #[trigger] assignment@[j] != BRANCHING ==> assignment@[j]
                        < BRANCHING,
                forall|j: int|
                    0 <= j < BRANCHING ==> (#[trigger] slot_filled@[j] <==> slot_taken(
                        assignment@,
                        j,
                    )),
                forall|j1: int, j2: int|
                    0 <= j1 < j2 < BRANCHING && assignment@[j1] != BRANCHING && assignment@[j2]
                        != BRANCHING ==> assignment@[j1] != assignment@[j2],
                greedy_rounds(children0, pbounds, assignment@, (BRANCHING - round) as nat)
                    == greedy_assignment(children0, pbounds),
                self == old(self),
                children0 == self.children@,
                pbounds == *self_bounds,
            decreases BRANCHING - round,
        {
            let mut best: Option<(usize, usize)> = None;
            let mut best_cost: i64 = 0;
            let mut c2: usize = 0;
            while c2 < BRANCHING
                invariant
                    c2 <= BRANCHING,
                    assignment@.len() == BRANCHING,
                    slot_filled@.len() == BRANCHING,
                    cost@.len() == BRANCHING * BRANCHING,
                    forall|c3: int, s3: int|
                        0 <= c3 < BRANCHING && 0 <= s3 < BRANCHING ==> #[trigger] cost@[c3 * 8 + s3]
                            == slot_cost(children0, pbounds, c3, s3),
                    forall|j: int|
                        0 <= j < BRANCHING ==> (#[trigger] slot_filled@[j] <==> slot_taken(
                            assignment@,
                            j,
                        )),
                    best is None <==> scan_best(children0, pbounds, assignment@, c2 as int * 8)
                        is None,
                    best matches Some(p) ==> scan_best(children0, pbounds, assignment@, c2 as int * 8)
                        == Option::Some((p.0 as int, p.1 as int)) && p.0 < BRANCHING && p.1
                        < BRANCHING && assignment@[p.0 as int] == BRANCHING
                        && !slot_filled@[p.1 as int] && best_cost == slot_cost(
                        children0,
                        pbounds,
                        p.0 as int,
                        p.1 as int,
                    ),
                decreases BRANCHING - c2,
            {
                if assignment[c2] == BRANCHING {
                    let mut s2: usize = 0;
                    while s2 < BRANCHING
                        invariant
                            s2 <= BRANCHING,
                            c2 < BRANCHING,
                            assignment@.len() == BRANCHING,
                            slot_filled@.len() == BRANCHING,
                            cost@.len() == BRANCHING * BRANCHING,
                            assignment@[c2 as int] == BRANCHING,
                            forall|c3: int, s3: int|
                                0 <= c3 < BRANCHING && 0 <= s3 < BRANCHING ==> #[trigger] cost@[c3
                                    * 8 + s3] == slot_cost(children0, pbounds, c3, s3),
                            forall|j: int|
                                0 <= j < BRANCHING ==> (#[trigger] slot_filled@[j] <==> slot_taken(
                                    assignment@,
                                    j,
                                )),
                            best is None <==> scan_best(
                                children0,
                                pbounds,
                                assignment@,
                                c2 as int * 8 + s2,
                            ) is None,
                            best matches Some(p) ==> scan_best(
                                children0,
                                pbounds,
                                assignment@,
                                c2 as int * 8 + s2,
                            ) == Option::Some((p.0 as int, p.1 as int)) && p.0 < BRANCHING && p.1
                                < BRANCHING && assignment@[p.0 as int] == BRANCHING
                                && !slot_filled@[p.1 as int] && best_cost == slot_cost(
                                children0,
                                pbounds,
                                p.0 as int,
                                p.1 as int,
                            ),
                        decreases BRANCHING - s2,
                    {
                        proof {
                            lemma_pair_index(c2 as int, s2 as int);
                        }
                        if !slot_filled[s2] {
                            let cst = cost[c2 * BRANCHING + s2];
                            proof {
                                assert(pair_free(assignment@, c2 as int, s2 as int));
                            }
                            let take = match best {
                                Option::Some(_) => cst < best_cost,
                                Option::None => true,
                            };
                            if take {
                                best = Some((c2, s2));
                                best_cost = cst;
                            }
                        } else {
                            proof {
                                assert(!pair_free(assignment@, c2 as int, s2 as int));
                            }
                        }
                        s2 = s2 + 1;
                    }
                } else {
                    proof {
                        lemma_scan_skip_row(
                            children0,
                            pbounds,
                            assignment@,
                            c2 as int,
                            BRANCHING as int,
                        );
                    }
                }
                c2 = c2 + 1;
            }
            proof {
                if best is None {
                    lemma_count_unassigned_pos(assignment@);
                    lemma_count_unfilled_pos(slot_filled@);
                    let cu = choose|cu: int|
                        0 <= cu < assignment@.len() && assignment@[cu] == BRANCHING;
                    let su = choose|su: int| 0 <= su < slot_filled@.len() && !slot_filled@[su];
                    lemma_scan_finds_free(children0, pbounds, assignment@, cu, su);
                    assert(false);
                }
            }
            match best {
                Option::Some((bc, bs)) => {
                    proof {
                        lemma_count_unassigned_update(assignment@, bc as int, bs);
                        lemma_count_unfilled_update(slot_filled@, bs as int);
                        // one spec round makes exactly this update
                        assert(greedy_rounds(
                            children0,
                            pbounds,
                            assignment@,
                            (BRANCHING - round) as nat,
                        ) == greedy_rounds(
                            children0,
                            pbounds,
                            assignment@.update(bc as int, bs),
                            (BRANCHING - round - 1) as nat,
                        ));
                    }
                    let ghost a0 = assignment@;
                    let ghost f0 = slot_filled@;
                    slot_filled[bs] = true;
                    assignment[bc] = bs;
                    proof {
                        assert forall|j: int|
                            0 <= j < BRANCHING implies (#[trigger] slot_filled@[j] <==> slot_taken(
                            assignment@,
                            j,
                        )) by {
                            if j == bs {
                                assert(assignment@[bc as int] == bs);
                            } else {
                                assert(slot_filled@[j] == f0[j]);
                                if slot_taken(a0, j) {
                                    let w = choose|w: int| 0 <= w < a0.len() && a0[w] == j;
                                    assert(w != bc);
                                    assert(assignment@[w] == j);
                                }
                                if slot_taken(assignment@, j) {
                                    let w = choose|w: int|
                                        0 <= w < assignment@.len() && assignment@[w] == j;
                                    assert(w != bc);
                                    assert(a0[w] == j);
                                }
                            }
                        }
                    }
                },
                Option::None => {
                    unreached::<()>();
                },
            }
            round = round + 1;
        }
        proof {
            lemma_count_unassigned_zero(assignment@);
            assert(assignment@ == greedy_assignment(children0, pbounds));
        }

        // Permute the child array according to the assignment.
        let empty = ChildSlot { child: None, bounds: Aabb::invalid() };
        let mut permuted: Vec<ChildSlot> = vec![empty; BRANCHING];
        let mut c3: usize = 0;
        while c3 < BRANCHING
            invariant
                c3 <= BRANCHING,
                permuted@.len() == BRANCHING,
                assignment@.len() == BRANCHING,
                self.children@.len() == BRANCHING,
                forall|j: int| 0 <= j < BRANCHING ==> #[trigger] assignment@[j] < BRANCHING,
                forall|j1: int, j2: int|
                    0 <= j1 < j2 < BRANCHING ==> assignment@[j1] != assignment@[j2],
                forall|j: int|
                    0 <= j < c3 ==> permuted@[#[trigger] assignment@[j] as int]
                        == self.children@[j],
                self == old(self),
                children0 == self.children@,
                assignment@ == greedy_assignment(children0, pbounds),
                pbounds == *self_bounds,
            decreases BRANCHING - c3,
        {
            let target = assignment[c3];
            permuted[target] = self.children[c3];
            proof {
                assert forall|j: int|
                    0 <= j < c3 + 1 implies permuted@[#[trigger] assignment@[j] as int]
                    == self.children@[j] by {
                    if j < c3 {
                        assert(assignment@[j] != assignment@[c3 as int]);
                    }
                }
            }
            c3 = c3 + 1;
        }
        proof {
            let f = Seq::new(BRANCHING as nat, |j: int| assignment@[j] as int);
            assert forall|j: int| 0 <= j < f.len() implies permuted@[#[trigger] f[j]]
                == self.children@[j] by {
                assert(permuted@[assignment@[j] as int] == self.children@[j]);
            }
            lemma_placement_permutes(self.children@, permuted@, f);
        }
        self.children = permuted;
    }
}


impl NodeArena {
    /// Recursively reorder the whole subtree rooted at `idx`, using each
    /// node's own bounds at its recursion level. Leaves are untouched,
    /// every inner node keeps the same multiset of child slots, nothing
    /// outside the subtree is touched, and the node at `idx` itself ends
    /// up carrying exactly the greedy arrangement of its previous
    /// children under `self_bounds`. When the subtree is a proper tree
    /// (no node shared between two slots, as the builder's callback
    /// protocol guarantees), the same holds recursively for every inner
    /// node of the subtree under its own recorded bounds: `reordered_from`
    /// describes the whole pass. On a shared subtree that relation would
    /// be false — a node reached twice is permuted twice — so it is
    /// stated under the `subtree_unshared` hypothesis.
    pub fn order_subtree(&mut self, idx: usize, self_bounds: &Aabb)
        requires
            old(self).wf(),
            idx < old(self).nodes@.len(),
        ensures
            final(self).wf(),
            final(self).nodes@.len() == old(self).nodes@.len(),
            forall|i: int|
                0 <= i < old(self).nodes@.len() ==> reorder_related(
                    old(self).nodes@[i],
                    #[trigger] final(self).nodes@[i],
                ),
            forall|j: int|
                0 <= j < old(self).nodes@.len() && !in_subtree(*old(self), idx as int, j)
                    ==> final(self).nodes@[j] == old(self).nodes@[j],
            old(self).nodes@[idx as int] is Inner ==> ({
                let ch = old(self).nodes@[idx as int].children_view();
                let asg = greedy_assignment(ch, *self_bounds);
                &&& final(self).nodes@[idx as int] is Inner
                &&& final(self).nodes@[idx as int].children_view().len() == BRANCHING
                &&& forall|c: int| 0 <= c < BRANCHING ==> #[trigger] asg[c] < BRANCHING
                &&& forall|c1: int, c2: int| 0 <= c1 < c2 < BRANCHING ==> asg[c1] != asg[c2]
                &&& forall|c: int|
                    0 <= c < BRANCHING ==> final(self).nodes@[idx as int].children_view()[
                    #[trigger] asg[c] as int] == ch[c]
            }),
            subtree_unshared(*old(self), idx as int) ==> reordered_from(
                *old(self),
                *final(self),
                idx as int,
                *self_bounds,
            ),
        decreases old(self).nodes@.len() - idx,
    {
        let ghost len = old(self).nodes@.len() as int;
        let is_leaf = match &self.nodes[idx] {
            Node::Inner(_) => false,
            Node::Leaf(_) => true,
        };
        if is_leaf {
            proof {
                assert forall|i: int| 0 <= i < len implies reorder_related(
                    old(self).nodes@[i],
                    #[trigger] self.nodes@[i],
                ) by {
                    lemma_reorder_related_refl(old(self).nodes@[i]);
                }
            }
            return ;
        }
        match &mut self.nodes[idx] {
            Node::Inner(inner) => {
                inner.order_children(self_bounds);
            },
            Node::Leaf(_) => {
                unreached::<()>();
            },
        }
        proof {
            // Permuting one node's slots preserves arena well-formedness.
            assert forall|i: int| 0 <= i < len implies node_wf(
                #[trigger] self.nodes@[i],
                i,
                len,
            ) by {
                if i == idx {
                    let olds = old(self).nodes@[i].children_view();
                    let news = self.nodes@[i].children_view();
                    assert forall|s: int| 0 <= s < BRANCHING implies slot_ok(
                        #[trigger] news[s],
                        i,
                        len,
                    ) by {
                        lemma_permuted_slot_origin(olds, news, s);
                        let t = choose|t: int| 0 <= t < olds.len() && olds[t] == news[s];
                        assert(slot_ok(olds[t], i, len));
                    }
                } else {
                    assert(self.nodes@[i] == old(self).nodes@[i]);
                }
            }
            assert(self.wf());
        }
        let ghost mid = *self;
        proof {
            assert forall|i: int| 0 <= i < len implies reorder_related(
                old(self).nodes@[i],
                #[trigger] mid.nodes@[i],
            ) by {
                if i != idx {
                    lemma_reorder_related_refl(old(self).nodes@[i]);
                }
            }
            // the subtrees hanging off the reordered node are untouched:
            // everything they reach sits strictly past `idx`
            if subtree_unshared(*old(self), idx as int) {
                assert forall|sp: int, j: int|
                    0 <= sp < BRANCHING && (#[trigger] mid.nodes@[idx as int].children_view()[
                    sp]).child is Some && #[trigger] in_subtree(
                        *old(self),
                        the_child(mid.nodes@[idx as int].children_view()[sp]),
                        j,
                    ) implies self.nodes@[j] == old(self).nodes@[j] by {
                    let cc = the_child(mid.nodes@[idx as int].children_view()[sp]);
                    assert(slot_ok(mid.nodes@[idx as int].children_view()[sp], idx as int, len));
                    lemma_reach_lower(*old(self), cc, j);
                    assert(j != idx);
                }
            }
        }
        let mut s: usize = 0;
        while s < BRANCHING
            invariant
                s <= BRANCHING,
                self.wf(),
                mid.wf(),
                old(self).wf(),
                old(self).nodes@[idx as int] is Inner,
                idx < self.nodes@.len(),
                self.nodes@.len() == len,
                old(self).nodes@.len() == len,
                mid.nodes@.len() == len,
                mid.nodes@[idx as int] is Inner,
                self.nodes@[idx as int] == mid.nodes@[idx as int],
                self.nodes@[idx as int] is Inner,
                self.nodes@[idx as int].children_view().len() == BRANCHING,
                forall|i: int|
                    0 <= i < len ==> reorder_related(mid.nodes@[i], #[trigger] self.nodes@[i]),
                forall|i: int|
                    0 <= i < len ==> reorder_related(
                        old(self).nodes@[i],
                        #[trigger] mid.nodes@[i],
                    ),
                forall|j: int|
                    0 <= j < len && !in_subtree(mid, idx as int, j) ==> #[trigger] self.nodes@[j]
                        == mid.nodes@[j],
                subtree_unshared(*old(self), idx as int) ==> (forall|sp: int|
                    0 <= sp < s && (#[trigger] mid.nodes@[idx as int].children_view()[sp]).child
                        is Some ==> reordered_from(
                        *old(self),
                        *self,
                        the_child(mid.nodes@[idx as int].children_view()[sp]),
                        mid.nodes@[idx as int].children_view()[sp].bounds,
                    )),
                subtree_unshared(*old(self), idx as int) ==> (forall|sp: int, j: int|
                    s <= sp < BRANCHING && (#[trigger] mid.nodes@[idx as int].children_view()[
                    sp]).child is Some && #[trigger] in_subtree(
                        *old(self),
                        the_child(mid.nodes@[idx as int].children_view()[sp]),
                        j,
                    ) ==> self.nodes@[j] == old(self).nodes@[j]),
            decreases BRANCHING - s,
        {
            let slot = match &self.nodes[idx] {
                Node::Inner(inner) => inner.children[s],
                Node::Leaf(_) => unreached::<ChildSlot>(),
            };
            match slot.child {
                Option::Some(child_idx) => {
                    proof {
                        assert(slot_ok(
                            self.nodes@[idx as int].children_view()[s as int],
                            idx as int,
                            len,
                        ));
                        assert(idx < child_idx < self.nodes@.len());
                    }
                    let ghost pre = *self;
                    let b = slot.bounds;
                    self.order_subtree(child_idx, &b);
                    proof {
                        assert forall|i: int| 0 <= i < len implies reorder_related(
                            mid.nodes@[i],
                            #[trigger] self.nodes@[i],
                        ) by {
                            lemma_reorder_related_trans(
                                mid.nodes@[i],
                                pre.nodes@[i],
                                self.nodes@[i],
                            );
                        }
                        // the recursion touched only the child's subtree,
                        // whose nodes all sit past `idx`
                        assert forall|j: int|
                            0 <= j < len && !in_subtree(mid, idx as int, j)
                                implies #[trigger] self.nodes@[j] == mid.nodes@[j] by {
                            lemma_related_reach(mid, pre, child_idx as int, j);
                            if in_subtree(pre, child_idx as int, j) {
                                // then it is in the child's subtree of mid,
                                // hence in idx's subtree of mid
                                assert(in_subtree(mid, child_idx as int, j));
                                assert((#[trigger] mid.nodes@[idx as int].children_view()[s as int]).child
                                    matches Some(c) && in_subtree(mid, c as int, j));
                                assert(in_subtree(mid, idx as int, j));
                            } else {
                                assert(self.nodes@[j] == pre.nodes@[j]);
                            }
                        }
                        assert(self.nodes@[idx as int] == mid.nodes@[idx as int]) by {
                            lemma_related_reach(mid, pre, child_idx as int, idx as int);
                            if in_subtree(pre, child_idx as int, idx as int) {
                                lemma_reach_lower(pre, child_idx as int, idx as int);
                                assert(false);
                            }
                            assert(self.nodes@[idx as int] == pre.nodes@[idx as int]);
                        }
                        if subtree_unshared(*old(self), idx as int) {
                            let oldch = old(self).nodes@[idx as int].children_view();
                            let midch = mid.nodes@[idx as int].children_view();
                            let cc = child_idx as int;
                            let b_s = midch[s as int].bounds;
                            // relate old and pre pointwise
                            assert forall|i: int| 0 <= i < len implies reorder_related(
                                old(self).nodes@[i],
                                #[trigger] pre.nodes@[i],
                            ) by {
                                lemma_reorder_related_trans(
                                    old(self).nodes@[i],
                                    mid.nodes@[i],
                                    pre.nodes@[i],
                                );
                            }
                            // the child is one of the node's old children,
                            // so its subtree was unshared before the pass
                            lemma_permuted_slot_origin(oldch, midch, s as int);
                            let t = choose|t: int|
                                0 <= t < oldch.len() && oldch[t] == midch[s as int];
                            assert(node_wf(old(self).nodes@[idx as int], idx as int, len));
                            assert(((#[trigger] oldch[t]).child matches Some(c)
                                ==> subtree_unshared(*old(self), c as int)));
                            assert(subtree_unshared(*old(self), cc));
                            lemma_related_unshared(*old(self), pre, cc);
                            assert(reordered_from(pre, *self, cc, b_s));
                            // the recursion read an untouched copy of the
                            // old subtree, so the relation holds from the
                            // entry arena as well
                            assert forall|j: int|
                                #[trigger] in_subtree(pre, cc, j) implies old(self).nodes@[j]
                                == pre.nodes@[j] by {
                                lemma_related_reach(*old(self), pre, cc, j);
                                assert((mid.nodes@[idx as int].children_view()[s as int]).child
                                    is Some);
                                assert(in_subtree(
                                    *old(self),
                                    the_child(mid.nodes@[idx as int].children_view()[s as int]),
                                    j,
                                ));
                            }
                            lemma_reordered_oldframe(pre, *old(self), *self, cc, b_s);
                            assert(reordered_from(*old(self), *self, cc, b_s));
                            // earlier siblings keep their relation: the
                            // recursion stayed inside this child's subtree,
                            // disjoint from theirs
                            assert forall|sp: int|
                                0 <= sp < s + 1 && (#[trigger] midch[sp]).child is Some
                                    implies reordered_from(
                                *old(self),
                                *self,
                                the_child(midch[sp]),
                                midch[sp].bounds,
                            ) by {
                                if sp < s {
                                    assert((mid.nodes@[idx as int].children_view()[sp]).child
                                        is Some);
                                    assert(reordered_from(
                                        *old(self),
                                        pre,
                                        the_child(mid.nodes@[idx as int].children_view()[sp]),
                                        mid.nodes@[idx as int].children_view()[sp].bounds,
                                    ));
                                    lemma_unshared_distinct_children(
                                        *old(self),
                                        mid,
                                        idx as int,
                                        sp,
                                        s as int,
                                    );
                                    assert forall|j: int|
                                        #[trigger] in_subtree(
                                            *old(self),
                                            the_child(midch[sp]),
                                            j,
                                        ) implies self.nodes@[j] == pre.nodes@[j] by {
                                        assert(node_wf(mid.nodes@[idx as int], idx as int, len));
                                        assert(slot_ok(midch[sp], idx as int, len));
                                        lemma_reach_lower(*old(self), the_child(midch[sp]), j);
                                        if self.nodes@[j] != pre.nodes@[j] {
                                            assert(in_subtree(pre, cc, j));
                                            lemma_related_reach(*old(self), pre, cc, j);
                                            assert(in_subtree(
                                                *old(self),
                                                the_child(
                                                    mid.nodes@[idx as int].children_view()[
                                                        s as int],
                                                ),
                                                j,
                                            ));
                                            assert(false);
                                        }
                                    }
                                    lemma_reordered_frame(
                                        *old(self),
                                        pre,
                                        *self,
                                        the_child(midch[sp]),
                                        midch[sp].bounds,
                                    );
                                }
                            }
                            // later siblings' subtrees are still pristine
                            assert forall|sp: int, j: int|
                                s + 1 <= sp < BRANCHING && (#[trigger] midch[sp]).child is Some
                                    && #[trigger] in_subtree(
                                    *old(self),
                                    the_child(midch[sp]),
                                    j,
                                ) implies self.nodes@[j] == old(self).nodes@[j] by {
                                assert(node_wf(mid.nodes@[idx as int], idx as int, len));
                                assert(slot_ok(midch[sp], idx as int, len));
                                lemma_reach_lower(*old(self), the_child(midch[sp]), j);
                                assert(pre.nodes@[j] == old(self).nodes@[j]);
                                if self.nodes@[j] != pre.nodes@[j] {
                                    assert(in_subtree(pre, cc, j));
                                    lemma_related_reach(*old(self), pre, cc, j);
                                    lemma_unshared_distinct_children(
                                        *old(self),
                                        mid,
                                        idx as int,
                                        sp,
                                        s as int,
                                    );
                                    assert(in_subtree(
                                        *old(self),
                                        the_child(mid.nodes@[idx as int].children_view()[s as int]),
                                        j,
                                    ));
                                    assert(false);
                                }
                            }
                        }
                    }
                },
                Option::None => {},
            }
            s = s + 1;
        }
        proof {
            assert forall|i: int| 0 <= i < len implies reorder_related(
                old(self).nodes@[i],
                #[trigger] self.nodes@[i],
            ) by {
                lemma_reorder_related_trans(old(self).nodes@[i], mid.nodes@[i], self.nodes@[i]);
            }
            // locality against the entry state: reordering the node at
            // `idx` did not change which nodes its subtree reaches
            assert forall|j: int|
                0 <= j < len && !in_subtree(*old(self), idx as int, j)
                    implies #[trigger] self.nodes@[j] == old(self).nodes@[j] by {
                lemma_related_reach(*old(self), mid, idx as int, j);
                assert(!in_subtree(mid, idx as int, j));
                assert(j != idx);
                assert(mid.nodes@[j] == old(self).nodes@[j]);
            }
            // assemble the whole-tree relation: every old slot's child
            // reappears at some reordered slot, whose subtree the loop
            // has already put in greedy arrangement
            if subtree_unshared(*old(self), idx as int) {
                let oldch = old(self).nodes@[idx as int].children_view();
                let midch = mid.nodes@[idx as int].children_view();
                assert forall|c: int|
                    0 <= c < BRANCHING implies ((#[trigger] oldch[c]).child matches Some(ch)
                    ==> reordered_from(*old(self), *self, ch as int, oldch[c].bounds)) by {
                    match oldch[c].child {
                        Option::Some(ch) => {
                            lemma_permuted_slot_origin(midch, oldch, c);
                            let t = choose|t: int|
                                0 <= t < midch.len() && midch[t] == oldch[c];
                            assert(s == BRANCHING);
                            assert(midch.len() == BRANCHING);
                            assert(0 <= t < s as int);
                            assert((#[trigger] mid.nodes@[idx as int].children_view()[t]).child
                                is Some);
                            assert(reordered_from(
                                *old(self),
                                *self,
                                the_child(mid.nodes@[idx as int].children_view()[t]),
                                mid.nodes@[idx as int].children_view()[t].bounds,
                            ));
                        },
                        Option::None => {},
                    }
                }
                assert(reordered_from(*old(self), *self, idx as int, *self_bounds));
            }
        }
    }
}

} // verus!
