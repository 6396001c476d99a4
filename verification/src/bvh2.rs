//! Binary extraction path: lowering a binary-configured build of the
//! arena into a flat array of binary nodes for a downstream collapse
//! step.
//!
//! Each record stores a box, a primitive count and a first index: inner
//! records have count zero and point at their two children, which sit at
//! consecutive output positions; leaf records point at their run in the
//! flat primitive-index array. The recorded box of every inner node is
//! exactly the union of its two children's boxes — any mismatch would
//! mask a bounds-propagation bug upstream, so the equality is part of the
//! tree's invariant, not corrected after the fact.

use vstd::prelude::*;
use vstd::pervasive::unreached;
use crate::aabb::Aabb;
use crate::node::{BRANCHING, Node, NodeArena};
use crate::cwbvh::{slot_is_inner, slot_is_leaf, the_child};

verus! {

/// One record of the binary output tree.
#[derive(Clone, Copy, PartialEq, Eq, Structural, Debug)]
pub struct Bvh2Node {
    pub aabb: Aabb,
    /// Zero for an inner record; the length of the leaf's primitive run
    /// otherwise.
    pub prim_count: u32,
    /// Output index of the first child for an inner record; offset of the
    /// leaf's run into the primitive-index array otherwise.
    pub first_index: u32,
}

/// The binary output tree: records plus the flat primitive-index array,
/// with a ghost record of which arena node each output record encodes.
pub struct Bvh2 {
    pub nodes: Vec<Bvh2Node>,
    pub primitive_indices: Vec<u32>,
    pub placement: Ghost<Map<int, Bvh2Entry>>,
}

/// Ghost record of which arena node an output record encodes: the arena
/// index, the bounds it was recorded under, the base its children (for an
/// inner node) or its primitive run (for a leaf) were assigned, and — for
/// an inner node — the base its own leaf runs start at.
pub ghost struct Bvh2Entry {
    pub node: int,
    pub bounds: Aabb,
    pub first: int,
    pub pfirst: int,
}

/// What one slot of a binary node contributes to the record count of the
/// conversion.
pub open spec fn contrib2_nodes(arena: NodeArena, slot: crate::node::ChildSlot) -> int {
    if slot_is_inner(arena, slot) {
        bvh2_emitted_nodes(arena, the_child(slot))
    } else {
        0
    }
}

/// What one slot contributes to the primitive-index entries appended by
/// the recursion into it (a leaf child's run is appended by the parent
/// and counts zero here).
pub open spec fn contrib2_deep_prims(arena: NodeArena, slot: crate::node::ChildSlot) -> int {
    if slot_is_inner(arena, slot) {
        bvh2_emitted_prims(arena, the_child(slot))
    } else {
        0
    }
}

/// The length of the leaf run a slot adds to its parent's own run block.
pub open spec fn leaf_run(arena: NodeArena, slot: crate::node::ChildSlot) -> int {
    if slot_is_leaf(arena, slot) {
        arena.nodes@[the_child(slot)]->Leaf_0.prims@.len() as int
    } else {
        0
    }
}

/// The output record at `i` faithfully encodes its arena node: a leaf
/// record carries the leaf's count and its run, mapped through the input
/// indirection; an inner record points at its two children's records,
/// registered right after it with their bounds and computed bases.
pub open spec fn bvh2_entry_done(
    arena: NodeArena,
    input: Seq<u32>,
    nodes: Seq<Bvh2Node>,
    indices: Seq<u32>,
    m: Map<int, Bvh2Entry>,
    i: int,
) -> bool
    recommends
        m.dom().contains(i),
        0 <= i < nodes.len(),
{
    let ent = m[i];
    let rec = nodes[i];
    &&& 0 <= ent.node < arena.nodes@.len()
    &&& match arena.nodes@[ent.node] {
        Node::Leaf(l) => {
            &&& rec == (Bvh2Node {
                aabb: ent.bounds,
                prim_count: l.prims@.len() as u32,
                first_index: ent.first as u32,
            })
            &&& 0 <= ent.first
            &&& ent.first + l.prims@.len() <= indices.len()
            &&& forall|t: int|
                0 <= t < l.prims@.len() ==> #[trigger] indices[ent.first + t] == input[l.prims@[t] as int]
        },
        Node::Inner(inner) => {
            let sl0 = inner.children@[0];
            let sl1 = inner.children@[1];
            let run0 = leaf_run(arena, sl0);
            let run1 = leaf_run(arena, sl1);
            &&& rec == (Bvh2Node { aabb: ent.bounds, prim_count: 0, first_index: ent.first as u32 })
            &&& i < ent.first
            &&& ent.first + 1 < nodes.len()
            &&& m.dom().contains(ent.first)
            &&& m.dom().contains(ent.first + 1)
            &&& m[ent.first] == (Bvh2Entry {
                node: the_child(sl0),
                bounds: sl0.bounds,
                first: if slot_is_inner(arena, sl0) {
                    ent.first + 2
                } else {
                    ent.pfirst
                },
                pfirst: if slot_is_inner(arena, sl0) {
                    ent.pfirst + run0 + run1
                } else {
                    ent.pfirst
                },
            })
            &&& m[ent.first + 1] == (Bvh2Entry {
                node: the_child(sl1),
                bounds: sl1.bounds,
                first: if slot_is_inner(arena, sl1) {
                    ent.first + 2 + contrib2_nodes(arena, sl0)
                } else {
                    ent.pfirst + run0
                },
                pfirst: if slot_is_inner(arena, sl1) {
                    ent.pfirst + run0 + run1 + contrib2_deep_prims(arena, sl0)
                } else {
                    ent.pfirst + run0
                },
            })
        },
    }
}

/// The placement map covers exactly the records written so far, and every
/// record outside the pending set is a finished encoding of its arena
/// node.
pub open spec fn bvh2_map_inv(
    arena: NodeArena,
    input: Seq<u32>,
    nodes: Seq<Bvh2Node>,
    indices: Seq<u32>,
    m: Map<int, Bvh2Entry>,
    pending: Set<int>,
) -> bool {
    &&& forall|i: int| #[trigger] m.dom().contains(i) <==> 0 <= i < nodes.len()
    &&& forall|i: int|
        #[trigger] m.dom().contains(i) && !pending.contains(i) ==> bvh2_entry_done(
            arena,
            input,
            nodes,
            indices,
            m,
            i,
        )
}

/// A finished entry stays finished when the arrays only grow, its own
/// record is untouched, and the map only gains entries.
proof fn lemma_bvh2_entry_stable(
    arena: NodeArena,
    input: Seq<u32>,
    nodes1: Seq<Bvh2Node>,
    indices1: Seq<u32>,
    nodes2: Seq<Bvh2Node>,
    indices2: Seq<u32>,
    m1: Map<int, Bvh2Entry>,
    m2: Map<int, Bvh2Entry>,
    i: int,
)
    requires
        m1.dom().contains(i),
        0 <= i < nodes1.len(),
        bvh2_entry_done(arena, input, nodes1, indices1, m1, i),
        nodes1.len() <= nodes2.len(),
        nodes2[i] == nodes1[i],
        indices1.len() <= indices2.len(),
        forall|t: int| 0 <= t < indices1.len() ==> indices2[t] == indices1[t],
        m1.dom().subset_of(m2.dom()),
        forall|j: int| #[trigger] m1.dom().contains(j) ==> m2[j] == m1[j],
    ensures
        bvh2_entry_done(arena, input, nodes2, indices2, m2, i),
{
    let ent = m1[i];
    match arena.nodes@[ent.node] {
        Node::Leaf(l) => {
            assert forall|t: int|
                0 <= t < l.prims@.len() implies #[trigger] indices2[ent.first + t]
                == input[l.prims@[t] as int] by {
                assert(indices1[ent.first + t] == input[l.prims@[t] as int]);
            }
        },
        Node::Inner(_) => {},
    }
}

/// A subtree built with branching factor two: every inner node has
/// exactly its first two slots occupied, and its recorded bounds are
/// exactly the union of the two children's bounds.
pub open spec fn bvh2_subtree_ok(arena: NodeArena, idx: int, bounds: Aabb, input_len: int) -> bool
    decreases arena.nodes@.len() - idx,
    when arena.wf() && 0 <= idx < arena.nodes@.len()
{
    match arena.nodes@[idx] {
        Node::Leaf(l) => {
            &&& 1 <= l.prims@.len() <= 0xFFFF_FFFF
            &&& forall|t: int| 0 <= t < l.prims@.len() ==> #[trigger] l.prims@[t] < input_len
        },
        Node::Inner(inner) => {
            &&& inner.children@[0].child is Some
            &&& inner.children@[1].child is Some
            &&& forall|s: int| 2 <= s < BRANCHING ==> (#[trigger] inner.children@[s]).child is None
            &&& inner.children@[0].bounds.union_spec(inner.children@[1].bounds) == bounds
            &&& bvh2_subtree_ok(
                arena,
                the_child(inner.children@[0]),
                inner.children@[0].bounds,
                input_len,
            )
            &&& bvh2_subtree_ok(
                arena,
                the_child(inner.children@[1]),
                inner.children@[1].bounds,
                input_len,
            )
        },
    }
}

/// Number of records the conversion of the subtree at an inner node
/// appends: two child records plus whatever the inner children append.
pub open spec fn bvh2_emitted_nodes(arena: NodeArena, idx: int) -> int
    decreases arena.nodes@.len() - idx,
    when arena.wf() && 0 <= idx < arena.nodes@.len()
{
    match arena.nodes@[idx] {
        Node::Leaf(_) => 0,
        Node::Inner(inner) => 2 + (
        if slot_is_inner(arena, inner.children@[0]) {
            bvh2_emitted_nodes(arena, the_child(inner.children@[0]))
        } else {
            0
        }) + (
        if slot_is_inner(arena, inner.children@[1]) {
            bvh2_emitted_nodes(arena, the_child(inner.children@[1]))
        } else {
            0
        }),
    }
}

/// Number of primitive-index entries the conversion of the subtree at an
/// inner node appends.
pub open spec fn bvh2_emitted_prims(arena: NodeArena, idx: int) -> int
    decreases arena.nodes@.len() - idx,
    when arena.wf() && 0 <= idx < arena.nodes@.len()
{
    match arena.nodes@[idx] {
        Node::Leaf(_) => 0,
        Node::Inner(inner) => {
            let c0 = the_child(inner.children@[0]);
            let c1 = the_child(inner.children@[1]);
            (if slot_is_inner(arena, inner.children@[0]) {
                bvh2_emitted_prims(arena, c0)
            } else if slot_is_leaf(arena, inner.children@[0]) {
                arena.nodes@[c0]->Leaf_0.prims@.len() as int
            } else {
                0
            }) + (if slot_is_inner(arena, inner.children@[1]) {
                bvh2_emitted_prims(arena, c1)
            } else if slot_is_leaf(arena, inner.children@[1]) {
                arena.nodes@[c1]->Leaf_0.prims@.len() as int
            } else {
                0
            })
        },
    }
}

pub proof fn lemma_bvh2_emitted_nonneg(arena: NodeArena, idx: int)
    requires
        arena.wf(),
        0 <= idx < arena.nodes@.len(),
    ensures
        bvh2_emitted_nodes(arena, idx) >= 0,
        bvh2_emitted_prims(arena, idx) >= 0,
        arena.nodes@[idx] is Inner ==> bvh2_emitted_nodes(arena, idx) >= 2,
    decreases arena.nodes@.len() - idx,
{
    if arena.nodes@[idx] is Inner {
        let inner = arena.nodes@[idx]->Inner_0;
        if slot_is_inner(arena, inner.children@[0]) {
            lemma_bvh2_emitted_nonneg(arena, the_child(inner.children@[0]));
        }
        if slot_is_inner(arena, inner.children@[1]) {
            lemma_bvh2_emitted_nonneg(arena, the_child(inner.children@[1]));
        }
    }
}

/// One finished output record is internally consistent: an inner record's
/// two children sit right after it in the array and their boxes union
/// exactly to its own box; a leaf record's run lies inside the
/// primitive-index array.
pub open spec fn bvh2_record_ok(nodes: Seq<Bvh2Node>, indices: Seq<u32>, i: int) -> bool {
    let rec = nodes[i];
    if rec.prim_count == 0 {
        &&& i < rec.first_index
        &&& rec.first_index + 1 < nodes.len()
        &&& nodes[rec.first_index as int].aabb.union_spec(nodes[rec.first_index + 1].aabb)
            == rec.aabb
    } else {
        rec.first_index + rec.prim_count <= indices.len()
    }
}

/// Every record outside the pending set is finished. This carries the
/// binary-tree bounds-equality invariant over the whole output.
pub open spec fn bvh2_inv(nodes: Seq<Bvh2Node>, indices: Seq<u32>, pending: Set<int>) -> bool {
    forall|i: int|
        0 <= i < nodes.len() && !pending.contains(i) ==> bvh2_record_ok(nodes, indices, i)
}

proof fn lemma_bvh2_record_ok_stable(
    nodes1: Seq<Bvh2Node>,
    indices1: Seq<u32>,
    nodes2: Seq<Bvh2Node>,
    indices2: Seq<u32>,
    i: int,
)
    requires
        0 <= i < nodes1.len(),
        bvh2_record_ok(nodes1, indices1, i),
        nodes1.len() <= nodes2.len(),
        nodes2[i] == nodes1[i],
        forall|j: int| 0 <= j < nodes1.len() ==> #[trigger] nodes2[j].aabb == nodes1[j].aabb,
        indices1.len() <= indices2.len(),
    ensures
        bvh2_record_ok(nodes2, indices2, i),
{
}

/// Recursively lower the (binary) subtree at the inner node `node_idx`
/// into the record reserved at `output_idx`: write the record, append one
/// record per child (copying a leaf child's primitives through the input
/// indirection), then recurse into each inner child.
#[verifier::rlimit(60)]
pub fn convert_to_bvh2(
    bvh2: &mut Bvh2,
    arena: &NodeArena,
    input_indices: &Vec<u32>,
    node_idx: usize,
    parent_aabb: &Aabb,
    output_idx: usize,
    Ghost(pending): Ghost<Set<int>>,
)
    requires
        arena.wf(),
        node_idx < arena.nodes@.len(),
        arena.nodes@[node_idx as int] is Inner,
        bvh2_subtree_ok(*arena, node_idx as int, *parent_aabb, input_indices@.len() as int),
        output_idx < old(bvh2).nodes@.len(),
        old(bvh2).nodes@[output_idx as int].aabb == *parent_aabb,
        pending.contains(output_idx as int),
        forall|i: int| #[trigger] pending.contains(i) ==> 0 <= i < old(bvh2).nodes@.len(),
        bvh2_inv(old(bvh2).nodes@, old(bvh2).primitive_indices@, pending),
        old(bvh2).placement@.dom().contains(output_idx as int),
        old(bvh2).placement@[output_idx as int] == (Bvh2Entry {
            node: node_idx as int,
            bounds: *parent_aabb,
            first: old(bvh2).nodes@.len() as int,
            pfirst: old(bvh2).primitive_indices@.len() as int,
        }),
        bvh2_map_inv(
            *arena,
            input_indices@,
            old(bvh2).nodes@,
            old(bvh2).primitive_indices@,
            old(bvh2).placement@,
            pending,
        ),
        old(bvh2).nodes@.len() + bvh2_emitted_nodes(*arena, node_idx as int) <= 0xFFFF_FFFF,
        old(bvh2).primitive_indices@.len() + bvh2_emitted_prims(*arena, node_idx as int)
            <= 0xFFFF_FFFF,
    ensures
        final(bvh2).nodes@.len() == old(bvh2).nodes@.len() + bvh2_emitted_nodes(
            *arena,
            node_idx as int,
        ),
        final(bvh2).primitive_indices@.len() == old(bvh2).primitive_indices@.len()
            + bvh2_emitted_prims(*arena, node_idx as int),
        forall|j: int|
            0 <= j < old(bvh2).nodes@.len() && j != output_idx ==> final(bvh2).nodes@[j] == old(
                bvh2,
            ).nodes@[j],
        forall|j: int|
            0 <= j < old(bvh2).nodes@.len() ==> #[trigger] final(bvh2).nodes@[j].aabb == old(
                bvh2,
            ).nodes@[j].aabb,
        forall|t: int|
            0 <= t < old(bvh2).primitive_indices@.len() ==> final(bvh2).primitive_indices@[t]
                == old(bvh2).primitive_indices@[t],
        final(bvh2).nodes@[output_idx as int] == (Bvh2Node {
            aabb: *parent_aabb,
            prim_count: 0,
            first_index: old(bvh2).nodes@.len() as u32,
        }),
        ({
            let children = arena.nodes@[node_idx as int].children_view();
            let cb = old(bvh2).nodes@.len() as int;
            let pb = old(bvh2).primitive_indices@.len() as int;
            let slot0 = children[0];
            let slot1 = children[1];
            &&& (slot_is_inner(*arena, slot0) ==> final(bvh2).nodes@[cb] == (Bvh2Node {
                aabb: slot0.bounds,
                prim_count: 0,
                first_index: (cb + 2) as u32,
            }))
            &&& (slot_is_leaf(*arena, slot0) ==> {
                let prims = arena.nodes@[the_child(slot0)]->Leaf_0.prims@;
                &&& final(bvh2).nodes@[cb] == (Bvh2Node {
                    aabb: slot0.bounds,
                    prim_count: prims.len() as u32,
                    first_index: pb as u32,
                })
                &&& forall|t: int|
                    0 <= t < prims.len() ==> final(bvh2).primitive_indices@[pb + t]
                        == input_indices@[prims[t] as int]
            })
            &&& (slot_is_inner(*arena, slot1) ==> final(bvh2).nodes@[cb + 1] == (Bvh2Node {
                aabb: slot1.bounds,
                prim_count: 0,
                first_index: (cb + 2 + (if slot_is_inner(*arena, slot0) {
                    bvh2_emitted_nodes(*arena, the_child(slot0))
                } else {
                    0
                })) as u32,
            }))
            &&& (slot_is_leaf(*arena, slot1) ==> {
                let run0 = if slot_is_leaf(*arena, slot0) {
                    arena.nodes@[the_child(slot0)]->Leaf_0.prims@.len() as int
                } else {
                    0
                };
                let prims = arena.nodes@[the_child(slot1)]->Leaf_0.prims@;
                &&& final(bvh2).nodes@[cb + 1] == (Bvh2Node {
                    aabb: slot1.bounds,
                    prim_count: prims.len() as u32,
                    first_index: (pb + run0) as u32,
                })
                &&& forall|t: int|
                    0 <= t < prims.len() ==> final(bvh2).primitive_indices@[pb + run0 + t]
                        == input_indices@[prims[t] as int]
            })
        }),
        bvh2_inv(
            final(bvh2).nodes@,
            final(bvh2).primitive_indices@,
            pending.remove(output_idx as int),
        ),
        old(bvh2).placement@.dom().subset_of(final(bvh2).placement@.dom()),
        forall|i: int|
            #[trigger] old(bvh2).placement@.dom().contains(i) ==> final(bvh2).placement@[i] == old(
                bvh2,
            ).placement@[i],
        bvh2_map_inv(
            *arena,
            input_indices@,
            final(bvh2).nodes@,
            final(bvh2).primitive_indices@,
            final(bvh2).placement@,
            pending.remove(output_idx as int),
        ),
    decreases arena.nodes@.len() - node_idx,
{
    let ghost out = output_idx as int;
    let ghost ilen = input_indices@.len() as int;
    let ghost children = arena.nodes@[node_idx as int].children_view();
    proof {
        lemma_bvh2_emitted_nonneg(*arena, node_idx as int);
    }
    let inner_ref: &crate::node::Inner = match &arena.nodes[node_idx] {
        Node::Inner(v) => v,
        Node::Leaf(_) => unreached::<&crate::node::Inner>(),
    };
    let child_base = bvh2.nodes.len();
    let ghost cb = old(bvh2).nodes@.len() as int;
    let ghost pb = old(bvh2).primitive_indices@.len() as int;
    proof {
        assert(child_base as int == cb);
    }
    bvh2.nodes[output_idx] = Bvh2Node {
        aabb: *parent_aabb,
        prim_count: 0,
        first_index: child_base as u32,
    };
    let slot0 = inner_ref.children[0];
    let slot1 = inner_ref.children[1];
    let c0 = match slot0.child {
        Option::Some(c) => c,
        Option::None => unreached::<usize>(),
    };
    let c1 = match slot1.child {
        Option::Some(c) => c,
        Option::None => unreached::<usize>(),
    };
    proof {
        assert(the_child(children[0]) == c0 as int);
        assert(the_child(children[1]) == c1 as int);
        assert(node_idx < c0 < arena.nodes@.len());
        assert(node_idx < c1 < arena.nodes@.len());
        if slot_is_inner(*arena, children[0]) {
            lemma_bvh2_emitted_nonneg(*arena, c0 as int);
        }
        if slot_is_inner(*arena, children[1]) {
            lemma_bvh2_emitted_nonneg(*arena, c1 as int);
        }
    }
    // Append the record for the first child.
    let inner0 = push_child_record(bvh2, arena, input_indices, c0, &slot0.bounds);
    // Append the record for the second child.
    let inner1 = push_child_record(bvh2, arena, input_indices, c1, &slot1.bounds);
    proof {
        assert(bvh2.nodes@.len() == cb + 2);
    }
    // Register both child records: their arena nodes, recorded bounds,
    // and the bases their own children or runs will occupy.
    let ghost ent0 = Bvh2Entry {
        node: c0 as int,
        bounds: slot0.bounds,
        first: if slot_is_inner(*arena, children[0]) {
            cb + 2
        } else {
            pb
        },
        pfirst: if slot_is_inner(*arena, children[0]) {
            pb + leaf_run(*arena, children[0]) + leaf_run(*arena, children[1])
        } else {
            pb
        },
    };
    let ghost ent1 = Bvh2Entry {
        node: c1 as int,
        bounds: slot1.bounds,
        first: if slot_is_inner(*arena, children[1]) {
            cb + 2 + contrib2_nodes(*arena, children[0])
        } else {
            pb + leaf_run(*arena, children[0])
        },
        pfirst: if slot_is_inner(*arena, children[1]) {
            pb + leaf_run(*arena, children[0]) + leaf_run(*arena, children[1])
                + contrib2_deep_prims(*arena, children[0])
        } else {
            pb + leaf_run(*arena, children[0])
        },
    };
    bvh2.placement = Ghost(bvh2.placement@.insert(cb, ent0).insert(cb + 1, ent1));
    let ghost mid = *bvh2;
    let ghost pend0 = pending.remove(out).insert(cb).insert(cb + 1);
    proof {
        // Both fresh records and the rewritten parent are consistent;
        // everything older is untouched.
        assert(bvh2_record_ok(mid.nodes@, mid.primitive_indices@, out)) by {
            assert(mid.nodes@[cb].aabb == children[0].bounds);
            assert(mid.nodes@[cb + 1].aabb == children[1].bounds);
        }
        assert forall|i: int|
            0 <= i < mid.nodes@.len() && !pend0.insert(out).contains(i) implies bvh2_record_ok(
            mid.nodes@,
            mid.primitive_indices@,
            i,
        ) by {
            lemma_bvh2_record_ok_stable(
                old(bvh2).nodes@,
                old(bvh2).primitive_indices@,
                mid.nodes@,
                mid.primitive_indices@,
                i,
            );
        }
        // the parent's entry is finished now that its children are
        // registered, and a leaf child's entry is finished outright
        assert(bvh2_entry_done(
            *arena,
            input_indices@,
            mid.nodes@,
            mid.primitive_indices@,
            mid.placement@,
            out,
        ));
        if !slot_is_inner(*arena, children[0]) {
            assert(slot_is_leaf(*arena, children[0]));
            assert(bvh2_entry_done(
                *arena,
                input_indices@,
                mid.nodes@,
                mid.primitive_indices@,
                mid.placement@,
                cb,
            ));
        }
        if !slot_is_inner(*arena, children[1]) {
            assert(slot_is_leaf(*arena, children[1]));
            assert(bvh2_entry_done(
                *arena,
                input_indices@,
                mid.nodes@,
                mid.primitive_indices@,
                mid.placement@,
                cb + 1,
            ));
        }
        assert forall|i: int|
            #[trigger] mid.placement@.dom().contains(i) && !pend0.insert(out).contains(i)
                implies bvh2_entry_done(
            *arena,
            input_indices@,
            mid.nodes@,
            mid.primitive_indices@,
            mid.placement@,
            i,
        ) by {
            lemma_bvh2_entry_stable(
                *arena,
                input_indices@,
                old(bvh2).nodes@,
                old(bvh2).primitive_indices@,
                mid.nodes@,
                mid.primitive_indices@,
                old(bvh2).placement@,
                mid.placement@,
                i,
            );
        }
    }
    if inner0 {
        let ghost pend_a = pending.remove(out).insert(cb + 1).insert(cb);
        proof {
            assert(slot_is_inner(*arena, children[0]));
            assert(bvh2_inv(bvh2.nodes@, bvh2.primitive_indices@, pend_a)) by {
                assert(pend_a =~= pend0);
            }
            assert(bvh2_map_inv(
                *arena,
                input_indices@,
                bvh2.nodes@,
                bvh2.primitive_indices@,
                bvh2.placement@,
                pend_a,
            )) by {
                assert(pend_a =~= pend0);
            }
            if slot_is_inner(*arena, children[1]) {
                lemma_bvh2_emitted_nonneg(*arena, c1 as int);
            }
        }
        convert_to_bvh2(bvh2, arena, input_indices, c0, &slot0.bounds, child_base, Ghost(pend_a));
        proof {
            assert(pend_a.remove(cb) =~= pending.remove(out).insert(cb + 1));
        }
    }
    proof {
        if !inner0 {
            assert(pend0.remove(cb) =~= pending.remove(out).insert(cb + 1)) by {
                assert(!pending.remove(out).contains(cb));
            }
            assert(bvh2_inv(
                bvh2.nodes@,
                bvh2.primitive_indices@,
                pending.remove(out).insert(cb + 1),
            )) by {
                assert forall|i: int|
                    0 <= i < bvh2.nodes@.len() && !pending.remove(out).insert(cb + 1).contains(i)
                        implies bvh2_record_ok(bvh2.nodes@, bvh2.primitive_indices@, i) by {
                    assert(!pend0.contains(i) || i == cb);
                }
            }
            assert(bvh2_map_inv(
                *arena,
                input_indices@,
                bvh2.nodes@,
                bvh2.primitive_indices@,
                bvh2.placement@,
                pending.remove(out).insert(cb + 1),
            )) by {
                assert forall|i: int|
                    #[trigger] bvh2.placement@.dom().contains(i) && !pending.remove(out).insert(
                        cb + 1,
                    ).contains(i) implies bvh2_entry_done(
                    *arena,
                    input_indices@,
                    bvh2.nodes@,
                    bvh2.primitive_indices@,
                    bvh2.placement@,
                    i,
                ) by {
                    assert(!pend0.insert(out).contains(i) || i == cb || i == out);
                }
            }
        }
    }
    if inner1 {
        let ghost pend_b = pending.remove(out).insert(cb + 1);
        proof {
            assert(slot_is_inner(*arena, children[1]));
            assert(bvh2.nodes@[cb + 1].aabb == children[1].bounds);
            assert(bvh2.placement@[cb + 1] == ent1);
            assert(bvh2.nodes@.len() == cb + 2 + contrib2_nodes(*arena, children[0]));
            assert(bvh2.primitive_indices@.len() == pb + leaf_run(*arena, children[0]) + leaf_run(
                *arena,
                children[1],
            ) + contrib2_deep_prims(*arena, children[0]));
        }
        convert_to_bvh2(
            bvh2,
            arena,
            input_indices,
            c1,
            &slot1.bounds,
            child_base + 1,
            Ghost(pend_b),
        );
        proof {
            assert(pend_b.remove(cb + 1) =~= pending.remove(out));
        }
    }
    proof {
        if !inner1 {
            assert(bvh2_inv(bvh2.nodes@, bvh2.primitive_indices@, pending.remove(out))) by {
                assert forall|i: int|
                    0 <= i < bvh2.nodes@.len() && !pending.remove(out).contains(i)
                        implies bvh2_record_ok(bvh2.nodes@, bvh2.primitive_indices@, i) by {
                    assert(!pending.remove(out).insert(cb + 1).contains(i) || i == cb + 1);
                    if i == cb + 1 {
                        assert(slot_is_leaf(*arena, children[1]));
                    }
                }
            }
            assert(bvh2_map_inv(
                *arena,
                input_indices@,
                bvh2.nodes@,
                bvh2.primitive_indices@,
                bvh2.placement@,
                pending.remove(out),
            )) by {
                assert forall|i: int|
                    #[trigger] bvh2.placement@.dom().contains(i) && !pending.remove(out).contains(
                        i,
                    ) implies bvh2_entry_done(
                    *arena,
                    input_indices@,
                    bvh2.nodes@,
                    bvh2.primitive_indices@,
                    bvh2.placement@,
                    i,
                ) by {
                    if i == cb + 1 {
                        assert(slot_is_leaf(*arena, children[1]));
                        assert(bvh2.placement@[cb + 1] == ent1);
                        lemma_bvh2_entry_stable(
                            *arena,
                            input_indices@,
                            mid.nodes@,
                            mid.primitive_indices@,
                            bvh2.nodes@,
                            bvh2.primitive_indices@,
                            mid.placement@,
                            bvh2.placement@,
                            cb + 1,
                        );
                    } else {
                        assert(!pending.remove(out).insert(cb + 1).contains(i));
                    }
                }
            }
        }
    }
    proof {
        let slot0 = children[0];
        let slot1 = children[1];
        assert(slot_is_leaf(*arena, slot0) ==> {
            let prims = arena.nodes@[the_child(slot0)]->Leaf_0.prims@;
            &&& bvh2.nodes@[cb] == (Bvh2Node {
                aabb: slot0.bounds,
                prim_count: prims.len() as u32,
                first_index: pb as u32,
            })
            &&& forall|t: int|
                0 <= t < prims.len() ==> bvh2.primitive_indices@[pb + t]
                    == input_indices@[prims[t] as int]
        }) by {
            if slot_is_leaf(*arena, slot0) {
                let prims = arena.nodes@[the_child(slot0)]->Leaf_0.prims@;
                assert forall|t: int|
                    0 <= t < prims.len() implies bvh2.primitive_indices@[pb + t]
                    == input_indices@[prims[t] as int] by {
                    assert(mid.primitive_indices@[pb + t] == input_indices@[prims[t] as int]);
                }
            }
        }
        assert(slot_is_leaf(*arena, slot1) ==> {
            let run0 = if slot_is_leaf(*arena, slot0) {
                arena.nodes@[the_child(slot0)]->Leaf_0.prims@.len() as int
            } else {
                0
            };
            let prims = arena.nodes@[the_child(slot1)]->Leaf_0.prims@;
            &&& bvh2.nodes@[cb + 1] == (Bvh2Node {
                aabb: slot1.bounds,
                prim_count: prims.len() as u32,
                first_index: (pb + run0) as u32,
            })
            &&& forall|t: int|
                0 <= t < prims.len() ==> bvh2.primitive_indices@[pb + run0 + t]
                    == input_indices@[prims[t] as int]
        }) by {
            if slot_is_leaf(*arena, slot1) {
                let run0 = leaf_run(*arena, slot0);
                let prims = arena.nodes@[the_child(slot1)]->Leaf_0.prims@;
                assert forall|t: int|
                    0 <= t < prims.len() implies bvh2.primitive_indices@[pb + run0 + t]
                    == input_indices@[prims[t] as int] by {
                    assert(mid.primitive_indices@[pb + run0 + t] == input_indices@[prims[t] as int]);
                }
            }
        }
        assert(slot_is_inner(*arena, slot0) ==> bvh2.nodes@[cb] == (Bvh2Node {
            aabb: slot0.bounds,
            prim_count: 0,
            first_index: (cb + 2) as u32,
        }));
        assert(slot_is_inner(*arena, slot1) ==> bvh2.nodes@[cb + 1] == (Bvh2Node {
            aabb: slot1.bounds,
            prim_count: 0,
            first_index: (cb + 2 + (if slot_is_inner(*arena, slot0) {
                bvh2_emitted_nodes(*arena, the_child(slot0))
            } else {
                0
            })) as u32,
        }));
        // entries that predate this call are carried through untouched:
        // the two fresh registrations use new keys, and the recursions
        // preserve the values of every key they found
        assert forall|i: int|
            #[trigger] old(bvh2).placement@.dom().contains(i) implies bvh2.placement@[i] == old(
            bvh2,
        ).placement@[i] by {
            assert(0 <= i < cb);
            assert(mid.placement@[i] == old(bvh2).placement@[i]);
            assert(mid.placement@.dom().contains(i));
        }
    }
}

/// Append the record for one child of a binary node: a reserved inner
/// record (to be filled by the recursion) or a finished leaf record with
/// its primitive run. Returns whether the child is an inner node.
fn push_child_record(
    bvh2: &mut Bvh2,
    arena: &NodeArena,
    input_indices: &Vec<u32>,
    c: usize,
    slot_bounds: &Aabb,
) -> (is_inner: bool)
    requires
        arena.wf(),
        c < arena.nodes@.len(),
        bvh2_subtree_ok(*arena, c as int, *slot_bounds, input_indices@.len() as int),
        old(bvh2).nodes@.len() < 0xFFFF_FFFF,
        arena.nodes@[c as int] is Leaf ==> old(bvh2).primitive_indices@.len()
            + arena.nodes@[c as int]->Leaf_0.prims@.len() <= 0xFFFF_FFFF,
    ensures
        is_inner == (arena.nodes@[c as int] is Inner),
        final(bvh2).nodes@.len() == old(bvh2).nodes@.len() + 1,
        forall|j: int|
            0 <= j < old(bvh2).nodes@.len() ==> final(bvh2).nodes@[j] == old(bvh2).nodes@[j],
        forall|t: int|
            0 <= t < old(bvh2).primitive_indices@.len() ==> final(bvh2).primitive_indices@[t]
                == old(bvh2).primitive_indices@[t],
        final(bvh2).nodes@.last().aabb == *slot_bounds,
        final(bvh2).placement == old(bvh2).placement,
        is_inner ==> final(bvh2).nodes@.last() == (Bvh2Node {
            aabb: *slot_bounds,
            prim_count: 0,
            first_index: 0,
        }) && final(bvh2).primitive_indices@ == old(bvh2).primitive_indices@,
        !is_inner ==> {
            let prims = arena.nodes@[c as int]->Leaf_0.prims@;
            &&& final(bvh2).nodes@.last() == (Bvh2Node {
                aabb: *slot_bounds,
                prim_count: prims.len() as u32,
                first_index: old(bvh2).primitive_indices@.len() as u32,
            })
            &&& final(bvh2).primitive_indices@.len() == old(bvh2).primitive_indices@.len()
                + prims.len()
            &&& forall|t: int|
                0 <= t < prims.len() ==> final(bvh2).primitive_indices@[old(
                    bvh2,
                ).primitive_indices@.len() + t] == input_indices@[prims[t] as int]
            &&& bvh2_record_ok(
                final(bvh2).nodes@,
                final(bvh2).primitive_indices@,
                final(bvh2).nodes@.len() - 1,
            )
        },
{
    match &arena.nodes[c] {
        Node::Inner(_) => {
            bvh2.nodes.push(Bvh2Node { aabb: *slot_bounds, prim_count: 0, first_index: 0 });
            true
        },
        Node::Leaf(leaf) => {
            let ghost istart = bvh2.primitive_indices@.len() as int;
            let first = bvh2.indices_len_u32();
            let count = leaf.prims.len();
            let mut t: usize = 0;
            while t < count
                invariant
                    t <= count,
                    count == leaf.prims@.len(),
                    leaf.prims@ == arena.nodes@[c as int]->Leaf_0.prims@,
                    arena.nodes@[c as int] is Leaf,
                    bvh2.placement == old(bvh2).placement,
                    forall|u: int|
                        0 <= u < count ==> #[trigger] leaf.prims@[u] < input_indices@.len(),
                    bvh2.nodes@ == old(bvh2).nodes@,
                    bvh2.primitive_indices@.len() == istart + t,
                    istart == old(bvh2).primitive_indices@.len(),
                    forall|u: int|
                        0 <= u < istart ==> #[trigger] bvh2.primitive_indices@[u] == old(
                            bvh2,
                        ).primitive_indices@[u],
                    forall|u: int|
                        0 <= u < t ==> #[trigger] bvh2.primitive_indices@[istart + u]
                            == input_indices@[leaf.prims@[u] as int],
                decreases count - t,
            {
                let pid = leaf.prims[t];
                bvh2.primitive_indices.push(input_indices[pid as usize]);
                t = t + 1;
            }
            bvh2.nodes.push(
                Bvh2Node { aabb: *slot_bounds, prim_count: count as u32, first_index: first },
            );
            false
        },
    }
}

impl Bvh2 {
    pub fn new() -> (b: Bvh2)
        ensures
            b.nodes@.len() == 0,
            b.primitive_indices@.len() == 0,
            b.placement@ == Map::<int, Bvh2Entry>::empty(),
    {
        Bvh2 {
            nodes: Vec::new(),
            primitive_indices: Vec::new(),
            placement: Ghost(Map::empty()),
        }
    }

    fn indices_len_u32(&self) -> (n: u32)
        requires
            self.primitive_indices@.len() <= 0xFFFF_FFFF,
        ensures
            n == self.primitive_indices@.len(),
    {
        self.primitive_indices.len() as u32
    }
}

/// Lower a whole binary build into a fresh output tree: record 0 is the
/// root. The resulting array satisfies the bounds-equality invariant:
/// every inner record's box is exactly the union of its two children's.
pub fn build_bvh2(
    arena: &NodeArena,
    input_indices: &Vec<u32>,
    total_aabb: &Aabb,
    root: usize,
) -> (bvh2: Bvh2)
    requires
        arena.wf(),
        root < arena.nodes@.len(),
        arena.nodes@[root as int] is Inner,
        bvh2_subtree_ok(*arena, root as int, *total_aabb, input_indices@.len() as int),
        1 + bvh2_emitted_nodes(*arena, root as int) <= 0xFFFF_FFFF,
        bvh2_emitted_prims(*arena, root as int) <= 0xFFFF_FFFF,
    ensures
        bvh2.nodes@.len() == 1 + bvh2_emitted_nodes(*arena, root as int),
        bvh2.primitive_indices@.len() == bvh2_emitted_prims(*arena, root as int),
        bvh2.nodes@[0] == (Bvh2Node { aabb: *total_aabb, prim_count: 0, first_index: 1 }),
        bvh2_inv(bvh2.nodes@, bvh2.primitive_indices@, Set::empty()),
        bvh2.placement@.dom().contains(0),
        bvh2.placement@[0] == (Bvh2Entry {
            node: root as int,
            bounds: *total_aabb,
            first: 1,
            pfirst: 0,
        }),
        bvh2_map_inv(
            *arena,
            input_indices@,
            bvh2.nodes@,
            bvh2.primitive_indices@,
            bvh2.placement@,
            Set::empty(),
        ),
{
    let mut bvh2 = Bvh2::new();
    bvh2.nodes.push(Bvh2Node { aabb: *total_aabb, prim_count: 0, first_index: 0 });
    bvh2.placement = Ghost(
        bvh2.placement@.insert(
            0,
            Bvh2Entry { node: root as int, bounds: *total_aabb, first: 1, pfirst: 0 },
        ),
    );
    let ghost pending = Set::<int>::empty().insert(0);
    proof {
        lemma_bvh2_emitted_nonneg(*arena, root as int);
        assert(bvh2_inv(bvh2.nodes@, bvh2.primitive_indices@, pending));
        assert(bvh2_map_inv(
            *arena,
            input_indices@,
            bvh2.nodes@,
            bvh2.primitive_indices@,
            bvh2.placement@,
            pending,
        ));
    }
    let ghost m_before = bvh2.placement@;
    convert_to_bvh2(&mut bvh2, arena, input_indices, root, total_aabb, 0, Ghost(pending));
    proof {
        assert(pending.remove(0) =~= Set::<int>::empty());
        assert(m_before.dom().contains(0));
        assert(bvh2.placement@[0] == m_before[0]);
    }
    bvh2
}

} // verus!
