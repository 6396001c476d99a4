//! The node arena and the callback entry points that materialize the
//! builder's n-ary tree.
//!
//! The external builder owns the build heuristic; it drives these entry
//! points to allocate inner nodes, wire up children, record per-child
//! bounds, and create leaves. Nodes live in one growable arena and refer to
//! their children by arena index; every child index is strictly greater
//! than its parent's, which both rules out cycles and gives every tree walk
//! a termination measure.

use vstd::prelude::*;
use vstd::pervasive::unreached;
use crate::aabb::Aabb;

verus! {

/// Maximum branching factor of the n-ary tree: the number of child slots
/// of every inner node.
pub const BRANCHING: usize = 8;

/// One child slot of an inner node: an optional arena index plus the
/// child's bounds as recorded by the builder. An empty slot carries the
/// invalid sentinel box.
#[derive(Clone, Copy)]
pub struct ChildSlot {
    pub child: Option<usize>,
    pub bounds: Aabb,
}

/// An inner node: a fixed-size ordered array of `BRANCHING` child slots.
pub struct Inner {
    pub children: Vec<ChildSlot>,
}

/// A leaf node: its bounds (the union of its primitives' boxes as supplied
/// by the builder) and the ordered primitive ids it covers.
pub struct Leaf {
    pub bounds: Aabb,
    pub prims: Vec<u32>,
}

/// A tagged node record.
pub enum Node {
    Inner(Inner),
    Leaf(Leaf),
}

/// One primitive handed to the builder: its box and its opaque id.
#[derive(Clone, Copy)]
pub struct BuildPrimitive {
    pub bounds: Aabb,
    pub prim_id: u32,
}

/// The arena that owns every node of one build.
pub struct NodeArena {
    pub nodes: Vec<Node>,
}

/// A slot is well formed at node `idx` when its child index, if any, points
/// strictly past `idx` and into the arena.
pub open spec fn slot_ok(s: ChildSlot, idx: int, len: int) -> bool {
    s.child matches Some(c) ==> idx < c < len
}

/// A node is well formed at position `idx` in an arena of length `len`.
pub open spec fn node_wf(n: Node, idx: int, len: int) -> bool {
    match n {
        Node::Inner(inner) => {
            &&& inner.children@.len() == BRANCHING
            &&& forall|s: int| 0 <= s < BRANCHING ==> slot_ok(inner.children@[s], idx, len)
        },
        Node::Leaf(_) => true,
    }
}

impl Node {
    /// The child slots of an inner node.
    pub open spec fn children_view(self) -> Seq<ChildSlot>
        recommends
            self is Inner,
    {
        self->Inner_0.children@
    }

    /// Shared access to the inner payload, if this is an inner node.
    pub fn as_inner(&self) -> (r: Option<&Inner>)
        ensures
            r is Some <==> self is Inner,
            r matches Some(inner) ==> *inner == self->Inner_0,
    {
        if let Node::Inner(v) = self {
            Some(v)
        } else {
            None
        }
    }
}

impl NodeArena {
    /// Every node of the arena is well formed.
    pub open spec fn wf(self) -> bool {
        forall|i: int|
            0 <= i < self.nodes@.len() ==> node_wf(
                #[trigger] self.nodes@[i],
                i,
                self.nodes@.len() as int,
            )
    }

    pub fn new() -> (arena: NodeArena)
        ensures
            arena.nodes@.len() == 0,
            arena.wf(),
    {
        NodeArena { nodes: Vec::new() }
    }

    pub fn len(&self) -> (n: usize)
        ensures
            n == self.nodes@.len(),
    {
        self.nodes.len()
    }

    /// Callback: allocate a fresh inner node with all slots empty.
    ///
    /// The builder announces how many children it will attach; a count
    /// beyond the supported branching factor is a configuration mismatch
    /// that the caller must reject before reaching this entry point.
    pub fn create_node(&mut self, child_count: usize) -> (idx: usize)
        requires
            old(self).wf(),
            child_count <= BRANCHING,
            old(self).nodes@.len() < usize::MAX,
        ensures
            final(self).wf(),
            idx == old(self).nodes@.len(),
            final(self).nodes@.len() == old(self).nodes@.len() + 1,
            forall|i: int|
                0 <= i < old(self).nodes@.len() ==> final(self).nodes@[i] == old(self).nodes@[i],
            final(self).nodes@[idx as int] is Inner,
            final(self).nodes@[idx as int].children_view().len() == BRANCHING,
            forall|s: int|
                0 <= s < BRANCHING ==> (#[trigger] final(self).nodes@[idx as int].children_view()[s])
                    == (ChildSlot { child: None, bounds: Aabb::invalid_spec() }),
    {
        let idx = self.nodes.len();
        let empty = ChildSlot { child: None, bounds: Aabb::invalid() };
        let children: Vec<ChildSlot> = vec![empty; BRANCHING];
        self.nodes.push(Node::Inner(Inner { children }));
        idx
    }

    /// Callback: wire the given child indices into slots `0..count` of an
    /// inner node, leaving every slot's bounds untouched (bounds arrive
    /// through a separate callback, in either order).
    pub fn set_node_children(&mut self, node_idx: usize, child_idxs: &Vec<usize>)
        requires
            old(self).wf(),
            node_idx < old(self).nodes@.len(),
            old(self).nodes@[node_idx as int] is Inner,
            child_idxs@.len() <= BRANCHING,
            forall|i: int|
                0 <= i < child_idxs@.len() ==> node_idx < #[trigger] child_idxs@[i] < old(self).nodes@.len(),
        ensures
            final(self).wf(),
            final(self).nodes@.len() == old(self).nodes@.len(),
            forall|i: int|
                0 <= i < old(self).nodes@.len() && i != node_idx ==> final(self).nodes@[i] == old(self).nodes@[i],
            final(self).nodes@[node_idx as int] is Inner,
            final(self).nodes@[node_idx as int].children_view().len() == BRANCHING,
            forall|s: int|
                0 <= s < child_idxs@.len() ==> (#[trigger] final(self).nodes@[node_idx as int].children_view()[s]) == (ChildSlot {
                    child: Some(child_idxs@[s]),
                    bounds: old(self).nodes@[node_idx as int].children_view()[s].bounds,
                }),
            forall|s: int|
                child_idxs@.len() <= s < BRANCHING ==> (#[trigger] final(self).nodes@[node_idx as int].children_view()[s]) == old(self).nodes@[node_idx as int].children_view()[s],
    {
        let count = child_idxs.len();
        let mut i: usize = 0;
        while i < count
            invariant
                self.wf(),
                count == child_idxs@.len(),
                i <= count,
                count <= BRANCHING,
                node_idx < self.nodes@.len(),
                self.nodes@.len() == old(self).nodes@.len(),
                forall|j: int|
                    0 <= j < child_idxs@.len() ==> node_idx < #[trigger] child_idxs@[j] < old(self).nodes@.len(),
                forall|j: int|
                    0 <= j < old(self).nodes@.len() && j != node_idx ==> self.nodes@[j] == old(self).nodes@[j],
                self.nodes@[node_idx as int] is Inner,
                self.nodes@[node_idx as int].children_view().len() == BRANCHING,
                forall|s: int|
                    0 <= s < i ==> (#[trigger] self.nodes@[node_idx as int].children_view()[s])
                        == (ChildSlot {
                        child: Some(child_idxs@[s]),
                        bounds: old(self).nodes@[node_idx as int].children_view()[s].bounds,
                    }),
                forall|s: int|
                    i <= s < BRANCHING ==> (#[trigger] self.nodes@[node_idx as int].children_view()[s])
                        == old(self).nodes@[node_idx as int].children_view()[s],
            decreases count - i,
        {
            let c = child_idxs[i];
            match &mut self.nodes[node_idx] {
                Node::Inner(inner) => {
                    let b = inner.children[i].bounds;
                    inner.children[i] = ChildSlot { child: Some(c), bounds: b };
                },
                Node::Leaf(_) => {
                    unreached::<()>();
                },
            }
            i = i + 1;
        }
    }

    /// Callback: record the builder-supplied bounds of slots `0..count` of
    /// an inner node, leaving every slot's child reference untouched.
    pub fn set_node_bounds(&mut self, node_idx: usize, bounds: &Vec<Aabb>)
        requires
            old(self).wf(),
            node_idx < old(self).nodes@.len(),
            old(self).nodes@[node_idx as int] is Inner,
            bounds@.len() <= BRANCHING,
        ensures
            final(self).wf(),
            final(self).nodes@.len() == old(self).nodes@.len(),
            forall|i: int|
                0 <= i < old(self).nodes@.len() && i != node_idx ==> final(self).nodes@[i] == old(self).nodes@[i],
            final(self).nodes@[node_idx as int] is Inner,
            final(self).nodes@[node_idx as int].children_view().len() == BRANCHING,
            forall|s: int|
                0 <= s < bounds@.len() ==> (#[trigger] final(self).nodes@[node_idx as int].children_view()[s]) == (ChildSlot {
                    child: old(self).nodes@[node_idx as int].children_view()[s].child,
                    bounds: bounds@[s],
                }),
            forall|s: int|
                bounds@.len() <= s < BRANCHING ==> (#[trigger] final(self).nodes@[node_idx as int].children_view()[s]) == old(self).nodes@[node_idx as int].children_view()[s],
    {
        let count = bounds.len();
        let mut i: usize = 0;
        while i < count
            invariant
                self.wf(),
                count == bounds@.len(),
                i <= count,
                count <= BRANCHING,
                node_idx < self.nodes@.len(),
                self.nodes@.len() == old(self).nodes@.len(),
                forall|j: int|
                    0 <= j < old(self).nodes@.len() && j != node_idx ==> self.nodes@[j] == old(self).nodes@[j],
                self.nodes@[node_idx as int] is Inner,
                self.nodes@[node_idx as int].children_view().len() == BRANCHING,
                forall|s: int|
                    0 <= s < i ==> (#[trigger] self.nodes@[node_idx as int].children_view()[s])
                        == (ChildSlot {
                        child: old(self).nodes@[node_idx as int].children_view()[s].child,
                        bounds: bounds@[s],
                    }),
                forall|s: int|
                    i <= s < BRANCHING ==> (#[trigger] self.nodes@[node_idx as int].children_view()[s])
                        == old(self).nodes@[node_idx as int].children_view()[s],
            decreases count - i,
        {
            let b = bounds[i];
            match &mut self.nodes[node_idx] {
                Node::Inner(inner) => {
                    let c = inner.children[i].child;
                    inner.children[i] = ChildSlot { child: c, bounds: b };
                },
                Node::Leaf(_) => {
                    unreached::<()>();
                },
            }
            i = i + 1;
        }
    }

    /// Callback: allocate a leaf covering the given primitives. The leaf's
    /// bounds are the union of all their boxes; the ids are copied in the
    /// order given, without deduplication.
    pub fn create_leaf(&mut self, prims: &Vec<BuildPrimitive>) -> (idx: usize)
        requires
            old(self).wf(),
            old(self).nodes@.len() < usize::MAX,
        ensures
            final(self).wf(),
            idx == old(self).nodes@.len(),
            final(self).nodes@.len() == old(self).nodes@.len() + 1,
            forall|i: int|
                0 <= i < old(self).nodes@.len() ==> final(self).nodes@[i] == old(self).nodes@[i],
            final(self).nodes@[idx as int] is Leaf,
            final(self).nodes@[idx as int]->Leaf_0.prims@ == prims@.map_values(
                |p: BuildPrimitive| p.prim_id,
            ),
            final(self).nodes@[idx as int]->Leaf_0.bounds == union_all(
                prims@.map_values(|p: BuildPrimitive| p.bounds),
            ),
    {
        let idx = self.nodes.len();
        let mut bounds = Aabb::invalid();
        let mut ids: Vec<u32> = Vec::new();
        let mut i: usize = 0;
        while i < prims.len()
            invariant
                i <= prims@.len(),
                ids@ == prims@.subrange(0, i as int).map_values(|p: BuildPrimitive| p.prim_id),
                bounds == union_all(
                    prims@.subrange(0, i as int).map_values(|p: BuildPrimitive| p.bounds),
                ),
            decreases prims@.len() - i,
        {
            proof {
                let full_ids = prims@.subrange(0, i + 1 as int).map_values(
                    |p: BuildPrimitive| p.prim_id,
                );
                let part_ids = prims@.subrange(0, i as int).map_values(
                    |p: BuildPrimitive| p.prim_id,
                );
                assert(full_ids.drop_last() =~= part_ids);
                assert(full_ids.last() == prims@[i as int].prim_id);
                let full_bs = prims@.subrange(0, i + 1 as int).map_values(
                    |p: BuildPrimitive| p.bounds,
                );
                let part_bs = prims@.subrange(0, i as int).map_values(
                    |p: BuildPrimitive| p.bounds,
                );
                assert(full_bs.drop_last() =~= part_bs);
                assert(full_bs.last() == prims@[i as int].bounds);
            }
            bounds = bounds.union(&prims[i].bounds);
            ids.push(prims[i].prim_id);
            i = i + 1;
        }
        proof {
            assert(prims@.subrange(0, prims@.len() as int) =~= prims@);
        }
        self.nodes.push(Node::Leaf(Leaf { bounds, prims: ids }));
        idx
    }
}

/// Left fold of componentwise union over a sequence of boxes, starting
/// from the invalid sentinel (the union identity).
pub open spec fn union_all(boxes: Seq<Aabb>) -> Aabb
    decreases boxes.len(),
{
    if boxes.len() == 0 {
        Aabb::invalid_spec()
    } else {
        union_all(boxes.drop_last()).union_spec(boxes.last())
    }
}

} // verus!
