//! The node arena of `indextree`, as the tree of this library uses it: nodes
//! are only ever created and appended as last children, never removed.

use vstd::prelude::*;
use indextree::NodeId as RawNodeId;
use crate::tree::NodeData;

verus! {

#[verifier::external_type_specification]
#[verifier::external_body]
#[verifier::reject_recursive_types(T)]
pub struct ExArena<T>(indextree::Arena<T>);

#[verifier::external_type_specification]
#[verifier::external_body]
pub struct ExRawNodeId(RawNodeId);

/// One slot of the arena: the links of a node, as zero-based indices, and
/// its data.
pub ghost struct Slot {
    pub parent: Option<nat>,
    pub first_child: Option<nat>,
    pub last_child: Option<nat>,
    pub previous_sibling: Option<nat>,
    pub next_sibling: Option<nat>,
    pub data: NodeData,
}

/// The slots of an arena, in index order.
pub uninterp spec fn arena_slots(a: indextree::Arena<NodeData>) -> Seq<Slot>;

/// Whether an arena holds a slot that a removal freed.
pub uninterp spec fn arena_has_free_slot(a: indextree::Arena<NodeData>) -> bool;

/// Whether `id` names a node of the arena that was not removed: its
/// `NodeId::is_removed` is false.
pub uninterp spec fn arena_live(a: indextree::Arena<NodeData>, id: RawNodeId) -> bool;

/// The one-based index of a node id.
pub uninterp spec fn raw_index(id: RawNodeId) -> nat;

/// A slot with no links.
pub open spec fn detached(data: NodeData) -> Slot {
    Slot {
        parent: None,
        first_child: None,
        last_child: None,
        previous_sibling: None,
        next_sibling: None,
        data,
    }
}

/// Relies on `indextree::Arena::new`: an empty arena with no free slot.
#[verifier::external_body]
pub(crate) fn arena_new() -> (r: indextree::Arena<NodeData>)
    ensures
        arena_slots(r) == Seq::<Slot>::empty(),
        !arena_has_free_slot(r),
{
    indextree::Arena::new()
}

/// Relies on `indextree::Arena::new_node`: without a free slot, the node is
/// pushed with no links and its id has the next one-based index; no node is
/// removed.
#[verifier::external_body]
pub(crate) fn arena_new_node(a: &mut indextree::Arena<NodeData>, data: NodeData) -> (r: RawNodeId)
    requires
        !arena_has_free_slot(*old(a)),
        arena_slots(*old(a)).len() + 1 < usize::MAX,
    ensures
        arena_slots(*final(a)) == arena_slots(*old(a)).push(detached(data)),
        !arena_has_free_slot(*final(a)),
        raw_index(r) == arena_slots(*old(a)).len() + 1,
        arena_live(*final(a), r),
        forall|id: RawNodeId| arena_live(*old(a), id) ==> #[trigger] arena_live(*final(a), id),
{
    a.new_node(data)
}

/// The slots after a new node with `data` is appended as the last child of
/// the node at index `p`.
pub open spec fn appended(s: Seq<Slot>, t: Seq<Slot>, p: nat, data: NodeData) -> bool {
    let n = s.len();
    let last = s[p as int].last_child;
    &&& t.len() == n + 1
    &&& t[n as int] == Slot {
        parent: Some(p),
        first_child: None,
        last_child: None,
        previous_sibling: last,
        next_sibling: None,
        data,
    }
    &&& t[p as int] == Slot {
        first_child: if last is Some { s[p as int].first_child } else { Some(n) },
        last_child: Some(n),
        ..s[p as int]
    }
    &&& (last is Some ==> t[last->0 as int] == Slot { next_sibling: Some(n), ..s[last->0 as int] })
    &&& forall|j: int| 0 <= j < n && j != p && (last is None || j != last->0) ==> t[j] == s[j]
}

/// Whether the links of the node at index `p` admit appending a child.
pub open spec fn can_append(s: Seq<Slot>, p: nat) -> bool {
    &&& p < s.len()
    &&& (s[p as int].first_child is Some <==> s[p as int].last_child is Some)
    &&& (s[p as int].last_child is Some ==> {
        let l = s[p as int].last_child->0 as int;
        &&& l < s.len()
        &&& l != p
        &&& s[l].parent == Some(p)
        &&& s[l].next_sibling is None
    })
}

/// Relies on `RawNodeId::append_value`: a new node is pushed and
/// linked after the last child of `parent`.
#[verifier::external_body]
pub(crate) fn arena_append_value(a: &mut indextree::Arena<NodeData>, parent: RawNodeId, data: NodeData) -> (r: RawNodeId)
    requires
        !arena_has_free_slot(*old(a)),
        arena_slots(*old(a)).len() + 1 < usize::MAX,
        raw_index(parent) >= 1,
        arena_live(*old(a), parent),
        can_append(arena_slots(*old(a)), (raw_index(parent) - 1) as nat),
    ensures
        appended(arena_slots(*old(a)), arena_slots(*final(a)), (raw_index(parent) - 1) as nat, data),
        raw_index(r) == arena_slots(*old(a)).len() + 1,
        !arena_has_free_slot(*final(a)),
        arena_live(*final(a), r),
        forall|id: RawNodeId| arena_live(*old(a), id) ==> #[trigger] arena_live(*final(a), id),
{
    parent.append_value(data, a)
}

/// Relies on indexing an `indextree::Arena` and `indextree::Node::get`: the
/// data of a live node.
#[verifier::external_body]
pub(crate) fn arena_data(a: &indextree::Arena<NodeData>, id: RawNodeId) -> (r: &NodeData)
    requires
        1 <= raw_index(id) <= arena_slots(*a).len(),
        !arena_has_free_slot(*a),
    ensures
        *r == arena_slots(*a)[raw_index(id) - 1].data,
{
    a[id].get()
}

/// Relies on `RawNodeId::parent`.
#[verifier::external_body]
pub(crate) fn arena_parent(a: &indextree::Arena<NodeData>, id: RawNodeId) -> (r: Option<RawNodeId>)
    requires
        1 <= raw_index(id) <= arena_slots(*a).len(),
    ensures
        r is Some <==> arena_slots(*a)[raw_index(id) - 1].parent is Some,
        r is Some ==> raw_index(r->0) == arena_slots(*a)[raw_index(id) - 1].parent->0 + 1,
{
    id.parent(a)
}

/// Relies on `RawNodeId::first_child`.
#[verifier::external_body]
pub(crate) fn arena_first_child(a: &indextree::Arena<NodeData>, id: RawNodeId) -> (r: Option<RawNodeId>)
    requires
        1 <= raw_index(id) <= arena_slots(*a).len(),
    ensures
        r is Some <==> arena_slots(*a)[raw_index(id) - 1].first_child is Some,
        r is Some ==> raw_index(r->0) == arena_slots(*a)[raw_index(id) - 1].first_child->0 + 1,
{
    id.first_child(a)
}

/// Relies on `RawNodeId::last_child`.
#[verifier::external_body]
pub(crate) fn arena_last_child(a: &indextree::Arena<NodeData>, id: RawNodeId) -> (r: Option<RawNodeId>)
    requires
        1 <= raw_index(id) <= arena_slots(*a).len(),
    ensures
        r is Some <==> arena_slots(*a)[raw_index(id) - 1].last_child is Some,
        r is Some ==> raw_index(r->0) == arena_slots(*a)[raw_index(id) - 1].last_child->0 + 1,
{
    id.last_child(a)
}

/// Relies on `RawNodeId::previous_sibling`.
#[verifier::external_body]
pub(crate) fn arena_previous_sibling(a: &indextree::Arena<NodeData>, id: RawNodeId) -> (r: Option<RawNodeId>)
    requires
        1 <= raw_index(id) <= arena_slots(*a).len(),
    ensures
        r is Some <==> arena_slots(*a)[raw_index(id) - 1].previous_sibling is Some,
        r is Some ==> raw_index(r->0) == arena_slots(*a)[raw_index(id) - 1].previous_sibling->0 + 1,
{
    id.previous_sibling(a)
}

/// Relies on `RawNodeId::next_sibling`.
#[verifier::external_body]
pub(crate) fn arena_next_sibling(a: &indextree::Arena<NodeData>, id: RawNodeId) -> (r: Option<RawNodeId>)
    requires
        1 <= raw_index(id) <= arena_slots(*a).len(),
    ensures
        r is Some <==> arena_slots(*a)[raw_index(id) - 1].next_sibling is Some,
        r is Some ==> raw_index(r->0) == arena_slots(*a)[raw_index(id) - 1].next_sibling->0 + 1,
{
    id.next_sibling(a)
}

/// Relies on `From<RawNodeId> for usize`: the one-based index.
#[verifier::external_body]
pub(crate) fn raw_index_of(id: RawNodeId) -> (r: usize)
    ensures
        r == raw_index(id),
{
    usize::from(id)
}

} // verus!
