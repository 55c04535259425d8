//! Editing the graph: what a press selects, which nodes a drag or an arrow
//! key carries, what a delete removes, and the id a new connection gets.
//!
//! Nodes and edges are seen here through the fields these decisions read;
//! the caller applies the outcome to its own node and edge lists.

use vstd::prelude::*;
use crate::types::{Connection, DeleteRequest, Id, opt_view, spec_connection_edge_id};
use vstd::relations::injective_on;
use vstd::set_lib::{lemma_int_range, lemma_len_subset, lemma_map_size, set_int_range};

verus! {

/// What selection and deletion read of a node.
#[derive(Clone, Debug)]
pub struct NodeRef {
    pub id: Id,
    pub selected: bool,
    pub selectable: bool,
    pub draggable: bool,
}

/// What selection, deletion and connecting read of an edge.
#[derive(Clone, Debug)]
pub struct EdgeRef {
    pub id: Id,
    pub source: Id,
    pub target: Id,
    pub source_handle: Option<Id>,
    pub target_handle: Option<Id>,
    pub selected: bool,
    pub selectable: bool,
}

/// The index of the first node with this id.
pub open spec fn first_node(nodes: Seq<NodeRef>, id: Seq<char>) -> Option<int>
    decreases nodes.len(),
{
    if nodes.len() == 0 {
        None
    } else if nodes[0].id@ == id {
        Some(0)
    } else {
        match first_node(nodes.drop_first(), id) {
            Some(i) => Some(i + 1),
            None => None,
        }
    }
}

/// Whether the first node with this id is selected (no node: not).
pub open spec fn first_selected(nodes: Seq<NodeRef>, id: Seq<char>) -> bool {
    match first_node(nodes, id) {
        Some(i) => nodes[i].selected,
        None => false,
    }
}

/// The same nodes with only the selection flags replaced.
pub open spec fn same_but_selection(a: Seq<NodeRef>, b: Seq<NodeRef>) -> bool {
    &&& a.len() == b.len()
    &&& forall|i: int|
        #![trigger b[i]]
        0 <= i < a.len() ==> b[i].id == a[i].id && b[i].selectable == a[i].selectable && b[i].draggable
            == a[i].draggable
}

proof fn lemma_first_node(nodes: Seq<NodeRef>, id: Seq<char>)
    ensures
        first_node(nodes, id) matches Some(i) ==> 0 <= i < nodes.len() && nodes[i].id@ == id && forall|j: int|
            0 <= j < i ==> (#[trigger] nodes[j]).id@ != id,
        first_node(nodes, id) is None ==> forall|j: int| 0 <= j < nodes.len() ==> (#[trigger] nodes[j]).id@ != id,
    decreases nodes.len(),
{
    if nodes.len() > 0 && nodes[0].id@ != id {
        lemma_first_node(nodes.drop_first(), id);
        assert forall|j: int| 1 <= j < nodes.len() implies (#[trigger] nodes[j]).id@ == nodes.drop_first()[j - 1].id@ by {}
    }
}

/// The index of the first node with this id.
fn find_node(nodes: &Vec<NodeRef>, id: &Id) -> (r: Option<usize>)
    ensures
        r == (match first_node(nodes@, id@) {
            Some(i) => Some(i as usize),
            None => None,
        }),
        r matches Some(i) ==> i < nodes@.len() && first_node(nodes@, id@) == Some(i as int),
{
    proof {
        lemma_first_node(nodes@, id@);
    }
    let mut i: usize = 0;
    while i < nodes.len()
        invariant
            i <= nodes@.len(),
            forall|j: int| 0 <= j < i ==> (#[trigger] nodes@[j]).id@ != id@,
        decreases nodes@.len() - i,
    {
        if nodes[i].id == *id {
            proof {
                lemma_first_node(nodes@, id@);
                if first_node(nodes@, id@) is None {
                    assert(nodes@[i as int].id@ == id@);
                } else {
                    let f = first_node(nodes@, id@).unwrap();
                    assert(!(f < i));
                    assert(!(f > i));
                }
            }
            return Some(i);
        }
        i = i + 1;
    }
    proof {
        lemma_first_node(nodes@, id@);
        if first_node(nodes@, id@) is Some {
            let f = first_node(nodes@, id@).unwrap();
            assert(nodes@[f].id@ == id@);
        }
    }
    None
}

/// Selects the node with this id and deselects every other.
pub fn select_only(nodes: &mut Vec<NodeRef>, id: &Id)
    ensures
        same_but_selection(old(nodes)@, final(nodes)@),
        forall|i: int| 0 <= i < final(nodes)@.len() ==> (#[trigger] final(nodes)@[i]).selected == (final(nodes)@[i].id@ == id@),
{
    let ghost start = nodes@;
    let mut i: usize = 0;
    while i < nodes.len()
        invariant
            i <= nodes@.len(),
            same_but_selection(start, nodes@),
            forall|j: int| 0 <= j < i ==> (#[trigger] nodes@[j]).selected == (nodes@[j].id@ == id@),
        decreases nodes@.len() - i,
    {
        let chosen = nodes[i].id == *id;
        let node = NodeRef {
            id: nodes[i].id.clone(),
            selected: chosen,
            selectable: nodes[i].selectable,
            draggable: nodes[i].draggable,
        };
        nodes.set(i, node);
        i = i + 1;
    }
}

/// `after` is `before` with the first node of this id flipped.
pub open spec fn toggled(before: Seq<NodeRef>, id: Seq<char>, after: Seq<NodeRef>) -> bool {
    &&& same_but_selection(before, after)
    &&& forall|i: int|
        #![trigger after[i]]
        0 <= i < before.len() ==> after[i].selected == if first_node(before, id) == Some(i) {
            !before[i].selected
        } else {
            before[i].selected
        }
}

/// Only the node(s) with this id are selected.
pub open spec fn only_selected(before: Seq<NodeRef>, id: Seq<char>, after: Seq<NodeRef>) -> bool {
    &&& same_but_selection(before, after)
    &&& forall|i: int| 0 <= i < after.len() ==> (#[trigger] after[i]).selected == (after[i].id@ == id)
}

/// Flips the selection of the first node with this id.
pub fn toggle_node(nodes: &mut Vec<NodeRef>, id: &Id)
    ensures
        toggled(old(nodes)@, id@, final(nodes)@),
{
    match find_node(nodes, id) {
        Some(i) => {
            let node = NodeRef {
                id: nodes[i].id.clone(),
                selected: !nodes[i].selected,
                selectable: nodes[i].selectable,
                draggable: nodes[i].draggable,
            };
            nodes.set(i, node);
        },
        None => {},
    }
}

/// Pressing a node with the pointer: shift toggles it; a plain press on a
/// node not yet selected selects it alone (and edges lose their selection,
/// which the result reports); a plain press on a selected node keeps the
/// selection, so the whole selection can be dragged. An unselectable node
/// changes nothing.
pub fn press_node(nodes: &mut Vec<NodeRef>, id: &Id, selectable: bool, shift: bool) -> (deselect_edges: bool)
    ensures
        !selectable ==> final(nodes)@ == old(nodes)@ && !deselect_edges,
        selectable && shift ==> toggled(old(nodes)@, id@, final(nodes)@) && !deselect_edges,
        selectable && !shift && first_selected(old(nodes)@, id@) ==> final(nodes)@ == old(nodes)@ && !deselect_edges,
        selectable && !shift && !first_selected(old(nodes)@, id@) ==> only_selected(old(nodes)@, id@, final(nodes)@)
            && deselect_edges,
{
    if !selectable {
        return false;
    }
    let already = match find_node(nodes, id) {
        Some(i) => nodes[i].selected,
        None => false,
    };
    if shift {
        toggle_node(nodes, id);
        false
    } else if !already {
        select_only(nodes, id);
        true
    } else {
        false
    }
}

/// Selecting a node from the keyboard: with `toggle` its selection flips,
/// otherwise it becomes the only selected node and edges lose theirs (which
/// the result reports).
pub fn select_node(nodes: &mut Vec<NodeRef>, id: &Id, selectable: bool, toggle: bool) -> (deselect_edges: bool)
    ensures
        !selectable ==> final(nodes)@ == old(nodes)@ && !deselect_edges,
        selectable && toggle ==> toggled(old(nodes)@, id@, final(nodes)@) && !deselect_edges,
        selectable && !toggle ==> only_selected(old(nodes)@, id@, final(nodes)@) && deselect_edges,
{
    if !selectable {
        return false;
    }
    if toggle {
        toggle_node(nodes, id);
        false
    } else {
        select_only(nodes, id);
        true
    }
}

/// Toggling the same node twice restores the selection.
pub proof fn toggling_twice_restores(a: Seq<NodeRef>, id: Seq<char>, b: Seq<NodeRef>, c: Seq<NodeRef>)
    requires
        toggled(a, id, b),
        toggled(b, id, c),
    ensures
        forall|i: int| 0 <= i < a.len() ==> (#[trigger] c[i]).selected == a[i].selected && c[i].id == a[i].id,
        c.len() == a.len(),
{
    assert(first_node(b, id) == first_node(a, id)) by {
        lemma_first_node_ids(a, b, id);
    }
}

/// `first_node` reads only the ids.
proof fn lemma_first_node_ids(a: Seq<NodeRef>, b: Seq<NodeRef>, id: Seq<char>)
    requires
        a.len() == b.len(),
        forall|i: int| 0 <= i < a.len() ==> (#[trigger] b[i]).id == a[i].id,
    ensures
        first_node(a, id) == first_node(b, id),
    decreases a.len(),
{
    if a.len() > 0 {
        assert(b[0].id == a[0].id);
        lemma_first_node_ids(a.drop_first(), b.drop_first(), id);
        assert forall|i: int| 0 <= i < a.drop_first().len() implies (#[trigger] b.drop_first()[i]).id == a.drop_first()[i].id by {
            assert(b[i + 1].id == a[i + 1].id);
        }
    }
}

/// The same edges with only the selection flags replaced.
pub open spec fn edges_but_selection(a: Seq<EdgeRef>, b: Seq<EdgeRef>) -> bool {
    &&& a.len() == b.len()
    &&& forall|i: int|
        #![trigger b[i]]
        0 <= i < a.len() ==> b[i].id == a[i].id && b[i].source == a[i].source && b[i].target == a[i].target
            && b[i].source_handle == a[i].source_handle && b[i].target_handle == a[i].target_handle
            && b[i].selectable == a[i].selectable
}

fn reselect_edge(edge: &EdgeRef, selected: bool) -> (r: EdgeRef)
    ensures
        r.id == edge.id && r.source == edge.source && r.target == edge.target && r.source_handle == edge.source_handle
            && r.target_handle == edge.target_handle && r.selectable == edge.selectable,
        r.selected == selected,
{
    EdgeRef {
        id: edge.id.clone(),
        source: edge.source.clone(),
        target: edge.target.clone(),
        source_handle: match &edge.source_handle {
            Some(h) => Some(h.clone()),
            None => None,
        },
        target_handle: match &edge.target_handle {
            Some(h) => Some(h.clone()),
            None => None,
        },
        selected,
        selectable: edge.selectable,
    }
}

/// Pressing an edge: with shift every edge of this id flips; otherwise the
/// edges of this id become the only selected ones and nodes lose their
/// selection, which the result reports. An unselectable edge changes
/// nothing.
pub fn press_edge(edges: &mut Vec<EdgeRef>, id: &Id, selectable: bool, shift: bool) -> (deselect_nodes: bool)
    ensures
        !selectable ==> final(edges)@ == old(edges)@ && !deselect_nodes,
        selectable ==> edges_but_selection(old(edges)@, final(edges)@),
        selectable ==> deselect_nodes == !shift,
        selectable ==> forall|i: int|
            0 <= i < old(edges)@.len() ==> (#[trigger] final(edges)@[i]).selected == if old(edges)@[i].id@ == id@ {
                if shift { !old(edges)@[i].selected } else { true }
            } else {
                if shift { old(edges)@[i].selected } else { false }
            },
{
    if !selectable {
        return false;
    }
    let ghost start = edges@;
    let mut i: usize = 0;
    while i < edges.len()
        invariant
            i <= edges@.len(),
            edges_but_selection(start, edges@),
            forall|j: int| i <= j < edges@.len() ==> #[trigger] edges@[j] == start[j],
            forall|j: int|
                0 <= j < i ==> (#[trigger] edges@[j]).selected == if start[j].id@ == id@ {
                    if shift { !start[j].selected } else { true }
                } else {
                    if shift { start[j].selected } else { false }
                },
        decreases edges@.len() - i,
    {
        let hit = edges[i].id == *id;
        let selected = if hit {
            if shift { !edges[i].selected } else { true }
        } else {
            if shift { edges[i].selected } else { false }
        };
        let edge = reselect_edge(&edges[i], selected);
        edges.set(i, edge);
        i = i + 1;
    }
    !shift
}

/// Clears the selection of every node.
pub fn deselect_nodes(nodes: &mut Vec<NodeRef>)
    ensures
        same_but_selection(old(nodes)@, final(nodes)@),
        forall|i: int| 0 <= i < final(nodes)@.len() ==> !(#[trigger] final(nodes)@[i]).selected,
{
    let ghost start = nodes@;
    let mut i: usize = 0;
    while i < nodes.len()
        invariant
            i <= nodes@.len(),
            same_but_selection(start, nodes@),
            forall|j: int| 0 <= j < i ==> !(#[trigger] nodes@[j]).selected,
        decreases nodes@.len() - i,
    {
        let node = NodeRef {
            id: nodes[i].id.clone(),
            selected: false,
            selectable: nodes[i].selectable,
            draggable: nodes[i].draggable,
        };
        nodes.set(i, node);
        i = i + 1;
    }
}

/// Clears the selection of every edge.
pub fn deselect_edges(edges: &mut Vec<EdgeRef>)
    ensures
        edges_but_selection(old(edges)@, final(edges)@),
        forall|i: int| 0 <= i < final(edges)@.len() ==> !(#[trigger] final(edges)@[i]).selected,
{
    let ghost start = edges@;
    let mut i: usize = 0;
    while i < edges.len()
        invariant
            i <= edges@.len(),
            edges_but_selection(start, edges@),
            forall|j: int| i <= j < edges@.len() ==> #[trigger] edges@[j] == start[j],
            forall|j: int| 0 <= j < i ==> !(#[trigger] edges@[j]).selected,
        decreases edges@.len() - i,
    {
        let edge = reselect_edge(&edges[i], false);
        edges.set(i, edge);
        i = i + 1;
    }
}

/// A node a press on `id` drags along: the pressed node itself, and every
/// selected draggable node.
pub open spec fn drags_along(node: NodeRef, id: Seq<char>) -> bool {
    (node.selected && node.draggable) || node.id@ == id
}

/// The nodes (by index, in order) a press on node `id` picks up.
pub fn grabbed(nodes: &Vec<NodeRef>, id: &Id) -> (r: Vec<usize>)
    ensures
        forall|k: int| 0 <= k < r@.len() ==> #[trigger] r@[k] < nodes@.len() && drags_along(nodes@[r@[k] as int], id@),
        forall|i: int| 0 <= i < nodes@.len() && drags_along(#[trigger] nodes@[i], id@) ==> r@.contains(i as usize),
        forall|s: int, t: int| 0 <= s < t < r@.len() ==> #[trigger] r@[s] < #[trigger] r@[t],
{
    let mut r: Vec<usize> = Vec::new();
    let mut i: usize = 0;
    while i < nodes.len()
        invariant
            i <= nodes@.len(),
            forall|k: int| 0 <= k < r@.len() ==> #[trigger] r@[k] < i && drags_along(nodes@[r@[k] as int], id@),
            forall|j: int| 0 <= j < i && drags_along(#[trigger] nodes@[j], id@) ==> r@.contains(j as usize),
            forall|s: int, t: int| 0 <= s < t < r@.len() ==> #[trigger] r@[s] < #[trigger] r@[t],
        decreases nodes@.len() - i,
    {
        let ghost before = r@;
        if (nodes[i].selected && nodes[i].draggable) || nodes[i].id == *id {
            r.push(i);
            proof {
                assert(r@[r@.len() - 1] == i);
                assert(r@.contains(i));
            }
        }
        proof {
            assert forall|j: int| 0 <= j < i && drags_along(#[trigger] nodes@[j], id@) implies r@.contains(j as usize) by {
                let k = choose|k: int| 0 <= k < before.len() && before[k] == j as usize;
                assert(r@[k] == j as usize);
            }
        }
        i = i + 1;
    }
    r
}

/// A node an arrow key on node `id` moves: the whole draggable selection
/// when the focused node is selected, otherwise just the focused node.
pub open spec fn nudged_along(nodes: Seq<NodeRef>, id: Seq<char>, node: NodeRef) -> bool {
    if first_selected(nodes, id) {
        node.selected && node.draggable
    } else {
        node.id@ == id
    }
}

/// The nodes (by index, in order) an arrow key on node `id` moves.
pub fn nudged(nodes: &Vec<NodeRef>, id: &Id) -> (r: Vec<usize>)
    ensures
        forall|k: int| 0 <= k < r@.len() ==> #[trigger] r@[k] < nodes@.len() && nudged_along(nodes@, id@, nodes@[r@[k] as int]),
        forall|i: int| 0 <= i < nodes@.len() && nudged_along(nodes@, id@, #[trigger] nodes@[i]) ==> r@.contains(i as usize),
        forall|s: int, t: int| 0 <= s < t < r@.len() ==> #[trigger] r@[s] < #[trigger] r@[t],
{
    let focused_selected = match find_node(nodes, id) {
        Some(i) => nodes[i].selected,
        None => false,
    };
    let mut r: Vec<usize> = Vec::new();
    let mut i: usize = 0;
    while i < nodes.len()
        invariant
            i <= nodes@.len(),
            focused_selected == first_selected(nodes@, id@),
            forall|k: int| 0 <= k < r@.len() ==> #[trigger] r@[k] < i && nudged_along(nodes@, id@, nodes@[r@[k] as int]),
            forall|j: int| 0 <= j < i && nudged_along(nodes@, id@, #[trigger] nodes@[j]) ==> r@.contains(j as usize),
            forall|s: int, t: int| 0 <= s < t < r@.len() ==> #[trigger] r@[s] < #[trigger] r@[t],
        decreases nodes@.len() - i,
    {
        let moves = if focused_selected {
            nodes[i].selected && nodes[i].draggable
        } else {
            nodes[i].id == *id
        };
        let ghost before = r@;
        if moves {
            r.push(i);
            proof {
                assert(r@[r@.len() - 1] == i);
                assert(r@.contains(i));
            }
        }
        proof {
            assert forall|j: int| 0 <= j < i && nudged_along(nodes@, id@, #[trigger] nodes@[j]) implies r@.contains(j as usize) by {
                let k = choose|k: int| 0 <= k < before.len() && before[k] == j as usize;
                assert(r@[k] == j as usize);
            }
        }
        i = i + 1;
    }
    r
}

/// Some selected node carries this id.
pub open spec fn removed_node(nodes: Seq<NodeRef>, id: Seq<char>) -> bool {
    exists|i: int| 0 <= i < nodes.len() && (#[trigger] nodes[i]).selected && nodes[i].id@ == id
}

/// A delete takes this edge: it is selected, or it touches a node that
/// goes.
pub open spec fn edge_goes(nodes: Seq<NodeRef>, edge: EdgeRef) -> bool {
    edge.selected || removed_node(nodes, edge.source@) || removed_node(nodes, edge.target@)
}

/// The ids of the edges a delete takes, in edge order.
pub open spec fn going_edge_ids(nodes: Seq<NodeRef>, edges: Seq<EdgeRef>) -> Seq<Seq<char>>
    decreases edges.len(),
{
    if edges.len() == 0 {
        Seq::empty()
    } else {
        going_edge_ids(nodes, edges.drop_last()) + if edge_goes(nodes, edges.last()) {
            seq![edges.last().id@]
        } else {
            Seq::empty()
        }
    }
}

/// The characters of each identifier.
pub open spec fn id_views(ids: Seq<Id>) -> Seq<Seq<char>> {
    ids.map_values(|s: Id| s@)
}

/// Whether some selected node carries this id.
fn is_removed(nodes: &Vec<NodeRef>, id: &Id) -> (r: bool)
    ensures
        r == removed_node(nodes@, id@),
{
    let mut i: usize = 0;
    while i < nodes.len()
        invariant
            i <= nodes@.len(),
            forall|j: int| 0 <= j < i ==> !((#[trigger] nodes@[j]).selected && nodes@[j].id@ == id@),
        decreases nodes@.len() - i,
    {
        if nodes[i].selected && nodes[i].id == *id {
            return true;
        }
        i = i + 1;
    }
    false
}

/// Whether the edge goes in a delete.
fn goes(nodes: &Vec<NodeRef>, edge: &EdgeRef) -> (r: bool)
    ensures
        r == edge_goes(nodes@, *edge),
{
    edge.selected || is_removed(nodes, &edge.source) || is_removed(nodes, &edge.target)
}

/// What a delete keypress would remove, given the current selection: every
/// selected node's id (each once), and every edge that is selected or
/// touches a selected node.
pub fn delete_request(nodes: &Vec<NodeRef>, edges: &Vec<EdgeRef>) -> (r: DeleteRequest)
    ensures
        id_views(r.nodes@).no_duplicates(),
        forall|id: Seq<char>| id_views(r.nodes@).contains(id) <==> removed_node(nodes@, id),
        id_views(r.edges@) == going_edge_ids(nodes@, edges@),
{
    let mut ids: Vec<Id> = Vec::new();
    let mut i: usize = 0;
    while i < nodes.len()
        invariant
            i <= nodes@.len(),
            id_views(ids@).no_duplicates(),
            forall|id: Seq<char>| id_views(ids@).contains(id) <==> removed_node(nodes@.take(i as int), id),
        decreases nodes@.len() - i,
    {
        let ghost before = ids@;
        let ghost mut pushed = false;
        proof {
            assert forall|id: Seq<char>| removed_node(nodes@.take(i + 1), id) <==> (removed_node(nodes@.take(i as int), id)
                || (nodes@[i as int].selected && nodes@[i as int].id@ == id)) by {
                if removed_node(nodes@.take(i + 1), id) {
                    let j = choose|j: int| 0 <= j < i + 1 && (#[trigger] nodes@.take(i + 1)[j]).selected && nodes@.take(i + 1)[j].id@ == id;
                    if j < i {
                        assert(nodes@.take(i as int)[j] == nodes@[j]);
                    }
                }
                if removed_node(nodes@.take(i as int), id) {
                    let j = choose|j: int| 0 <= j < i && (#[trigger] nodes@.take(i as int)[j]).selected && nodes@.take(i as int)[j].id@ == id;
                    assert(nodes@.take(i + 1)[j] == nodes@[j]);
                }
                if nodes@[i as int].selected && nodes@[i as int].id@ == id {
                    assert(nodes@.take(i + 1)[i as int] == nodes@[i as int]);
                }
            }
        }
        if nodes[i].selected {
            let mut seen = false;
            let mut k: usize = 0;
            while k < ids.len()
                invariant
                    k <= ids@.len(),
                    seen == exists|m: int| 0 <= m < k && ids@[m]@ == nodes@[i as int].id@,
                    i < nodes@.len(),
                decreases ids@.len() - k,
            {
                if ids[k] == nodes[i].id {
                    seen = true;
                }
                k = k + 1;
            }
            if !seen {
                ids.push(nodes[i].id.clone());
                proof {
                    pushed = true;
                    assert(id_views(ids@) =~= id_views(before).push(nodes@[i as int].id@));
                    assert(!id_views(before).contains(nodes@[i as int].id@)) by {
                        if id_views(before).contains(nodes@[i as int].id@) {
                            let m = choose|m: int| 0 <= m < id_views(before).len() && id_views(before)[m] == nodes@[i as int].id@;
                            assert(before[m]@ == nodes@[i as int].id@);
                        }
                    }
                }
            } else {
                proof {
                    let m = choose|m: int| 0 <= m < ids@.len() && ids@[m]@ == nodes@[i as int].id@;
                    assert(id_views(ids@)[m] == nodes@[i as int].id@);
                }
            }
        }
        proof {
            if pushed {
                assert(id_views(ids@) =~= id_views(before).push(nodes@[i as int].id@));
            } else {
                assert(ids@ == before);
                if nodes@[i as int].selected {
                    assert(id_views(before).contains(nodes@[i as int].id@));
                }
            }
            assert forall|id: Seq<char>| id_views(ids@).contains(id) <==> removed_node(nodes@.take(i + 1), id) by {
                assert(id_views(before).contains(id) <==> removed_node(nodes@.take(i as int), id));
                assert(removed_node(nodes@.take(i + 1), id) <==> (removed_node(nodes@.take(i as int), id)
                    || (nodes@[i as int].selected && nodes@[i as int].id@ == id)));
                if id_views(ids@).contains(id) && !id_views(before).contains(id) {
                    let m = choose|m: int| 0 <= m < id_views(ids@).len() && id_views(ids@)[m] == id;
                    assert(pushed);
                    assert(m == before.len());
                }
                if id_views(before).contains(id) {
                    let m = choose|m: int| 0 <= m < id_views(before).len() && id_views(before)[m] == id;
                    assert(id_views(ids@)[m] == id);
                }
                if nodes@[i as int].selected && nodes@[i as int].id@ == id {
                    if pushed {
                        assert(id_views(ids@)[before.len() as int] == id);
                    }
                }
            }
        }
        i = i + 1;
    }
    proof {
        assert(nodes@.take(nodes@.len() as int) =~= nodes@);
    }
    let mut gone: Vec<Id> = Vec::new();
    let mut e: usize = 0;
    while e < edges.len()
        invariant
            e <= edges@.len(),
            id_views(gone@) == going_edge_ids(nodes@, edges@.take(e as int)),
        decreases edges@.len() - e,
    {
        proof {
            assert(edges@.take(e + 1).drop_last() =~= edges@.take(e as int));
            assert(edges@.take(e + 1).last() == edges@[e as int]);
        }
        if goes(nodes, &edges[e]) {
            gone.push(edges[e].id.clone());
            proof {
                assert(id_views(gone@) =~= going_edge_ids(nodes@, edges@.take(e as int)).push(edges@[e as int].id@));
            }
        } else {
            proof {
                assert(going_edge_ids(nodes@, edges@.take(e + 1)) =~= going_edge_ids(nodes@, edges@.take(e as int)));
            }
        }
        e = e + 1;
    }
    proof {
        assert(edges@.take(edges@.len() as int) =~= edges@);
    }
    DeleteRequest { nodes: ids, edges: gone }
}

/// Which nodes and edges survive a delete of the current selection: a node
/// survives unless selected, an edge unless it goes.
pub fn delete_plan(nodes: &Vec<NodeRef>, edges: &Vec<EdgeRef>) -> (r: (Vec<bool>, Vec<bool>))
    ensures
        r.0@.len() == nodes@.len(),
        r.1@.len() == edges@.len(),
        forall|i: int| 0 <= i < nodes@.len() ==> #[trigger] r.0@[i] == !nodes@[i].selected,
        forall|i: int| 0 <= i < edges@.len() ==> #[trigger] r.1@[i] == !edge_goes(nodes@, edges@[i]),
{
    let mut keep_nodes: Vec<bool> = Vec::new();
    let mut i: usize = 0;
    while i < nodes.len()
        invariant
            i <= nodes@.len(),
            keep_nodes@.len() == i,
            forall|j: int| 0 <= j < i ==> #[trigger] keep_nodes@[j] == !nodes@[j].selected,
        decreases nodes@.len() - i,
    {
        keep_nodes.push(!nodes[i].selected);
        i = i + 1;
    }
    let mut keep_edges: Vec<bool> = Vec::new();
    let mut e: usize = 0;
    while e < edges.len()
        invariant
            e <= edges@.len(),
            keep_edges@.len() == e,
            forall|j: int| 0 <= j < e ==> #[trigger] keep_edges@[j] == !edge_goes(nodes@, edges@[j]),
        decreases edges@.len() - e,
    {
        keep_edges.push(!goes(nodes, &edges[e]));
        e = e + 1;
    }
    (keep_nodes, keep_edges)
}

/// The items whose flag is set, in order.
pub open spec fn kept<T>(items: Seq<T>, keep: Seq<bool>) -> Seq<T>
    decreases items.len(),
{
    if items.len() == 0 {
        Seq::empty()
    } else {
        kept(items.drop_last(), keep) + if keep[items.len() - 1] {
            seq![items.last()]
        } else {
            Seq::empty()
        }
    }
}

proof fn lemma_kept_extend<T>(items: Seq<T>, keep: Seq<bool>, j: int)
    requires
        0 <= j < items.len(),
    ensures
        kept(items.take(j + 1), keep) == kept(items.take(j), keep) + if keep[j] {
            seq![items[j]]
        } else {
            Seq::empty()
        },
{
    assert(items.take(j + 1).drop_last() =~= items.take(j));
    assert(items.take(j + 1).last() == items[j]);
}

/// Keeps the items whose flag is set, in order, and drops the rest.
pub fn retain_marked<T>(items: &mut Vec<T>, keep: &Vec<bool>)
    requires
        old(items)@.len() == keep@.len(),
    ensures
        final(items)@ == kept(old(items)@, keep@),
{
    let ghost start = items@;
    let mut j: usize = items.len();
    proof {
        assert(start.take(start.len() as int) =~= start);
        assert(start.skip(start.len() as int) =~= Seq::<T>::empty());
    }
    while j > 0
        invariant
            j <= start.len(),
            start.len() == keep@.len(),
            items@ == start.take(j as int) + (kept(start, keep@).skip(kept(start.take(j as int), keep@).len() as int)),
            kept(start.take(j as int), keep@).len() <= kept(start, keep@).len(),
            kept(start, keep@) == kept(start.take(j as int), keep@) + kept(start, keep@).skip(kept(start.take(j as int), keep@).len() as int),
        decreases j,
    {
        let i = j - 1;
        proof {
            lemma_kept_extend(start, keep@, i as int);
        }
        let ghost tail = kept(start, keep@).skip(kept(start.take(j as int), keep@).len() as int);
        if !keep[i] {
            items.remove(i);
            proof {
                assert(items@ =~= start.take(i as int) + tail);
                assert(kept(start.take(j as int), keep@) == kept(start.take(i as int), keep@));
            }
        } else {
            proof {
                let k = kept(start.take(i as int), keep@);
                assert(kept(start.take(j as int), keep@) == k.push(start[i as int]));
                assert(kept(start, keep@).skip(k.len() as int) =~= seq![start[i as int]] + tail);
                assert(items@ =~= start.take(i as int) + kept(start, keep@).skip(k.len() as int));
                assert(kept(start, keep@) =~= k + kept(start, keep@).skip(k.len() as int));
            }
        }
        j = i;
    }
    proof {
        assert(start.take(0) =~= Seq::<T>::empty());
        assert(kept(start.take(0), keep@) =~= Seq::<T>::empty());
        assert(items@ =~= kept(start, keep@).skip(0));
    }
}

/// What `kept` returns is no longer than the list.
proof fn lemma_kept_len<T>(items: Seq<T>, keep: Seq<bool>)
    ensures
        kept(items, keep).len() <= items.len(),
    decreases items.len(),
{
    if items.len() > 0 {
        lemma_kept_len(items.drop_last(), keep);
    }
}

/// Each item `kept` returns was in the list with its flag set.
proof fn lemma_kept_member<T>(items: Seq<T>, keep: Seq<bool>, j: int) -> (i: int)
    requires
        0 <= j < kept(items, keep).len(),
    ensures
        0 <= i < items.len(),
        keep[i],
        kept(items, keep)[j] == items[i],
    decreases items.len(),
{
    let rest = items.drop_last();
    lemma_kept_len(rest, keep);
    if j < kept(rest, keep).len() {
        let i = lemma_kept_member(rest, keep, j);
        assert(items[i] == rest[i]);
        i
    } else {
        items.len() - 1
    }
}

/// When no edge goes, a delete takes no edge.
proof fn lemma_nothing_goes(nodes: Seq<NodeRef>, edges: Seq<EdgeRef>)
    requires
        forall|i: int| 0 <= i < edges.len() ==> !edge_goes(nodes, #[trigger] edges[i]),
    ensures
        going_edge_ids(nodes, edges) == Seq::<Seq<char>>::empty(),
    decreases edges.len(),
{
    if edges.len() > 0 {
        lemma_nothing_goes(nodes, edges.drop_last());
        assert(!edge_goes(nodes, edges[edges.len() - 1]));
        assert(going_edge_ids(nodes, edges) =~= Seq::<Seq<char>>::empty());
    }
}

/// After a delete nothing is left selected, no surviving edge touches a
/// deleted node, and deleting again would remove nothing.
pub proof fn deleting_leaves_nothing_to_delete(
    nodes: Seq<NodeRef>,
    edges: Seq<EdgeRef>,
    keep_nodes: Seq<bool>,
    keep_edges: Seq<bool>,
)
    requires
        keep_nodes.len() == nodes.len(),
        keep_edges.len() == edges.len(),
        forall|i: int| 0 <= i < nodes.len() ==> #[trigger] keep_nodes[i] == !nodes[i].selected,
        forall|i: int| 0 <= i < edges.len() ==> #[trigger] keep_edges[i] == !edge_goes(nodes, edges[i]),
    ensures
        forall|i: int| 0 <= i < kept(nodes, keep_nodes).len() ==> !(#[trigger] kept(nodes, keep_nodes)[i]).selected,
        forall|i: int|
            0 <= i < kept(edges, keep_edges).len() ==> !removed_node(nodes, (#[trigger] kept(edges, keep_edges)[i]).source@)
                && !removed_node(nodes, kept(edges, keep_edges)[i].target@),
        forall|id: Seq<char>| !removed_node(kept(nodes, keep_nodes), id),
        going_edge_ids(kept(nodes, keep_nodes), kept(edges, keep_edges)) == Seq::<Seq<char>>::empty(),
{
    let n2 = kept(nodes, keep_nodes);
    let e2 = kept(edges, keep_edges);
    assert forall|i: int| 0 <= i < n2.len() implies !(#[trigger] n2[i]).selected by {
        let j = lemma_kept_member(nodes, keep_nodes, i);
    }
    assert forall|id: Seq<char>| !removed_node(n2, id) by {
        if removed_node(n2, id) {
            let i = choose|i: int| 0 <= i < n2.len() && (#[trigger] n2[i]).selected && n2[i].id@ == id;
        }
    }
    assert forall|i: int| 0 <= i < e2.len() implies !removed_node(nodes, (#[trigger] e2[i]).source@) && !removed_node(nodes, e2[i].target@)
        && !edge_goes(n2, e2[i]) by {
        let j = lemma_kept_member(edges, keep_edges, i);
    }
    lemma_nothing_goes(n2, e2);
}

// ---------------------------------------------------------------------------
// Adding the edge for a new connection
// ---------------------------------------------------------------------------

/// The character of a decimal digit.
pub open spec fn digit_char(d: nat) -> char {
    if d == 0 {
        '0'
    } else if d == 1 {
        '1'
    } else if d == 2 {
        '2'
    } else if d == 3 {
        '3'
    } else if d == 4 {
        '4'
    } else if d == 5 {
        '5'
    } else if d == 6 {
        '6'
    } else if d == 7 {
        '7'
    } else if d == 8 {
        '8'
    } else {
        '9'
    }
}

/// The decimal digits of `n`, most significant first, with no leading
/// zeros.
pub open spec fn spec_decimal(n: nat) -> Seq<char>
    decreases n,
{
    if n < 10 {
        seq![digit_char(n)]
    } else {
        spec_decimal(n / 10) + seq![digit_char(n % 10)]
    }
}

/// The one-character string of a decimal digit.
fn digit_str(d: u128) -> (r: &'static str)
    requires
        d < 10,
    ensures
        r@ == seq![digit_char(d as nat)],
{
    if d == 0 {
        proof {
            reveal_strlit("0");
        }
        "0"
    } else if d == 1 {
        proof {
            reveal_strlit("1");
        }
        "1"
    } else if d == 2 {
        proof {
            reveal_strlit("2");
        }
        "2"
    } else if d == 3 {
        proof {
            reveal_strlit("3");
        }
        "3"
    } else if d == 4 {
        proof {
            reveal_strlit("4");
        }
        "4"
    } else if d == 5 {
        proof {
            reveal_strlit("5");
        }
        "5"
    } else if d == 6 {
        proof {
            reveal_strlit("6");
        }
        "6"
    } else if d == 7 {
        proof {
            reveal_strlit("7");
        }
        "7"
    } else if d == 8 {
        proof {
            reveal_strlit("8");
        }
        "8"
    } else {
        proof {
            reveal_strlit("9");
        }
        "9"
    }
}

/// The decimal form of `n`: its digits with no sign, padding or leading
/// zeros.
fn decimal(n: u128) -> (r: String)
    ensures
        r@ == spec_decimal(n as nat),
    decreases n,
{
    let last = digit_str(n % 10);
    if n < 10 {
        String::from_str(last)
    } else {
        let head = decimal(n / 10);
        head.concat(last)
    }
}

/// Distinct numbers have distinct decimal forms.
proof fn lemma_decimal_injective(a: nat, b: nat)
    requires
        spec_decimal(a) == spec_decimal(b),
    ensures
        a == b,
    decreases a,
{
    if a >= 10 && b >= 10 {
        let da = spec_decimal(a);
        assert(da.drop_last() =~= spec_decimal(a / 10));
        assert(spec_decimal(b).drop_last() =~= spec_decimal(b / 10));
        lemma_decimal_injective(a / 10, b / 10);
        assert(da.last() == digit_char(a % 10));
        assert(spec_decimal(b).last() == digit_char(b % 10));
    } else if a >= 10 {
        assert(spec_decimal(a).len() == spec_decimal(a / 10).len() + 1);
        lemma_decimal_nonempty((a / 10) as nat);
    } else if b >= 10 {
        assert(spec_decimal(b).len() == spec_decimal(b / 10).len() + 1);
        lemma_decimal_nonempty((b / 10) as nat);
    } else {
        assert(spec_decimal(a)[0] == digit_char(a));
    }
}

proof fn lemma_decimal_nonempty(n: nat)
    ensures
        spec_decimal(n).len() >= 1,
    decreases n,
{
    if n >= 10 {
        lemma_decimal_nonempty(n / 10);
    }
}

/// The `k`-th id tried for a new edge: the base id itself, then the base
/// with `-2`, `-3`, ... appended.
pub open spec fn candidate_id(base: Seq<char>, k: nat) -> Seq<char> {
    if k <= 1 {
        base
    } else {
        base + "-"@ + spec_decimal(k)
    }
}

/// No two tries give the same id.
proof fn lemma_candidates_differ(base: Seq<char>, a: nat, b: nat)
    requires
        1 <= a,
        1 <= b,
        candidate_id(base, a) == candidate_id(base, b),
    ensures
        a == b,
{
    reveal_strlit("-");
    if a >= 2 && b >= 2 {
        let pa = base + "-"@;
        assert(candidate_id(base, a).skip(pa.len() as int) =~= spec_decimal(a));
        assert(candidate_id(base, b).skip(pa.len() as int) =~= spec_decimal(b));
        lemma_decimal_injective(a, b);
    } else if a >= 2 {
        assert(candidate_id(base, a).len() > base.len());
    } else if b >= 2 {
        assert(candidate_id(base, b).len() > base.len());
    }
}

/// Ids `1..=k` all taken means there are at least `k` ids.
proof fn lemma_candidates_fit(base: Seq<char>, ids: Seq<Seq<char>>, k: nat)
    requires
        forall|j: int| 1 <= j <= k ==> ids.contains(#[trigger] candidate_id(base, j as nat)),
    ensures
        k <= ids.len(),
{
    let tries = set_int_range(1, k as int + 1);
    lemma_int_range(1, k as int + 1);
    let f = |j: int| candidate_id(base, j as nat);
    let named = tries.map(f);
    assert(injective_on(f, tries)) by {
        assert forall|x1: int, x2: int| tries.contains(x1) && tries.contains(x2) && #[trigger] f(x1) == #[trigger] f(x2) implies x1 == x2 by {
            lemma_candidates_differ(base, x1 as nat, x2 as nat);
        }
    }
    lemma_map_size(tries, named, f);
    assert(named.subset_of(ids.to_set())) by {
        assert forall|x: Seq<char>| named.contains(x) implies ids.to_set().contains(x) by {
            let j = choose|j: int| tries.contains(j) && f(j) == x;
            assert(ids.contains(candidate_id(base, j as nat)));
        }
    }
    lemma_len_subset(named, ids.to_set());
    ids.lemma_cardinality_of_set();
}

/// The id of each edge.
pub open spec fn edge_ids(edges: Seq<EdgeRef>) -> Seq<Seq<char>> {
    edges.map_values(|e: EdgeRef| e.id@)
}

/// An existing edge already joins exactly these ends.
pub open spec fn same_ends(edge: EdgeRef, c: (Seq<char>, Seq<char>, Option<Seq<char>>, Option<Seq<char>>)) -> bool {
    edge.source@ == c.0 && edge.target@ == c.1 && opt_view(edge.source_handle) == c.2 && opt_view(edge.target_handle)
        == c.3
}

/// Some edge has this id.
pub open spec fn id_taken(edges: Seq<EdgeRef>, id: Seq<char>) -> bool {
    exists|i: int| 0 <= i < edges.len() && (#[trigger] edges[i]).id@ == id
}

fn same_name(a: &Option<Id>, b: &Option<Id>) -> (r: bool)
    ensures
        r == (opt_view(*a) == opt_view(*b)),
{
    match (a, b) {
        (Some(x), Some(y)) => *x == *y,
        (None, None) => true,
        _ => false,
    }
}

fn has_id(edges: &Vec<EdgeRef>, id: &String) -> (r: bool)
    ensures
        r == id_taken(edges@, id@),
{
    let mut i: usize = 0;
    while i < edges.len()
        invariant
            i <= edges@.len(),
            forall|j: int| 0 <= j < i ==> (#[trigger] edges@[j]).id@ != id@,
        decreases edges@.len() - i,
    {
        if edges[i].id == *id {
            return true;
        }
        i = i + 1;
    }
    false
}

/// The id the edge for a new connection gets, or `None` when an edge with
/// exactly these ends and handles already exists. The id is the
/// connection's own edge id, or failing that the first of `-2`, `-3`, ...
/// appended to it that no edge has yet.
pub fn new_edge_id(edges: &Vec<EdgeRef>, conn: &Connection) -> (r: Option<String>)
    ensures
        r is None <==> exists|i: int| 0 <= i < edges@.len() && same_ends(#[trigger] edges@[i], conn@),
        r matches Some(id) ==> exists|k: nat|
            1 <= k <= edges@.len() + 1 && id@ == candidate_id(spec_connection_edge_id(conn@), k) && !id_taken(edges@, id@)
                && forall|j: nat| 1 <= j < k ==> id_taken(edges@, #[trigger] candidate_id(spec_connection_edge_id(conn@), j)),
{
    let mut i: usize = 0;
    while i < edges.len()
        invariant
            i <= edges@.len(),
            forall|j: int| 0 <= j < i ==> !same_ends(#[trigger] edges@[j], conn@),
        decreases edges@.len() - i,
    {
        let e = &edges[i];
        if e.source == conn.source && e.target == conn.target && same_name(&e.source_handle, &conn.source_handle)
            && same_name(&e.target_handle, &conn.target_handle) {
            return None;
        }
        i = i + 1;
    }
    let base = conn.edge_id();
    let ghost b = base@;
    let ghost ids = edge_ids(edges@);
    let mut id = base.clone();
    let mut k: u128 = 1;
    let total = edges.len();
    while has_id(edges, &id)
        invariant
            total == edges@.len(),
            b == spec_connection_edge_id(conn@),
            base@ == b,
            ids == edge_ids(edges@),
            1 <= k <= edges@.len() + 1,
            id@ == candidate_id(b, k as nat),
            forall|j: nat| 1 <= j < k ==> id_taken(edges@, #[trigger] candidate_id(b, j)),
        decreases edges@.len() + 1 - k,
    {
        proof {
            assert forall|j: int| 1 <= j <= k implies ids.contains(#[trigger] candidate_id(b, j as nat)) by {
                let c = candidate_id(b, j as nat);
                assert(id_taken(edges@, c));
                let e = choose|e: int| 0 <= e < edges@.len() && (#[trigger] edges@[e]).id@ == c;
                assert(ids[e] == c);
            }
            lemma_candidates_fit(b, ids, k as nat);
        }
        k = k + 1;
        let digits = decimal(k);
        id = base.clone().concat("-").concat(digits.as_str());
    }
    Some(id)
}

/// A connection is a duplicate of an edge exactly when the two agree on all
/// four ends: source, target, source handle and target handle. An edge that
/// differs in any one of them, a handle included, leaves room for a new one.
pub proof fn a_duplicate_matches_all_four_ends(edge: EdgeRef, conn: Connection)
    ensures
        same_ends(edge, conn@) <==> (edge.source@ == conn.source@ && edge.target@ == conn.target@ && opt_view(
            edge.source_handle,
        ) == opt_view(conn.source_handle) && opt_view(edge.target_handle) == opt_view(conn.target_handle)),
{
}

} // verus!
