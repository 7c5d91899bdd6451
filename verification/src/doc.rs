//! The live document model and the path resolver.
//!
//! The live document is an arena: nodes live in one flat vector and are
//! addressed by stable indices, children appear after their parent, and
//! every node keeps a link to its parent. Indices stand for node identity,
//! the way a host document's node references do; a removed node stays in
//! the arena, detached, so indices never shift. "Find node by path" walks
//! child links downward; "path from node" walks parent links upward,
//! finding each node's position among its parent's children by an identity
//! scan — the two directions are proved to agree ([`lemma_path_round_trip`]).
//!
//! [`LiveDoc::apply_diff`] is the patch applier: each entry resolves its
//! path against the current arena and edits the parent's child list in
//! place, and the whole run is proved to rewrite the document's tree view
//! exactly as [`apply_ops`] says.

use vstd::prelude::*;

use crate::apply::apply_op;
use crate::apply::apply_ops;
use crate::apply::insert_clamped;
use crate::apply::lemma_apply_ops_concat;
use crate::apply::lemma_apply_ops_single;
use crate::diff::clone_path;
use crate::diff::patch_view;
use crate::diff::Diff;
use crate::diff::DiffEntry;
use crate::diff::DiffOperation;
use crate::diff::EntryV;
use crate::tree::attrs_view;
use crate::tree::clone_attrs;
use crate::tree::lemma_node_at_concat;
use crate::tree::lemma_node_at_single;
use crate::tree::lemma_replace_at_concat;
use crate::tree::lemma_replace_at_single;
use crate::tree::node_at;
use crate::tree::replace_at;
use crate::tree::BareToken;
use crate::tree::TokenV;

verus! {

/// What one live node is: an element with a tag and attributes, or text.
pub enum LiveKind {
    Elem { tag: String, attrs: Vec<(String, String)> },
    Text { text: String },
}

/// One arena slot: the node's own data plus the links that give the
/// document its shape.
pub struct LiveNode {
    pub kind: LiveKind,
    pub parent: Option<usize>,
    pub children: Vec<usize>,
}

/// The live document: an arena of nodes and the index of its root.
pub struct LiveDoc {
    pub nodes: Vec<LiveNode>,
    pub root: usize,
}

/// Every child link points forward and stays in bounds: children come
/// after their parent in the arena.
pub open spec fn links_ok(nodes: Seq<LiveNode>) -> bool {
    forall|j: int, k: int|
        0 <= j < nodes.len() && 0 <= k < nodes[j].children@.len()
            ==> j < (#[trigger] nodes[j].children@[k]) < nodes.len()
}

/// Every child's parent link points back at the one node that lists it,
/// and every parent link points backward in the arena.
pub open spec fn parents_ok(nodes: Seq<LiveNode>) -> bool {
    &&& forall|j: int, k: int|
        0 <= j < nodes.len() && 0 <= k < nodes[j].children@.len()
            ==> nodes[(#[trigger] nodes[j].children@[k]) as int].parent == Some(j as usize)
    &&& forall|j: int|
        0 <= j < nodes.len() && (#[trigger] nodes[j].parent) is Some ==> nodes[j].parent->0 < j
}

/// No node appears twice in one child list.
pub open spec fn siblings_unique(nodes: Seq<LiveNode>) -> bool {
    forall|j: int, k1: int, k2: int|
        0 <= j < nodes.len() && 0 <= k1 < nodes[j].children@.len()
            && 0 <= k2 < nodes[j].children@.len()
            && (#[trigger] nodes[j].children@[k1]) == (#[trigger] nodes[j].children@[k2])
            ==> k1 == k2
}

/// Text nodes have no children.
pub open spec fn texts_childless(nodes: Seq<LiveNode>) -> bool {
    forall|j: int|
        0 <= j < nodes.len() && (#[trigger] nodes[j].kind) is Text
            ==> nodes[j].children@.len() == 0
}

/// A well-formed arena.
pub open spec fn nodes_wf(nodes: Seq<LiveNode>) -> bool {
    links_ok(nodes) && parents_ok(nodes) && siblings_unique(nodes) && texts_childless(nodes)
}

impl LiveDoc {
    /// A well-formed live document: a well-formed arena whose root is in
    /// bounds and detached from any parent.
    pub open spec fn wf(&self) -> bool {
        &&& nodes_wf(self.nodes@)
        &&& (self.root as int) < self.nodes@.len()
        &&& self.nodes@[self.root as int].parent is None
    }

    /// The document's shape as a snapshot tree, read off the arena from
    /// its root.
    pub open spec fn tree(&self) -> TokenV {
        subtree(self.nodes@, self.root as int)
    }
}

/// The tree hanging off arena slot `i`.
pub open spec fn subtree(nodes: Seq<LiveNode>, i: int) -> TokenV
    decreases nodes.len() - i,
        when 0 <= i < nodes.len() && links_ok(nodes)
{
    match nodes[i].kind {
        LiveKind::Text { text } => TokenV::Text { text: text@ },
        LiveKind::Elem { tag, attrs } => TokenV::Elem {
            tag: tag@,
            attrs: attrs_view(attrs@),
            children: Seq::new(
                nodes[i].children@.len(),
                // the range test keeps the recursion well-founded
                |k: int|
                    if 0 <= k < nodes[i].children@.len() {
                        subtree(nodes, nodes[i].children@[k] as int)
                    } else {
                        TokenV::Text { text: Seq::empty() }
                    },
            ),
        },
    }
}

/// Descending from slot `i` by the child indices in `q` ends at slot `j`.
pub open spec fn points_to(nodes: Seq<LiveNode>, i: int, q: Seq<usize>, j: int) -> bool
    decreases q.len(),
{
    if q.len() == 0 {
        i == j
    } else {
        &&& 0 <= i < nodes.len()
        &&& (q[0] as int) < nodes[i].children@.len()
        &&& points_to(nodes, nodes[i].children@[q[0] as int] as int, q.drop_first(), j)
    }
}

/// Slot `j` lies in the tree hanging off slot `i`.
pub open spec fn in_subtree(nodes: Seq<LiveNode>, i: int, j: int) -> bool
    decreases nodes.len() - i,
        when 0 <= i < nodes.len() && links_ok(nodes)
{
    i == j || exists|k: int|
        0 <= k < nodes[i].children@.len() && in_subtree(
            nodes,
            #[trigger] nodes[i].children@[k] as int,
            j,
        )
}

/// Slot `x` lies on the parent chain above slot `j` (or is `j`).
pub open spec fn up_reach(nodes: Seq<LiveNode>, j: int, x: int) -> bool
    decreases j,
        when 0 <= j < nodes.len() && parents_ok(nodes)
{
    j == x || (nodes[j].parent matches Some(p) && up_reach(nodes, p as int, x))
}

/// A subtree only holds slots at or after its own.
proof fn lemma_in_subtree_range(nodes: Seq<LiveNode>, i: int, j: int)
    requires
        links_ok(nodes),
        0 <= i < nodes.len(),
        in_subtree(nodes, i, j),
    ensures
        i <= j < nodes.len(),
    decreases nodes.len() - i,
{
    if i != j {
        let k = choose|k: int|
            0 <= k < nodes[i].children@.len() && in_subtree(
                nodes,
                #[trigger] nodes[i].children@[k] as int,
                j,
            );
        lemma_in_subtree_range(nodes, nodes[i].children@[k] as int, j);
    }
}

/// Where a path points, the subtree lies.
proof fn lemma_points_to_in_subtree(nodes: Seq<LiveNode>, i: int, q: Seq<usize>, j: int)
    requires
        links_ok(nodes),
        0 <= i < nodes.len(),
        points_to(nodes, i, q, j),
    ensures
        in_subtree(nodes, i, j),
    decreases q.len(),
{
    if q.len() > 0 {
        let c = nodes[i].children@[q[0] as int] as int;
        lemma_points_to_in_subtree(nodes, c, q.drop_first(), j);
        assert(in_subtree(nodes, nodes[i].children@[q[0] as int] as int, j));
    }
}

/// Arena descent and tree resolution agree: where `q` points from `i`,
/// the tree at `i` resolves `q` to that slot's subtree.
proof fn lemma_points_to_node_at(nodes: Seq<LiveNode>, i: int, q: Seq<usize>, j: int)
    requires
        links_ok(nodes),
        texts_childless(nodes),
        0 <= i < nodes.len(),
        points_to(nodes, i, q, j),
    ensures
        i <= j < nodes.len(),
        node_at(subtree(nodes, i), q) == Some(subtree(nodes, j)),
    decreases q.len(),
{
    if q.len() > 0 {
        let c = nodes[i].children@[q[0] as int] as int;
        lemma_points_to_node_at(nodes, c, q.drop_first(), j);
        match nodes[i].kind {
            LiveKind::Elem { .. } => {
                assert(subtree(nodes, i)->Elem_children[q[0] as int] == subtree(nodes, c));
            },
            LiveKind::Text { .. } => {},
        }
    }
}

/// Slot `x` has the same kind and child links in both arenas; parent
/// links may differ, since the tree view never reads them.
pub open spec fn same_shape_at(nodes1: Seq<LiveNode>, nodes2: Seq<LiveNode>, x: int) -> bool {
    &&& nodes2[x].kind == nodes1[x].kind
    &&& nodes2[x].children == nodes1[x].children
}

/// Two arenas that agree in shape on every slot of a subtree give it the
/// same tree.
proof fn lemma_subtree_agree(nodes1: Seq<LiveNode>, nodes2: Seq<LiveNode>, i: int)
    requires
        links_ok(nodes1),
        links_ok(nodes2),
        0 <= i < nodes1.len(),
        forall|j: int|
            #[trigger] in_subtree(nodes1, i, j) ==> j < nodes2.len() && same_shape_at(
                nodes1,
                nodes2,
                j,
            ),
    ensures
        subtree(nodes2, i) == subtree(nodes1, i),
    decreases nodes1.len() - i,
{
    assert(in_subtree(nodes1, i, i));
    match nodes1[i].kind {
        LiveKind::Text { .. } => {},
        LiveKind::Elem { .. } => {
            let cs = nodes1[i].children@;
            assert forall|k: int| 0 <= k < cs.len() implies subtree(nodes2, cs[k] as int)
                == subtree(nodes1, cs[k] as int) by {
                let c = cs[k] as int;
                assert forall|j: int| #[trigger] in_subtree(nodes1, c, j) implies j
                    < nodes2.len() && same_shape_at(nodes1, nodes2, j) by {
                    assert(in_subtree(nodes1, nodes1[i].children@[k] as int, j));
                    assert(in_subtree(nodes1, i, j));
                }
                lemma_subtree_agree(nodes1, nodes2, c);
            }
            assert(subtree(nodes2, i)->Elem_children =~= subtree(nodes1, i)->Elem_children);
            assert(subtree(nodes2, i) =~= subtree(nodes1, i));
        },
    }
}

/// An arena extended past its end keeps every old subtree.
proof fn lemma_subtree_extend(nodes1: Seq<LiveNode>, nodes2: Seq<LiveNode>, i: int)
    requires
        links_ok(nodes1),
        links_ok(nodes2),
        nodes1.len() <= nodes2.len(),
        nodes2.take(nodes1.len() as int) == nodes1,
        0 <= i < nodes1.len(),
    ensures
        subtree(nodes2, i) == subtree(nodes1, i),
{
    assert forall|j: int| #[trigger] in_subtree(nodes1, i, j) implies j < nodes2.len()
        && same_shape_at(nodes1, nodes2, j) by {
        lemma_in_subtree_range(nodes1, i, j);
        assert(nodes2[j] == nodes2.take(nodes1.len() as int)[j]);
    }
    lemma_subtree_agree(nodes1, nodes2, i);
}

/// Descent by child links survives any change that keeps the slots on its
/// way unchanged in shape; in particular, extending the arena.
proof fn lemma_points_to_frame(nodes1: Seq<LiveNode>, nodes2: Seq<LiveNode>, i: int, q: Seq<usize>, j: int)
    requires
        nodes1.len() <= nodes2.len(),
        nodes2.take(nodes1.len() as int) == nodes1,
        0 <= i < nodes1.len(),
        points_to(nodes1, i, q, j),
    ensures
        points_to(nodes2, i, q, j),
    decreases q.len(),
{
    if q.len() > 0 {
        assert(nodes2[i] == nodes2.take(nodes1.len() as int)[i]);
        let c = nodes1[i].children@[q[0] as int] as int;
        assert(points_to(nodes1, c, q.drop_first(), j));
        if q.drop_first().len() > 0 {
            assert(0 <= c < nodes1.len());
            lemma_points_to_frame(nodes1, nodes2, c, q.drop_first(), j);
        } else {
            assert(c == j);
            assert(points_to(nodes2, c, q.drop_first(), j));
        }
    }
}

/// Descent is deterministic: one path leads from one slot to one slot.
/// This is the path-resolver round trip: the path computed for a live
/// node, resolved again, leads back to exactly that node.
pub proof fn lemma_path_round_trip(
    nodes: Seq<LiveNode>,
    i: int,
    q: Seq<usize>,
    j1: int,
    j2: int,
)
    requires
        points_to(nodes, i, q, j1),
        points_to(nodes, i, q, j2),
    ensures
        j1 == j2,
    decreases q.len(),
{
    if q.len() > 0 {
        lemma_path_round_trip(
            nodes,
            nodes[i].children@[q[0] as int] as int,
            q.drop_first(),
            j1,
            j2,
        );
    }
}

/// Appending one more child index to a descent.
proof fn lemma_points_to_snoc(nodes: Seq<LiveNode>, i: int, q: Seq<usize>, j: int, seg: usize)
    requires
        points_to(nodes, i, q, j),
        0 <= j < nodes.len(),
        (seg as int) < nodes[j].children@.len(),
    ensures
        points_to(nodes, i, q.push(seg), nodes[j].children@[seg as int] as int),
    decreases q.len(),
{
    let c = nodes[j].children@[seg as int] as int;
    if q.len() == 0 {
        assert(q.push(seg)[0] == seg);
        assert(q.push(seg).drop_first() =~= Seq::<usize>::empty());
        assert(points_to(nodes, c, Seq::<usize>::empty(), c));
    } else {
        assert(q.push(seg)[0] == q[0]);
        assert(q.push(seg).drop_first() =~= q.drop_first().push(seg));
        lemma_points_to_snoc(
            nodes,
            nodes[i].children@[q[0] as int] as int,
            q.drop_first(),
            j,
            seg,
        );
    }
}

/// The one change of shape at the slot a path points to rewrites the tree
/// exactly at that path: the whole arena-mutation story, reduced to
/// `replace_at`.
proof fn lemma_subtree_update(
    nodes1: Seq<LiveNode>,
    nodes2: Seq<LiveNode>,
    i: int,
    q: Seq<usize>,
    j: int,
)
    requires
        links_ok(nodes1),
        parents_ok(nodes1),
        siblings_unique(nodes1),
        texts_childless(nodes1),
        links_ok(nodes2),
        0 <= i < nodes1.len(),
        nodes1.len() <= nodes2.len(),
        points_to(nodes1, i, q, j),
        forall|x: int| 0 <= x < nodes1.len() && x != j ==> same_shape_at(nodes1, nodes2, x),
    ensures
        subtree(nodes2, i) == replace_at(subtree(nodes1, i), q, subtree(nodes2, j)),
    decreases q.len(),
{
    if q.len() == 0 {
    } else {
        let k = q[0] as int;
        let c = nodes1[i].children@[k] as int;
        lemma_points_to_in_subtree(nodes1, c, q.drop_first(), j);
        lemma_in_subtree_range(nodes1, c, j);
        assert(i != j);
        assert(same_shape_at(nodes1, nodes2, i));
        lemma_subtree_update(nodes1, nodes2, c, q.drop_first(), j);
        let cs = nodes1[i].children@;
        assert forall|m: int| 0 <= m < cs.len() && m != k implies subtree(nodes2, cs[m] as int)
            == subtree(nodes1, cs[m] as int) by {
            let cm = cs[m] as int;
            lemma_sibling_subtrees_disjoint(nodes1, i, k, m, j);
            assert forall|x: int| #[trigger] in_subtree(nodes1, cm, x) implies x < nodes2.len()
                && same_shape_at(nodes1, nodes2, x) by {
                lemma_in_subtree_range(nodes1, cm, x);
            }
            lemma_subtree_agree(nodes1, nodes2, cm);
        }
        match nodes1[i].kind {
            LiveKind::Elem { .. } => {
                lemma_points_to_node_at(nodes1, c, q.drop_first(), j);
                assert(subtree(nodes1, i)->Elem_children[k] == subtree(nodes1, c));
                assert(subtree(nodes2, i)->Elem_children =~= subtree(
                    nodes1,
                    i,
                )->Elem_children.update(k, subtree(nodes2, c)));
                assert(replace_at(subtree(nodes1, i), q, subtree(nodes2, j)) == (TokenV::Elem {
                    tag: subtree(nodes1, i)->Elem_tag,
                    attrs: subtree(nodes1, i)->Elem_attrs,
                    children: subtree(nodes1, i)->Elem_children.update(
                        k,
                        replace_at(subtree(nodes1, c), q.drop_first(), subtree(nodes2, j)),
                    ),
                }));
                assert(subtree(nodes2, i) =~= replace_at(
                    subtree(nodes1, i),
                    q,
                    subtree(nodes2, j),
                ));
            },
            LiveKind::Text { .. } => {
                assert(false);
            },
        }
    }
}

/// The parent chain only walks to earlier slots.
proof fn lemma_up_reach_le(nodes: Seq<LiveNode>, j: int, x: int)
    requires
        parents_ok(nodes),
        0 <= j < nodes.len(),
        up_reach(nodes, j, x),
    ensures
        x <= j,
    decreases j,
{
    if j != x {
        match nodes[j].parent {
            Option::Some(p) => {
                lemma_up_reach_le(nodes, p as int, x);
            },
            Option::None => {},
        }
    }
}

/// The parent chain is transitive.
proof fn lemma_up_reach_trans(nodes: Seq<LiveNode>, j: int, y: int, x: int)
    requires
        parents_ok(nodes),
        0 <= j < nodes.len(),
        up_reach(nodes, j, y),
        up_reach(nodes, y, x),
    ensures
        up_reach(nodes, j, x),
    decreases j,
{
    if j != y {
        match nodes[j].parent {
            Option::Some(p) => {
                lemma_up_reach_trans(nodes, p as int, y, x);
            },
            Option::None => {},
        }
    }
}

/// Two ancestors of one slot lie on one chain: one is an ancestor of the
/// other.
proof fn lemma_up_reach_total(nodes: Seq<LiveNode>, j: int, a: int, b: int)
    requires
        parents_ok(nodes),
        0 <= j < nodes.len(),
        up_reach(nodes, j, a),
        up_reach(nodes, j, b),
    ensures
        up_reach(nodes, a, b) || up_reach(nodes, b, a),
    decreases j,
{
    if j == a || j == b {
    } else {
        match nodes[j].parent {
            Option::Some(p) => {
                lemma_up_reach_total(nodes, p as int, a, b);
            },
            Option::None => {},
        }
    }
}

/// Lying in a subtree is walking the parent chain back to its top.
proof fn lemma_in_subtree_up(nodes: Seq<LiveNode>, i: int, j: int)
    requires
        links_ok(nodes),
        parents_ok(nodes),
        0 <= i < nodes.len(),
        in_subtree(nodes, i, j),
    ensures
        up_reach(nodes, j, i),
    decreases nodes.len() - i,
{
    lemma_in_subtree_range(nodes, i, j);
    if i != j {
        let k = choose|k: int|
            0 <= k < nodes[i].children@.len() && in_subtree(
                nodes,
                #[trigger] nodes[i].children@[k] as int,
                j,
            );
        let c = nodes[i].children@[k] as int;
        lemma_in_subtree_up(nodes, c, j);
        assert(nodes[c].parent == Some(i as usize));
        assert(up_reach(nodes, i, i));
        assert(up_reach(nodes, c, i));
        lemma_up_reach_trans(nodes, j, c, i);
    }
}

/// Distinct children of one node head disjoint subtrees.
proof fn lemma_sibling_subtrees_disjoint(
    nodes: Seq<LiveNode>,
    i: int,
    k1: int,
    k2: int,
    j: int,
)
    requires
        links_ok(nodes),
        parents_ok(nodes),
        siblings_unique(nodes),
        0 <= i < nodes.len(),
        0 <= k1 < nodes[i].children@.len(),
        0 <= k2 < nodes[i].children@.len(),
        k1 != k2,
        in_subtree(nodes, nodes[i].children@[k1] as int, j),
    ensures
        !in_subtree(nodes, nodes[i].children@[k2] as int, j),
{
    let c1 = nodes[i].children@[k1] as int;
    let c2 = nodes[i].children@[k2] as int;
    if in_subtree(nodes, c2, j) {
        lemma_in_subtree_range(nodes, c1, j);
        lemma_in_subtree_up(nodes, c1, j);
        lemma_in_subtree_up(nodes, c2, j);
        lemma_up_reach_total(nodes, j, c1, c2);
        assert(nodes[c1].parent == Some(i as usize));
        assert(nodes[c2].parent == Some(i as usize));
        assert(c1 != c2);
        if up_reach(nodes, c1, c2) {
            assert(up_reach(nodes, i, c2));
            lemma_up_reach_le(nodes, i, c2);
        } else {
            assert(up_reach(nodes, c2, c1));
            assert(up_reach(nodes, i, c1));
            lemma_up_reach_le(nodes, i, c1);
        }
    }
}

/// A slot with no parent is listed in no child list.
proof fn lemma_detached_not_listed(nodes: Seq<LiveNode>, c: int)
    requires
        parents_ok(nodes),
        0 <= c < nodes.len(),
        nodes[c].parent is None,
    ensures
        forall|j: int, k: int|
            0 <= j < nodes.len() && 0 <= k < nodes[j].children@.len()
                ==> (#[trigger] nodes[j].children@[k]) != c,
{
    assert forall|j: int, k: int|
        0 <= j < nodes.len() && 0 <= k < nodes[j].children@.len() implies (#[trigger] nodes[
        j].children@[k]) != c by {
        if nodes[j].children@[k] == c {
            assert(nodes[c].parent == Some(j as usize));
        }
    }
}

/// Attaching a detached later slot as one more child of an element keeps
/// the arena well-formed.
proof fn lemma_wf_attach(nodes0: Seq<LiveNode>, nodes2: Seq<LiveNode>, p: int, c: int)
    requires
        nodes_wf(nodes0),
        nodes0.len() <= usize::MAX,
        0 <= p < c < nodes0.len(),
        nodes0[c].parent is None,
        nodes0[p].kind is Elem,
        nodes2.len() == nodes0.len(),
        nodes2[p].kind == nodes0[p].kind,
        nodes2[p].parent == nodes0[p].parent,
        nodes2[p].children@ == nodes0[p].children@.push(c as usize),
        nodes2[c].kind == nodes0[c].kind,
        nodes2[c].children == nodes0[c].children,
        nodes2[c].parent == Some(p as usize),
        forall|x: int| 0 <= x < nodes0.len() && x != p && x != c ==> nodes2[x] == nodes0[x],
    ensures
        nodes_wf(nodes2),
{
    lemma_detached_not_listed(nodes0, c);
    assert forall|j: int, k: int|
        0 <= j < nodes2.len() && 0 <= k < nodes2[j].children@.len() implies j < (#[trigger] nodes2[
        j].children@[k]) < nodes2.len() by {
        if j == p && k == nodes0[p].children@.len() {
        } else {
            assert(nodes2[j].children@[k] == nodes0[j].children@[k]);
        }
    }
    assert forall|j: int, k: int|
        0 <= j < nodes2.len() && 0 <= k < nodes2[j].children@.len() implies nodes2[(
    #[trigger] nodes2[j].children@[k]) as int].parent == Some(j as usize) by {
        if j == p && k == nodes0[p].children@.len() {
        } else {
            let d = nodes0[j].children@[k] as int;
            assert(nodes2[j].children@[k] == nodes0[j].children@[k]);
            assert(d != c);
            assert(nodes2[d].parent == nodes0[d].parent);
        }
    }
    assert forall|j: int, k1: int, k2: int|
        0 <= j < nodes2.len() && 0 <= k1 < nodes2[j].children@.len() && 0 <= k2 < nodes2[
        j].children@.len() && (#[trigger] nodes2[j].children@[k1]) == (#[trigger] nodes2[
        j].children@[k2]) implies k1 == k2 by {
        if j == p {
            let n = nodes0[p].children@.len() as int;
            if k1 < n && k2 < n {
                assert(nodes0[j].children@[k1] == nodes0[j].children@[k2]);
            } else if k1 < n {
                assert(nodes0[j].children@[k1] != c as usize);
            } else if k2 < n {
                assert(nodes0[j].children@[k2] != c as usize);
            }
        }
    }
}

/// Swapping the child at one position for a detached later slot, and
/// detaching the old child, keeps the arena well-formed.
proof fn lemma_wf_replace_child(
    nodes0: Seq<LiveNode>,
    nodes2: Seq<LiveNode>,
    p: int,
    k: int,
    cnew: int,
)
    requires
        nodes_wf(nodes0),
        nodes0.len() <= usize::MAX,
        0 <= p < nodes0.len(),
        0 <= k < nodes0[p].children@.len(),
        p < cnew < nodes0.len(),
        nodes0[cnew].parent is None,
        nodes2.len() == nodes0.len(),
        nodes2[p].kind == nodes0[p].kind,
        nodes2[p].parent == nodes0[p].parent,
        nodes2[p].children@ == nodes0[p].children@.update(k, cnew as usize),
        nodes2[cnew].kind == nodes0[cnew].kind,
        nodes2[cnew].children == nodes0[cnew].children,
        nodes2[cnew].parent == Some(p as usize),
        nodes2[nodes0[p].children@[k] as int].kind == nodes0[nodes0[p].children@[k] as int].kind,
        nodes2[nodes0[p].children@[k] as int].children
            == nodes0[nodes0[p].children@[k] as int].children,
        nodes2[nodes0[p].children@[k] as int].parent is None,
        forall|x: int|
            0 <= x < nodes0.len() && x != p && x != cnew && x != nodes0[p].children@[k] as int
                ==> nodes2[x] == nodes0[x],
    ensures
        nodes_wf(nodes2),
{
    let cold = nodes0[p].children@[k] as int;
    lemma_detached_not_listed(nodes0, cnew);
    assert(cold != cnew);
    assert forall|j: int, k2: int|
        0 <= j < nodes2.len() && 0 <= k2 < nodes2[j].children@.len() implies j < (
    #[trigger] nodes2[j].children@[k2]) < nodes2.len() by {
        if !(j == p && k2 == k) {
            assert(nodes2[j].children@[k2] == nodes0[j].children@[k2]);
        }
    }
    assert forall|j: int, k2: int|
        0 <= j < nodes2.len() && 0 <= k2 < nodes2[j].children@.len() implies nodes2[(
    #[trigger] nodes2[j].children@[k2]) as int].parent == Some(j as usize) by {
        if j == p && k2 == k {
        } else {
            let d = nodes0[j].children@[k2] as int;
            assert(nodes2[j].children@[k2] == nodes0[j].children@[k2]);
            assert(d != cnew);
            if d == cold {
                assert(nodes0[cold].parent == Some(p as usize));
                assert(j == p && k2 == k);
            }
            assert(nodes2[d].parent == nodes0[d].parent);
        }
    }
    assert forall|j: int, k1: int, k2: int|
        0 <= j < nodes2.len() && 0 <= k1 < nodes2[j].children@.len() && 0 <= k2 < nodes2[
        j].children@.len() && (#[trigger] nodes2[j].children@[k1]) == (#[trigger] nodes2[
        j].children@[k2]) implies k1 == k2 by {
        if j == p && k1 != k2 {
            if k1 != k && k2 != k {
                assert(nodes0[j].children@[k1] == nodes0[j].children@[k2]);
            } else if k1 == k {
                assert(nodes0[j].children@[k2] != cnew as usize);
            } else {
                assert(nodes0[j].children@[k1] != cnew as usize);
            }
        }
    }
}

/// Inserting a detached later slot into an element's child list keeps the
/// arena well-formed.
proof fn lemma_wf_insert_child(
    nodes0: Seq<LiveNode>,
    nodes2: Seq<LiveNode>,
    p: int,
    pos: int,
    cnew: int,
)
    requires
        nodes_wf(nodes0),
        nodes0.len() <= usize::MAX,
        0 <= p < nodes0.len(),
        0 <= pos <= nodes0[p].children@.len(),
        p < cnew < nodes0.len(),
        nodes0[cnew].parent is None,
        nodes0[p].kind is Elem,
        nodes2.len() == nodes0.len(),
        nodes2[p].kind == nodes0[p].kind,
        nodes2[p].parent == nodes0[p].parent,
        nodes2[p].children@ == nodes0[p].children@.insert(pos, cnew as usize),
        nodes2[cnew].kind == nodes0[cnew].kind,
        nodes2[cnew].children == nodes0[cnew].children,
        nodes2[cnew].parent == Some(p as usize),
        forall|x: int| 0 <= x < nodes0.len() && x != p && x != cnew ==> nodes2[x] == nodes0[x],
    ensures
        nodes_wf(nodes2),
{
    lemma_detached_not_listed(nodes0, cnew);
    let cs0 = nodes0[p].children@;
    let cs2 = nodes2[p].children@;
    assert forall|k2: int| 0 <= k2 < cs2.len() implies (k2 == pos && cs2[k2] == cnew as usize) || (
    k2 < pos && cs2[k2] == cs0[k2]) || (k2 > pos && cs2[k2] == cs0[k2 - 1]) by {}
    assert forall|j: int, k2: int|
        0 <= j < nodes2.len() && 0 <= k2 < nodes2[j].children@.len() implies j < (
    #[trigger] nodes2[j].children@[k2]) < nodes2.len() by {
        if j != p {
            assert(nodes2[j].children@[k2] == nodes0[j].children@[k2]);
        }
    }
    assert forall|j: int, k2: int|
        0 <= j < nodes2.len() && 0 <= k2 < nodes2[j].children@.len() implies nodes2[(
    #[trigger] nodes2[j].children@[k2]) as int].parent == Some(j as usize) by {
        if j == p && k2 == pos {
        } else {
            let d = nodes2[j].children@[k2] as int;
            if j == p {
                assert(d != cnew);
                assert(nodes0[d].parent == Some(j as usize));
            } else {
                assert(nodes2[j].children@[k2] == nodes0[j].children@[k2]);
                assert(d != cnew);
            }
            assert(nodes2[d].parent == nodes0[d].parent);
        }
    }
    assert forall|j: int, k1: int, k2: int|
        0 <= j < nodes2.len() && 0 <= k1 < nodes2[j].children@.len() && 0 <= k2 < nodes2[
        j].children@.len() && (#[trigger] nodes2[j].children@[k1]) == (#[trigger] nodes2[
        j].children@[k2]) implies k1 == k2 by {
        if j == p && k1 != k2 {
            if k1 != pos && k2 != pos {
                let m1: int = if k1 < pos { k1 } else { k1 - 1 };
                let m2: int = if k2 < pos { k2 } else { k2 - 1 };
                assert(cs0[m1] == cs0[m2]);
                assert(m1 == m2);
            } else if k1 == pos {
                assert(cs2[k2] != cnew as usize);
            } else {
                assert(cs2[k1] != cnew as usize);
            }
        }
    }
}

/// Removing the child at one position and detaching it keeps the arena
/// well-formed.
proof fn lemma_wf_delete_child(nodes0: Seq<LiveNode>, nodes2: Seq<LiveNode>, p: int, k: int)
    requires
        nodes_wf(nodes0),
        nodes0.len() <= usize::MAX,
        0 <= p < nodes0.len(),
        0 <= k < nodes0[p].children@.len(),
        nodes2.len() == nodes0.len(),
        nodes2[p].kind == nodes0[p].kind,
        nodes2[p].parent == nodes0[p].parent,
        nodes2[p].children@ == nodes0[p].children@.remove(k),
        nodes2[nodes0[p].children@[k] as int].kind == nodes0[nodes0[p].children@[k] as int].kind,
        nodes2[nodes0[p].children@[k] as int].children
            == nodes0[nodes0[p].children@[k] as int].children,
        nodes2[nodes0[p].children@[k] as int].parent is None,
        forall|x: int|
            0 <= x < nodes0.len() && x != p && x != nodes0[p].children@[k] as int ==> nodes2[x]
                == nodes0[x],
    ensures
        nodes_wf(nodes2),
{
    let cold = nodes0[p].children@[k] as int;
    let cs0 = nodes0[p].children@;
    let cs2 = nodes2[p].children@;
    assert forall|k2: int| 0 <= k2 < cs2.len() implies (k2 < k && cs2[k2] == cs0[k2]) || (k2 >= k
        && cs2[k2] == cs0[k2 + 1]) by {}
    assert forall|j: int, k2: int|
        0 <= j < nodes2.len() && 0 <= k2 < nodes2[j].children@.len() implies j < (
    #[trigger] nodes2[j].children@[k2]) < nodes2.len() by {
        if j != p {
            assert(nodes2[j].children@[k2] == nodes0[j].children@[k2]);
        }
    }
    assert forall|j: int, k2: int|
        0 <= j < nodes2.len() && 0 <= k2 < nodes2[j].children@.len() implies nodes2[(
    #[trigger] nodes2[j].children@[k2]) as int].parent == Some(j as usize) by {
        let d = nodes2[j].children@[k2] as int;
        if j == p {
            let m: int = if k2 < k {
                k2
            } else {
                k2 + 1
            };
            assert(d == cs0[m]);
            assert(d != cold);
            assert(nodes2[d].parent == nodes0[d].parent);
        } else {
            assert(nodes2[j].children@[k2] == nodes0[j].children@[k2]);
            if d == cold {
                assert(nodes0[cold].parent == Some(p as usize));
                assert(nodes0[cold].parent == Some(j as usize));
            }
            assert(nodes2[d].parent == nodes0[d].parent);
        }
    }
    assert forall|j: int, k1: int, k2: int|
        0 <= j < nodes2.len() && 0 <= k1 < nodes2[j].children@.len() && 0 <= k2 < nodes2[
        j].children@.len() && (#[trigger] nodes2[j].children@[k1]) == (#[trigger] nodes2[
        j].children@[k2]) implies k1 == k2 by {
        if j == p && k1 != k2 {
            let m1: int = if k1 < k { k1 } else { k1 + 1 };
            let m2: int = if k2 < k { k2 } else { k2 + 1 };
            assert(cs0[m1] == cs0[m2]);
        }
    }
}

/// Two equally long arenas of one shape everywhere give every slot the
/// same tree.
proof fn lemma_subtree_same_shape(nodes1: Seq<LiveNode>, nodes2: Seq<LiveNode>, x: int)
    requires
        links_ok(nodes1),
        nodes2.len() == nodes1.len(),
        0 <= x < nodes1.len(),
        forall|y: int| 0 <= y < nodes1.len() ==> #[trigger] same_shape_at(nodes1, nodes2, y),
    ensures
        subtree(nodes2, x) == subtree(nodes1, x),
        links_ok(nodes2),
{
    assert forall|j: int, k: int|
        0 <= j < nodes2.len() && 0 <= k < nodes2[j].children@.len() implies j < (#[trigger] nodes2[
        j].children@[k]) < nodes2.len() by {
        assert(same_shape_at(nodes1, nodes2, j));
    }
    if 0 <= x < nodes1.len() {
        assert forall|j: int| #[trigger] in_subtree(nodes1, x, j) implies j < nodes2.len()
            && same_shape_at(nodes1, nodes2, j) by {
            lemma_in_subtree_range(nodes1, x, j);
        }
        lemma_subtree_agree(nodes1, nodes2, x);
    }
}

/// Rewriting an element's attribute list keeps the arena well-formed.
proof fn lemma_wf_set_attrs(nodes0: Seq<LiveNode>, nodes2: Seq<LiveNode>, x: int)
    requires
        nodes_wf(nodes0),
        nodes0.len() <= usize::MAX,
        0 <= x < nodes0.len(),
        nodes2.len() == nodes0.len(),
        nodes0[x].kind is Elem,
        nodes2[x].kind is Elem,
        nodes2[x].parent == nodes0[x].parent,
        nodes2[x].children == nodes0[x].children,
        forall|y: int| 0 <= y < nodes0.len() && y != x ==> nodes2[y] == nodes0[y],
    ensures
        nodes_wf(nodes2),
{
    assert forall|j: int, k: int|
        0 <= j < nodes2.len() && 0 <= k < nodes2[j].children@.len() implies j < (#[trigger] nodes2[
        j].children@[k]) < nodes2.len() by {
        assert(nodes2[j].children@[k] == nodes0[j].children@[k]);
    }
    assert forall|j: int, k: int|
        0 <= j < nodes2.len() && 0 <= k < nodes2[j].children@.len() implies nodes2[(
    #[trigger] nodes2[j].children@[k]) as int].parent == Some(j as usize) by {
        assert(nodes2[j].children@[k] == nodes0[j].children@[k]);
        let d = nodes0[j].children@[k] as int;
        assert(nodes2[d].parent == nodes0[d].parent);
    }
    assert forall|j: int, k1: int, k2: int|
        0 <= j < nodes2.len() && 0 <= k1 < nodes2[j].children@.len() && 0 <= k2 < nodes2[
        j].children@.len() && (#[trigger] nodes2[j].children@[k1]) == (#[trigger] nodes2[
        j].children@[k2]) implies k1 == k2 by {
        assert(nodes2[j].children@[k1] == nodes0[j].children@[k1]);
        assert(nodes2[j].children@[k2] == nodes0[j].children@[k2]);
    }
    assert forall|j: int|
        0 <= j < nodes2.len() && (#[trigger] nodes2[j].kind) is Text implies nodes2[
        j].children@.len() == 0 by {
        if j != x {
            assert(nodes2[j] == nodes0[j]);
        }
    }
}

/// Appends the rendering of `token` to the arena, parent before children,
/// and returns the new subtree's root slot, which is left detached.
#[verifier::loop_isolation(false)]
#[verifier::rlimit(100)]
fn build_node(nodes: &mut Vec<LiveNode>, token: &BareToken) -> (r: usize)
    requires
        nodes_wf(old(nodes)@),
    ensures
        nodes_wf(final(nodes)@),
        final(nodes)@.len() > old(nodes)@.len(),
        r == old(nodes)@.len(),
        final(nodes)@.take(old(nodes)@.len() as int) == old(nodes)@,
        final(nodes)@[r as int].parent is None,
        subtree(final(nodes)@, r as int) == token@,
    decreases token,
{
    match token {
        BareToken::Text { text } => {
            let r = nodes.len();
            nodes.push(
                LiveNode {
                    kind: LiveKind::Text { text: text.clone() },
                    parent: None,
                    children: Vec::new(),
                },
            );
            proof {
                assert(nodes@.take(r as int) =~= old(nodes)@);
                assert(nodes_wf(nodes@)) by {
                    assert(forall|j: int, k: int|
                        0 <= j < nodes@.len() && 0 <= k < nodes@[j].children@.len()
                            ==> (#[trigger] nodes@[j].children@[k]) == old(nodes)@[j].children@[k]);
                }
                assert(subtree(nodes@, r as int) == token@);
            }
            r
        },
        BareToken::Elem { tag, attrs, children } => {
            let r = nodes.len();
            let tag_copy = tag.clone();
            let attrs_copy = clone_attrs(attrs);
            let ghost kind0 = LiveKind::Elem { tag: tag_copy, attrs: attrs_copy };
            nodes.push(
                LiveNode {
                    kind: LiveKind::Elem { tag: tag_copy, attrs: attrs_copy },
                    parent: None,
                    children: Vec::new(),
                },
            );
            proof {
                assert(nodes@.take(r as int) =~= old(nodes)@);
                assert(nodes_wf(nodes@)) by {
                    assert(forall|j: int, k: int|
                        0 <= j < nodes@.len() && 0 <= k < nodes@[j].children@.len()
                            ==> (#[trigger] nodes@[j].children@[k]) == old(nodes)@[j].children@[k]);
                }
            }
            let mut i: usize = 0;
            while i < children.len()
                invariant
                    nodes_wf(nodes@),
                    r as int == old(nodes)@.len(),
                    (r as int) < nodes@.len(),
                    nodes@.take(r as int) == old(nodes)@,
                    nodes@[r as int].parent is None,
                    nodes@[r as int].kind == kind0,
                    i <= children@.len(),
                    nodes@[r as int].children@.len() == i as int,
                    forall|m: int|
                        0 <= m < i ==> subtree(
                            nodes@,
                            (#[trigger] nodes@[r as int].children@[m]) as int,
                        ) == children@[m]@,
                decreases children@.len() - i,
            {
                let ghost pre = nodes@;
                let cid = build_node(nodes, &children[i]);
                proof {
                    let ext = nodes@;
                    assert(ext[r as int] == pre[r as int]) by {
                        assert(ext.take(pre.len() as int)[r as int] == pre[r as int]);
                    }
                    assert(ext.take(r as int) =~= old(nodes)@) by {
                        assert(forall|y: int|
                            0 <= y < r ==> ext.take(pre.len() as int)[y] == #[trigger] pre[y]);
                    }
                    assert forall|m: int| 0 <= m < i implies subtree(
                        ext,
                        (#[trigger] ext[r as int].children@[m]) as int,
                    ) == children@[m]@ by {
                        lemma_subtree_extend(pre, ext, pre[r as int].children@[m] as int);
                    }
                }
                let ghost built = nodes@;
                let rr = r;
                nodes[cid].parent = Some(rr);
                nodes[rr].children.push(cid);
                proof {
                    vstd::std_specs::vec::axiom_spec_len(nodes);
                    let cur = nodes@;
                    assert(built.len() <= usize::MAX);
                    assert(cur[cid as int].kind == built[cid as int].kind);
                    assert(cur[cid as int].children == built[cid as int].children);
                    assert(cur[cid as int].parent == Some(r));
                    assert(cur[r as int].kind == built[r as int].kind);
                    assert(cur[r as int].parent == built[r as int].parent);
                    assert(cur[r as int].children@ == built[r as int].children@.push(cid));
                    assert(forall|x: int|
                        0 <= x < built.len() && x != r && x != cid ==> #[trigger] cur[x]
                            == built[x]);
                    lemma_wf_attach(built, cur, r as int, cid as int);
                    assert(cur.take(r as int) =~= old(nodes)@) by {
                        assert(forall|y: int| 0 <= y < r ==> #[trigger] cur[y] == built[y]);
                        assert(forall|y: int|
                            0 <= y < r ==> built.take(r as int)[y] == #[trigger] built[y]);
                    }
                    assert forall|m: int| 0 <= m <= i implies subtree(
                        cur,
                        (#[trigger] cur[r as int].children@[m]) as int,
                    ) == children@[m]@ by {
                        let cm = cur[r as int].children@[m] as int;
                        assert(r < cm < built.len());
                        assert forall|x: int| #[trigger] in_subtree(built, cm, x) implies x
                            < cur.len() && same_shape_at(built, cur, x) by {
                            lemma_in_subtree_range(built, cm, x);
                        }
                        lemma_subtree_agree(built, cur, cm);
                        if m < i {
                            assert(built[r as int].children@[m] == cur[r as int].children@[m]);
                        } else {
                            assert(cm == cid as int);
                            assert(subtree(built, cid as int) == children@[i as int]@);
                        }
                    }
                }
                i += 1;
            }
            proof {
                assert(subtree(nodes@, r as int) =~= token@) by {
                    assert(token@ matches TokenV::Elem { tag: tv, .. } && tv == tag@);
                    assert(token@->Elem_attrs == attrs_view(attrs@));
                    assert(token@->Elem_children.len() == children@.len());
                    assert(subtree(nodes@, r as int)->Elem_children =~= token@->Elem_children);
                }
            }
            r
        },
    }
}

/// A fresh live document rendered from a snapshot.
impl LiveDoc {
    pub fn from_token(token: &BareToken) -> (doc: LiveDoc)
        ensures
            doc.wf(),
            doc.tree() == token@,
    {
        let mut nodes: Vec<LiveNode> = Vec::new();
        proof {
            assert(nodes_wf(nodes@));
        }
        let root = build_node(&mut nodes, token);
        LiveDoc { nodes, root }
    }
}

/// A node strictly inside a subtree hangs under a listed parent that is
/// itself in the subtree.
proof fn lemma_in_subtree_step(nodes: Seq<LiveNode>, i: int, j: int)
    requires
        links_ok(nodes),
        parents_ok(nodes),
        0 <= i < nodes.len(),
        in_subtree(nodes, i, j),
        i != j,
    ensures
        nodes[j].parent is Some,
        in_subtree(nodes, i, nodes[j].parent->0 as int),
        exists|k: int|
            0 <= k < nodes[nodes[j].parent->0 as int].children@.len()
                && (#[trigger] nodes[nodes[j].parent->0 as int].children@[k]) == j,
    decreases nodes.len() - i,
{
    let k = choose|k: int|
        0 <= k < nodes[i].children@.len() && in_subtree(
            nodes,
            #[trigger] nodes[i].children@[k] as int,
            j,
        );
    let c = nodes[i].children@[k] as int;
    if c == j {
        assert(nodes[j].parent == Some(i as usize));
        assert(in_subtree(nodes, i, i));
    } else {
        lemma_in_subtree_step(nodes, c, j);
        assert(in_subtree(nodes, i, nodes[j].parent->0 as int));
    }
}

/// Reads the subtree at slot `i` back as a snapshot.
#[verifier::loop_isolation(false)]
fn read_node(doc: &LiveDoc, i: usize) -> (r: BareToken)
    requires
        doc.wf(),
        (i as int) < doc.nodes@.len(),
    ensures
        r@ == subtree(doc.nodes@, i as int),
    decreases doc.nodes@.len() - i,
{
    let node = &doc.nodes[i];
    match &node.kind {
        LiveKind::Text { text } => BareToken::Text { text: text.clone() },
        LiveKind::Elem { tag, attrs } => {
            let mut cs: Vec<BareToken> = Vec::new();
            let mut k: usize = 0;
            while k < node.children.len()
                invariant
                    k <= node.children@.len(),
                    cs@.len() == k as int,
                    forall|m: int|
                        0 <= m < k ==> (#[trigger] cs@[m])@ == subtree(
                            doc.nodes@,
                            node.children@[m] as int,
                        ),
                decreases node.children@.len() - k,
            {
                let c = read_node(doc, node.children[k]);
                cs.push(c);
                k += 1;
            }
            let r = BareToken::Elem { tag: tag.clone(), attrs: clone_attrs(attrs), children: cs };
            proof {
                assert(r@->Elem_children =~= subtree(doc.nodes@, i as int)->Elem_children);
                assert(r@ =~= subtree(doc.nodes@, i as int));
            }
            r
        },
    }
}

impl LiveDoc {
    /// The document read back as a snapshot: the executable form of
    /// [`LiveDoc::tree`].
    pub fn to_token(&self) -> (r: BareToken)
        requires
            self.wf(),
        ensures
            r@ == self.tree(),
    {
        read_node(self, self.root)
    }
}

/// The arena slot the first `upto` indices of `path` lead to from the
/// root, descending child-by-index; `None` as soon as an index is out of
/// range or a text node is reached early — never a partial match.
#[verifier::loop_isolation(false)]
fn descend(doc: &LiveDoc, path: &[usize], upto: usize) -> (r: Option<usize>)
    requires
        doc.wf(),
        upto <= path@.len(),
    ensures
        match r {
            Some(j) => {
                &&& (j as int) < doc.nodes@.len()
                &&& points_to(doc.nodes@, doc.root as int, path@.take(upto as int), j as int)
                &&& node_at(doc.tree(), path@.take(upto as int)) == Some(
                    subtree(doc.nodes@, j as int),
                )
            },
            None => node_at(doc.tree(), path@.take(upto as int)) is None,
        },
{
    let ghost goal = path@.take(upto as int);
    let mut cur: usize = doc.root;
    let mut i: usize = 0;
    proof {
        assert(goal.take(0) =~= Seq::<usize>::empty());
        assert(goal.skip(0) =~= goal);
    }
    while i < upto
        invariant
            i <= upto,
            (cur as int) < doc.nodes@.len(),
            points_to(doc.nodes@, doc.root as int, goal.take(i as int), cur as int),
            node_at(doc.tree(), goal) == node_at(
                subtree(doc.nodes@, cur as int),
                goal.skip(i as int),
            ),
        decreases upto - i,
    {
        let node = &doc.nodes[cur];
        let seg = path[i];
        proof {
            assert(goal.skip(i as int)[0] == seg);
            assert(goal.skip(i as int).drop_first() =~= goal.skip(i + 1));
        }
        match &node.kind {
            LiveKind::Elem { .. } => {
                if seg < node.children.len() {
                    proof {
                        lemma_points_to_snoc(
                            doc.nodes@,
                            doc.root as int,
                            goal.take(i as int),
                            cur as int,
                            seg,
                        );
                        assert(goal.take(i as int).push(seg) =~= goal.take(i + 1));
                        assert(subtree(doc.nodes@, cur as int)->Elem_children[seg as int]
                            == subtree(doc.nodes@, node.children@[seg as int] as int));
                    }
                    cur = node.children[seg];
                    i += 1;
                } else {
                    proof {
                        assert(node_at(subtree(doc.nodes@, cur as int), goal.skip(i as int))
                            is None);
                    }
                    return None;
                }
            },
            LiveKind::Text { .. } => {
                proof {
                    assert(node_at(subtree(doc.nodes@, cur as int), goal.skip(i as int))
                        is None);
                }
                return None;
            },
        }
    }
    proof {
        assert(goal.take(goal.len() as int) =~= goal);
        assert(goal.skip(goal.len() as int) =~= Seq::<usize>::empty());
        assert(node_at(subtree(doc.nodes@, cur as int), Seq::<usize>::empty()) == Some(
            subtree(doc.nodes@, cur as int),
        ));
    }
    Some(cur)
}

/// The arena slot a positional path leads to from the root, descending
/// child-by-index; `None` as soon as an index is out of range or a text
/// node is reached before the path ends — never a partial match.
pub fn find_node_by_path(doc: &LiveDoc, path: &[usize]) -> (r: Option<usize>)
    requires
        doc.wf(),
    ensures
        match r {
            Some(j) => {
                &&& (j as int) < doc.nodes@.len()
                &&& points_to(doc.nodes@, doc.root as int, path@, j as int)
                &&& node_at(doc.tree(), path@) == Some(subtree(doc.nodes@, j as int))
            },
            None => node_at(doc.tree(), path@) is None,
        },
{
    proof {
        assert(path@.take(path@.len() as int) =~= path@);
    }
    descend(doc, path, path.len())
}

/// The position of `child` among `parent`'s children, found by an
/// identity scan over the child list.
fn find_child_index(doc: &LiveDoc, parent: usize, child: usize) -> (r: Option<usize>)
    requires
        (parent as int) < doc.nodes@.len(),
    ensures
        match r {
            Some(k) => (k as int) < doc.nodes@[parent as int].children@.len()
                && doc.nodes@[parent as int].children@[k as int] == child,
            None => forall|k: int|
                0 <= k < doc.nodes@[parent as int].children@.len()
                    ==> (#[trigger] doc.nodes@[parent as int].children@[k]) != child,
        },
{
    let node = &doc.nodes[parent];
    let mut k: usize = 0;
    while k < node.children.len()
        invariant
            k <= node.children@.len(),
            node == &doc.nodes@[parent as int],
            forall|m: int| 0 <= m < k ==> (#[trigger] node.children@[m]) != child,
        decreases node.children@.len() - k,
    {
        if node.children[k] == child {
            return Some(k);
        }
        k += 1;
    }
    None
}

/// The positional path from the document root down to `target`: walk the
/// parent links upward from the target, recording at each level the
/// node's position among its parent's children; the empty path where the
/// target is the root itself. `None` — an explicit failure, never an
/// empty-path stand-in — where the walk never reaches the root: the
/// target is outside the document's tree.
#[verifier::loop_isolation(false)]
pub fn get_path_from(doc: &LiveDoc, target: usize) -> (r: Option<Vec<usize>>)
    requires
        doc.wf(),
        (target as int) < doc.nodes@.len(),
    ensures
        match r {
            Some(path) => points_to(doc.nodes@, doc.root as int, path@, target as int),
            None => !in_subtree(doc.nodes@, doc.root as int, target as int),
        },
{
    let mut path: Vec<usize> = Vec::new();
    let mut cur: usize = target;
    while cur != doc.root
        invariant
            (cur as int) < doc.nodes@.len(),
            points_to(doc.nodes@, cur as int, path@, target as int),
            in_subtree(doc.nodes@, doc.root as int, target as int) ==> in_subtree(
                doc.nodes@,
                doc.root as int,
                cur as int,
            ),
        decreases cur,
    {
        proof {
            if in_subtree(doc.nodes@, doc.root as int, target as int) {
                lemma_in_subtree_step(doc.nodes@, doc.root as int, cur as int);
            }
        }
        let parent_opt = doc.nodes[cur].parent;
        match parent_opt {
            Option::None => {
                return None;
            },
            Option::Some(p) => {
                match find_child_index(doc, p, cur) {
                    Option::None => {
                        return None;
                    },
                    Option::Some(k) => {
                        proof {
                            assert(path@.insert(0, k)[0] == k);
                            assert(path@.insert(0, k).drop_first() =~= path@);
                        }
                        path.insert(0, k);
                        cur = p;
                    },
                }
            },
        }
    }
    Some(path)
}

/// All slots after the changed one keep their subtrees: a shape change at
/// `p` cannot reach them, since child links only point forward.
proof fn lemma_subtrees_preserved_except(built: Seq<LiveNode>, fin: Seq<LiveNode>, p: int)
    requires
        links_ok(built),
        links_ok(fin),
        built.len() <= fin.len(),
        0 <= p,
        forall|x: int| 0 <= x < built.len() && x != p ==> #[trigger] same_shape_at(built, fin, x),
    ensures
        forall|c: int| p < c < built.len() ==> subtree(fin, c) == subtree(built, c),
{
    assert forall|c: int| p < c < built.len() implies subtree(fin, c) == subtree(built, c) by {
        assert forall|x: int| #[trigger] in_subtree(built, c, x) implies x < fin.len()
            && same_shape_at(built, fin, x) by {
            lemma_in_subtree_range(built, c, x);
        }
        lemma_subtree_agree(built, fin, c);
    }
}

/// A structural desync: a patch entry's path failed to resolve against
/// the current live document. Carries the failing path and the position
/// of the entry within its patch, as diagnostic detail.
pub struct DesyncError {
    pub path: Vec<usize>,
    pub entry_index: usize,
}

/// Applies one patch entry in place; `Err` — with the document untouched —
/// exactly where the entry's path does not resolve.
#[verifier::loop_isolation(false)]
#[verifier::rlimit(100)]
fn apply_one(doc: &mut LiveDoc, entry: &DiffEntry) -> (r: Result<(), ()>)
    requires
        old(doc).wf(),
    ensures
        final(doc).wf(),
        match r {
            Ok(()) => apply_op(old(doc).tree(), entry@.path, entry@.op) == Some(
                final(doc).tree(),
            ),
            Err(()) => *final(doc) == *old(doc) && apply_op(old(doc).tree(), entry@.path, entry@.op)
                is None,
        },
{
    let ghost t0 = doc.tree();
    match &entry.op {
        DiffOperation::Replace { content } => {
            let n = entry.path.len();
            if n == 0 {
                proof {
                    assert(entry@.path =~= Seq::<usize>::empty());
                    assert(node_at(t0, entry@.path) == Some(t0));
                }
                let new_root = build_node(&mut doc.nodes, content);
                doc.root = new_root;
                proof {
                    assert(replace_at(t0, Seq::<usize>::empty(), content@) == content@);
                }
                Ok(())
            } else {
                let k = entry.path[n - 1];
                proof {
                    assert(entry@.path.take(n - 1 as int) =~= entry@.path.drop_last());
                    assert(entry@.path.drop_last().push(k) =~= entry@.path);
                }
                match descend(doc, entry.path.as_slice(), n - 1) {
                    Option::None => {
                        proof {
                            lemma_node_at_concat(t0, entry@.path.drop_last(), seq![k]);
                            assert(entry@.path.drop_last() + seq![k] =~= entry@.path);
                        }
                        Err(())
                    },
                    Option::Some(p) => {
                        let ghost prefix = entry@.path.drop_last();
                        let ghost pre = doc.nodes@;
                        let ghost pv = subtree(pre, p as int);
                        proof {
                            lemma_node_at_concat(t0, prefix, seq![k]);
                            assert(prefix + seq![k] =~= entry@.path);
                            lemma_node_at_single(pv, k);
                        }
                        let is_elem_in_range = match &doc.nodes[p].kind {
                            LiveKind::Elem { .. } => k < doc.nodes[p].children.len(),
                            LiveKind::Text { .. } => false,
                        };
                        if !is_elem_in_range {
                            proof {
                                assert(node_at(t0, entry@.path) is None);
                            }
                            return Err(());
                        }
                        proof {
                            assert(pre[p as int].kind is Elem);
                            assert((k as int) < pre[p as int].children@.len());
                            assert(node_at(t0, entry@.path) == Some(
                                pv->Elem_children[k as int],
                            ));
                        }
                        let cnew = build_node(&mut doc.nodes, content);
                        let ghost built = doc.nodes@;
                        proof {
                            vstd::std_specs::vec::axiom_spec_len(&doc.nodes);
                            assert(built[p as int] == pre[p as int]) by {
                                assert(built.take(pre.len() as int)[p as int] == pre[p as int]);
                            }
                            lemma_subtree_extend(pre, built, doc.root as int);
                            lemma_subtree_extend(pre, built, p as int);
                            lemma_points_to_frame(pre, built, doc.root as int, prefix, p as int);
                        }
                        let cold = doc.nodes[p].children[k];
                        doc.nodes[cnew].parent = Some(p);
                        doc.nodes[p].children[k] = cnew;
                        doc.nodes[cold].parent = None;
                        proof {
                            let fin = doc.nodes@;
                            assert(cold == built[p as int].children@[k as int]);
                            assert(p < cold < built.len());
                            assert(cold != cnew);
                            assert(fin[p as int].children@ =~= built[p as int].children@.update(
                                k as int,
                                cnew,
                            ));
                            lemma_wf_replace_child(built, fin, p as int, k as int, cnew as int);
                            assert(forall|x: int|
                                0 <= x < built.len() && x != p ==> #[trigger] same_shape_at(
                                    built,
                                    fin,
                                    x,
                                ));
                            lemma_subtree_update(built, fin, doc.root as int, prefix, p as int);
                            lemma_subtrees_preserved_except(built, fin, p as int);
                            assert(subtree(fin, cnew as int) == content@);
                            assert(subtree(fin, p as int)->Elem_children
                                =~= pv->Elem_children.update(k as int, content@)) by {
                                assert(subtree(built, p as int) == pv);
                                let fc = fin[p as int].children@;
                                let bc = built[p as int].children@;
                                assert forall|m: int| 0 <= m < fc.len() implies subtree(
                                    fin,
                                    p as int,
                                )->Elem_children[m] == pv->Elem_children.update(
                                    k as int,
                                    content@,
                                )[m] by {
                                    if m == k {
                                        assert(fc[m] == cnew);
                                    } else {
                                        assert(fc[m] == bc[m]);
                                        assert(p < bc[m] < built.len());
                                        assert(subtree(fin, bc[m] as int) == subtree(
                                            built,
                                            bc[m] as int,
                                        ));
                                        assert(pv->Elem_children[m] == subtree(
                                            built,
                                            bc[m] as int,
                                        ));
                                    }
                                }
                            }
                            lemma_replace_at_concat(t0, prefix, seq![k], content@);
                            lemma_replace_at_single(pv, k, content@);
                            assert(subtree(fin, p as int) =~= replace_at(pv, seq![k], content@));
                            assert(replace_at(t0, entry@.path, content@) == subtree(
                                fin,
                                doc.root as int,
                            ));
                        }
                        Ok(())
                    },
                }
            }
        },
        DiffOperation::Insert { content } => {
            let n = entry.path.len();
            if n == 0 {
                Err(())
            } else {
                let k = entry.path[n - 1];
                proof {
                    assert(entry@.path.take(n - 1 as int) =~= entry@.path.drop_last());
                    assert(entry@.path.len() != 0);
                    assert(entry@.path.last() == k);
                }
                match descend(doc, entry.path.as_slice(), n - 1) {
                    Option::None => Err(()),
                    Option::Some(p) => {
                        let ghost prefix = entry@.path.drop_last();
                        let ghost pre = doc.nodes@;
                        let ghost pv = subtree(pre, p as int);
                        let is_elem = match &doc.nodes[p].kind {
                            LiveKind::Elem { .. } => true,
                            LiveKind::Text { .. } => false,
                        };
                        if !is_elem {
                            return Err(());
                        }
                        let cnew = build_node(&mut doc.nodes, content);
                        let ghost built = doc.nodes@;
                        proof {
                            vstd::std_specs::vec::axiom_spec_len(&doc.nodes);
                            assert(built[p as int] == pre[p as int]) by {
                                assert(built.take(pre.len() as int)[p as int] == pre[p as int]);
                            }
                            lemma_subtree_extend(pre, built, doc.root as int);
                            lemma_subtree_extend(pre, built, p as int);
                            lemma_points_to_frame(pre, built, doc.root as int, prefix, p as int);
                        }
                        let clen = doc.nodes[p].children.len();
                        let pos = if k <= clen {
                            k
                        } else {
                            clen
                        };
                        doc.nodes[cnew].parent = Some(p);
                        doc.nodes[p].children.insert(pos, cnew);
                        proof {
                            let fin = doc.nodes@;
                            assert(fin[p as int].children@ =~= built[p as int].children@.insert(
                                pos as int,
                                cnew,
                            ));
                            lemma_wf_insert_child(built, fin, p as int, pos as int, cnew as int);
                            assert(forall|x: int|
                                0 <= x < built.len() && x != p ==> #[trigger] same_shape_at(
                                    built,
                                    fin,
                                    x,
                                ));
                            lemma_subtree_update(built, fin, doc.root as int, prefix, p as int);
                            lemma_subtrees_preserved_except(built, fin, p as int);
                            assert(subtree(fin, cnew as int) == content@);
                            assert(subtree(fin, p as int)->Elem_children
                                =~= pv->Elem_children.insert(pos as int, content@)) by {
                                assert(subtree(built, p as int) == pv);
                                let fc = fin[p as int].children@;
                                let bc = built[p as int].children@;
                                assert forall|m: int| 0 <= m < fc.len() implies subtree(
                                    fin,
                                    p as int,
                                )->Elem_children[m] == pv->Elem_children.insert(
                                    pos as int,
                                    content@,
                                )[m] by {
                                    if m == pos {
                                        assert(fc[m] == cnew);
                                    } else {
                                        let mb: int = if m < pos {
                                            m
                                        } else {
                                            m - 1
                                        };
                                        assert(fc[m] == bc[mb]);
                                        assert(p < bc[mb] < built.len());
                                        assert(subtree(fin, bc[mb] as int) == subtree(
                                            built,
                                            bc[mb] as int,
                                        ));
                                        assert(pv->Elem_children[mb] == subtree(
                                            built,
                                            bc[mb] as int,
                                        ));
                                    }
                                }
                            }
                            assert(pv->Elem_children.insert(pos as int, content@)
                                =~= insert_clamped(pv->Elem_children, k, content@));
                            assert(subtree(fin, p as int) == (TokenV::Elem {
                                tag: pv->Elem_tag,
                                attrs: pv->Elem_attrs,
                                children: insert_clamped(pv->Elem_children, k, content@),
                            }));
                            assert(apply_op(t0, entry@.path, entry@.op) == Some(
                                replace_at(t0, prefix, subtree(fin, p as int)),
                            ));
                        }
                        Ok(())
                    },
                }
            }
        },
        DiffOperation::Delete => {
            let n = entry.path.len();
            if n == 0 {
                Err(())
            } else {
                let k = entry.path[n - 1];
                proof {
                    assert(entry@.path.take(n - 1 as int) =~= entry@.path.drop_last());
                    assert(entry@.path.last() == k);
                }
                match descend(doc, entry.path.as_slice(), n - 1) {
                    Option::None => Err(()),
                    Option::Some(p) => {
                        let ghost prefix = entry@.path.drop_last();
                        let ghost pre = doc.nodes@;
                        let ghost pv = subtree(pre, p as int);
                        let in_range = match &doc.nodes[p].kind {
                            LiveKind::Elem { .. } => k < doc.nodes[p].children.len(),
                            LiveKind::Text { .. } => false,
                        };
                        if !in_range {
                            return Err(());
                        }
                        proof {
                            vstd::std_specs::vec::axiom_spec_len(&doc.nodes);
                        }
                        let cold = doc.nodes[p].children.remove(k);
                        doc.nodes[cold].parent = None;
                        proof {
                            let fin = doc.nodes@;
                            assert(cold == pre[p as int].children@[k as int]);
                            assert(p < cold < pre.len());
                            lemma_wf_delete_child(pre, fin, p as int, k as int);
                            assert(forall|x: int|
                                0 <= x < pre.len() && x != p ==> #[trigger] same_shape_at(
                                    pre,
                                    fin,
                                    x,
                                ));
                            lemma_subtree_update(pre, fin, doc.root as int, prefix, p as int);
                            lemma_subtrees_preserved_except(pre, fin, p as int);
                            assert(subtree(fin, p as int)->Elem_children
                                =~= pv->Elem_children.remove(k as int)) by {
                                assert(subtree(pre, p as int) == pv);
                                let fc = fin[p as int].children@;
                                let bc = pre[p as int].children@;
                                assert(fc =~= bc.remove(k as int));
                                assert forall|m: int| 0 <= m < fc.len() implies subtree(
                                    fin,
                                    p as int,
                                )->Elem_children[m] == pv->Elem_children.remove(k as int)[m] by {
                                    let mb: int = if m < k {
                                        m
                                    } else {
                                        m + 1
                                    };
                                    assert(fc[m] == bc[mb]);
                                    assert(p < bc[mb] < pre.len());
                                    assert(subtree(fin, bc[mb] as int) == subtree(
                                        pre,
                                        bc[mb] as int,
                                    ));
                                    assert(pv->Elem_children[mb] == subtree(pre, bc[mb] as int));
                                }
                            }
                            assert(subtree(fin, p as int) == (TokenV::Elem {
                                tag: pv->Elem_tag,
                                attrs: pv->Elem_attrs,
                                children: pv->Elem_children.remove(k as int),
                            }));
                            assert(apply_op(t0, entry@.path, entry@.op) == Some(
                                replace_at(t0, prefix, subtree(fin, p as int)),
                            ));
                        }
                        Ok(())
                    },
                }
            }
        },
        DiffOperation::UpdateAttributes { new_attributes } => {
            match descend(doc, entry.path.as_slice(), entry.path.len()) {
                Option::None => {
                    proof {
                        assert(entry@.path.take(entry@.path.len() as int) =~= entry@.path);
                    }
                    Err(())
                },
                Option::Some(x) => {
                    proof {
                        assert(entry@.path.take(entry@.path.len() as int) =~= entry@.path);
                    }
                    let ghost pre = doc.nodes@;
                    let ghost xv = subtree(pre, x as int);
                    let tag_copy = match &doc.nodes[x].kind {
                        LiveKind::Elem { tag, .. } => Some(tag.clone()),
                        LiveKind::Text { .. } => None,
                    };
                    match tag_copy {
                        Option::None => Err(()),
                        Option::Some(tag_owned) => {
                            proof {
                                vstd::std_specs::vec::axiom_spec_len(&doc.nodes);
                            }
                            let new_list = clone_attrs(new_attributes);
                            doc.nodes[x].kind = LiveKind::Elem { tag: tag_owned, attrs: new_list };
                            proof {
                                let fin = doc.nodes@;
                                lemma_wf_set_attrs(pre, fin, x as int);
                                assert(forall|y: int|
                                    0 <= y < pre.len() && y != x ==> #[trigger] same_shape_at(
                                        pre,
                                        fin,
                                        y,
                                    ));
                                lemma_subtree_update(pre, fin, doc.root as int, entry@.path, x as int);
                                lemma_subtrees_preserved_except(pre, fin, x as int);
                                assert(subtree(fin, x as int)->Elem_children
                                    =~= xv->Elem_children) by {
                                    assert(subtree(pre, x as int) == xv);
                                    let fc = fin[x as int].children@;
                                    assert(fc == pre[x as int].children@);
                                    assert forall|m: int| 0 <= m < fc.len() implies subtree(
                                        fin,
                                        x as int,
                                    )->Elem_children[m] == xv->Elem_children[m] by {
                                        assert(x < fc[m] < pre.len());
                                        assert(subtree(fin, fc[m] as int) == subtree(
                                            pre,
                                            fc[m] as int,
                                        ));
                                        assert(xv->Elem_children[m] == subtree(
                                            pre,
                                            fc[m] as int,
                                        ));
                                    }
                                }
                                assert(subtree(fin, x as int) == (TokenV::Elem {
                                    tag: xv->Elem_tag,
                                    attrs: attrs_view(new_attributes@),
                                    children: xv->Elem_children,
                                }));
                                assert(apply_op(t0, entry@.path, entry@.op) == Some(
                                    replace_at(t0, entry@.path, subtree(fin, x as int)),
                                ));
                            }
                            Ok(())
                        },
                    }
                },
            }
        },
    }
}

impl LiveDoc {
    /// Applies every patch entry in listed order, resolving each path
    /// against the current document — never a cached resolution, since
    /// earlier entries may have moved siblings. Stops at the first entry
    /// whose path does not resolve: that is a structural desync, reported
    /// with its diagnostic detail, never silently skipped.
    #[verifier::loop_isolation(false)]
    pub fn apply_diff(&mut self, diff: &Diff) -> (r: Result<(), DesyncError>)
        requires
            old(self).wf(),
        ensures
            final(self).wf(),
            match r {
                Ok(()) => apply_ops(old(self).tree(), patch_view(diff@)) == Some(
                    final(self).tree(),
                ),
                Err(e) => {
                    &&& apply_ops(old(self).tree(), patch_view(diff@)) is None
                    &&& (e.entry_index as int) < diff@.len()
                    &&& e.path@ == diff@[e.entry_index as int]@.path
                    &&& apply_ops(
                        old(self).tree(),
                        patch_view(diff@).take(e.entry_index as int),
                    ) == Some(final(self).tree())
                },
            },
    {
        let ghost t0 = self.tree();
        let ghost ops = patch_view(diff@);
        let mut i: usize = 0;
        proof {
            assert(ops.take(0) =~= Seq::<EntryV>::empty());
        }
        while i < diff.len()
            invariant
                self.wf(),
                i <= diff@.len(),
                apply_ops(t0, ops.take(i as int)) == Some(self.tree()),
            decreases diff@.len() - i,
        {
            let entry = &diff[i];
            let ghost cur_tree = self.tree();
            let outcome = apply_one(self, entry);
            match outcome {
                Result::Ok(()) => {
                    proof {
                        assert(ops[i as int] == entry@);
                        lemma_apply_ops_single(cur_tree, entry@);
                        lemma_apply_ops_concat(t0, ops.take(i as int), seq![entry@]);
                        assert(ops.take(i as int) + seq![entry@] =~= ops.take(i + 1));
                    }
                    i += 1;
                },
                Result::Err(()) => {
                    proof {
                        assert(ops[i as int] == entry@);
                        lemma_apply_ops_single(cur_tree, entry@);
                        lemma_apply_ops_concat(t0, ops.take(i as int), seq![entry@]);
                        lemma_apply_ops_concat(
                            t0,
                            ops.take(i as int) + seq![entry@],
                            ops.skip(i + 1),
                        );
                        assert((ops.take(i as int) + seq![entry@]) + ops.skip(i + 1) =~= ops);
                    }
                    return Err(
                        DesyncError { path: clone_path(&entry.path), entry_index: i },
                    );
                },
            }
        }
        proof {
            assert(ops.take(diff@.len() as int) =~= ops);
        }
        Ok(())
    }
}

} // verus!
