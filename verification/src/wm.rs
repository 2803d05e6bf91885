//! Walking the window manager's layout tree.
//!
//! The shell reads the manager's tree over IPC and hands it in as plain
//! [`WmNode`] values; the crawl here finds the workspace node, walks its
//! subtree breadth first, and builds one [`DesktopWindow`] per window it
//! meets, placing it by the rules of the manager's layout (tabbed and
//! stacked containers draw their children inside the decoration row).

use crate::windows::DesktopWindow;
use vstd::prelude::*;

verus! {

/// The layout of a container, as far as window placement cares.
#[derive(Debug, Clone, Copy, PartialEq, Eq, Structural)]
pub enum WmLayout {
    Tabbed,
    Stacked,
    Other,
}

/// Which manager dialect the tree came from: the two differ in how a
/// window's top edge relates to its decoration, and in which nodes count
/// as windows.
#[derive(Debug, Clone, Copy, PartialEq, Eq, Structural)]
pub enum WmDialect {
    I3,
    Sway,
}

/// One node of the layout tree, with the fields the crawl reads.
#[derive(Debug)]
pub struct WmNode {
    pub id: i64,
    pub name: Option<String>,
    pub is_workspace: bool,
    pub layout: WmLayout,
    pub window: Option<i32>,
    pub rect: (i32, i32, i32, i32),
    pub deco_rect: (i32, i32, i32, i32),
    pub focused: bool,
    pub nodes: Vec<WmNode>,
    pub floating_nodes: Vec<WmNode>,
}

/// The size of a whole subtree, counting every node once.
pub open spec fn node_size(n: WmNode) -> nat
    decreases n,
{
    1 + forest_size(n.nodes@) + forest_size(n.floating_nodes@)
}

/// The size of a list of subtrees.
pub open spec fn forest_size(s: Seq<WmNode>) -> nat
    decreases s,
{
    if s.len() == 0 {
        0nat
    } else {
        node_size(s[0]) + forest_size(s.drop_first())
    }
}

proof fn lemma_forest_size_add(a: Seq<WmNode>, b: Seq<WmNode>)
    ensures
        forest_size(a + b) == forest_size(a) + forest_size(b),
    decreases a.len(),
{
    if a.len() == 0 {
        assert(a + b =~= b);
    } else {
        assert((a + b).drop_first() =~= a.drop_first() + b);
        lemma_forest_size_add(a.drop_first(), b);
    }
}

proof fn lemma_forest_size_member(s: Seq<WmNode>, i: int)
    requires
        0 <= i < s.len(),
    ensures
        node_size(s[i]) <= forest_size(s),
    decreases i,
{
    if i == 0 {
    } else {
        lemma_forest_size_member(s.drop_first(), i - 1);
    }
}

/// The tiled children of every node in the list, in order.
pub open spec fn tiled_children(work: Seq<WmNode>) -> Seq<WmNode>
    decreases work.len(),
{
    if work.len() == 0 {
        Seq::empty()
    } else {
        work[0].nodes@ + tiled_children(work.drop_first())
    }
}

/// The tiled and floating children of every node in the list, in order.
pub open spec fn all_children(work: Seq<WmNode>) -> Seq<WmNode>
    decreases work.len(),
{
    if work.len() == 0 {
        Seq::empty()
    } else {
        work[0].nodes@ + work[0].floating_nodes@ + all_children(work.drop_first())
    }
}

proof fn lemma_tiled_children_size(work: Seq<WmNode>)
    ensures
        work.len() > 0 ==> forest_size(tiled_children(work)) < forest_size(work),
        forest_size(tiled_children(work)) <= forest_size(work),
    decreases work.len(),
{
    if work.len() > 0 {
        lemma_tiled_children_size(work.drop_first());
        lemma_forest_size_add(work[0].nodes@, tiled_children(work.drop_first()));
        assert(node_size(work[0]) == 1 + forest_size(work[0].nodes@) + forest_size(
            work[0].floating_nodes@,
        ));
    }
}

proof fn lemma_all_children_size(work: Seq<WmNode>)
    ensures
        work.len() > 0 ==> forest_size(all_children(work)) < forest_size(work),
        forest_size(all_children(work)) <= forest_size(work),
    decreases work.len(),
{
    if work.len() > 0 {
        lemma_all_children_size(work.drop_first());
        lemma_forest_size_add(
            work[0].nodes@ + work[0].floating_nodes@,
            all_children(work.drop_first()),
        );
        lemma_forest_size_add(work[0].nodes@, work[0].floating_nodes@);
        assert(node_size(work[0]) == 1 + forest_size(work[0].nodes@) + forest_size(
            work[0].floating_nodes@,
        ));
    }
}

/// The node is the workspace looked for: a workspace node carrying the
/// given name.
pub open spec fn is_ws_match(n: WmNode, name: Seq<char>) -> bool {
    n.is_workspace && n.name is Some && n.name.unwrap()@ == name
}

/// The first index in the list whose node is the named workspace, or -1.
pub open spec fn first_ws_index(work: Seq<WmNode>, name: Seq<char>) -> int
    decreases work.len(),
{
    if work.len() == 0 {
        -1
    } else if is_ws_match(work[0], name) {
        0
    } else {
        let r = first_ws_index(work.drop_first(), name);
        if r < 0 {
            -1
        } else {
            r + 1
        }
    }
}

proof fn lemma_first_ws_index_props(work: Seq<WmNode>, name: Seq<char>)
    ensures
        ({
            let r = first_ws_index(work, name);
            &&& r >= 0 ==> r < work.len() && is_ws_match(work[r], name) && forall|k: int|
                0 <= k < r ==> !is_ws_match(#[trigger] work[k], name)
            &&& r < 0 ==> r == -1 && forall|k: int|
                0 <= k < work.len() ==> !is_ws_match(#[trigger] work[k], name)
        }),
    decreases work.len(),
{
    if work.len() > 0 && !is_ws_match(work[0], name) {
        lemma_first_ws_index_props(work.drop_first(), name);
        let r0 = first_ws_index(work.drop_first(), name);
        assert forall|k: int| 0 <= k < work.len() && (r0 < 0 || k < r0 + 1) implies !is_ws_match(
            work[k],
            name,
        ) by {
            if k > 0 {
                assert(work.drop_first()[k - 1] == work[k]);
            }
        }
    }
}

/// The named workspace node, found breadth first: each level of the tree
/// is scanned left to right before its children are.
pub open spec fn find_ws(work: Seq<WmNode>, name: Seq<char>) -> Option<WmNode>
    decreases forest_size(work), 0nat,
        when true
    via find_ws_decreases
{
    if work.len() == 0 {
        None
    } else if first_ws_index(work, name) >= 0 {
        Some(work[first_ws_index(work, name)])
    } else {
        find_ws(tiled_children(work), name)
    }
}

#[via_fn]
proof fn find_ws_decreases(work: Seq<WmNode>, name: Seq<char>) {
    lemma_tiled_children_size(work);
}

/// The node has a tiled child with this id.
pub open spec fn has_child_with_id(n: WmNode, id: i64) -> bool {
    exists|j: int| 0 <= j < n.nodes@.len() && (#[trigger] n.nodes@[j]).id == id
}

/// The first index in the list whose node has a tiled child with this id,
/// or -1.
pub open spec fn first_parent_index(work: Seq<WmNode>, id: i64) -> int
    decreases work.len(),
{
    if work.len() == 0 {
        -1
    } else if has_child_with_id(work[0], id) {
        0
    } else {
        let r = first_parent_index(work.drop_first(), id);
        if r < 0 {
            -1
        } else {
            r + 1
        }
    }
}

proof fn lemma_first_parent_index_props(work: Seq<WmNode>, id: i64)
    ensures
        ({
            let r = first_parent_index(work, id);
            &&& r >= 0 ==> r < work.len() && has_child_with_id(work[r], id) && forall|k: int|
                0 <= k < r ==> !has_child_with_id(#[trigger] work[k], id)
            &&& r < 0 ==> r == -1 && forall|k: int|
                0 <= k < work.len() ==> !has_child_with_id(#[trigger] work[k], id)
        }),
    decreases work.len(),
{
    if work.len() > 0 && !has_child_with_id(work[0], id) {
        lemma_first_parent_index_props(work.drop_first(), id);
        let r0 = first_parent_index(work.drop_first(), id);
        assert forall|k: int|
            0 <= k < work.len() && (r0 < 0 || k < r0 + 1) implies !has_child_with_id(
            work[k],
            id,
        ) by {
            if k > 0 {
                assert(work.drop_first()[k - 1] == work[k]);
            }
        }
    }
}

/// The first node, breadth first, with a tiled child of this id: the
/// child's parent, when ids in the tree are unique.
pub open spec fn find_parent(work: Seq<WmNode>, id: i64) -> Option<WmNode>
    decreases forest_size(work), 0nat,
        when true
    via find_parent_decreases
{
    if work.len() == 0 {
        None
    } else if first_parent_index(work, id) >= 0 {
        Some(work[first_parent_index(work, id)])
    } else {
        find_parent(tiled_children(work), id)
    }
}

#[via_fn]
proof fn find_parent_decreases(work: Seq<WmNode>, id: i64) {
    lemma_tiled_children_size(work);
}

/// Whether the crawl makes a window of this node: under i3 only nodes
/// carrying a native window do; under sway every explored node does.
pub open spec fn emits(n: WmNode, d: WmDialect) -> bool {
    d == WmDialect::Sway || n.window is Some
}

/// The window built for one node, given the parent the crawl found for
/// it.  A tabbed parent draws the node inside its decoration row, so the
/// decoration's rectangle stands in for the node's; a stacked parent
/// offsets the node from its own top edge.
pub open spec fn window_rec(parent: Option<WmNode>, n: WmNode, d: WmDialect) -> DesktopWindow {
    let tabbed = parent is Some && parent.unwrap().layout == WmLayout::Tabbed;
    let stacked = parent is Some && parent.unwrap().layout == WmLayout::Stacked;
    let pos_x = if tabbed {
        n.rect.0 + n.deco_rect.0
    } else {
        n.rect.0 as int
    };
    let size_x = if tabbed {
        n.deco_rect.2 as int
    } else {
        n.rect.2 as int
    };
    let pos_y = if stacked {
        parent.unwrap().rect.1 + n.deco_rect.1
    } else if d == WmDialect::I3 {
        n.rect.1 + n.deco_rect.3
    } else {
        n.rect.1 - n.deco_rect.3
    };
    DesktopWindow {
        id: n.id,
        x_window_id: n.window,
        pos: (pos_x as i32, pos_y as i32),
        size: (size_x as i32, (n.rect.3 + n.deco_rect.3) as i32),
        is_focused: n.focused,
    }
}

/// The windows of one breadth-first level, in scan order.
pub open spec fn level_windows(root: WmNode, work: Seq<WmNode>, d: WmDialect) -> Seq<
    DesktopWindow,
>
    decreases work.len(),
{
    if work.len() == 0 {
        Seq::empty()
    } else {
        let head: Seq<DesktopWindow> = if emits(work[0], d) {
            seq![window_rec(find_parent(root.nodes@, work[0].id), work[0], d)]
        } else {
            Seq::empty()
        };
        head + level_windows(root, work.drop_first(), d)
    }
}

/// Every window of the subtrees in the list, breadth first: the list's own
/// level first, then, level by level, all the children.
pub open spec fn crawl_spec(root: WmNode, work: Seq<WmNode>, d: WmDialect) -> Seq<DesktopWindow>
    decreases forest_size(work),
        when true
    via crawl_spec_decreases
{
    if work.len() == 0 {
        Seq::empty()
    } else {
        level_windows(root, work, d) + crawl_spec(root, all_children(work), d)
    }
}

#[via_fn]
proof fn crawl_spec_decreases(root: WmNode, work: Seq<WmNode>, d: WmDialect) {
    lemma_all_children_size(work);
}

/// Coordinates small enough that the placement sums cannot overflow.
pub open spec fn fields_ok(n: WmNode) -> bool {
    &&& -0x3fffffff <= n.rect.0 <= 0x3fffffff
    &&& -0x3fffffff <= n.rect.1 <= 0x3fffffff
    &&& -0x3fffffff <= n.rect.2 <= 0x3fffffff
    &&& -0x3fffffff <= n.rect.3 <= 0x3fffffff
    &&& -0x3fffffff <= n.deco_rect.0 <= 0x3fffffff
    &&& -0x3fffffff <= n.deco_rect.1 <= 0x3fffffff
    &&& -0x3fffffff <= n.deco_rect.2 <= 0x3fffffff
    &&& -0x3fffffff <= n.deco_rect.3 <= 0x3fffffff
}

/// Every node of the subtree has small coordinates.
pub open spec fn node_coords_ok(n: WmNode) -> bool
    decreases n,
{
    fields_ok(n) && forest_coords_ok(n.nodes@) && forest_coords_ok(n.floating_nodes@)
}

/// Every node of every subtree in the list has small coordinates.
pub open spec fn forest_coords_ok(s: Seq<WmNode>) -> bool
    decreases s,
{
    s.len() == 0 || (node_coords_ok(s[0]) && forest_coords_ok(s.drop_first()))
}

proof fn lemma_forest_coords_member(s: Seq<WmNode>, i: int)
    requires
        forest_coords_ok(s),
        0 <= i < s.len(),
    ensures
        node_coords_ok(s[i]),
    decreases i,
{
    if i > 0 {
        lemma_forest_coords_member(s.drop_first(), i - 1);
    }
}

proof fn lemma_forest_coords_add(a: Seq<WmNode>, b: Seq<WmNode>)
    requires
        forest_coords_ok(a),
        forest_coords_ok(b),
    ensures
        forest_coords_ok(a + b),
    decreases a.len(),
{
    if a.len() == 0 {
        assert(a + b =~= b);
    } else {
        lemma_forest_coords_add(a.drop_first(), b);
        assert((a + b).drop_first() =~= a.drop_first() + b);
        assert((a + b)[0] == a[0]);
    }
}

proof fn lemma_children_coords(s: Seq<WmNode>)
    requires
        forest_coords_ok(s),
    ensures
        forest_coords_ok(tiled_children(s)),
        forest_coords_ok(all_children(s)),
    decreases s.len(),
{
    if s.len() > 0 {
        assert(node_coords_ok(s[0]));
        assert(forest_coords_ok(s[0].nodes@));
        assert(forest_coords_ok(s[0].floating_nodes@));
        lemma_children_coords(s.drop_first());
        lemma_forest_coords_add(s[0].nodes@, tiled_children(s.drop_first()));
        lemma_forest_coords_add(s[0].nodes@, s[0].floating_nodes@);
        lemma_forest_coords_add(
            s[0].nodes@ + s[0].floating_nodes@,
            all_children(s.drop_first()),
        );
    }
}

proof fn lemma_find_ws_coords(work: Seq<WmNode>, name: Seq<char>)
    requires
        forest_coords_ok(work),
    ensures
        find_ws(work, name) matches Some(ws) ==> node_coords_ok(ws),
    decreases forest_size(work),
{
    if work.len() > 0 {
        lemma_first_ws_index_props(work, name);
        if first_ws_index(work, name) >= 0 {
            lemma_forest_coords_member(work, first_ws_index(work, name));
        } else {
            lemma_children_coords(work);
            lemma_tiled_children_size(work);
            lemma_find_ws_coords(tiled_children(work), name);
        }
    }
}

proof fn lemma_find_parent_coords(work: Seq<WmNode>, id: i64)
    requires
        forest_coords_ok(work),
    ensures
        find_parent(work, id) matches Some(p) ==> node_coords_ok(p),
    decreases forest_size(work),
{
    if work.len() > 0 {
        lemma_first_parent_index_props(work, id);
        if first_parent_index(work, id) >= 0 {
            lemma_forest_coords_member(work, first_parent_index(work, id));
        } else {
            lemma_children_coords(work);
            lemma_tiled_children_size(work);
            lemma_find_parent_coords(tiled_children(work), id);
        }
    }
}

proof fn lemma_tiled_children_push(s: Seq<WmNode>, x: WmNode)
    ensures
        tiled_children(s.push(x)) =~= tiled_children(s) + x.nodes@,
    decreases s.len(),
{
    reveal_with_fuel(tiled_children, 2);
    if s.len() == 0 {
        assert(s.push(x)[0] == x);
        assert(s.push(x).drop_first() =~= Seq::<WmNode>::empty());
    } else {
        lemma_tiled_children_push(s.drop_first(), x);
        assert(s.push(x).drop_first() =~= s.drop_first().push(x));
        assert(s.push(x)[0] == s[0]);
    }
}

proof fn lemma_all_children_push(s: Seq<WmNode>, x: WmNode)
    ensures
        all_children(s.push(x)) =~= all_children(s) + x.nodes@ + x.floating_nodes@,
    decreases s.len(),
{
    reveal_with_fuel(all_children, 2);
    if s.len() == 0 {
        assert(s.push(x)[0] == x);
        assert(s.push(x).drop_first() =~= Seq::<WmNode>::empty());
    } else {
        lemma_all_children_push(s.drop_first(), x);
        assert(s.push(x).drop_first() =~= s.drop_first().push(x));
        assert(s.push(x)[0] == s[0]);
    }
}

proof fn lemma_level_windows_push(root: WmNode, s: Seq<WmNode>, x: WmNode, d: WmDialect)
    ensures
        level_windows(root, s.push(x), d) =~= level_windows(root, s, d) + (if emits(x, d) {
            seq![window_rec(find_parent(root.nodes@, x.id), x, d)]
        } else {
            Seq::<DesktopWindow>::empty()
        }),
    decreases s.len(),
{
    reveal_with_fuel(level_windows, 2);
    if s.len() == 0 {
        assert(s.push(x)[0] == x);
        assert(s.push(x).drop_first() =~= Seq::<WmNode>::empty());
    } else {
        lemma_level_windows_push(root, s.drop_first(), x, d);
        assert(s.push(x).drop_first() =~= s.drop_first().push(x));
        assert(s.push(x)[0] == s[0]);
    }
}

/// Why a crawl can fail.
#[derive(Debug, PartialEq, Eq, Structural, Clone, Copy)]
pub enum WmError {
    /// No workspace node of the given name stands in the tree.
    WorkspaceNotFound,
}

/// The values behind a worklist of node references.
pub open spec fn values(v: Seq<&WmNode>) -> Seq<WmNode> {
    Seq::new(v.len(), |i: int| *v[i])
}

fn node_matches_ws(n: &WmNode, name: &str) -> (r: bool)
    ensures
        r == is_ws_match(*n, name@),
{
    if !n.is_workspace {
        return false;
    }
    match &n.name {
        Some(s) => crate::text::str_eq(s.as_str(), name),
        None => false,
    }
}

fn node_has_child(n: &WmNode, id: i64) -> (r: bool)
    ensures
        r == has_child_with_id(*n, id),
{
    let cn = n.nodes.len();
    let mut j: usize = 0;
    while j < cn
        invariant
            cn == n.nodes@.len(),
            j <= cn,
            forall|k: int| 0 <= k < j ==> (#[trigger] n.nodes@[k]).id != id,
        decreases cn - j,
    {
        if n.nodes[j].id == id {
            return true;
        }
        j = j + 1;
    }
    proof {
        if has_child_with_id(*n, id) {
            let k = choose|k: int| 0 <= k < n.nodes@.len() && (#[trigger] n.nodes@[k]).id == id;
            assert(n.nodes@[k].id != id);
        }
    }
    false
}

/// Find the named workspace node, scanning the tree breadth first.
#[verifier::loop_isolation(false)]
pub fn find_workspace_node<'a>(root: &'a WmNode, name: &str) -> (r: Option<&'a WmNode>)
    ensures
        match r {
            Some(ws) => find_ws(root.nodes@, name@) == Some(*ws),
            None => find_ws(root.nodes@, name@) is None,
        },
{
    let mut work: Vec<&WmNode> = Vec::new();
    let rn = root.nodes.len();
    let mut j: usize = 0;
    proof {
        assert(values(work@) =~= root.nodes@.take(0));
    }
    while j < rn
        invariant
            j <= rn,
            values(work@) == root.nodes@.take(j as int),
        decreases rn - j,
    {
        work.push(&root.nodes[j]);
        proof {
            assert(values(work@) =~= root.nodes@.take(j + 1));
        }
        j = j + 1;
    }
    proof {
        assert(root.nodes@.take(rn as int) =~= root.nodes@);
    }
    loop
        invariant
            find_ws(values(work@), name@) == find_ws(root.nodes@, name@),
        decreases forest_size(values(work@)),
    {
        let wn = work.len();
        if wn == 0 {
            return None;
        }
        let mut i: usize = 0;
        while i < wn
            invariant
                i <= wn,
                forall|k: int| 0 <= k < i ==> !is_ws_match(#[trigger] values(work@)[k], name@),
            decreases wn - i,
        {
            if node_matches_ws(work[i], name) {
                proof {
                    assert(is_ws_match(values(work@)[i as int], name@));
                    lemma_first_ws_index_props(values(work@), name@);
                }
                return Some(work[i]);
            }
            i = i + 1;
        }
        proof {
            lemma_first_ws_index_props(values(work@), name@);
            assert(first_ws_index(values(work@), name@) == -1);
        }
        let mut next: Vec<&WmNode> = Vec::new();
        let mut i2: usize = 0;
        proof {
            assert(values(work@).take(0) =~= Seq::<WmNode>::empty());
            assert(values(next@) =~= tiled_children(values(work@).take(0)));
        }
        while i2 < wn
            invariant
                i2 <= wn,
                values(next@) == tiled_children(values(work@).take(i2 as int)),
            decreases wn - i2,
        {
            let node = work[i2];
            let cn = node.nodes.len();
            let mut j2: usize = 0;
            proof {
                assert(node.nodes@.take(0) =~= Seq::<WmNode>::empty());
                assert(values(next@) =~= tiled_children(values(work@).take(i2 as int))
                    + node.nodes@.take(0));
            }
            while j2 < cn
                invariant
                    j2 <= cn,
                    values(next@) == tiled_children(values(work@).take(i2 as int))
                        + node.nodes@.take(j2 as int),
                decreases cn - j2,
            {
                let ghost oldnext = next@;
                next.push(&node.nodes[j2]);
                proof {
                    let target = tiled_children(values(work@).take(i2 as int)) + node.nodes@.take(
                        j2 + 1,
                    );
                    assert forall|k: int| 0 <= k < values(next@).len() implies values(next@)[k]
                        == target[k] by {
                        if k < oldnext.len() {
                            assert(next@[k] == oldnext[k]);
                            assert(values(oldnext)[k] == (tiled_children(values(work@).take(
                                i2 as int,
                            )) + node.nodes@.take(j2 as int))[k]);
                        } else {
                            assert(values(next@)[k] == node.nodes@[j2 as int]);
                        }
                    }
                    assert(values(next@) =~= target);
                }
                j2 = j2 + 1;
            }
            proof {
                assert(node.nodes@.take(cn as int) =~= node.nodes@);
                assert(values(work@).take(i2 + 1) =~= values(work@).take(i2 as int).push(
                    values(work@)[i2 as int],
                ));
                lemma_tiled_children_push(values(work@).take(i2 as int), values(work@)[i2 as int]);
                assert(values(next@) =~= tiled_children(values(work@).take(i2 + 1)));
            }
            i2 = i2 + 1;
        }
        proof {
            assert(values(work@).take(wn as int) =~= values(work@));
            lemma_tiled_children_size(values(work@));
        }
        work = next;
    }
}

/// Find the first node, breadth first, with a tiled child of this id: the
/// child's parent, when ids in the tree are unique.
#[verifier::loop_isolation(false)]
pub fn find_parent_of<'a>(root: &'a WmNode, child_id: i64) -> (r: Option<&'a WmNode>)
    ensures
        match r {
            Some(p) => find_parent(root.nodes@, child_id) == Some(*p),
            None => find_parent(root.nodes@, child_id) is None,
        },
{
    let mut work: Vec<&WmNode> = Vec::new();
    let rn = root.nodes.len();
    let mut j: usize = 0;
    proof {
        assert(values(work@) =~= root.nodes@.take(0));
    }
    while j < rn
        invariant
            j <= rn,
            values(work@) == root.nodes@.take(j as int),
        decreases rn - j,
    {
        work.push(&root.nodes[j]);
        proof {
            assert(values(work@) =~= root.nodes@.take(j + 1));
        }
        j = j + 1;
    }
    proof {
        assert(root.nodes@.take(rn as int) =~= root.nodes@);
    }
    loop
        invariant
            find_parent(values(work@), child_id) == find_parent(root.nodes@, child_id),
        decreases forest_size(values(work@)),
    {
        let wn = work.len();
        if wn == 0 {
            return None;
        }
        let mut i: usize = 0;
        while i < wn
            invariant
                i <= wn,
                forall|k: int|
                    0 <= k < i ==> !has_child_with_id(#[trigger] values(work@)[k], child_id),
            decreases wn - i,
        {
            if node_has_child(work[i], child_id) {
                proof {
                    assert(has_child_with_id(values(work@)[i as int], child_id));
                    lemma_first_parent_index_props(values(work@), child_id);
                }
                return Some(work[i]);
            }
            i = i + 1;
        }
        proof {
            lemma_first_parent_index_props(values(work@), child_id);
            assert(first_parent_index(values(work@), child_id) == -1);
        }
        let mut next: Vec<&WmNode> = Vec::new();
        let mut i2: usize = 0;
        proof {
            assert(values(work@).take(0) =~= Seq::<WmNode>::empty());
            assert(values(next@) =~= tiled_children(values(work@).take(0)));
        }
        while i2 < wn
            invariant
                i2 <= wn,
                values(next@) == tiled_children(values(work@).take(i2 as int)),
            decreases wn - i2,
        {
            let node = work[i2];
            let cn = node.nodes.len();
            let mut j2: usize = 0;
            proof {
                assert(node.nodes@.take(0) =~= Seq::<WmNode>::empty());
                assert(values(next@) =~= tiled_children(values(work@).take(i2 as int))
                    + node.nodes@.take(0));
            }
            while j2 < cn
                invariant
                    j2 <= cn,
                    values(next@) == tiled_children(values(work@).take(i2 as int))
                        + node.nodes@.take(j2 as int),
                decreases cn - j2,
            {
                let ghost oldnext = next@;
                next.push(&node.nodes[j2]);
                proof {
                    let target = tiled_children(values(work@).take(i2 as int)) + node.nodes@.take(
                        j2 + 1,
                    );
                    assert forall|k: int| 0 <= k < values(next@).len() implies values(next@)[k]
                        == target[k] by {
                        if k < oldnext.len() {
                            assert(next@[k] == oldnext[k]);
                            assert(values(oldnext)[k] == (tiled_children(values(work@).take(
                                i2 as int,
                            )) + node.nodes@.take(j2 as int))[k]);
                        } else {
                            assert(values(next@)[k] == node.nodes@[j2 as int]);
                        }
                    }
                    assert(values(next@) =~= target);
                }
                j2 = j2 + 1;
            }
            proof {
                assert(node.nodes@.take(cn as int) =~= node.nodes@);
                assert(values(work@).take(i2 + 1) =~= values(work@).take(i2 as int).push(
                    values(work@)[i2 as int],
                ));
                lemma_tiled_children_push(values(work@).take(i2 as int), values(work@)[i2 as int]);
                assert(values(next@) =~= tiled_children(values(work@).take(i2 + 1)));
            }
            i2 = i2 + 1;
        }
        proof {
            assert(values(work@).take(wn as int) =~= values(work@));
            lemma_tiled_children_size(values(work@));
        }
        work = next;
    }
}

proof fn lemma_forest_coords_iff(s: Seq<WmNode>)
    ensures
        forest_coords_ok(s) <==> (forall|i: int|
            0 <= i < s.len() ==> node_coords_ok(#[trigger] s[i])),
    decreases s.len(),
{
    if s.len() > 0 {
        lemma_forest_coords_iff(s.drop_first());
        assert forall|i: int|
            (forall|k: int| 0 <= k < s.len() ==> node_coords_ok(#[trigger] s[k])) && 0 <= i
                < s.drop_first().len() implies node_coords_ok(#[trigger] s.drop_first()[i]) by {
            assert(s.drop_first()[i] == s[i + 1]);
        }
        if forest_coords_ok(s) {
            assert forall|i: int| 0 <= i < s.len() implies node_coords_ok(#[trigger] s[i]) by {
                if i > 0 {
                    assert(s.drop_first()[i - 1] == s[i]);
                }
            }
        }
    }
}

/// Whether every coordinate in the subtree is small enough for the
/// placement arithmetic.
#[verifier::loop_isolation(false)]
pub fn node_coords_within(n: &WmNode) -> (r: bool)
    ensures
        r == node_coords_ok(*n),
    decreases node_size(*n),
{
    let fits = n.rect.0 >= -0x3fffffff && n.rect.0 <= 0x3fffffff && n.rect.1 >= -0x3fffffff
        && n.rect.1 <= 0x3fffffff && n.rect.2 >= -0x3fffffff && n.rect.2 <= 0x3fffffff
        && n.rect.3 >= -0x3fffffff && n.rect.3 <= 0x3fffffff && n.deco_rect.0 >= -0x3fffffff
        && n.deco_rect.0 <= 0x3fffffff && n.deco_rect.1 >= -0x3fffffff && n.deco_rect.1
        <= 0x3fffffff && n.deco_rect.2 >= -0x3fffffff && n.deco_rect.2 <= 0x3fffffff
        && n.deco_rect.3 >= -0x3fffffff && n.deco_rect.3 <= 0x3fffffff;
    if !fits {
        return false;
    }
    let cn = n.nodes.len();
    let mut j: usize = 0;
    while j < cn
        invariant
            cn == n.nodes@.len(),
            j <= cn,
            forall|k: int| 0 <= k < j ==> node_coords_ok(#[trigger] n.nodes@[k]),
        decreases cn - j,
    {
        proof {
            lemma_forest_size_member(n.nodes@, j as int);
        }
        if !node_coords_within(&n.nodes[j]) {
            proof {
                lemma_forest_coords_iff(n.nodes@);
            }
            return false;
        }
        j = j + 1;
    }
    let fln = n.floating_nodes.len();
    let mut j2: usize = 0;
    while j2 < fln
        invariant
            fln == n.floating_nodes@.len(),
            j2 <= fln,
            forall|k: int| 0 <= k < j2 ==> node_coords_ok(#[trigger] n.floating_nodes@[k]),
        decreases fln - j2,
    {
        proof {
            lemma_forest_size_member(n.floating_nodes@, j2 as int);
        }
        if !node_coords_within(&n.floating_nodes[j2]) {
            proof {
                lemma_forest_coords_iff(n.floating_nodes@);
            }
            return false;
        }
        j2 = j2 + 1;
    }
    proof {
        lemma_forest_coords_iff(n.nodes@);
        lemma_forest_coords_iff(n.floating_nodes@);
    }
    true
}

/// Whether every coordinate under the tree root is small enough for the
/// placement arithmetic: what `crawl_windows` requires of its tree.
#[verifier::loop_isolation(false)]
pub fn coords_within_bounds(root: &WmNode) -> (r: bool)
    ensures
        r == forest_coords_ok(root.nodes@),
{
    let cn = root.nodes.len();
    let mut j: usize = 0;
    while j < cn
        invariant
            cn == root.nodes@.len(),
            j <= cn,
            forall|k: int| 0 <= k < j ==> node_coords_ok(#[trigger] root.nodes@[k]),
        decreases cn - j,
    {
        if !node_coords_within(&root.nodes[j]) {
            proof {
                lemma_forest_coords_iff(root.nodes@);
            }
            return false;
        }
        j = j + 1;
    }
    proof {
        lemma_forest_coords_iff(root.nodes@);
    }
    true
}

/// Gather the windows of the named workspace, breadth first, building one
/// record per window with its position and size resolved against its
/// parent container's layout.
#[verifier::loop_isolation(false)]
pub fn crawl_windows(root: &WmNode, workspace_name: &str, dialect: WmDialect) -> (r: Result<
    Vec<DesktopWindow>,
    WmError,
>)
    requires
        forest_coords_ok(root.nodes@),
    ensures
        match find_ws(root.nodes@, workspace_name@) {
            Some(ws) => r matches Ok(v) && v@ == crawl_spec(
                *root,
                ws.nodes@ + ws.floating_nodes@,
                dialect,
            ),
            None => r matches Err(e) && e == WmError::WorkspaceNotFound,
        },
{
    let ws = match find_workspace_node(root, workspace_name) {
        Some(ws) => ws,
        None => {
            return Err(WmError::WorkspaceNotFound);
        },
    };
    proof {
        lemma_find_ws_coords(root.nodes@, workspace_name@);
        assert(node_coords_ok(*ws));
    }
    let mut work: Vec<&WmNode> = Vec::new();
    let tn = ws.nodes.len();
    let mut j: usize = 0;
    proof {
        assert(values(work@) =~= ws.nodes@.take(0));
    }
    while j < tn
        invariant
            j <= tn,
            values(work@) == ws.nodes@.take(j as int),
        decreases tn - j,
    {
        work.push(&ws.nodes[j]);
        proof {
            assert(values(work@) =~= ws.nodes@.take(j + 1));
        }
        j = j + 1;
    }
    proof {
        assert(ws.nodes@.take(tn as int) =~= ws.nodes@);
    }
    let fcount = ws.floating_nodes.len();
    let mut j3: usize = 0;
    while j3 < fcount
        invariant
            j3 <= fcount,
            values(work@) == ws.nodes@ + ws.floating_nodes@.take(j3 as int),
        decreases fcount - j3,
    {
        let ghost oldwork = work@;
        work.push(&ws.floating_nodes[j3]);
        proof {
            let target = ws.nodes@ + ws.floating_nodes@.take(j3 + 1);
            assert forall|k: int| 0 <= k < values(work@).len() implies values(work@)[k]
                == target[k] by {
                if k < oldwork.len() {
                    assert(work@[k] == oldwork[k]);
                    assert(values(oldwork)[k] == (ws.nodes@ + ws.floating_nodes@.take(
                        j3 as int,
                    ))[k]);
                } else {
                    assert(values(work@)[k] == ws.floating_nodes@[j3 as int]);
                }
            }
            assert(values(work@) =~= target);
        }
        j3 = j3 + 1;
    }
    proof {
        assert(ws.floating_nodes@.take(fcount as int) =~= ws.floating_nodes@);
    }
    let ghost total = crawl_spec(*root, ws.nodes@ + ws.floating_nodes@, dialect);
    let mut windows: Vec<DesktopWindow> = Vec::new();
    proof {
        lemma_forest_coords_add(ws.nodes@, ws.floating_nodes@);
        assert(windows@ + crawl_spec(*root, values(work@), dialect) =~= total);
    }
    loop
        invariant
            forest_coords_ok(values(work@)),
            windows@ + crawl_spec(*root, values(work@), dialect) == total,
        decreases forest_size(values(work@)),
    {
        let wn = work.len();
        if wn == 0 {
            proof {
                assert(windows@ =~= windows@ + crawl_spec(*root, values(work@), dialect));
            }
            return Ok(windows);
        }
        let ghost level = values(work@);
        let ghost windows0 = windows@;
        let mut next: Vec<&WmNode> = Vec::new();
        let mut i: usize = 0;
        proof {
            assert(level.take(0) =~= Seq::<WmNode>::empty());
            assert(values(next@) =~= all_children(level.take(0)));
            assert(windows@ =~= windows0 + level_windows(*root, level.take(0), dialect));
        }
        while i < wn
            invariant
                i <= wn,
                values(next@) == all_children(level.take(i as int)),
                windows@ == windows0 + level_windows(*root, level.take(i as int), dialect),
            decreases wn - i,
        {
            let node = work[i];
            proof {
                lemma_forest_coords_member(level, i as int);
                assert(node_coords_ok(*node));
            }
            let cn = node.nodes.len();
            let mut j2: usize = 0;
            proof {
                assert(node.nodes@.take(0) =~= Seq::<WmNode>::empty());
                assert(values(next@) =~= all_children(level.take(i as int)) + node.nodes@.take(0));
            }
            while j2 < cn
                invariant
                    j2 <= cn,
                    values(next@) == all_children(level.take(i as int)) + node.nodes@.take(
                        j2 as int,
                    ),
                decreases cn - j2,
            {
                let ghost oldnext = next@;
                next.push(&node.nodes[j2]);
                proof {
                    let target = all_children(level.take(i as int)) + node.nodes@.take(j2 + 1);
                    assert forall|k: int| 0 <= k < values(next@).len() implies values(next@)[k]
                        == target[k] by {
                        if k < oldnext.len() {
                            assert(next@[k] == oldnext[k]);
                            assert(values(oldnext)[k] == (all_children(level.take(i as int))
                                + node.nodes@.take(j2 as int))[k]);
                        } else {
                            assert(values(next@)[k] == node.nodes@[j2 as int]);
                        }
                    }
                    assert(values(next@) =~= target);
                }
                j2 = j2 + 1;
            }
            proof {
                assert(node.nodes@.take(cn as int) =~= node.nodes@);
            }
            let fln = node.floating_nodes.len();
            let mut j4: usize = 0;
            while j4 < fln
                invariant
                    j4 <= fln,
                    values(next@) == all_children(level.take(i as int)) + node.nodes@
                        + node.floating_nodes@.take(j4 as int),
                decreases fln - j4,
            {
                let ghost oldnext = next@;
                next.push(&node.floating_nodes[j4]);
                proof {
                    let target = all_children(level.take(i as int)) + node.nodes@
                        + node.floating_nodes@.take(j4 + 1);
                    assert forall|k: int| 0 <= k < values(next@).len() implies values(next@)[k]
                        == target[k] by {
                        if k < oldnext.len() {
                            assert(next@[k] == oldnext[k]);
                            assert(values(oldnext)[k] == (all_children(level.take(i as int))
                                + node.nodes@ + node.floating_nodes@.take(j4 as int))[k]);
                        } else {
                            assert(values(next@)[k] == node.floating_nodes@[j4 as int]);
                        }
                    }
                    assert(values(next@) =~= target);
                }
                j4 = j4 + 1;
            }
            proof {
                assert(node.floating_nodes@.take(fln as int) =~= node.floating_nodes@);
                assert(level.take(i + 1) =~= level.take(i as int).push(level[i as int]));
                lemma_all_children_push(level.take(i as int), level[i as int]);
                assert(values(next@) =~= all_children(level.take(i + 1)));
            }
            let makes_window = match dialect {
                WmDialect::Sway => true,
                WmDialect::I3 => node.window.is_some(),
            };
            if makes_window {
                let parent_opt = find_parent_of(root, node.id);
                proof {
                    lemma_find_parent_coords(root.nodes@, node.id);
                }
                let tabbed = match parent_opt {
                    Some(p) => p.layout == WmLayout::Tabbed,
                    None => false,
                };
                let stacked = match parent_opt {
                    Some(p) => p.layout == WmLayout::Stacked,
                    None => false,
                };
                let (pos_x, size_x): (i32, i32) = if tabbed {
                    (node.rect.0 + node.deco_rect.0, node.deco_rect.2)
                } else {
                    (node.rect.0, node.rect.2)
                };
                let pos_y: i32 = if stacked {
                    match parent_opt {
                        Some(p) => p.rect.1 + node.deco_rect.1,
                        None => 0,
                    }
                } else {
                    match dialect {
                        WmDialect::I3 => node.rect.1 + node.deco_rect.3,
                        WmDialect::Sway => node.rect.1 - node.deco_rect.3,
                    }
                };
                let window = DesktopWindow {
                    id: node.id,
                    x_window_id: node.window,
                    pos: (pos_x, pos_y),
                    size: (size_x, node.rect.3 + node.deco_rect.3),
                    is_focused: node.focused,
                };
                proof {
                    assert(window == window_rec(
                        find_parent(root.nodes@, node.id),
                        level[i as int],
                        dialect,
                    ));
                }
                windows.push(window);
            }
            proof {
                assert(level.take(i + 1) =~= level.take(i as int).push(level[i as int]));
                lemma_level_windows_push(*root, level.take(i as int), level[i as int], dialect);
                assert(windows@ =~= windows0 + level_windows(*root, level.take(i + 1), dialect));
            }
            i = i + 1;
        }
        proof {
            assert(level.take(wn as int) =~= level);
            lemma_all_children_size(level);
            lemma_children_coords(level);
            assert(crawl_spec(*root, level, dialect) == level_windows(*root, level, dialect)
                + crawl_spec(*root, all_children(level), dialect));
            assert(windows@ + crawl_spec(*root, all_children(level), dialect) =~= total);
        }
        work = next;
    }
}

} // verus!
