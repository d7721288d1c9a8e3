//! The library's model of the live window tree: what the manager's
//! point-in-time tree query reports, held as plain values, and the pure
//! helper functions over it — all iterative, so adversarially deep trees
//! cannot exhaust the call stack.

use vstd::prelude::*;

use crate::errors::Error;
use crate::errors::LiveStateError;

verus! {

/// What kind of container a live node is.
#[derive(Clone, Copy, Debug, PartialEq, Eq, Structural)]
pub enum LiveNodeType {
    Root,
    Output,
    Con,
    FloatingCon,
    Workspace,
    Dockarea,
}

/// The layout the manager reports for a live node; everything outside the
/// four modes the snapshot understands collapses to `Other`.
#[derive(Clone, Copy, Debug, PartialEq, Eq, Structural)]
pub enum LiveLayout {
    SplitH,
    SplitV,
    Stacked,
    Tabbed,
    Other,
}

/// The floating state the manager reports for a live node.
#[derive(Clone, Copy, Debug, PartialEq, Eq, Structural)]
pub enum FloatingState {
    AutoOn,
    AutoOff,
    UserOn,
    UserOff,
}

/// One node of the live tree, with its children in live sibling order.
#[derive(Debug)]
pub struct LiveNode {
    pub id: u64,
    pub node_type: LiveNodeType,
    pub num: Option<i32>,
    pub layout: LiveLayout,
    pub window_width: i64,
    pub window_height: i64,
    pub floating: Option<FloatingState>,
    pub has_window_type: bool,
    pub children: Vec<LiveNode>,
}

/// The root of one point-in-time tree query.
#[derive(Debug)]
pub struct RootNode(pub LiveNode);

impl RootNode {
    /// As a live node.
    pub fn node(&self) -> (r: &LiveNode)
        ensures
            *r == self.0,
    {
        &self.0
    }
}

/// One entry of the manager's workspace listing.
#[derive(Clone, Copy, Debug, PartialEq, Eq, Structural)]
pub struct WorkspaceInfo {
    pub id: u64,
    pub num: i32,
    pub focused: bool,
}

/// The node layout a command can request.
#[derive(Clone, Copy, Debug, PartialEq, Eq, Structural)]
pub enum Layout {
    /// Default layout.
    Default,
    /// Tabbed layout.
    Tabbed,
    /// Split horizontal layout.
    SplitH,
    /// Split vertical layout.
    SplitV,
    /// Stacked layout.
    Stacked,
}

/// A split operation request.
#[derive(Clone, Copy, Debug, PartialEq, Eq, Structural)]
pub enum Split {
    /// Split horizontal.
    Horizontal,
    /// Split vertical.
    Vertical,
}

/// The size ratio of a rectangle.
#[derive(Clone, Copy, Debug, PartialEq, Eq, Structural)]
pub enum RectRatio {
    /// Width greater or equal than height.
    Horizontal,
    /// Height greater than width.
    Vertical,
}

impl RectRatio {
    /// Whether the ratio is vertical.
    pub fn is_vertical(&self) -> (r: bool)
        ensures
            r == (*self is Vertical),
    {
        matches!(self, RectRatio::Vertical)
    }
}

// ---------------------------------------------------------------------------
// Sizes, for termination of the iterative traversals.
// ---------------------------------------------------------------------------

/// How many nodes a subtree holds.
pub open spec fn size_of(t: LiveNode) -> nat
    decreases t, 0int,
{
    1 + size_of_seq(t.children@)
}

/// How many nodes a forest holds.
pub open spec fn size_of_seq(s: Seq<LiveNode>) -> nat
    decreases s, s.len(),
{
    if s.len() == 0 {
        0
    } else {
        size_of(s[0]) + size_of_seq(s.subrange(1, s.len() as int))
    }
}

pub proof fn lemma_size_seq_concat(a: Seq<LiveNode>, b: Seq<LiveNode>)
    ensures
        size_of_seq(a + b) == size_of_seq(a) + size_of_seq(b),
    decreases a.len(),
{
    if a.len() == 0 {
        assert(a + b =~= b);
    } else {
        assert((a + b)[0] == a[0]);
        assert((a + b).subrange(1, (a + b).len() as int) =~= a.subrange(1, a.len() as int) + b);
        lemma_size_seq_concat(a.subrange(1, a.len() as int), b);
    }
}

// ---------------------------------------------------------------------------
// Finding a node by id.
// ---------------------------------------------------------------------------

/// The first node carrying this id, in document order.
pub open spec fn spec_find(t: LiveNode, id: u64) -> Option<LiveNode>
    decreases t, 0int,
{
    if t.id == id {
        Some(t)
    } else {
        spec_find_in(t.children@, id)
    }
}

/// The first node carrying this id in a forest, in document order.
pub open spec fn spec_find_in(s: Seq<LiveNode>, id: u64) -> Option<LiveNode>
    decreases s, s.len(),
{
    if s.len() == 0 {
        None
    } else {
        match spec_find(s[0], id) {
            Some(n) => Some(n),
            None => spec_find_in(s.subrange(1, s.len() as int), id),
        }
    }
}

pub proof fn lemma_find_in_concat(a: Seq<LiveNode>, b: Seq<LiveNode>, id: u64)
    ensures
        spec_find_in(a + b, id) == (match spec_find_in(a, id) {
            Some(n) => Some(n),
            None => spec_find_in(b, id),
        }),
    decreases a.len(),
{
    if a.len() == 0 {
        assert(a + b =~= b);
    } else {
        assert((a + b)[0] == a[0]);
        assert((a + b).subrange(1, (a + b).len() as int) =~= a.subrange(1, a.len() as int) + b);
        lemma_find_in_concat(a.subrange(1, a.len() as int), b, id);
    }
}

/// Find a node by id: the first match in document order, if any.
#[verifier::loop_isolation(false)]
pub fn find_node_by_id<'a>(node_id: u64, root_node: &'a RootNode) -> (r: Option<&'a LiveNode>)
    ensures
        match r {
            Some(n) => spec_find(root_node.0, node_id) == Some(*n),
            None => spec_find(root_node.0, node_id) is None,
        },
{
    let mut stack: Vec<&'a LiveNode> = Vec::new();
    stack.push(root_node.node());
    let ghost mut gstack: Seq<LiveNode> = seq![root_node.0];
    proof {
        assert(gstack[0] == root_node.0);
        assert(gstack.subrange(1, 1) =~= Seq::<LiveNode>::empty());
        assert(spec_find_in(Seq::<LiveNode>::empty(), node_id) is None);
        assert(spec_find_in(gstack, node_id) == spec_find(root_node.0, node_id));
    }
    while stack.len() != 0
        invariant
            gstack.len() == stack@.len(),
            forall|i: int| 0 <= i < gstack.len() ==> *stack@[i] == gstack[gstack.len() - 1 - i],
            spec_find_in(gstack, node_id) == spec_find(root_node.0, node_id),
        decreases size_of_seq(gstack),
    {
        let ghost gstack0 = gstack;
        let current = match stack.pop() {
            Some(current) => current,
            None => {
                proof {
                    assert(false);
                }
                root_node.node()
            },
        };
        let ghost grest = gstack0.subrange(1, gstack0.len() as int);
        proof {
            assert(*current == gstack0[0]);
            assert(forall|i: int|
                0 <= i < grest.len() ==> *stack@[i] == grest[grest.len() - 1 - i]);
        }
        if current.id == node_id {
            proof {
                assert(spec_find(gstack0[0], node_id) == Some(gstack0[0]));
            }
            return Some(current);
        }
        proof {
            assert(spec_find(gstack0[0], node_id) == spec_find_in(current.children@, node_id));
        }
        let clen = current.children.len();
        let ghost cs = current.children@;
        let mut j: usize = clen;
        while j > 0
            invariant
                0 <= j <= clen,
                clen == cs.len(),
                cs == current.children@,
                stack@.len() == grest.len() + (clen - j),
                forall|i: int| 0 <= i < grest.len() ==> *stack@[i] == grest[grest.len() - 1 - i],
                forall|k: int|
                    j <= k < clen ==> *stack@[grest.len() + (clen - 1 - k)] == cs[k],
            decreases j,
        {
            j = j - 1;
            stack.push(&current.children[j]);
        }
        proof {
            gstack = cs + grest;
            assert(gstack.len() == stack@.len());
            assert forall|i: int|
                0 <= i < gstack.len() implies *stack@[i] == gstack[gstack.len() - 1 - i] by {
                if i < grest.len() {
                    assert(gstack[gstack.len() - 1 - i] == grest[grest.len() - 1 - i]);
                } else {
                    let k = grest.len() + cs.len() - 1 - i;
                    assert(0 <= k < cs.len());
                    assert(i == grest.len() + (cs.len() - 1 - k));
                    assert(*stack@[i] == cs[k]);
                    assert(gstack[gstack.len() - 1 - i] == cs[k]);
                }
            }
            lemma_find_in_concat(cs, grest, node_id);
            assert(gstack0.subrange(1, gstack0.len() as int) == grest);
            assert(spec_find_in(gstack0, node_id) == (match spec_find(gstack0[0], node_id) {
                Some(n) => Some(n),
                None => spec_find_in(grest, node_id),
            }));
            assert(spec_find_in(gstack, node_id) == spec_find(root_node.0, node_id));
            lemma_size_seq_concat(cs, grest);
            assert(size_of_seq(gstack0) == size_of(gstack0[0]) + size_of_seq(grest));
            assert(size_of_seq(gstack) < size_of_seq(gstack0));
        }
    }
    proof {
        assert(gstack =~= Seq::<LiveNode>::empty());
    }
    None
}

} // verus!

verus! {

// ---------------------------------------------------------------------------
// Finding a node's parent.
// ---------------------------------------------------------------------------

/// The parent of the first non-root node carrying this id, in document
/// order.
pub open spec fn spec_parent(t: LiveNode, id: u64) -> Option<LiveNode>
    decreases t, 0int,
{
    spec_parent_in(t, t.children@, id)
}

/// Scanning a child list under a fixed parent.
pub open spec fn spec_parent_in(p: LiveNode, cs: Seq<LiveNode>, id: u64) -> Option<LiveNode>
    decreases cs, cs.len(),
{
    if cs.len() == 0 {
        None
    } else if cs[0].id == id {
        Some(p)
    } else {
        match spec_parent(cs[0], id) {
            Some(q) => Some(q),
            None => spec_parent_in(p, cs.subrange(1, cs.len() as int), id),
        }
    }
}

/// A worklist of (node, parent) entries still to visit.
pub open spec fn scan_pairs(ps: Seq<(LiveNode, LiveNode)>, id: u64) -> Option<LiveNode>
    decreases ps.len(),
{
    if ps.len() == 0 {
        None
    } else if ps[0].0.id == id {
        Some(ps[0].1)
    } else {
        match spec_parent(ps[0].0, id) {
            Some(q) => Some(q),
            None => scan_pairs(ps.subrange(1, ps.len() as int), id),
        }
    }
}

/// Node weight of a worklist, for termination.
pub open spec fn psize(ps: Seq<(LiveNode, LiveNode)>) -> nat
    decreases ps.len(),
{
    if ps.len() == 0 {
        0
    } else {
        size_of(ps[0].0) + psize(ps.subrange(1, ps.len() as int))
    }
}

pub open spec fn pairs_of(cs: Seq<LiveNode>, p: LiveNode) -> Seq<(LiveNode, LiveNode)> {
    cs.map_values(|c: LiveNode| (c, p))
}

pub proof fn lemma_scan_pairs_concat(a: Seq<(LiveNode, LiveNode)>, b: Seq<(LiveNode, LiveNode)>, id: u64)
    ensures
        scan_pairs(a + b, id) == (match scan_pairs(a, id) {
            Some(q) => Some(q),
            None => scan_pairs(b, id),
        }),
        psize(a + b) == psize(a) + psize(b),
    decreases a.len(),
{
    if a.len() == 0 {
        assert(a + b =~= b);
    } else {
        assert((a + b)[0] == a[0]);
        assert((a + b).subrange(1, (a + b).len() as int) =~= a.subrange(1, a.len() as int) + b);
        lemma_scan_pairs_concat(a.subrange(1, a.len() as int), b, id);
    }
}

pub proof fn lemma_scan_pairs_of(cs: Seq<LiveNode>, p: LiveNode, id: u64)
    ensures
        scan_pairs(pairs_of(cs, p), id) == spec_parent_in(p, cs, id),
        psize(pairs_of(cs, p)) == size_of_seq(cs),
    decreases cs.len(),
{
    if cs.len() == 0 {
    } else {
        assert(pairs_of(cs, p)[0] == (cs[0], p));
        assert(pairs_of(cs, p).subrange(1, cs.len() as int) =~= pairs_of(
            cs.subrange(1, cs.len() as int),
            p,
        ));
        lemma_scan_pairs_of(cs.subrange(1, cs.len() as int), p, id);
    }
}

/// Find a node's parent: the parent of the first non-root node carrying the
/// id, in document order; the root itself has no parent.
#[verifier::loop_isolation(false)]
pub fn find_node_parent<'a>(node_id: u64, root_node: &'a RootNode) -> (r: Option<&'a LiveNode>)
    ensures
        match r {
            Some(p) => spec_parent(root_node.0, node_id) == Some(*p),
            None => spec_parent(root_node.0, node_id) is None,
        },
{
    let root = root_node.node();
    let mut stack: Vec<(&'a LiveNode, &'a LiveNode)> = Vec::new();
    let clen = root.children.len();
    let ghost cs0 = root.children@;
    let mut j: usize = clen;
    while j > 0
        invariant
            0 <= j <= clen,
            clen == cs0.len(),
            cs0 == root.children@,
            stack@.len() == clen - j,
            forall|k: int|
                j <= k < clen ==> *stack@[clen - 1 - k].0 == cs0[k] && *stack@[clen - 1 - k].1
                    == root_node.0,
        decreases j,
    {
        j = j - 1;
        stack.push((&root.children[j], root));
    }
    let ghost mut gstack: Seq<(LiveNode, LiveNode)> = pairs_of(cs0, root_node.0);
    proof {
        lemma_scan_pairs_of(cs0, root_node.0, node_id);
        assert(forall|i: int|
            0 <= i < gstack.len() ==> *stack@[i].0 == gstack[gstack.len() - 1 - i].0
                && *stack@[i].1 == gstack[gstack.len() - 1 - i].1);
        assert(scan_pairs(gstack, node_id) == spec_parent(root_node.0, node_id));
    }
    while stack.len() != 0
        invariant
            gstack.len() == stack@.len(),
            forall|i: int|
                0 <= i < gstack.len() ==> *stack@[i].0 == gstack[gstack.len() - 1 - i].0
                    && *stack@[i].1 == gstack[gstack.len() - 1 - i].1,
            scan_pairs(gstack, node_id) == spec_parent(root_node.0, node_id),
        decreases psize(gstack),
    {
        let ghost gstack0 = gstack;
        let (current, parent) = match stack.pop() {
            Some(pair) => pair,
            None => {
                proof {
                    assert(false);
                }
                (root, root)
            },
        };
        let ghost grest = gstack0.subrange(1, gstack0.len() as int);
        proof {
            assert(*current == gstack0[0].0 && *parent == gstack0[0].1);
            assert(forall|i: int|
                0 <= i < grest.len() ==> *stack@[i].0 == grest[grest.len() - 1 - i].0
                    && *stack@[i].1 == grest[grest.len() - 1 - i].1);
        }
        if current.id == node_id {
            return Some(parent);
        }
        let clen2 = current.children.len();
        let ghost cs = current.children@;
        let mut j2: usize = clen2;
        while j2 > 0
            invariant
                0 <= j2 <= clen2,
                clen2 == cs.len(),
                cs == current.children@,
                stack@.len() == grest.len() + (clen2 - j2),
                forall|i: int|
                    0 <= i < grest.len() ==> *stack@[i].0 == grest[grest.len() - 1 - i].0
                        && *stack@[i].1 == grest[grest.len() - 1 - i].1,
                forall|k: int|
                    j2 <= k < clen2 ==> *stack@[grest.len() + (clen2 - 1 - k)].0 == cs[k]
                        && *stack@[grest.len() + (clen2 - 1 - k)].1 == *current,
            decreases j2,
        {
            j2 = j2 - 1;
            let ghost stack_before = stack@;
            stack.push((&current.children[j2], current));
            proof {
                assert(stack@ == stack_before.push((&current.children@[j2 as int], current)));
                assert(stack@.len() == grest.len() + (clen2 - j2));
                assert forall|k: int|
                    j2 <= k < clen2 implies *stack@[grest.len() + (clen2 - 1 - k)].0 == cs[k]
                    && *stack@[grest.len() + (clen2 - 1 - k)].1 == *current by {
                    if k == j2 {
                        assert(stack@[stack@.len() - 1] == (&current.children@[j2 as int], current));
                    } else {
                        assert(stack@[grest.len() + (clen2 - 1 - k)] == stack_before[grest.len() + (
                        clen2 - 1 - k)]);
                    }
                }
            }
        }
        proof {
            gstack = pairs_of(cs, gstack0[0].0) + grest;
            lemma_scan_pairs_of(cs, gstack0[0].0, node_id);
            lemma_scan_pairs_concat(pairs_of(cs, gstack0[0].0), grest, node_id);
            assert(gstack.len() == stack@.len());
            assert forall|i: int|
                0 <= i < gstack.len() implies *stack@[i].0 == gstack[gstack.len() - 1 - i].0
                && *stack@[i].1 == gstack[gstack.len() - 1 - i].1 by {
                if i < grest.len() {
                    assert(gstack[gstack.len() - 1 - i] == grest[grest.len() - 1 - i]);
                } else {
                    let k = grest.len() + cs.len() - 1 - i;
                    assert(0 <= k < cs.len());
                    assert(i == grest.len() + (cs.len() - 1 - k));
                    assert(gstack[gstack.len() - 1 - i] == pairs_of(cs, gstack0[0].0)[k]);
                    assert(pairs_of(cs, gstack0[0].0)[k] == (cs[k], gstack0[0].0));
                }
            }
            assert(spec_parent(gstack0[0].0, node_id) == spec_parent_in(gstack0[0].0, cs, node_id));
            assert(gstack0.subrange(1, gstack0.len() as int) == grest);
            assert(scan_pairs(gstack, node_id) == spec_parent(root_node.0, node_id));
            assert(size_of(gstack0[0].0) == 1 + size_of_seq(cs));
            assert(psize(gstack0) == size_of(gstack0[0].0) + psize(grest));
            assert(psize(gstack) < psize(gstack0));
        }
    }
    proof {
        assert(gstack =~= Seq::<(LiveNode, LiveNode)>::empty());
    }
    None
}

} // verus!

verus! {

// ---------------------------------------------------------------------------
// Workspaces.
// ---------------------------------------------------------------------------

/// The outermost workspace nodes of a subtree, in document order; the
/// traversal does not descend below a workspace.
pub open spec fn top_workspaces(t: LiveNode) -> Seq<LiveNode>
    decreases t, 0int,
{
    if t.node_type is Workspace {
        seq![t]
    } else {
        top_ws_seq(t.children@)
    }
}

/// The outermost workspace nodes of a forest.
pub open spec fn top_ws_seq(s: Seq<LiveNode>) -> Seq<LiveNode>
    decreases s, s.len(),
{
    if s.len() == 0 {
        Seq::empty()
    } else {
        top_workspaces(s[0]) + top_ws_seq(s.subrange(1, s.len() as int))
    }
}

pub proof fn lemma_top_ws_concat(a: Seq<LiveNode>, b: Seq<LiveNode>)
    ensures
        top_ws_seq(a + b) == top_ws_seq(a) + top_ws_seq(b),
    decreases a.len(),
{
    if a.len() == 0 {
        assert(a + b =~= b);
        assert(top_ws_seq(a) + top_ws_seq(b) =~= top_ws_seq(b));
    } else {
        assert((a + b)[0] == a[0]);
        assert((a + b).subrange(1, (a + b).len() as int) =~= a.subrange(1, a.len() as int) + b);
        lemma_top_ws_concat(a.subrange(1, a.len() as int), b);
        assert(top_workspaces(a[0]) + (top_ws_seq(a.subrange(1, a.len() as int)) + top_ws_seq(b))
            =~= (top_workspaces(a[0]) + top_ws_seq(a.subrange(1, a.len() as int))) + top_ws_seq(
            b,
        ));
    }
}

/// List all workspace nodes of the live tree, in document order.
#[verifier::loop_isolation(false)]
pub fn find_workspaces<'a>(root_node: &'a RootNode) -> (r: Vec<&'a LiveNode>)
    ensures
        r@.len() == top_workspaces(root_node.0).len(),
        forall|i: int| 0 <= i < r@.len() ==> *r@[i] == top_workspaces(root_node.0)[i],
{
    let mut acc: Vec<&'a LiveNode> = Vec::new();
    let ghost mut gacc: Seq<LiveNode> = Seq::empty();
    let mut stack: Vec<&'a LiveNode> = Vec::new();
    stack.push(root_node.node());
    let ghost mut gstack: Seq<LiveNode> = seq![root_node.0];
    proof {
        assert(gstack[0] == root_node.0);
        assert(gstack.subrange(1, 1) =~= Seq::<LiveNode>::empty());
        assert(top_ws_seq(Seq::<LiveNode>::empty()) =~= Seq::<LiveNode>::empty());
        assert(top_ws_seq(gstack) =~= top_workspaces(root_node.0));
        assert(gacc + top_ws_seq(gstack) =~= top_workspaces(root_node.0));
    }
    while stack.len() != 0
        invariant
            gstack.len() == stack@.len(),
            forall|i: int| 0 <= i < gstack.len() ==> *stack@[i] == gstack[gstack.len() - 1 - i],
            gacc.len() == acc@.len(),
            forall|i: int| 0 <= i < gacc.len() ==> *acc@[i] == gacc[i],
            gacc + top_ws_seq(gstack) == top_workspaces(root_node.0),
        decreases size_of_seq(gstack),
    {
        let ghost gstack0 = gstack;
        let current = match stack.pop() {
            Some(current) => current,
            None => {
                proof {
                    assert(false);
                }
                root_node.node()
            },
        };
        let ghost grest = gstack0.subrange(1, gstack0.len() as int);
        proof {
            assert(*current == gstack0[0]);
            assert(forall|i: int|
                0 <= i < grest.len() ==> *stack@[i] == grest[grest.len() - 1 - i]);
            assert(top_ws_seq(gstack0) == top_workspaces(gstack0[0]) + top_ws_seq(grest));
            assert(size_of_seq(gstack0) == size_of(gstack0[0]) + size_of_seq(grest));
        }
        if matches!(current.node_type, LiveNodeType::Workspace) {
            acc.push(current);
            proof {
                let old_gacc = gacc;
                gacc = gacc.push(gstack0[0]);
                gstack = grest;
                assert(top_workspaces(gstack0[0]) == seq![gstack0[0]]);
                assert(old_gacc + (seq![gstack0[0]] + top_ws_seq(grest)) =~= gacc + top_ws_seq(
                    grest,
                ));
            }
        } else {
            proof {
                assert(top_workspaces(gstack0[0]) == top_ws_seq(current.children@));
            }
            let clen = current.children.len();
            let ghost cs = current.children@;
            let mut j: usize = clen;
            while j > 0
                invariant
                    0 <= j <= clen,
                    clen == cs.len(),
                    cs == current.children@,
                    stack@.len() == grest.len() + (clen - j),
                    forall|i: int|
                        0 <= i < grest.len() ==> *stack@[i] == grest[grest.len() - 1 - i],
                    forall|k: int|
                        j <= k < clen ==> *stack@[grest.len() + (clen - 1 - k)] == cs[k],
                decreases j,
            {
                j = j - 1;
                stack.push(&current.children[j]);
            }
            proof {
                gstack = cs + grest;
                assert(gstack.len() == stack@.len());
                assert forall|i: int|
                    0 <= i < gstack.len() implies *stack@[i] == gstack[gstack.len() - 1 - i] by {
                    if i < grest.len() {
                        assert(gstack[gstack.len() - 1 - i] == grest[grest.len() - 1 - i]);
                    } else {
                        let k = grest.len() + cs.len() - 1 - i;
                        assert(0 <= k < cs.len());
                        assert(i == grest.len() + (cs.len() - 1 - k));
                        assert(*stack@[i] == cs[k]);
                        assert(gstack[gstack.len() - 1 - i] == cs[k]);
                    }
                }
                lemma_top_ws_concat(cs, grest);
                assert(gacc + (top_ws_seq(cs) + top_ws_seq(grest)) =~= gacc + top_ws_seq(gstack));
                lemma_size_seq_concat(cs, grest);
            }
        }
    }
    proof {
        assert(gstack =~= Seq::<LiveNode>::empty());
        assert(gacc + top_ws_seq(gstack) =~= gacc);
    }
    acc
}

/// The first listed workspace carrying this number, in document order; a
/// workspace reporting no number never matches.
pub open spec fn spec_first_ws_num(ws: Seq<LiveNode>, num: i32) -> Option<LiveNode>
    decreases ws.len(),
{
    if ws.len() == 0 {
        None
    } else if ws[0].num == Some(num) {
        Some(ws[0])
    } else {
        spec_first_ws_num(ws.subrange(1, ws.len() as int), num)
    }
}

/// The workspace a number names in the live tree, if any.
pub open spec fn spec_ws_by_num(t: LiveNode, num: i32) -> Option<LiveNode> {
    spec_first_ws_num(top_workspaces(t), num)
}

/// Find the workspace associated with the number in the live tree.
#[verifier::loop_isolation(false)]
pub fn find_workspace_by_num<'a>(root_node: &'a RootNode, workspace_num: i32) -> (r: Option<
    &'a LiveNode,
>)
    ensures
        match r {
            Some(w) => spec_ws_by_num(root_node.0, workspace_num) == Some(*w),
            None => spec_ws_by_num(root_node.0, workspace_num) is None,
        },
{
    let workspaces = find_workspaces(root_node);
    let ghost tops = top_workspaces(root_node.0);
    proof {
        assert(tops.subrange(0, tops.len() as int) =~= tops);
    }
    let mut i: usize = 0;
    while i < workspaces.len()
        invariant
            0 <= i <= workspaces@.len(),
            spec_first_ws_num(tops, workspace_num) == spec_first_ws_num(
                tops.subrange(i as int, tops.len() as int),
                workspace_num,
            ),
        decreases workspaces@.len() - i,
    {
        let w = workspaces[i];
        let ghost rest = tops.subrange(i as int, tops.len() as int);
        proof {
            assert(rest[0] == tops[i as int]);
            assert(rest.subrange(1, rest.len() as int) =~= tops.subrange(
                i + 1 as int,
                tops.len() as int,
            ));
        }
        let matched = match w.num {
            Some(n) => n == workspace_num,
            None => false,
        };
        if matched {
            return Some(w);
        }
        i = i + 1;
    }
    proof {
        assert(tops.subrange(tops.len() as int, tops.len() as int) =~= Seq::<LiveNode>::empty());
    }
    None
}

/// The first entry of a workspace listing that reports itself focused.
pub open spec fn spec_first_focused(ws: Seq<WorkspaceInfo>) -> Option<WorkspaceInfo>
    decreases ws.len(),
{
    if ws.len() == 0 {
        None
    } else if ws[0].focused {
        Some(ws[0])
    } else {
        spec_first_focused(ws.subrange(1, ws.len() as int))
    }
}

/// Resolve the currently focused workspace: take the focused entry of the
/// manager's workspace listing, then look its number up in the tree.
///
/// The listing and the tree come from separate queries, so the tree may be
/// stale; a number that cannot be resolved is reported, not chased.
#[verifier::loop_isolation(false)]
pub fn find_workspace_focused<'a>(
    root_node: &'a RootNode,
    workspaces: &Vec<WorkspaceInfo>,
) -> (r: Result<&'a LiveNode, Error>)
    ensures
        match spec_first_focused(workspaces@) {
            None => r == Err::<&'a LiveNode, Error>(
                Error::LiveState(LiveStateError::NoFocusedWorkspace),
            ),
            Some(info) => match spec_ws_by_num(root_node.0, info.num) {
                None => r == Err::<&'a LiveNode, Error>(
                    Error::LiveState(LiveStateError::WorkspaceNotFound { workspace_num: info.num }),
                ),
                Some(w) => r matches Ok(n) && *n == w,
            },
        },
{
    proof {
        assert(workspaces@.subrange(0, workspaces@.len() as int) =~= workspaces@);
    }
    let mut i: usize = 0;
    while i < workspaces.len()
        invariant
            0 <= i <= workspaces@.len(),
            spec_first_focused(workspaces@) == spec_first_focused(
                workspaces@.subrange(i as int, workspaces@.len() as int),
            ),
        decreases workspaces@.len() - i,
    {
        let ghost rest = workspaces@.subrange(i as int, workspaces@.len() as int);
        proof {
            assert(rest[0] == workspaces@[i as int]);
            assert(rest.subrange(1, rest.len() as int) =~= workspaces@.subrange(
                i + 1 as int,
                workspaces@.len() as int,
            ));
        }
        if workspaces[i].focused {
            let num = workspaces[i].num;
            return match find_workspace_by_num(root_node, num) {
                Some(w) => Ok(w),
                None => Err(Error::LiveState(LiveStateError::WorkspaceNotFound {
                    workspace_num: num,
                })),
            };
        }
        i = i + 1;
    }
    proof {
        assert(workspaces@.subrange(workspaces@.len() as int, workspaces@.len() as int)
            =~= Seq::<WorkspaceInfo>::empty());
    }
    Err(Error::LiveState(LiveStateError::NoFocusedWorkspace))
}

/// Pick the workspace an operation applies to: the one a number names, or
/// the focused one when no number is given.
pub fn select_workspace<'a>(
    root_node: &'a RootNode,
    workspaces: &Vec<WorkspaceInfo>,
    workspace_num: Option<i32>,
) -> (r: Result<&'a LiveNode, Error>)
    ensures
        match workspace_num {
            Some(num) => match spec_ws_by_num(root_node.0, num) {
                Some(w) => r matches Ok(n) && *n == w,
                None => r == Err::<&'a LiveNode, Error>(
                    Error::LiveState(LiveStateError::WorkspaceNotFound { workspace_num: num }),
                ),
            },
            None => match spec_first_focused(workspaces@) {
                None => r == Err::<&'a LiveNode, Error>(
                    Error::LiveState(LiveStateError::NoFocusedWorkspace),
                ),
                Some(info) => match spec_ws_by_num(root_node.0, info.num) {
                    None => r == Err::<&'a LiveNode, Error>(
                        Error::LiveState(
                            LiveStateError::WorkspaceNotFound { workspace_num: info.num },
                        ),
                    ),
                    Some(w) => r matches Ok(n) && *n == w,
                },
            },
        },
{
    match workspace_num {
        Some(num) => match find_workspace_by_num(root_node, num) {
            Some(w) => Ok(w),
            None => Err(Error::LiveState(LiveStateError::WorkspaceNotFound {
                workspace_num: num,
            })),
        },
        None => find_workspace_focused(root_node, workspaces),
    }
}

// ---------------------------------------------------------------------------
// Small pure helpers.
// ---------------------------------------------------------------------------

/// Whether the node floats (by automation or by the user).
pub fn is_floating_container(node: &LiveNode) -> (r: bool)
    ensures
        r == (node.floating == Some(FloatingState::AutoOn) || node.floating == Some(
            FloatingState::UserOn,
        )),
{
    match node.floating {
        Some(FloatingState::AutoOn) | Some(FloatingState::UserOn) => true,
        None | Some(FloatingState::AutoOff) | Some(FloatingState::UserOff) => false,
    }
}

/// The aspect-ratio class of a node's rectangle.
pub open spec fn spec_ratio_of(node: LiveNode) -> RectRatio {
    if node.window_height > node.window_width {
        RectRatio::Vertical
    } else {
        RectRatio::Horizontal
    }
}

/// Check the ratio of a node: vertical exactly when it is taller than wide.
pub fn ratio_of_node(node: &LiveNode) -> (r: RectRatio)
    ensures
        r == spec_ratio_of(*node),
{
    if node.window_height > node.window_width {
        RectRatio::Vertical
    } else {
        RectRatio::Horizontal
    }
}

} // verus!

verus! {

// ---------------------------------------------------------------------------
// The workspace containing a node.
// ---------------------------------------------------------------------------

/// The workspace under which the first node carrying this id stands, in
/// document order: `Some(Some(w))` when the node exists under workspace `w`,
/// `Some(None)` when it exists outside every workspace (floating or
/// scratchpad surfaces), `None` when no node carries the id.  A workspace
/// node counts as its own workspace.
pub open spec fn spec_ws_of(t: LiveNode, id: u64, cur: Option<LiveNode>) -> Option<
    Option<LiveNode>,
>
    decreases t, 0int,
{
    let cur2 = if t.node_type is Workspace {
        Some(t)
    } else {
        cur
    };
    if t.id == id {
        Some(cur2)
    } else {
        spec_ws_of_in(t.children@, id, cur2)
    }
}

pub open spec fn spec_ws_of_in(cs: Seq<LiveNode>, id: u64, cur: Option<LiveNode>) -> Option<
    Option<LiveNode>,
>
    decreases cs, cs.len(),
{
    if cs.len() == 0 {
        None
    } else {
        match spec_ws_of(cs[0], id, cur) {
            Some(x) => Some(x),
            None => spec_ws_of_in(cs.subrange(1, cs.len() as int), id, cur),
        }
    }
}

/// A worklist of (node, nearest workspace so far) entries.
pub open spec fn scan_ws(ps: Seq<(LiveNode, Option<LiveNode>)>, id: u64) -> Option<
    Option<LiveNode>,
>
    decreases ps.len(),
{
    if ps.len() == 0 {
        None
    } else {
        match spec_ws_of(ps[0].0, id, ps[0].1) {
            Some(x) => Some(x),
            None => scan_ws(ps.subrange(1, ps.len() as int), id),
        }
    }
}

pub open spec fn wsize(ps: Seq<(LiveNode, Option<LiveNode>)>) -> nat
    decreases ps.len(),
{
    if ps.len() == 0 {
        0
    } else {
        size_of(ps[0].0) + wsize(ps.subrange(1, ps.len() as int))
    }
}

pub open spec fn ws_pairs_of(cs: Seq<LiveNode>, cur: Option<LiveNode>) -> Seq<
    (LiveNode, Option<LiveNode>),
> {
    cs.map_values(|c: LiveNode| (c, cur))
}

pub proof fn lemma_scan_ws_concat(
    a: Seq<(LiveNode, Option<LiveNode>)>,
    b: Seq<(LiveNode, Option<LiveNode>)>,
    id: u64,
)
    ensures
        scan_ws(a + b, id) == (match scan_ws(a, id) {
            Some(x) => Some(x),
            None => scan_ws(b, id),
        }),
        wsize(a + b) == wsize(a) + wsize(b),
    decreases a.len(),
{
    if a.len() == 0 {
        assert(a + b =~= b);
    } else {
        assert((a + b)[0] == a[0]);
        assert((a + b).subrange(1, (a + b).len() as int) =~= a.subrange(1, a.len() as int) + b);
        lemma_scan_ws_concat(a.subrange(1, a.len() as int), b, id);
    }
}

pub proof fn lemma_scan_ws_of(cs: Seq<LiveNode>, cur: Option<LiveNode>, id: u64)
    ensures
        scan_ws(ws_pairs_of(cs, cur), id) == spec_ws_of_in(cs, id, cur),
        wsize(ws_pairs_of(cs, cur)) == size_of_seq(cs),
    decreases cs.len(),
{
    if cs.len() == 0 {
    } else {
        assert(ws_pairs_of(cs, cur)[0] == (cs[0], cur));
        assert(ws_pairs_of(cs, cur).subrange(1, cs.len() as int) =~= ws_pairs_of(
            cs.subrange(1, cs.len() as int),
            cur,
        ));
        lemma_scan_ws_of(cs.subrange(1, cs.len() as int), cur, id);
    }
}

/// A borrowed optional workspace standing for a ghost one.
pub open spec fn opt_ws_matches(a: Option<&LiveNode>, b: Option<LiveNode>) -> bool {
    match a {
        Some(w) => b == Some(*w),
        None => b is None,
    }
}

/// Find the workspace which contains the node.
///
/// A node might not be associated with any workspace — floating windows or
/// windows on the scratchpad.
#[verifier::loop_isolation(false)]
pub fn find_workspace_of_node<'a>(node_id: u64, root_node: &'a RootNode) -> (r: Option<
    &'a LiveNode,
>)
    ensures
        match r {
            Some(w) => spec_ws_of(root_node.0, node_id, None) == Some(Some(*w)),
            None => spec_ws_of(root_node.0, node_id, None) is None || spec_ws_of(
                root_node.0,
                node_id,
                None,
            ) == Some(None::<LiveNode>),
        },
{
    let mut stack: Vec<(&'a LiveNode, Option<&'a LiveNode>)> = Vec::new();
    stack.push((root_node.node(), None));
    let ghost mut gstack: Seq<(LiveNode, Option<LiveNode>)> = seq![
        (root_node.0, None::<LiveNode>),
    ];
    proof {
        assert(gstack[0] == (root_node.0, None::<LiveNode>));
        assert(gstack.subrange(1, 1) =~= Seq::<(LiveNode, Option<LiveNode>)>::empty());
        assert(scan_ws(Seq::<(LiveNode, Option<LiveNode>)>::empty(), node_id) is None);
        assert(scan_ws(gstack, node_id) == spec_ws_of(root_node.0, node_id, None));
    }
    while stack.len() != 0
        invariant
            gstack.len() == stack@.len(),
            forall|i: int|
                0 <= i < gstack.len() ==> *stack@[i].0 == gstack[gstack.len() - 1 - i].0
                    && opt_ws_matches(stack@[i].1, gstack[gstack.len() - 1 - i].1),
            scan_ws(gstack, node_id) == spec_ws_of(root_node.0, node_id, None),
        decreases wsize(gstack),
    {
        let ghost gstack0 = gstack;
        let (current, cur_ws) = match stack.pop() {
            Some(pair) => pair,
            None => {
                proof {
                    assert(false);
                }
                (root_node.node(), None)
            },
        };
        let ghost grest = gstack0.subrange(1, gstack0.len() as int);
        proof {
            assert(*current == gstack0[0].0);
            assert(forall|i: int|
                0 <= i < grest.len() ==> *stack@[i].0 == grest[grest.len() - 1 - i].0
                    && opt_ws_matches(stack@[i].1, grest[grest.len() - 1 - i].1));
        }
        let here_ws: Option<&'a LiveNode> = if matches!(current.node_type, LiveNodeType::Workspace) {
            Some(current)
        } else {
            cur_ws
        };
        let ghost gcur2 = if gstack0[0].0.node_type is Workspace {
            Some(gstack0[0].0)
        } else {
            gstack0[0].1
        };
        proof {
            assert(opt_ws_matches(here_ws, gcur2));
        }
        if current.id == node_id {
            proof {
                assert(spec_ws_of(gstack0[0].0, node_id, gstack0[0].1) == Some(gcur2));
            }
            return here_ws;
        }
        proof {
            assert(spec_ws_of(gstack0[0].0, node_id, gstack0[0].1) == spec_ws_of_in(
                current.children@,
                node_id,
                gcur2,
            ));
        }
        let clen = current.children.len();
        let ghost cs = current.children@;
        let mut j: usize = clen;
        while j > 0
            invariant
                0 <= j <= clen,
                clen == cs.len(),
                cs == current.children@,
                stack@.len() == grest.len() + (clen - j),
                forall|i: int|
                    0 <= i < grest.len() ==> *stack@[i].0 == grest[grest.len() - 1 - i].0
                        && opt_ws_matches(stack@[i].1, grest[grest.len() - 1 - i].1),
                forall|k: int|
                    j <= k < clen ==> *stack@[grest.len() + (clen - 1 - k)].0 == cs[k]
                        && opt_ws_matches(stack@[grest.len() + (clen - 1 - k)].1, gcur2),
            decreases j,
        {
            j = j - 1;
            let child_ref = &current.children[j];
            let ghost stack_before = stack@;
            stack.push((child_ref, here_ws));
            proof {
                assert(stack@.len() == stack_before.len() + 1);
                assert(forall|i: int|
                    0 <= i < stack_before.len() ==> stack@[i] == stack_before[i]);
                assert(stack@[stack@.len() - 1].0 == child_ref && stack@[stack@.len() - 1].1
                    == here_ws);
                assert forall|i: int|
                    0 <= i < grest.len() implies *stack@[i].0 == grest[grest.len() - 1 - i].0
                    && opt_ws_matches(stack@[i].1, grest[grest.len() - 1 - i].1) by {
                    assert(stack@[i] == stack_before[i]);
                }
                assert forall|k: int|
                    j <= k < clen implies *stack@[grest.len() + (clen - 1 - k)].0 == cs[k]
                    && opt_ws_matches(stack@[grest.len() + (clen - 1 - k)].1, gcur2) by {
                    if k == j {
                        assert(grest.len() + (clen - 1 - k) == stack@.len() - 1);
                        assert(*stack@[stack@.len() - 1].0 == cs[j as int]);
                        assert(stack@[stack@.len() - 1].1 == here_ws);
                        assert(opt_ws_matches(here_ws, gcur2));
                        assert(*stack@[grest.len() + (clen - 1 - k)].0 == cs[k]);
                        assert(opt_ws_matches(stack@[grest.len() + (clen - 1 - k)].1, gcur2));
                    } else {
                        assert(stack@[grest.len() + (clen - 1 - k)] == stack_before[grest.len() + (
                        clen - 1 - k)]);
                        assert(*stack@[grest.len() + (clen - 1 - k)].0 == cs[k]);
                        assert(opt_ws_matches(stack@[grest.len() + (clen - 1 - k)].1, gcur2));
                    }
                }
            }
        }
        proof {
            gstack = ws_pairs_of(cs, gcur2) + grest;
            lemma_scan_ws_of(cs, gcur2, node_id);
            lemma_scan_ws_concat(ws_pairs_of(cs, gcur2), grest, node_id);
            assert(gstack.len() == stack@.len());
            assert forall|i: int|
                0 <= i < gstack.len() implies *stack@[i].0 == gstack[gstack.len() - 1 - i].0
                && opt_ws_matches(stack@[i].1, gstack[gstack.len() - 1 - i].1) by {
                if i < grest.len() {
                    assert(gstack[gstack.len() - 1 - i] == grest[grest.len() - 1 - i]);
                } else {
                    let k = grest.len() + cs.len() - 1 - i;
                    assert(0 <= k < cs.len());
                    assert(i == grest.len() + (cs.len() - 1 - k));
                    assert(gstack[gstack.len() - 1 - i] == ws_pairs_of(cs, gcur2)[k]);
                    assert(ws_pairs_of(cs, gcur2)[k] == (cs[k], gcur2));
                }
            }
            assert(gstack0.subrange(1, gstack0.len() as int) == grest);
            assert(scan_ws(gstack, node_id) == spec_ws_of(root_node.0, node_id, None));
            assert(size_of(gstack0[0].0) == 1 + size_of_seq(cs));
            assert(wsize(gstack0) == size_of(gstack0[0].0) + wsize(grest));
            assert(wsize(gstack) < wsize(gstack0));
        }
    }
    proof {
        assert(gstack =~= Seq::<(LiveNode, Option<LiveNode>)>::empty());
    }
    None
}

} // verus!
