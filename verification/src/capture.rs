//! Capturing a live subtree into a snapshot: a single iterative depth-first
//! walk that classifies every node, records its layout and child order, and
//! fails atomically when the live tree holds anything the snapshot model
//! cannot describe.

use vstd::prelude::*;

use crate::errors::Error;
use crate::errors::PreconditionError;
use crate::livetree::LiveLayout;
use crate::livetree::LiveNode;
use crate::livetree::LiveNodeType;
use crate::livetree::size_of;
use crate::livetree::size_of_seq;
use crate::livetree::lemma_size_seq_concat;
use crate::snapshot::models;
use crate::snapshot::models_closed;
use crate::snapshot::models_have_id;
use crate::snapshot::KindNode;
use crate::snapshot::LayoutNode;
use crate::snapshot::RecordModel;
use crate::snapshot::SavedLayout;
use crate::snapshot::SavedNode;
use crate::snapshot::SavedWindow;

verus! {

/// The snapshot kind of a live node, when the snapshot can describe it.
pub open spec fn spec_kind_of(t: LiveNode) -> Option<KindNode> {
    match t.node_type {
        LiveNodeType::Workspace => match t.num {
            Some(num) => Some(KindNode::Workspace(num)),
            None => None,
        },
        LiveNodeType::Con => if t.children@.len() == 0 {
            Some(
                KindNode::NormalWindow(
                    SavedWindow { width: t.window_width, height: t.window_height },
                ),
            )
        } else {
            Some(KindNode::Splitter)
        },
        _ => None,
    }
}

/// The snapshot layout of a live layout, when it is one of the four modes.
pub open spec fn spec_layout_of(l: LiveLayout) -> Option<LayoutNode> {
    match l {
        LiveLayout::SplitH => Some(LayoutNode::SplitH),
        LiveLayout::SplitV => Some(LayoutNode::SplitV),
        LiveLayout::Stacked => Some(LayoutNode::Stacked),
        LiveLayout::Tabbed => Some(LayoutNode::Tabbed),
        LiveLayout::Other => None,
    }
}

/// Whether one node can be recorded as it stands.
pub open spec fn node_ok(t: LiveNode) -> bool {
    spec_kind_of(t) is Some && spec_layout_of(t.layout) is Some
}

/// Whether a whole subtree can be captured.
pub open spec fn captures_ok(t: LiveNode) -> bool
    decreases t, 0int,
{
    node_ok(t) && caps_ok_seq(t.children@)
}

pub open spec fn caps_ok_seq(s: Seq<LiveNode>) -> bool
    decreases s, s.len(),
{
    if s.len() == 0 {
        true
    } else {
        captures_ok(s[0]) && caps_ok_seq(s.subrange(1, s.len() as int))
    }
}

/// The record of one live node.
pub open spec fn rec_of(t: LiveNode) -> RecordModel {
    RecordModel {
        id: t.id,
        kind: spec_kind_of(t)->Some_0,
        layout: spec_layout_of(t.layout)->Some_0,
        children: t.children@.map_values(|c: LiveNode| c.id),
    }
}

/// The records of a captured subtree: the node itself, then its children's
/// subtrees in sibling order — every node precedes its descendants.
pub open spec fn spec_capture(t: LiveNode) -> Seq<RecordModel>
    decreases t, 0int,
{
    seq![rec_of(t)] + cap_seq(t.children@)
}

pub open spec fn cap_seq(s: Seq<LiveNode>) -> Seq<RecordModel>
    decreases s, s.len(),
{
    if s.len() == 0 {
        Seq::empty()
    } else {
        spec_capture(s[0]) + cap_seq(s.subrange(1, s.len() as int))
    }
}

pub proof fn lemma_cap_seq_concat(a: Seq<LiveNode>, b: Seq<LiveNode>)
    ensures
        cap_seq(a + b) == cap_seq(a) + cap_seq(b),
        caps_ok_seq(a + b) == (caps_ok_seq(a) && caps_ok_seq(b)),
    decreases a.len(),
{
    if a.len() == 0 {
        assert(a + b =~= b);
        assert(cap_seq(a) + cap_seq(b) =~= cap_seq(b));
    } else {
        assert((a + b)[0] == a[0]);
        assert((a + b).subrange(1, (a + b).len() as int) =~= a.subrange(1, a.len() as int) + b);
        lemma_cap_seq_concat(a.subrange(1, a.len() as int), b);
        assert(spec_capture(a[0]) + (cap_seq(a.subrange(1, a.len() as int)) + cap_seq(b)) =~= (
        spec_capture(a[0]) + cap_seq(a.subrange(1, a.len() as int))) + cap_seq(b));
    }
}

pub proof fn lemma_have_id_concat(a: Seq<RecordModel>, b: Seq<RecordModel>, id: u64)
    ensures
        models_have_id(a + b, id) == (models_have_id(a, id) || models_have_id(b, id)),
{
    if models_have_id(a, id) {
        let i = choose|i: int| 0 <= i < a.len() && a[i].id == id;
        assert((a + b)[i].id == id);
    }
    if models_have_id(b, id) {
        let i = choose|i: int| 0 <= i < b.len() && b[i].id == id;
        assert((a + b)[a.len() + i].id == id);
    }
    if models_have_id(a + b, id) {
        let i = choose|i: int| 0 <= i < (a + b).len() && (a + b)[i].id == id;
        if i < a.len() {
            assert(a[i].id == id);
        } else {
            assert(b[i - a.len()].id == id);
        }
    }
}

/// What a captured record list always satisfies: every referenced child id
/// has a record of its own, because the walk records every visited child.
pub proof fn lemma_capture_closed(t: LiveNode)
    ensures
        spec_capture(t).len() >= 1,
        spec_capture(t)[0] == rec_of(t),
        models_have_id(spec_capture(t), t.id),
        models_closed(spec_capture(t)),
    decreases t, 0int,
{
    let cs = t.children@;
    let whole = spec_capture(t);
    assert(whole[0] == rec_of(t));
    assert(whole[0].id == t.id);
    lemma_cap_seq_closed(cs);
    assert forall|i: int, j: int|
        0 <= i < whole.len() && 0 <= j < whole[i].children.len() implies models_have_id(
        whole,
        #[trigger] whole[i].children[j],
    ) by {
        if i == 0 {
            assert(whole[0].children[j] == cs[j].id);
            assert(models_have_id(cap_seq(cs), cs[j].id));
            lemma_have_id_concat(seq![rec_of(t)], cap_seq(cs), cs[j].id);
        } else {
            assert(whole[i] == cap_seq(cs)[i - 1]);
            assert(models_have_id(cap_seq(cs), cap_seq(cs)[i - 1].children[j]));
            lemma_have_id_concat(
                seq![rec_of(t)],
                cap_seq(cs),
                cap_seq(cs)[i - 1].children[j],
            );
        }
    }
}

/// The forest version of [`lemma_capture_closed`].
pub proof fn lemma_cap_seq_closed(s: Seq<LiveNode>)
    ensures
        models_closed(cap_seq(s)),
        forall|x: int| 0 <= x < s.len() ==> models_have_id(cap_seq(s), #[trigger] s[x].id),
    decreases s, s.len() + 1,
{
    if s.len() == 0 {
    } else {
        let head = spec_capture(s[0]);
        let tail = cap_seq(s.subrange(1, s.len() as int));
        lemma_capture_closed(s[0]);
        lemma_cap_seq_closed(s.subrange(1, s.len() as int));
        assert forall|i: int, j: int|
            0 <= i < cap_seq(s).len() && 0 <= j < cap_seq(s)[i].children.len() implies
            models_have_id(cap_seq(s), #[trigger] cap_seq(s)[i].children[j]) by {
            if i < head.len() {
                assert(cap_seq(s)[i] == head[i]);
                assert(models_have_id(head, head[i].children[j]));
                lemma_have_id_concat(head, tail, head[i].children[j]);
            } else {
                assert(cap_seq(s)[i] == tail[i - head.len()]);
                assert(models_have_id(tail, tail[i - head.len()].children[j]));
                lemma_have_id_concat(head, tail, tail[i - head.len()].children[j]);
            }
        }
        assert forall|x: int| 0 <= x < s.len() implies models_have_id(
            cap_seq(s),
            #[trigger] s[x].id,
        ) by {
            if x == 0 {
                assert(models_have_id(head, s[0].id));
                lemma_have_id_concat(head, tail, s[0].id);
            } else {
                assert(s.subrange(1, s.len() as int)[x - 1] == s[x]);
                assert(models_have_id(tail, s[x].id));
                lemma_have_id_concat(head, tail, s[x].id);
            }
        }
    }
}

/// Record one live node, or say why it cannot be recorded.
fn record_node(t: &LiveNode) -> (r: Result<SavedNode, Error>)
    ensures
        match r {
            Ok(n) => node_ok(*t) && n.model() == rec_of(*t),
            Err(e) => !node_ok(*t) && e is Precondition,
        },
{
    let kind = match t.node_type {
        LiveNodeType::Workspace => match t.num {
            Some(num) => KindNode::Workspace(num),
            None => {
                return Err(
                    Error::Precondition(PreconditionError::WorkspaceNumberMissing { node: t.id }),
                );
            },
        },
        LiveNodeType::Con => if t.children.len() == 0 {
            KindNode::NormalWindow(SavedWindow::new(t.window_width, t.window_height))
        } else {
            KindNode::Splitter
        },
        _ => {
            return Err(Error::Precondition(PreconditionError::UnsupportedNodeType { node: t.id }));
        },
    };
    let layout = match t.layout {
        LiveLayout::SplitH => LayoutNode::SplitH,
        LiveLayout::SplitV => LayoutNode::SplitV,
        LiveLayout::Stacked => LayoutNode::Stacked,
        LiveLayout::Tabbed => LayoutNode::Tabbed,
        LiveLayout::Other => {
            return Err(Error::Precondition(PreconditionError::UnsupportedLayout { node: t.id }));
        },
    };
    let mut ids: Vec<u64> = Vec::new();
    let clen = t.children.len();
    let mut j: usize = 0;
    while j < clen
        invariant
            0 <= j <= clen,
            clen == t.children@.len(),
            ids@ == t.children@.subrange(0, j as int).map_values(|c: LiveNode| c.id),
        decreases clen - j,
    {
        ids.push(t.children[j].id);
        proof {
            assert(t.children@.subrange(0, (j + 1) as int).map_values(|c: LiveNode| c.id)
                =~= t.children@.subrange(0, j as int).map_values(|c: LiveNode| c.id).push(
                t.children@[j as int].id,
            ));
        }
        j = j + 1;
    }
    proof {
        assert(t.children@.subrange(0, t.children@.len() as int) =~= t.children@);
    }
    Ok(SavedNode::new(t.id, kind, layout, ids))
}

/// Capture a live subtree into a validated snapshot.
///
/// The walk is depth first with an explicit stack; every recorded node
/// precedes its descendants, and each node's `children` list keeps the live
/// sibling order.  Capture fails atomically — with a precondition error and
/// no partial snapshot — on a workspace without a number, a node of a type
/// the model cannot describe, or a layout mode outside the four recognized
/// ones.
#[verifier::loop_isolation(false)]
pub fn capture(subtree: &LiveNode) -> (r: Result<SavedLayout, Error>)
    ensures
        r matches Ok(s) ==> s.wf() && models(s@) == spec_capture(*subtree),
        r is Ok <==> captures_ok(*subtree),
        r matches Err(e) ==> e is Precondition,
{
    let mut records: Vec<SavedNode> = Vec::new();
    let mut stack: Vec<&LiveNode> = Vec::new();
    stack.push(subtree);
    let ghost mut gstack: Seq<LiveNode> = seq![*subtree];
    proof {
        assert(gstack[0] == *subtree);
        assert(gstack.subrange(1, 1) =~= Seq::<LiveNode>::empty());
        assert(cap_seq(Seq::<LiveNode>::empty()) =~= Seq::<RecordModel>::empty());
        assert(cap_seq(gstack) == spec_capture(gstack[0]) + cap_seq(
            gstack.subrange(1, gstack.len() as int),
        ));
        assert(cap_seq(gstack.subrange(1, gstack.len() as int)) == Seq::<RecordModel>::empty());
        assert(spec_capture(*subtree) + Seq::<RecordModel>::empty() =~= spec_capture(*subtree));
        assert(cap_seq(gstack) == spec_capture(*subtree)) by {
            assert(spec_capture(gstack[0]) == spec_capture(*subtree));
            assert(cap_seq(gstack) == spec_capture(*subtree) + Seq::<RecordModel>::empty());
        }
        assert(caps_ok_seq(Seq::<LiveNode>::empty()));
        assert(caps_ok_seq(gstack) == captures_ok(*subtree));
        assert(models(records@) =~= Seq::<RecordModel>::empty());
        assert(models(records@) + cap_seq(gstack) =~= spec_capture(*subtree));
    }
    while stack.len() != 0
        invariant
            gstack.len() == stack@.len(),
            forall|i: int| 0 <= i < gstack.len() ==> *stack@[i] == gstack[gstack.len() - 1 - i],
            models(records@) + cap_seq(gstack) == spec_capture(*subtree),
            caps_ok_seq(gstack) == captures_ok(*subtree),
        decreases size_of_seq(gstack),
    {
        let ghost gstack0 = gstack;
        let current = match stack.pop() {
            Some(current) => current,
            None => {
                proof {
                    assert(false);
                }
                subtree
            },
        };
        let ghost grest = gstack0.subrange(1, gstack0.len() as int);
        proof {
            assert(*current == gstack0[0]);
            assert(forall|i: int|
                0 <= i < grest.len() ==> *stack@[i] == grest[grest.len() - 1 - i]);
            assert(cap_seq(gstack0) == spec_capture(gstack0[0]) + cap_seq(grest));
            assert(caps_ok_seq(gstack0) == (captures_ok(gstack0[0]) && caps_ok_seq(grest)));
            assert(size_of_seq(gstack0) == size_of(gstack0[0]) + size_of_seq(grest));
        }
        let node = match record_node(current) {
            Ok(node) => node,
            Err(e) => {
                proof {
                    assert(!captures_ok(gstack0[0]));
                }
                return Err(e);
            },
        };
        let ghost recs0 = records@;
        records.push(node);
        proof {
            assert(models(records@) =~= models(recs0).push(node.model()));
        }
        let clen = current.children.len();
        let ghost cs = current.children@;
        let mut j: usize = clen;
        while j > 0
            invariant
                0 <= j <= clen,
                clen == cs.len(),
                cs == current.children@,
                stack@.len() == grest.len() + (clen - j),
                forall|i: int|
                    0 <= i < grest.len() ==> *stack@[i] == grest[grest.len() - 1 - i],
                forall|k: int|
                    j <= k < clen ==> *stack@[grest.len() + (clen - 1 - k)] == cs[k],
            decreases j,
        {
            j = j - 1;
            stack.push(&current.children[j]);
        }
        proof {
            gstack = cs + grest;
            assert(gstack.len() == stack@.len());
            assert forall|i: int|
                0 <= i < gstack.len() implies *stack@[i] == gstack[gstack.len() - 1 - i] by {
                if i < grest.len() {
                    assert(gstack[gstack.len() - 1 - i] == grest[grest.len() - 1 - i]);
                } else {
                    let k = grest.len() + cs.len() - 1 - i;
                    assert(0 <= k < cs.len());
                    assert(i == grest.len() + (cs.len() - 1 - k));
                    assert(*stack@[i] == cs[k]);
                    assert(gstack[gstack.len() - 1 - i] == cs[k]);
                }
            }
            lemma_cap_seq_concat(cs, grest);
            assert(spec_capture(gstack0[0]) == seq![rec_of(gstack0[0])] + cap_seq(cs));
            assert(models(recs0).push(node.model()) + (cap_seq(cs) + cap_seq(grest)) =~= models(
                recs0,
            ) + ((seq![rec_of(gstack0[0])] + cap_seq(cs)) + cap_seq(grest)));
            assert(models(records@) + cap_seq(gstack) == spec_capture(*subtree));
            assert(captures_ok(gstack0[0]) == (node_ok(gstack0[0]) && caps_ok_seq(cs)));
            assert(caps_ok_seq(gstack) == captures_ok(*subtree));
            lemma_size_seq_concat(cs, grest);
            assert(size_of_seq(gstack) < size_of_seq(gstack0));
        }
    }
    proof {
        assert(gstack =~= Seq::<LiveNode>::empty());
        assert(models(records@) + cap_seq(gstack) =~= models(records@));
        lemma_capture_closed(*subtree);
        crate::snapshot::lemma_closed_models(records@);
        assert(models(records@).len() >= 1);
    }
    let r = SavedLayout::new(records);
    match r {
        Ok(s) => Ok(s),
        Err(_) => {
            proof {
                assert(false);
            }
            Err(Error::Precondition(PreconditionError::WorkspaceMissing))
        },
    }
}

} // verus!
