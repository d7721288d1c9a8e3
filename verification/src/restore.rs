//! The restore engine: consumes a decoded snapshot and reconstructs the
//! saved hierarchy inside a live tree, then restores leaf geometry.
//!
//! The engine never touches the manager's socket.  It is driven step by
//! step: each [`RestoreEngine::step`] call consumes the answer to the
//! previous request and hands out the next one — a tree query, a command on
//! one node, a pause, or the final verdict.  The caller performs the request
//! and feeds the result back.  Every mutating decision is taken against a
//! tree queried immediately beforehand, never against an older snapshot.
//!
//! Placement (the first phase) walks the snapshot depth first with an
//! explicit stack, carrying each node's ancestor path of `(id, layout)`
//! pairs.  A window whose id no longer exists live is skipped with a
//! warning and restoration continues; a rejected placement command aborts
//! the restore (the strict policy), except the final "move onto mark" pull,
//! whose failure is deliberately swallowed (the lenient choice for that one
//! step).  Each missing ancestor container is recreated exactly once — a
//! split followed by a layout command — and remembered in a reuse map, so
//! ancestors shared between leaves are never duplicated.  Geometry (the
//! second phase) revisits every saved window after a settle pause and
//! resizes only the dimensions that differ, pausing between windows;
//! resize rejections are always swallowed.

use std::collections::HashMap;
use vstd::prelude::*;

use crate::errors::Error;
use crate::errors::LiveStateError;
use crate::errors::PreconditionError;
use crate::livetree::spec_find;
use crate::livetree::spec_parent;
use crate::livetree::spec_ws_by_num;
use crate::livetree::find_node_by_id;
use crate::livetree::find_node_parent;
use crate::livetree::find_workspace_by_num;
use crate::livetree::RootNode;
use crate::snapshot::spec_has_record;
use crate::snapshot::KindNode;
use crate::snapshot::LayoutNode;
use crate::snapshot::SavedLayout;

verus! {

/// One ancestor on a leaf's recorded path: the original container id and
/// the layout it must get back.
#[derive(Clone, Copy, Debug, PartialEq, Eq, Structural)]
pub struct PathStep {
    pub id: u64,
    pub layout: LayoutNode,
}

/// One pending placement work item: a record position and the ancestor path
/// from the workspace root (inclusive) down to the node's parent.
#[derive(Debug)]
pub struct PlaceEntry {
    pub idx: usize,
    pub path: Vec<PathStep>,
}

/// The marks the engine uses to aim move commands.
#[derive(Clone, Copy, Debug, PartialEq, Eq, Hash, Structural)]
pub enum MarkId {
    /// The transient mark placed on the target workspace while pulling a
    /// window to its root level.
    Restore,
    /// The transient mark placed on an already recreated container while
    /// moving a sibling into it.
    Move,
}

/// A command the engine asks the caller to run on one live node.
#[derive(Clone, Copy, Debug, PartialEq, Eq, Structural)]
pub enum NodeCommand {
    MoveToWorkspace(i32),
    Mark(MarkId),
    MoveToMark(MarkId),
    SplitHorizontal,
    SetLayout(LayoutNode),
    ResizeWidth(i64),
    ResizeHeight(i64),
}

/// The two pauses the engine asks for.
#[derive(Clone, Copy, Debug, PartialEq, Eq, Structural)]
pub enum WaitKind {
    /// The settle pause before the geometry pass begins.
    Settle,
    /// The short pause between successive resize commands.
    BetweenResizes,
}

/// What the caller must do next.
#[derive(Debug)]
pub enum RestoreAction {
    /// Call `step` again with `Proceed`; the engine has internal work left.
    Advance,
    /// Query the live tree and answer with `Tree`.
    QueryTree,
    /// Run the command on the node and answer with `Ran`.
    Run { node: u64, command: NodeCommand },
    /// Pause and answer with `Waited`.
    Wait(WaitKind),
    /// The restore is complete; the warnings list the skipped windows.
    Finish,
    /// The restore aborted on this error.
    Fail(Error),
}

/// The caller's answer to the previous action.
#[derive(Debug)]
pub enum RestoreEvent {
    /// Answer to `Advance`.
    Proceed,
    /// Answer to `QueryTree`: a fresh point-in-time tree.
    Tree(RootNode),
    /// Answer to `Run`: whether the manager accepted the command.
    Ran(bool),
    /// Answer to `Wait`.
    Waited,
}

/// Where the engine stands between two steps.
#[derive(Debug)]
pub enum Stage {
    /// Pop the next placement work item.
    Advance,
    /// Waiting for a tree to see whether the leaf still exists.
    LeafTree { leaf: u64, path: Vec<PathStep> },
    /// Waiting for the move-to-workspace command's outcome.
    LeafMoved { leaf: u64, path: Vec<PathStep> },
    /// Waiting for a tree to locate the target workspace.
    WsTree { leaf: u64, path: Vec<PathStep> },
    /// Waiting for the workspace-mark command's outcome.
    WsMarked { leaf: u64, path: Vec<PathStep>, ws_node: u64 },
    /// Waiting for the pull-to-mark command's outcome (always swallowed).
    Pulled { leaf: u64, path: Vec<PathStep> },
    /// Deciding the next ancestor on the path: reuse or recreate.
    AscendCheck { last: u64, path: Vec<PathStep>, pos: usize },
    /// Waiting for the reused-container mark command's outcome.
    ReuseMarked { last: u64, target: u64 },
    /// Waiting for the move into the reused container.
    ReuseMoved { last: u64 },
    /// Waiting for the split command's outcome.
    SplitSent { last: u64, path: Vec<PathStep>, pos: usize },
    /// Waiting for the layout command's outcome.
    LayoutSent { last: u64, path: Vec<PathStep>, pos: usize },
    /// Waiting for a tree to discover the freshly created parent.
    ParentTree { last: u64, path: Vec<PathStep>, pos: usize },
    /// Waiting out the settle pause before the geometry pass.
    SettleWait,
    /// Pop the next geometry work item.
    SizeAdvance,
    /// Waiting for a tree to read the leaf's current size.
    SizeTree { leaf: u64, width: i64, height: i64 },
    /// Waiting for a resize command's outcome (always swallowed).
    SizeRan { leaf: u64, pending_height: Option<i64> },
    /// Waiting out the pause after one leaf's resizes.
    SizePause,
    /// The restore ran to completion.
    Finished,
    /// The restore aborted; the error is kept.
    Failed(Error),
}

/// The resize commands one leaf needs: a dimension is touched exactly when
/// its live value differs from the recorded one.
pub fn resize_plan(saved_width: i64, saved_height: i64, live_width: i64, live_height: i64) -> (r: (
    Option<i64>,
    Option<i64>,
))
    ensures
        r.0 == (if live_width != saved_width {
            Some(saved_width)
        } else {
            None::<i64>
        }),
        r.1 == (if live_height != saved_height {
            Some(saved_height)
        } else {
            None::<i64>
        }),
{
    let w = if live_width != saved_width {
        Some(saved_width)
    } else {
        None
    };
    let h = if live_height != saved_height {
        Some(saved_height)
    } else {
        None
    };
    (w, h)
}

/// An id some record with children carries: an ancestor container that the
/// placement phase may have to recreate.
pub open spec fn internal_id(layout: SavedLayout, k: u64) -> bool {
    exists|i: int|
        0 <= i < layout@.len() && layout@[i].id == k && layout@[i].children@.len() > 0
}

pub open spec fn path_ok(layout: SavedLayout, path: Seq<PathStep>) -> bool {
    forall|i: int| 0 <= i < path.len() ==> internal_id(layout, #[trigger] path[i].id)
}

/// The restore engine.  Drive it by calling [`RestoreEngine::step`] with the
/// answer to its previous action until it hands out `Finish` or `Fail`.
pub struct RestoreEngine {
    /// The snapshot being restored (validated, immutable).
    pub layout: SavedLayout,
    /// The number of the workspace the snapshot describes.
    pub workspace_num: i32,
    /// Whether the geometry pass runs after placement.
    pub restore_sizes: bool,
    /// Where the engine stands.
    pub stage: Stage,
    /// Pending placement work, deepest entries last.
    pub stack: Vec<PlaceEntry>,
    /// Pending geometry work: record positions.
    pub size_stack: Vec<usize>,
    /// The reuse map: original ancestor id to freshly created live id.
    pub created_paths: HashMap<u64, u64>,
    /// How many containers the engine has created: one per reused-map entry.
    pub containers_created: usize,
    /// The window ids that were skipped because they no longer exist live.
    pub warnings: Vec<u64>,
}

impl RestoreEngine {
    /// Everything every reachable engine state satisfies.
    pub open spec fn wf(&self) -> bool {
        &&& self.layout.wf()
        &&& self.layout@[0].kind == KindNode::Workspace(self.workspace_num)
        &&& forall|i: int|
            0 <= i < self.stack@.len() ==> (#[trigger] self.stack@[i]).idx < self.layout@.len()
                && path_ok(self.layout, self.stack@[i].path@)
        &&& forall|i: int|
            0 <= i < self.size_stack@.len() ==> #[trigger] self.size_stack@[i]
                < self.layout@.len()
        &&& self.containers_created == self.created_paths@.len()
        &&& forall|k: u64| #[trigger]
            self.created_paths@.dom().contains(k) ==> internal_id(self.layout, k)
        &&& match self.stage {
            Stage::LeafTree { leaf, ref path } => path_ok(self.layout, path@),
            Stage::LeafMoved { leaf, ref path } => path_ok(self.layout, path@),
            Stage::WsTree { leaf, ref path } => path_ok(self.layout, path@),
            Stage::WsMarked { leaf, ref path, ws_node } => path_ok(self.layout, path@),
            Stage::Pulled { leaf, ref path } => path_ok(self.layout, path@),
            Stage::AscendCheck { last, ref path, pos } => path_ok(self.layout, path@) && pos
                <= path@.len(),
            Stage::SplitSent { last, ref path, pos } => path_ok(self.layout, path@) && 1 <= pos
                <= path@.len() && !self.created_paths@.dom().contains(path@[pos - 1].id),
            Stage::LayoutSent { last, ref path, pos } => path_ok(self.layout, path@) && 1 <= pos
                <= path@.len() && !self.created_paths@.dom().contains(path@[pos - 1].id),
            Stage::ParentTree { last, ref path, pos } => path_ok(self.layout, path@) && 1 <= pos
                <= path@.len() && !self.created_paths@.dom().contains(path@[pos - 1].id),
            _ => true,
        }
    }

    /// Which event the engine expects next.
    pub open spec fn spec_expects(&self, event: RestoreEvent) -> bool {
        match self.stage {
            Stage::Advance => event is Proceed,
            Stage::AscendCheck { .. } => event is Proceed,
            Stage::SizeAdvance => event is Proceed,
            Stage::LeafTree { .. } => event is Tree,
            Stage::WsTree { .. } => event is Tree,
            Stage::ParentTree { .. } => event is Tree,
            Stage::SizeTree { .. } => event is Tree,
            Stage::LeafMoved { .. } => event is Ran,
            Stage::WsMarked { .. } => event is Ran,
            Stage::Pulled { .. } => event is Ran,
            Stage::ReuseMarked { .. } => event is Ran,
            Stage::ReuseMoved { .. } => event is Ran,
            Stage::SplitSent { .. } => event is Ran,
            Stage::LayoutSent { .. } => event is Ran,
            Stage::SizeRan { .. } => event is Ran,
            Stage::SettleWait => event is Waited,
            Stage::SizePause => event is Waited,
            Stage::Finished => true,
            Stage::Failed(_) => true,
        }
    }

    /// Which event the engine expects next (callable by the driver).
    pub fn expects(&self, event: &RestoreEvent) -> (r: bool)
        ensures
            r == self.spec_expects(*event),
    {
        match self.stage {
            Stage::Advance => matches!(event, RestoreEvent::Proceed),
            Stage::AscendCheck { .. } => matches!(event, RestoreEvent::Proceed),
            Stage::SizeAdvance => matches!(event, RestoreEvent::Proceed),
            Stage::LeafTree { .. } => matches!(event, RestoreEvent::Tree(_)),
            Stage::WsTree { .. } => matches!(event, RestoreEvent::Tree(_)),
            Stage::ParentTree { .. } => matches!(event, RestoreEvent::Tree(_)),
            Stage::SizeTree { .. } => matches!(event, RestoreEvent::Tree(_)),
            Stage::LeafMoved { .. } => matches!(event, RestoreEvent::Ran(_)),
            Stage::WsMarked { .. } => matches!(event, RestoreEvent::Ran(_)),
            Stage::Pulled { .. } => matches!(event, RestoreEvent::Ran(_)),
            Stage::ReuseMarked { .. } => matches!(event, RestoreEvent::Ran(_)),
            Stage::ReuseMoved { .. } => matches!(event, RestoreEvent::Ran(_)),
            Stage::SplitSent { .. } => matches!(event, RestoreEvent::Ran(_)),
            Stage::LayoutSent { .. } => matches!(event, RestoreEvent::Ran(_)),
            Stage::SizeRan { .. } => matches!(event, RestoreEvent::Ran(_)),
            Stage::SettleWait => matches!(event, RestoreEvent::Waited),
            Stage::SizePause => matches!(event, RestoreEvent::Waited),
            Stage::Finished => true,
            Stage::Failed(_) => true,
        }
    }

    /// How many containers the placement phase has created so far: exactly
    /// one per distinct recreated ancestor id.
    pub fn containers_created(&self) -> (r: usize)
        requires
            self.wf(),
        ensures
            r == self.created_paths@.len(),
    {
        self.containers_created
    }

    /// The windows skipped so far because their id no longer exists live.
    pub fn warnings(&self) -> (r: &Vec<u64>)
        ensures
            *r == self.warnings,
    {
        &self.warnings
    }

    /// Build an engine over a validated snapshot.
    ///
    /// Fails — before any command is issued — when the snapshot's first
    /// record is not a workspace.
    pub fn new(layout: SavedLayout, restore_sizes: bool) -> (r: Result<RestoreEngine, Error>)
        requires
            layout.wf(),
        ensures
            r is Ok <==> layout@[0].kind is Workspace,
            r matches Ok(e) ==> e.wf() && e.layout@ == layout@ && (layout@[0].kind matches
                KindNode::Workspace(num) && e.workspace_num == num) && e.restore_sizes
                == restore_sizes && e.warnings@.len() == 0 && e.created_paths@.len() == 0,
            r matches Err(e) ==> e == Error::Precondition(PreconditionError::WorkspaceMissing),
    {
        let workspace_num = match *layout.root().kind() {
            KindNode::Workspace(num) => num,
            _ => {
                return Err(Error::Precondition(PreconditionError::WorkspaceMissing));
            },
        };
        let mut stack: Vec<PlaceEntry> = Vec::new();
        stack.push(PlaceEntry { idx: 0, path: Vec::new() });
        let engine = RestoreEngine {
            layout,
            workspace_num,
            restore_sizes,
            stage: Stage::Advance,
            stack,
            size_stack: Vec::new(),
            created_paths: HashMap::new(),
            containers_created: 0,
            warnings: Vec::new(),
        };
        proof {
            assert(engine.stack@.len() == 1);
            assert(engine.stack@[0].idx == 0);
            assert(path_ok(engine.layout, engine.stack@[0].path@));
        }
        Ok(engine)
    }
}

} // verus!

verus! {

/// Copy an ancestor path.
fn clone_path(p: &Vec<PathStep>) -> (r: Vec<PathStep>)
    ensures
        r@ == p@,
{
    let mut r: Vec<PathStep> = Vec::new();
    let mut i: usize = 0;
    while i < p.len()
        invariant
            0 <= i <= p@.len(),
            r@ == p@.subrange(0, i as int),
        decreases p@.len() - i,
    {
        r.push(p[i]);
        proof {
            assert(p@.subrange(0, (i + 1) as int) =~= p@.subrange(0, i as int).push(
                p@[i as int],
            ));
        }
        i = i + 1;
    }
    proof {
        assert(p@.subrange(0, p@.len() as int) =~= p@);
    }
    r
}

/// What one placement-advance step does, as a function of the snapshot and
/// the placement stack before the step.  With the stack empty the engine
/// leaves the placement phase: the settle pause when sizes are restored,
/// the finish otherwise.  Else the top entry is popped and its record
/// decides: a window enters leaf placement with its recorded ancestor path;
/// a childless non-window record is skipped; an internal record pushes one
/// entry per child, in sibling order (the first child topmost), each with
/// the path extended by the record's own `(id, layout)` pair.
pub open spec fn advance_post(
    layout: SavedLayout,
    stack0: Seq<PlaceEntry>,
    restore_sizes: bool,
    post: RestoreEngine,
    r: RestoreAction,
) -> bool {
    if stack0.len() == 0 {
        &&& post.stack@ == stack0
        &&& if restore_sizes {
            (r matches RestoreAction::Wait(k) && k == WaitKind::Settle) && post.stage
                is SettleWait
        } else {
            r is Finish && post.stage is Finished
        }
    } else {
        let entry = stack0.last();
        let rec = layout@[entry.idx as int];
        if rec.children@.len() == 0 {
            &&& post.stack@ == stack0.drop_last()
            &&& if rec.kind is NormalWindow {
                r is QueryTree && (post.stage matches Stage::LeafTree { leaf, path } && leaf
                    == rec.id && path == entry.path)
            } else {
                r is Advance && post.stage is Advance
            }
        } else {
            &&& r is Advance && post.stage is Advance
            &&& post.stack@.len() == stack0.len() - 1 + rec.children@.len()
            &&& forall|i: int| 0 <= i < stack0.len() - 1 ==> post.stack@[i] == stack0[i]
            &&& forall|k: int|
                0 <= k < rec.children@.len() ==> {
                    let e = post.stack@[stack0.len() - 1 + (rec.children@.len() - 1 - k)];
                    &&& e.idx as int == layout.spec_index_of(#[trigger] rec.children@[k])
                    &&& e.path@ == entry.path@.push(PathStep { id: rec.id, layout: rec.layout })
                }
        }
    }
}

/// What one geometry-advance step does, as a function of the snapshot and
/// the geometry stack before the step.  Only a `NormalWindow` record ever
/// enters the size query; every other record merely pushes its children.
pub open spec fn size_advance_post(
    layout: SavedLayout,
    sizes0: Seq<usize>,
    post: RestoreEngine,
    r: RestoreAction,
) -> bool {
    if sizes0.len() == 0 {
        &&& post.size_stack@ == sizes0
        &&& r is Finish && post.stage is Finished
    } else {
        let idx = sizes0.last();
        let rec = layout@[idx as int];
        match rec.kind {
            KindNode::NormalWindow(w) => {
                &&& r is QueryTree
                &&& (post.stage matches Stage::SizeTree { leaf, width, height } && leaf == rec.id
                    && width == w.width && height == w.height)
                &&& post.size_stack@ == sizes0.drop_last()
            },
            _ => {
                &&& r is Advance && post.stage is SizeAdvance
                &&& post.size_stack@.len() == sizes0.len() - 1 + rec.children@.len()
                &&& forall|i: int| 0 <= i < sizes0.len() - 1 ==> post.size_stack@[i] == sizes0[i]
                &&& forall|k: int|
                    0 <= k < rec.children@.len()
                        ==> post.size_stack@[sizes0.len() - 1 + (rec.children@.len() - 1 - k)] as int
                        == layout.spec_index_of(#[trigger] rec.children@[k])
            },
        }
    }
}

impl RestoreEngine {
    /// Pop the next placement work item: enter a leaf's placement, skip a
    /// childless non-window record, expand an internal record's children
    /// onto the stack, or — when nothing is left — move to the geometry
    /// phase (or finish, when sizes are not restored).
    #[verifier::loop_isolation(false)]
    #[verifier::rlimit(100)]
    #[verifier::spinoff_prover]
    fn do_advance(&mut self) -> (r: RestoreAction)
        requires
            old(self).wf(),
            old(self).stage is Advance,
        ensures
            final(self).wf(),
            final(self).layout@ == old(self).layout@,
            final(self).workspace_num == old(self).workspace_num,
            final(self).restore_sizes == old(self).restore_sizes,
            final(self).warnings@ == old(self).warnings@,
            final(self).created_paths@ == old(self).created_paths@,
            final(self).containers_created == old(self).containers_created,
            r is Advance || r is QueryTree || r is Wait || r is Finish,
            !(r is Fail),
            advance_post(
                old(self).layout,
                old(self).stack@,
                old(self).restore_sizes,
                *final(self),
                r,
            ),
    {
        let ghost stack0 = old(self).stack@;
        let entry = match self.stack.pop() {
            Some(entry) => entry,
            None => {
                if self.restore_sizes {
                    self.stage = Stage::SettleWait;
                    proof {
                        assert(advance_post(
                            old(self).layout,
                            stack0,
                            old(self).restore_sizes,
                            *self,
                            RestoreAction::Wait(WaitKind::Settle),
                        ));
                    }
                    return RestoreAction::Wait(WaitKind::Settle);
                } else {
                    self.stage = Stage::Finished;
                    proof {
                        assert(advance_post(
                            old(self).layout,
                            stack0,
                            old(self).restore_sizes,
                            *self,
                            RestoreAction::Finish,
                        ));
                    }
                    return RestoreAction::Finish;
                }
            },
        };
        proof {
            assert(old(self).stack@[old(self).stack@.len() - 1] == entry);
            assert(entry == stack0.last());
            assert(self.stack@ =~= stack0.drop_last());
            assert(entry.idx < self.layout@.len());
            assert(path_ok(self.layout, entry.path@));
        }
        let node_id = self.layout.node_at(entry.idx).id();
        let node_layout = self.layout.node_at(entry.idx).layout();
        let child_count = self.layout.node_at(entry.idx).children().len();
        if child_count == 0 {
            let is_window = matches!(self.layout.node_at(entry.idx).kind(), KindNode::NormalWindow(_));
            if is_window {
                self.stage = Stage::LeafTree { leaf: node_id, path: entry.path };
                proof {
                    assert(advance_post(
                        old(self).layout,
                        stack0,
                        old(self).restore_sizes,
                        *self,
                        RestoreAction::QueryTree,
                    ));
                }
                return RestoreAction::QueryTree;
            } else {
                self.stage = Stage::Advance;
                proof {
                    assert(advance_post(
                        old(self).layout,
                        stack0,
                        old(self).restore_sizes,
                        *self,
                        RestoreAction::Advance,
                    ));
                }
                return RestoreAction::Advance;
            }
        }
        let mut base = clone_path(&entry.path);
        base.push(PathStep { id: node_id, layout: node_layout });
        proof {
            assert(internal_id(self.layout, node_id)) by {
                assert(self.layout@[entry.idx as int].id == node_id);
                assert(self.layout@[entry.idx as int].children@.len() > 0);
            }
            assert(path_ok(self.layout, base@)) by {
                assert(forall|i: int|
                    0 <= i < base@.len() - 1 ==> base@[i] == entry.path@[i]);
                assert(base@[base@.len() - 1].id == node_id);
                assert forall|i: int|
                    0 <= i < base@.len() implies internal_id(self.layout, #[trigger] base@[i].id)
                    by {
                    if i < base@.len() - 1 {
                        assert(internal_id(self.layout, entry.path@[i].id));
                    }
                }
            }
        }
        proof {
            assert(base@ == entry.path@.push(PathStep { id: node_id, layout: node_layout }));
            assert(self.stack@ =~= stack0.drop_last());
        }
        let ghost idx0 = entry.idx as int;
        let mut j: usize = child_count;
        while j > 0
            invariant
                0 <= j <= child_count,
                child_count == self.layout@[idx0].children@.len(),
                0 <= idx0 < self.layout@.len(),
                self.layout == old(self).layout,
                self.workspace_num == old(self).workspace_num,
                self.restore_sizes == old(self).restore_sizes,
                self.warnings == old(self).warnings,
                self.created_paths == old(self).created_paths,
                self.containers_created == old(self).containers_created,
                self.size_stack == old(self).size_stack,
                self.stage is Advance,
                path_ok(self.layout, base@),
                base@ == entry.path@.push(PathStep { id: node_id, layout: node_layout }),
                self.stack@.len() == stack0.len() - 1 + (child_count - j),
                forall|i: int| 0 <= i < stack0.len() - 1 ==> self.stack@[i] == stack0[i],
                forall|k: int|
                    j <= k < child_count ==> {
                        let e = self.stack@[stack0.len() - 1 + (child_count - 1 - k)];
                        &&& e.idx as int == self.layout.spec_index_of(
                            #[trigger] self.layout@[idx0].children@[k],
                        )
                        &&& e.path@ == base@
                    },
                forall|i: int|
                    0 <= i < self.stack@.len() ==> (#[trigger] self.stack@[i]).idx
                        < self.layout@.len() && path_ok(self.layout, self.stack@[i].path@),
            decreases j,
        {
            j = j - 1;
            let child_id = self.layout.node_at(entry.idx).children()[j];
            proof {
                assert(spec_has_record(self.layout@, child_id)) by {
                    assert(self.layout@[idx0].children@[j as int] == child_id);
                }
            }
            let cidx = self.layout.index_of(child_id);
            let cpath = clone_path(&base);
            let ghost stack_before = self.stack@;
            self.stack.push(PlaceEntry { idx: cidx, path: cpath });
            proof {
                assert(self.stack@.len() == stack_before.len() + 1);
                assert(forall|i: int|
                    0 <= i < stack_before.len() ==> self.stack@[i] == stack_before[i]);
                assert forall|k: int|
                    j <= k < child_count implies {
                    let e = self.stack@[stack0.len() - 1 + (child_count - 1 - k)];
                    &&& e.idx as int == self.layout.spec_index_of(
                        #[trigger] self.layout@[idx0].children@[k],
                    )
                    &&& e.path@ == base@
                } by {
                    if k == j {
                        assert(stack0.len() - 1 + (child_count - 1 - k) == self.stack@.len() - 1);
                        assert(self.stack@[self.stack@.len() - 1].idx == cidx);
                        assert(self.stack@[self.stack@.len() - 1].path@ == cpath@);
                        assert(self.stack@[stack0.len() - 1 + (child_count - 1 - k)].idx as int
                            == self.layout.spec_index_of(self.layout@[idx0].children@[k]));
                        assert(self.stack@[stack0.len() - 1 + (child_count - 1 - k)].path@
                            == base@);
                    } else {
                        assert(self.stack@[stack0.len() - 1 + (child_count - 1 - k)]
                            == stack_before[stack0.len() - 1 + (child_count - 1 - k)]);
                        assert(self.stack@[stack0.len() - 1 + (child_count - 1 - k)].idx as int
                            == self.layout.spec_index_of(self.layout@[idx0].children@[k]));
                        assert(self.stack@[stack0.len() - 1 + (child_count - 1 - k)].path@
                            == base@);
                    }
                }
            }
        }
        self.stage = Stage::Advance;
        proof {
            assert(advance_post(
                old(self).layout,
                stack0,
                old(self).restore_sizes,
                *self,
                RestoreAction::Advance,
            ));
        }
        RestoreAction::Advance
    }

    /// Pop the next geometry work item: query a window's current size, or
    /// expand an internal record's children, or finish.
    #[verifier::loop_isolation(false)]
    #[verifier::rlimit(100)]
    #[verifier::spinoff_prover]
    fn do_size_advance(&mut self) -> (r: RestoreAction)
        requires
            old(self).wf(),
            old(self).stage is SizeAdvance,
        ensures
            final(self).wf(),
            final(self).layout@ == old(self).layout@,
            final(self).workspace_num == old(self).workspace_num,
            final(self).restore_sizes == old(self).restore_sizes,
            final(self).warnings@ == old(self).warnings@,
            final(self).created_paths@ == old(self).created_paths@,
            final(self).containers_created == old(self).containers_created,
            r is Advance || r is QueryTree || r is Finish,
            !(r is Fail),
            size_advance_post(old(self).layout, old(self).size_stack@, *final(self), r),
    {
        let ghost sizes0 = old(self).size_stack@;
        let idx = match self.size_stack.pop() {
            Some(idx) => idx,
            None => {
                self.stage = Stage::Finished;
                return RestoreAction::Finish;
            },
        };
        proof {
            assert(old(self).size_stack@[old(self).size_stack@.len() - 1] == idx);
            assert(idx < self.layout@.len());
        }
        let node_id = self.layout.node_at(idx).id();
        let is_window = match self.layout.node_at(idx).kind() {
            KindNode::NormalWindow(w) => Some((w.width, w.height)),
            _ => None,
        };
        match is_window {
            Some((width, height)) => {
                self.stage = Stage::SizeTree { leaf: node_id, width, height };
                RestoreAction::QueryTree
            },
            None => {
                let child_count = self.layout.node_at(idx).children().len();
                let ghost idx0 = idx as int;
                proof {
                    assert(self.size_stack@ =~= sizes0.drop_last());
                }
                let mut j: usize = child_count;
                while j > 0
                    invariant
                        0 <= j <= child_count,
                        child_count == self.layout@[idx0].children@.len(),
                        0 <= idx0 < self.layout@.len(),
                        self.layout == old(self).layout,
                        self.workspace_num == old(self).workspace_num,
                        self.restore_sizes == old(self).restore_sizes,
                        self.warnings == old(self).warnings,
                        self.created_paths == old(self).created_paths,
                        self.containers_created == old(self).containers_created,
                        self.stack == old(self).stack,
                        self.stage is SizeAdvance,
                        self.size_stack@.len() == sizes0.len() - 1 + (child_count - j),
                        forall|i: int|
                            0 <= i < sizes0.len() - 1 ==> self.size_stack@[i] == sizes0[i],
                        forall|k: int|
                            j <= k < child_count ==> self.size_stack@[sizes0.len() - 1 + (
                            child_count - 1 - k)] as int == self.layout.spec_index_of(
                                #[trigger] self.layout@[idx0].children@[k],
                            ),
                        forall|i: int|
                            0 <= i < self.size_stack@.len() ==> #[trigger] self.size_stack@[i]
                                < self.layout@.len(),
                    decreases j,
                {
                    j = j - 1;
                    let child_id = self.layout.node_at(idx).children()[j];
                    proof {
                        assert(spec_has_record(self.layout@, child_id)) by {
                            assert(self.layout@[idx0].children@[j as int] == child_id);
                        }
                    }
                    let cidx = self.layout.index_of(child_id);
                    let ghost sizes_before = self.size_stack@;
                    self.size_stack.push(cidx);
                    proof {
                        assert(self.size_stack@.len() == sizes_before.len() + 1);
                        assert(forall|i: int|
                            0 <= i < sizes_before.len() ==> self.size_stack@[i]
                                == sizes_before[i]);
                        assert forall|k: int|
                            j <= k < child_count implies self.size_stack@[sizes0.len() - 1 + (
                        child_count - 1 - k)] as int == self.layout.spec_index_of(
                            #[trigger] self.layout@[idx0].children@[k],
                        ) by {
                            if k == j {
                                assert(sizes0.len() - 1 + (child_count - 1 - k)
                                    == self.size_stack@.len() - 1);
                                assert(self.size_stack@[self.size_stack@.len() - 1] == cidx);
                            } else {
                                assert(self.size_stack@[sizes0.len() - 1 + (child_count - 1 - k)]
                                    == sizes_before[sizes0.len() - 1 + (child_count - 1 - k)]);
                            }
                        }
                    }
                }
                self.stage = Stage::SizeAdvance;
                RestoreAction::Advance
            },
        }
    }
}

} // verus!

verus! {

impl RestoreEngine {
    /// Consume the answer to the previous action and hand out the next one.
    ///
    /// The contract pins the engine's decisions down:
    /// - a leaf whose id is gone from the queried tree is skipped with
    ///   exactly one warning and restoration continues; a leaf still alive
    ///   is moved to the target workspace and produces no warning;
    /// - an ancestor already in the reuse map is reused (its container is
    ///   marked, nothing is split); one not yet recreated gets the split
    ///   command; the map gains exactly the freshly discovered parent and
    ///   never changes otherwise — so each ancestor is recreated at most
    ///   once;
    /// - a window is resized per [`resize_plan`]: a dimension is touched
    ///   exactly when it differs from the recorded one, and a window that
    ///   matches its record receives no resize command at all;
    /// - a rejected placement command aborts the restore; the final pull
    ///   onto the workspace mark and every resize outcome are swallowed.
    #[verifier::rlimit(100)]
    #[verifier::spinoff_prover]
    pub fn step(&mut self, event: RestoreEvent) -> (r: RestoreAction)
        requires
            old(self).wf(),
            old(self).spec_expects(event),
        ensures
            final(self).wf(),
            final(self).layout@ == old(self).layout@,
            final(self).workspace_num == old(self).workspace_num,
            final(self).restore_sizes == old(self).restore_sizes,
            old(self).warnings@.is_prefix_of(final(self).warnings@),
            old(self).created_paths@.submap_of(final(self).created_paths@),
            old(self).stage matches Stage::LeafTree { leaf, path } ==> (event matches
                RestoreEvent::Tree(t) ==> (if spec_find(t.0, leaf) is None {
                final(self).warnings@ == old(self).warnings@.push(leaf) && (r is Advance)
                    && final(self).stage is Advance
            } else {
                final(self).warnings@ == old(self).warnings@ && (r matches RestoreAction::Run {
                    node,
                    command,
                } && node == leaf && command == NodeCommand::MoveToWorkspace(
                    old(self).workspace_num,
                ))
            })),
            !(old(self).stage matches Stage::LeafTree { .. }) ==> final(self).warnings@ == old(self).warnings@,
            old(self).stage matches Stage::AscendCheck { last, path, pos } ==> (pos >= 2 ==> (if
                old(self).created_paths@.dom().contains(path@[pos - 1].id) {
                r matches RestoreAction::Run { node, command } && node == old(self).created_paths@[path@[pos - 1].id] && command == NodeCommand::Mark(MarkId::Move)
            } else {
                r matches RestoreAction::Run { node, command } && node == last && command
                    == NodeCommand::SplitHorizontal
            })),
            old(self).stage matches Stage::AscendCheck { last, path, pos } ==> (pos <= 1 ==> (r
                is Advance && final(self).stage is Advance)),
            old(self).stage matches Stage::ParentTree { last, path, pos } ==> (event matches
                RestoreEvent::Tree(t) ==> (match spec_parent(t.0, last) {
                Some(p) => final(self).created_paths@ == old(self).created_paths@.insert(
                    path@[pos - 1].id,
                    p.id,
                ) && final(self).containers_created == old(self).containers_created + 1 && (
                final(self).stage matches Stage::AscendCheck {
                    last: l2,
                    path: path2,
                    pos: pos2,
                } && l2 == p.id && pos2 == pos - 1),
                None => r matches RestoreAction::Fail(e) && e == Error::LiveState(
                    LiveStateError::ParentNotFound { node: last },
                ),
            })),
            !(old(self).stage matches Stage::ParentTree { .. }) ==> final(self).created_paths@
                == old(self).created_paths@ && final(self).containers_created == old(self).containers_created,
            old(self).stage matches Stage::SizeTree { leaf, width, height } ==> (event matches
                RestoreEvent::Tree(t) ==> (match spec_find(t.0, leaf) {
                Some(n) => (if n.window_width != width {
                    r matches RestoreAction::Run { node, command } && node == leaf && command
                        == NodeCommand::ResizeWidth(width) && (final(self).stage matches
                    Stage::SizeRan { leaf: l2, pending_height } && l2 == leaf && pending_height
                        == (if n.window_height != height {
                        Some(height)
                    } else {
                        None::<i64>
                    }))
                } else if n.window_height != height {
                    r matches RestoreAction::Run { node, command } && node == leaf && command
                        == NodeCommand::ResizeHeight(height) && (final(self).stage matches
                    Stage::SizeRan { leaf: l2, pending_height } && l2 == leaf && pending_height
                        is None)
                } else {
                    (r matches RestoreAction::Wait(k) && k == WaitKind::BetweenResizes) && final(self).stage is SizePause
                }),
                None => (r matches RestoreAction::Wait(k) && k == WaitKind::BetweenResizes)
                    && final(self).stage is SizePause,
            })),
            old(self).stage matches Stage::SizeRan { leaf, pending_height } ==> ((match
                pending_height {
                Some(h) => r matches RestoreAction::Run { node, command } && node == leaf
                    && command == NodeCommand::ResizeHeight(h),
                None => (r matches RestoreAction::Wait(k) && k == WaitKind::BetweenResizes),
            }) && !(r is Fail)),
            (old(self).stage matches Stage::Pulled { .. }) ==> !(r is Fail),
            ((old(self).stage matches Stage::LeafMoved { .. } || old(self).stage matches
                Stage::WsMarked { .. } || old(self).stage matches Stage::ReuseMarked { .. } || old(self).stage matches Stage::ReuseMoved { .. } || old(self).stage matches Stage::SplitSent {
                ..
            } || old(self).stage matches Stage::LayoutSent { .. }) && event == RestoreEvent::Ran(
                false,
            )) ==> (r matches RestoreAction::Fail(e) && e is Command) && final(self).stage
                is Failed,
            old(self).stage matches Stage::LeafMoved { leaf, path } ==> (event
                == RestoreEvent::Ran(true) ==> r is QueryTree && (final(self).stage matches
            Stage::WsTree { leaf: l2, path: p2 } && l2 == leaf)),
            old(self).stage matches Stage::WsTree { leaf, path } ==> (event matches
                RestoreEvent::Tree(t) ==> (match spec_ws_by_num(t.0, old(self).workspace_num) {
                Some(w) => r matches RestoreAction::Run { node, command } && node == w.id
                    && command == NodeCommand::Mark(MarkId::Restore),
                None => r matches RestoreAction::Fail(e) && e == Error::LiveState(
                    LiveStateError::WorkspaceNotFound { workspace_num: old(self).workspace_num },
                ),
            })),
            old(self).stage matches Stage::WsMarked { leaf, path, ws_node } ==> (event
                == RestoreEvent::Ran(true) ==> (r matches RestoreAction::Run { node, command }
                && node == leaf && command == NodeCommand::MoveToMark(MarkId::Restore))),
            old(self).stage matches Stage::Pulled { leaf, path } ==> (final(self).stage matches
                Stage::AscendCheck { last, path: p2, pos } && last == leaf && pos == path@.len()
                && p2@ == path@) && r is Advance,
            old(self).stage matches Stage::SplitSent { last, path, pos } ==> (event
                == RestoreEvent::Ran(true) ==> (r matches RestoreAction::Run {
                node,
                command,
            } && node == last && command == NodeCommand::SetLayout(path@[pos - 1].layout))),
            old(self).stage matches Stage::LayoutSent { last, path, pos } ==> (event
                == RestoreEvent::Ran(true) ==> r is QueryTree && final(self).stage is ParentTree),
            old(self).stage is SettleWait ==> r is Advance && final(self).stage is SizeAdvance
                && final(self).size_stack@ == seq![0usize],
            old(self).stage is Advance ==> advance_post(
                old(self).layout,
                old(self).stack@,
                old(self).restore_sizes,
                *final(self),
                r,
            ),
            old(self).stage is SizeAdvance ==> size_advance_post(
                old(self).layout,
                old(self).size_stack@,
                *final(self),
                r,
            ),
            old(self).stage is Finished ==> r is Finish,
            old(self).stage matches Stage::Failed(e) ==> (r matches RestoreAction::Fail(e2) && e2
                == e),
    {
        let mut stage = Stage::Advance;
        core::mem::swap(&mut stage, &mut self.stage);
        match stage {
            Stage::Advance => {
                match event {
                    RestoreEvent::Proceed => self.do_advance(),
                    _ => {
                        proof {
                            assert(false);
                        }
                        RestoreAction::Finish
                    },
                }
            },
            Stage::LeafTree { leaf, path } => {
                match event {
                    RestoreEvent::Tree(t) => {
                        match find_node_by_id(leaf, &t) {
                            None => {
                                self.warnings.push(leaf);
                                self.stage = Stage::Advance;
                                proof {
                                    assert(old(self).warnings@.is_prefix_of(self.warnings@)) by {
                                        assert(old(self).warnings@ =~= self.warnings@.subrange(
                                            0,
                                            old(self).warnings@.len() as int,
                                        ));
                                    }
                                }
                                RestoreAction::Advance
                            },
                            Some(_) => {
                                let num = self.workspace_num;
                                self.stage = Stage::LeafMoved { leaf, path };
                                RestoreAction::Run {
                                    node: leaf,
                                    command: NodeCommand::MoveToWorkspace(num),
                                }
                            },
                        }
                    },
                    _ => {
                        proof {
                            assert(false);
                        }
                        RestoreAction::Finish
                    },
                }
            },
            Stage::LeafMoved { leaf, path } => {
                match event {
                    RestoreEvent::Ran(ok) => {
                        if !ok {
                            let e = Error::Command { node: leaf };
                            self.stage = Stage::Failed(e);
                            RestoreAction::Fail(e)
                        } else {
                            self.stage = Stage::WsTree { leaf, path };
                            RestoreAction::QueryTree
                        }
                    },
                    _ => {
                        proof {
                            assert(false);
                        }
                        RestoreAction::Finish
                    },
                }
            },
            Stage::WsTree { leaf, path } => {
                match event {
                    RestoreEvent::Tree(t) => {
                        match find_workspace_by_num(&t, self.workspace_num) {
                            None => {
                                let e = Error::LiveState(LiveStateError::WorkspaceNotFound {
                                    workspace_num: self.workspace_num,
                                });
                                self.stage = Stage::Failed(e);
                                RestoreAction::Fail(e)
                            },
                            Some(w) => {
                                let wid = w.id;
                                self.stage = Stage::WsMarked { leaf, path, ws_node: wid };
                                RestoreAction::Run {
                                    node: wid,
                                    command: NodeCommand::Mark(MarkId::Restore),
                                }
                            },
                        }
                    },
                    _ => {
                        proof {
                            assert(false);
                        }
                        RestoreAction::Finish
                    },
                }
            },
            Stage::WsMarked { leaf, path, ws_node } => {
                match event {
                    RestoreEvent::Ran(ok) => {
                        if !ok {
                            let e = Error::Command { node: ws_node };
                            self.stage = Stage::Failed(e);
                            RestoreAction::Fail(e)
                        } else {
                            self.stage = Stage::Pulled { leaf, path };
                            RestoreAction::Run {
                                node: leaf,
                                command: NodeCommand::MoveToMark(MarkId::Restore),
                            }
                        }
                    },
                    _ => {
                        proof {
                            assert(false);
                        }
                        RestoreAction::Finish
                    },
                }
            },
            Stage::Pulled { leaf, path } => {
                match event {
                    RestoreEvent::Ran(_) => {
                        let pos = path.len();
                        self.stage = Stage::AscendCheck { last: leaf, path, pos };
                        RestoreAction::Advance
                    },
                    _ => {
                        proof {
                            assert(false);
                        }
                        RestoreAction::Finish
                    },
                }
            },
            Stage::AscendCheck { last, path, pos } => {
                match event {
                    RestoreEvent::Proceed => {
                        if pos <= 1 {
                            self.stage = Stage::Advance;
                            RestoreAction::Advance
                        } else {
                            let ancestor = path[pos - 1].id;
                            match self.created_paths.get(&ancestor) {
                                Some(target) => {
                                    let t = *target;
                                    self.stage = Stage::ReuseMarked { last, target: t };
                                    RestoreAction::Run {
                                        node: t,
                                        command: NodeCommand::Mark(MarkId::Move),
                                    }
                                },
                                None => {
                                    self.stage = Stage::SplitSent { last, path, pos };
                                    RestoreAction::Run {
                                        node: last,
                                        command: NodeCommand::SplitHorizontal,
                                    }
                                },
                            }
                        }
                    },
                    _ => {
                        proof {
                            assert(false);
                        }
                        RestoreAction::Finish
                    },
                }
            },
            Stage::ReuseMarked { last, target } => {
                match event {
                    RestoreEvent::Ran(ok) => {
                        if !ok {
                            let e = Error::Command { node: target };
                            self.stage = Stage::Failed(e);
                            RestoreAction::Fail(e)
                        } else {
                            self.stage = Stage::ReuseMoved { last };
                            RestoreAction::Run {
                                node: last,
                                command: NodeCommand::MoveToMark(MarkId::Move),
                            }
                        }
                    },
                    _ => {
                        proof {
                            assert(false);
                        }
                        RestoreAction::Finish
                    },
                }
            },
            Stage::ReuseMoved { last } => {
                match event {
                    RestoreEvent::Ran(ok) => {
                        if !ok {
                            let e = Error::Command { node: last };
                            self.stage = Stage::Failed(e);
                            RestoreAction::Fail(e)
                        } else {
                            self.stage = Stage::Advance;
                            RestoreAction::Advance
                        }
                    },
                    _ => {
                        proof {
                            assert(false);
                        }
                        RestoreAction::Finish
                    },
                }
            },
            Stage::SplitSent { last, path, pos } => {
                match event {
                    RestoreEvent::Ran(ok) => {
                        if !ok {
                            let e = Error::Command { node: last };
                            self.stage = Stage::Failed(e);
                            RestoreAction::Fail(e)
                        } else {
                            let lay = path[pos - 1].layout;
                            self.stage = Stage::LayoutSent { last, path, pos };
                            RestoreAction::Run { node: last, command: NodeCommand::SetLayout(lay) }
                        }
                    },
                    _ => {
                        proof {
                            assert(false);
                        }
                        RestoreAction::Finish
                    },
                }
            },
            Stage::LayoutSent { last, path, pos } => {
                match event {
                    RestoreEvent::Ran(ok) => {
                        if !ok {
                            let e = Error::Command { node: last };
                            self.stage = Stage::Failed(e);
                            RestoreAction::Fail(e)
                        } else {
                            self.stage = Stage::ParentTree { last, path, pos };
                            RestoreAction::QueryTree
                        }
                    },
                    _ => {
                        proof {
                            assert(false);
                        }
                        RestoreAction::Finish
                    },
                }
            },
            Stage::ParentTree { last, path, pos } => {
                match event {
                    RestoreEvent::Tree(t) => {
                        match find_node_parent(last, &t) {
                            None => {
                                let e = Error::LiveState(LiveStateError::ParentNotFound {
                                    node: last,
                                });
                                self.stage = Stage::Failed(e);
                                RestoreAction::Fail(e)
                            },
                            Some(p) => {
                                let pid = p.id;
                                let ancestor = path[pos - 1].id;
                                self.created_paths.insert(ancestor, pid);
                                self.containers_created = self.created_paths.len();
                                proof {
                                    assert(self.created_paths@ == old(self).created_paths@.insert(ancestor, pid));
                                    assert(self.created_paths@.len() == old(self).created_paths@.len() + 1) by {
                                        assert(!old(self).created_paths@.dom().contains(ancestor));
                                        vstd::map::axiom_map_insert_domain(
                                            old(self).created_paths@,
                                            ancestor,
                                            pid,
                                        );
                                        vstd::set::axiom_set_insert_len(
                                            old(self).created_paths@.dom(),
                                            ancestor,
                                        );
                                    }
                                    assert(old(self).created_paths@.submap_of(
                                        self.created_paths@,
                                    ));
                                }
                                self.stage = Stage::AscendCheck { last: pid, path, pos: pos - 1 };
                                RestoreAction::Advance
                            },
                        }
                    },
                    _ => {
                        proof {
                            assert(false);
                        }
                        RestoreAction::Finish
                    },
                }
            },
            Stage::SettleWait => {
                match event {
                    RestoreEvent::Waited => {
                        self.size_stack = Vec::new();
                        self.size_stack.push(0);
                        self.stage = Stage::SizeAdvance;
                        RestoreAction::Advance
                    },
                    _ => {
                        proof {
                            assert(false);
                        }
                        RestoreAction::Finish
                    },
                }
            },
            Stage::SizeAdvance => {
                match event {
                    RestoreEvent::Proceed => {
                        self.stage = Stage::SizeAdvance;
                        self.do_size_advance()
                    },
                    _ => {
                        proof {
                            assert(false);
                        }
                        RestoreAction::Finish
                    },
                }
            },
            Stage::SizeTree { leaf, width, height } => {
                match event {
                    RestoreEvent::Tree(t) => {
                        match find_node_by_id(leaf, &t) {
                            None => {
                                self.stage = Stage::SizePause;
                                RestoreAction::Wait(WaitKind::BetweenResizes)
                            },
                            Some(n) => {
                                let plan = resize_plan(
                                    width,
                                    height,
                                    n.window_width,
                                    n.window_height,
                                );
                                match plan.0 {
                                    Some(w) => {
                                        self.stage = Stage::SizeRan {
                                            leaf,
                                            pending_height: plan.1,
                                        };
                                        RestoreAction::Run {
                                            node: leaf,
                                            command: NodeCommand::ResizeWidth(w),
                                        }
                                    },
                                    None => {
                                        match plan.1 {
                                            Some(h) => {
                                                self.stage = Stage::SizeRan {
                                                    leaf,
                                                    pending_height: None,
                                                };
                                                RestoreAction::Run {
                                                    node: leaf,
                                                    command: NodeCommand::ResizeHeight(h),
                                                }
                                            },
                                            None => {
                                                self.stage = Stage::SizePause;
                                                RestoreAction::Wait(WaitKind::BetweenResizes)
                                            },
                                        }
                                    },
                                }
                            },
                        }
                    },
                    _ => {
                        proof {
                            assert(false);
                        }
                        RestoreAction::Finish
                    },
                }
            },
            Stage::SizeRan { leaf, pending_height } => {
                match event {
                    RestoreEvent::Ran(_) => {
                        match pending_height {
                            Some(h) => {
                                self.stage = Stage::SizeRan { leaf, pending_height: None };
                                RestoreAction::Run {
                                    node: leaf,
                                    command: NodeCommand::ResizeHeight(h),
                                }
                            },
                            None => {
                                self.stage = Stage::SizePause;
                                RestoreAction::Wait(WaitKind::BetweenResizes)
                            },
                        }
                    },
                    _ => {
                        proof {
                            assert(false);
                        }
                        RestoreAction::Finish
                    },
                }
            },
            Stage::SizePause => {
                match event {
                    RestoreEvent::Waited => {
                        self.stage = Stage::SizeAdvance;
                        RestoreAction::Advance
                    },
                    _ => {
                        proof {
                            assert(false);
                        }
                        RestoreAction::Finish
                    },
                }
            },
            Stage::Finished => {
                self.stage = Stage::Finished;
                RestoreAction::Finish
            },
            Stage::Failed(e) => {
                self.stage = Stage::Failed(e);
                RestoreAction::Fail(e)
            },
        }
    }
}

} // verus!

verus! {

/// The single-reuse law: at every reachable engine state the number of
/// containers the placement phase has created equals the number of distinct
/// original ancestor ids in the reuse map — one fresh container per shared
/// ancestor, never two — and every such id names an internal record of the
/// snapshot.  Together with [`RestoreEngine::step`]'s contract (the split
/// command is issued only for an ancestor absent from the map, and the map
/// gains exactly that ancestor when its fresh parent is discovered), two
/// leaves sharing an ancestor cause exactly one container to be created for
/// it.
pub proof fn lemma_single_reuse(e: RestoreEngine)
    requires
        e.wf(),
    ensures
        e.containers_created == e.created_paths@.dom().len(),
        forall|k: u64| #[trigger]
            e.created_paths@.dom().contains(k) ==> internal_id(e.layout, k),
{
}

} // verus!
