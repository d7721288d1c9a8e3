//! Scenario tests for the restore engine, the capture walk and the tree
//! helpers, driven against a miniature in-memory window manager that obeys
//! the command protocol the engine relies on.

use i3_autolayout::autolayout::auto_split_decision;
use i3_autolayout::capture::capture;
use i3_autolayout::errors::Error;
use i3_autolayout::livetree::{
    find_node_by_id, find_node_parent, find_workspace_by_num, find_workspace_focused,
    find_workspace_of_node, find_workspaces, is_floating_container, ratio_of_node,
    select_workspace, FloatingState, LiveLayout, LiveNode, LiveNodeType, RectRatio, RootNode,
    Split, WorkspaceInfo,
};
use i3_autolayout::restore::{
    resize_plan, MarkId, NodeCommand, RestoreAction, RestoreEngine, RestoreEvent,
};
use i3_autolayout::snapshot::{KindNode, LayoutNode, SavedLayout, SavedNode, SavedWindow};
use i3_autolayout::tabmode::{is_tabmode, normalize_moves};

// ---------------------------------------------------------------------------
// Live-tree fixtures.
// ---------------------------------------------------------------------------

fn plain(id: u64, node_type: LiveNodeType, layout: LiveLayout, children: Vec<LiveNode>) -> LiveNode {
    LiveNode {
        id,
        node_type,
        num: None,
        layout,
        window_width: 0,
        window_height: 0,
        floating: None,
        has_window_type: false,
        children,
    }
}

fn win(id: u64, width: i64, height: i64) -> LiveNode {
    let mut n = plain(id, LiveNodeType::Con, LiveLayout::SplitH, vec![]);
    n.window_width = width;
    n.window_height = height;
    n.has_window_type = true;
    n
}

fn workspace(id: u64, num: i32, children: Vec<LiveNode>) -> LiveNode {
    let mut n = plain(id, LiveNodeType::Workspace, LiveLayout::SplitH, children);
    n.num = Some(num);
    n
}

fn root_of(children: Vec<LiveNode>) -> LiveNode {
    plain(1, LiveNodeType::Root, LiveLayout::SplitH, children)
}

fn clone_tree(n: &LiveNode) -> LiveNode {
    LiveNode {
        id: n.id,
        node_type: n.node_type,
        num: n.num,
        layout: n.layout,
        window_width: n.window_width,
        window_height: n.window_height,
        floating: n.floating,
        has_window_type: n.has_window_type,
        children: n.children.iter().map(clone_tree).collect(),
    }
}

// ---------------------------------------------------------------------------
// A miniature window manager obeying the command protocol.
// ---------------------------------------------------------------------------

struct MiniWm {
    root: LiveNode,
    next_id: u64,
    marks: std::collections::HashMap<MarkId, u64>,
    log: Vec<(u64, NodeCommand)>,
}

impl MiniWm {
    fn new(root: LiveNode) -> MiniWm {
        MiniWm { root, next_id: 9000, marks: std::collections::HashMap::new(), log: Vec::new() }
    }

    fn detach(tree: &mut LiveNode, id: u64) -> Option<LiveNode> {
        if let Some(pos) = tree.children.iter().position(|c| c.id == id) {
            return Some(tree.children.remove(pos));
        }
        for c in tree.children.iter_mut() {
            if let Some(found) = Self::detach(c, id) {
                return Some(found);
            }
        }
        None
    }

    fn find_mut<'a>(tree: &'a mut LiveNode, id: u64) -> Option<&'a mut LiveNode> {
        if tree.id == id {
            return Some(tree);
        }
        for c in tree.children.iter_mut() {
            if let Some(found) = Self::find_mut(c, id) {
                return Some(found);
            }
        }
        None
    }

    fn parent_of<'a>(tree: &'a mut LiveNode, id: u64) -> Option<&'a mut LiveNode> {
        if tree.children.iter().any(|c| c.id == id) {
            return Some(tree);
        }
        for c in tree.children.iter_mut() {
            if let Some(found) = Self::parent_of(c, id) {
                return Some(found);
            }
        }
        None
    }

    fn run(&mut self, node: u64, command: NodeCommand) -> bool {
        self.log.push((node, command));
        match command {
            NodeCommand::MoveToWorkspace(num) => {
                let moved = Self::detach(&mut self.root, node).expect("node to move exists");
                let ws = Self::find_ws_mut(&mut self.root, num).expect("target workspace exists");
                ws.children.push(moved);
                true
            }
            NodeCommand::Mark(mark) => {
                self.marks.insert(mark, node);
                true
            }
            NodeCommand::MoveToMark(mark) => {
                let target = *self.marks.get(&mark).expect("mark set before use");
                let moved = Self::detach(&mut self.root, node).expect("node to move exists");
                let holder = Self::find_mut(&mut self.root, target).expect("marked node exists");
                holder.children.push(moved);
                true
            }
            NodeCommand::SplitHorizontal => {
                let fresh = self.next_id;
                self.next_id += 1;
                let parent = Self::parent_of(&mut self.root, node).expect("split target has parent");
                let pos = parent.children.iter().position(|c| c.id == node).unwrap();
                let wrapped = parent.children.remove(pos);
                let container = plain(fresh, LiveNodeType::Con, LiveLayout::SplitH, vec![wrapped]);
                parent.children.insert(pos, container);
                true
            }
            NodeCommand::SetLayout(layout) => {
                let parent = Self::parent_of(&mut self.root, node).expect("layout target has parent");
                parent.layout = match layout {
                    LayoutNode::SplitH => LiveLayout::SplitH,
                    LayoutNode::SplitV => LiveLayout::SplitV,
                    LayoutNode::Stacked => LiveLayout::Stacked,
                    LayoutNode::Tabbed => LiveLayout::Tabbed,
                };
                true
            }
            NodeCommand::ResizeWidth(w) => {
                let target = Self::find_mut(&mut self.root, node).expect("resize target exists");
                target.window_width = w;
                true
            }
            NodeCommand::ResizeHeight(h) => {
                let target = Self::find_mut(&mut self.root, node).expect("resize target exists");
                target.window_height = h;
                true
            }
        }
    }

    fn find_ws_mut<'a>(tree: &'a mut LiveNode, num: i32) -> Option<&'a mut LiveNode> {
        if tree.node_type == LiveNodeType::Workspace && tree.num == Some(num) {
            return Some(tree);
        }
        for c in tree.children.iter_mut() {
            if let Some(found) = Self::find_ws_mut(c, num) {
                return Some(found);
            }
        }
        None
    }

    fn resize_commands_for(&self, id: u64) -> (usize, usize) {
        let mut widths = 0;
        let mut heights = 0;
        for (node, command) in &self.log {
            if *node == id {
                match command {
                    NodeCommand::ResizeWidth(_) => widths += 1,
                    NodeCommand::ResizeHeight(_) => heights += 1,
                    _ => {}
                }
            }
        }
        (widths, heights)
    }

    fn split_count(&self) -> usize {
        self.log
            .iter()
            .filter(|(_, c)| matches!(c, NodeCommand::SplitHorizontal))
            .count()
    }
}

/// Drive an engine against the miniature manager until it finishes.
fn drive(engine: &mut RestoreEngine, wm: &mut MiniWm) -> Result<(), Error> {
    let mut event = RestoreEvent::Proceed;
    for _ in 0..100000 {
        assert!(engine.expects(&event), "driver answered the wrong event kind");
        match engine.step(event) {
            RestoreAction::Advance => {
                event = RestoreEvent::Proceed;
            }
            RestoreAction::QueryTree => {
                event = RestoreEvent::Tree(RootNode(clone_tree(&wm.root)));
            }
            RestoreAction::Run { node, command } => {
                let ok = wm.run(node, command);
                event = RestoreEvent::Ran(ok);
            }
            RestoreAction::Wait(_) => {
                event = RestoreEvent::Waited;
            }
            RestoreAction::Finish => return Ok(()),
            RestoreAction::Fail(e) => return Err(e),
        }
    }
    panic!("the engine did not finish");
}

// ---------------------------------------------------------------------------
// Snapshot fixtures.
// ---------------------------------------------------------------------------

/// `Workspace(3)[ SplitH[ NormalWindow(A, 800x600), NormalWindow(B, 800x600) ] ]`
fn end_to_end_snapshot(a: u64, b: u64) -> SavedLayout {
    let records = vec![
        SavedNode::new(500, KindNode::Workspace(3), LayoutNode::SplitH, vec![510]),
        SavedNode::new(510, KindNode::Splitter, LayoutNode::SplitH, vec![a, b]),
        SavedNode::new(
            a,
            KindNode::NormalWindow(SavedWindow::new(800, 600)),
            LayoutNode::SplitH,
            vec![],
        ),
        SavedNode::new(
            b,
            KindNode::NormalWindow(SavedWindow::new(800, 600)),
            LayoutNode::SplitH,
            vec![],
        ),
    ];
    SavedLayout::new(records).unwrap()
}

// ---------------------------------------------------------------------------
// End-to-end restore scenarios.
// ---------------------------------------------------------------------------

#[test]
fn end_to_end_example() {
    // live: workspace 3 exists and holds A and B at its root; A already has
    // the recorded size, B differs
    let a = win(21, 800, 600);
    let b = win(22, 640, 480);
    let live = root_of(vec![workspace(40, 3, vec![a, b])]);
    let mut wm = MiniWm::new(live);
    let snapshot = end_to_end_snapshot(21, 22);
    let mut engine = RestoreEngine::new(snapshot, true).unwrap();
    drive(&mut engine, &mut wm).expect("restore succeeds");

    // exactly one new container was created, wrapping A and B on workspace 3
    assert_eq!(engine.containers_created(), 1);
    assert_eq!(wm.split_count(), 1);
    assert_eq!(engine.warnings().len(), 0);
    // each window is resized to 800x600 only where its live size differed
    assert_eq!(wm.resize_commands_for(21), (0, 0));
    assert_eq!(wm.resize_commands_for(22), (1, 1));
    let ws = MiniWm::find_ws_mut(&mut wm.root, 3).unwrap();
    assert_eq!(ws.children.len(), 1);
    let container = &ws.children[0];
    assert_eq!(container.layout, LiveLayout::SplitH);
    assert_eq!(container.children.len(), 2);
    assert_eq!(container.children[0].id, 21);
    assert_eq!(container.children[1].id, 22);
    assert_eq!(container.children[1].window_width, 800);
    assert_eq!(container.children[1].window_height, 600);
}

fn deep_snapshot() -> SavedLayout {
    // Workspace(5)[ SplitV[ Tabbed[w1, w2], w3 ] ]
    let records = vec![
        SavedNode::new(600, KindNode::Workspace(5), LayoutNode::SplitH, vec![610]),
        SavedNode::new(610, KindNode::Splitter, LayoutNode::SplitV, vec![620, 33]),
        SavedNode::new(620, KindNode::Splitter, LayoutNode::Tabbed, vec![31, 32]),
        SavedNode::new(
            31,
            KindNode::NormalWindow(SavedWindow::new(500, 400)),
            LayoutNode::SplitH,
            vec![],
        ),
        SavedNode::new(
            32,
            KindNode::NormalWindow(SavedWindow::new(500, 400)),
            LayoutNode::SplitH,
            vec![],
        ),
        SavedNode::new(
            33,
            KindNode::NormalWindow(SavedWindow::new(1000, 400)),
            LayoutNode::SplitH,
            vec![],
        ),
    ];
    SavedLayout::new(records).unwrap()
}

fn shape_of(live: &LiveNode) -> String {
    if live.children.is_empty() {
        format!("w{}", live.id)
    } else {
        let inner: Vec<String> = live.children.iter().map(shape_of).collect();
        format!("{:?}[{}]", live.layout, inner.join(","))
    }
}

#[test]
fn restore_isomorphism() {
    // live: the referenced windows sit flat on another workspace
    let live = root_of(vec![
        workspace(70, 1, vec![win(31, 1, 1), win(32, 2, 2), win(33, 3, 3)]),
        workspace(71, 5, vec![]),
    ]);
    let mut wm = MiniWm::new(live);
    let mut engine = RestoreEngine::new(deep_snapshot(), false).unwrap();
    drive(&mut engine, &mut wm).expect("restore succeeds");

    // same nesting, same per-container layout mode, same leaf ids
    let ws = MiniWm::find_ws_mut(&mut wm.root, 5).unwrap();
    assert_eq!(ws.children.len(), 1);
    assert_eq!(shape_of(&ws.children[0]), "SplitV[Tabbed[w31,w32],w33]");
    // one container per distinct non-root internal snapshot node
    assert_eq!(engine.containers_created(), 2);
    assert_eq!(wm.split_count(), 2);
}

#[test]
fn single_reuse_shared_ancestors() {
    // two leaves share both ancestors; each ancestor is created exactly once
    let live = root_of(vec![
        workspace(70, 1, vec![win(31, 1, 1), win(32, 2, 2), win(33, 3, 3)]),
        workspace(71, 5, vec![]),
    ]);
    let mut wm = MiniWm::new(live);
    let mut engine = RestoreEngine::new(deep_snapshot(), false).unwrap();
    drive(&mut engine, &mut wm).expect("restore succeeds");
    // distinct non-root internal nodes: the splitter and the tab container
    assert_eq!(engine.containers_created(), 2);
    assert_eq!(wm.split_count(), engine.containers_created());
}

#[test]
fn partial_failure_tolerance() {
    // window 32 does not exist live: restore completes for the others,
    // emits exactly one warning, and does not abort
    let live = root_of(vec![
        workspace(70, 1, vec![win(31, 1, 1), win(33, 3, 3)]),
        workspace(71, 5, vec![]),
    ]);
    let mut wm = MiniWm::new(live);
    let mut engine = RestoreEngine::new(deep_snapshot(), false).unwrap();
    drive(&mut engine, &mut wm).expect("restore completes despite the missing leaf");
    assert_eq!(engine.warnings(), &vec![32u64]);
    let ws = MiniWm::find_ws_mut(&mut wm.root, 5).unwrap();
    assert_eq!(shape_of(&ws.children[0]), "SplitV[Tabbed[w31],w33]");
}

#[test]
fn resize_minimality() {
    // one window already matches its record, one differs in both dimensions
    let live = root_of(vec![workspace(70, 5, vec![win(31, 500, 400), win(32, 10, 20), win(33, 1000, 400)])]);
    let mut wm = MiniWm::new(live);
    let mut engine = RestoreEngine::new(deep_snapshot(), true).unwrap();
    drive(&mut engine, &mut wm).expect("restore succeeds");
    assert_eq!(wm.resize_commands_for(31), (0, 0));
    assert_eq!(wm.resize_commands_for(32), (1, 1));
    assert_eq!(wm.resize_commands_for(33), (0, 0));
}

#[test]
fn placement_precedes_geometry() {
    // every placement command is issued before the first resize command
    let a = win(21, 800, 600);
    let b = win(22, 640, 480);
    let live = root_of(vec![workspace(40, 3, vec![a, b])]);
    let mut wm = MiniWm::new(live);
    let mut engine = RestoreEngine::new(end_to_end_snapshot(21, 22), true).unwrap();
    drive(&mut engine, &mut wm).expect("restore succeeds");
    let is_resize = |c: &NodeCommand| {
        matches!(c, NodeCommand::ResizeWidth(_) | NodeCommand::ResizeHeight(_))
    };
    let first_resize = wm.log.iter().position(|(_, c)| is_resize(c));
    let last_placement = wm.log.iter().rposition(|(_, c)| !is_resize(c));
    match (last_placement, first_resize) {
        (Some(placement), Some(resize)) => assert!(placement < resize),
        (_, None) => panic!("the differing window must be resized"),
        (None, _) => panic!("placement commands must be issued"),
    }
}

#[test]
fn resize_plan_is_minimal() {
    assert_eq!(resize_plan(800, 600, 800, 600), (None, None));
    assert_eq!(resize_plan(800, 600, 640, 600), (Some(800), None));
    assert_eq!(resize_plan(800, 600, 800, 480), (None, Some(600)));
    assert_eq!(resize_plan(800, 600, 640, 480), (Some(800), Some(600)));
}

#[test]
fn restore_requires_workspace_root() {
    let records = vec![SavedNode::new(1, KindNode::Splitter, LayoutNode::SplitH, vec![])];
    let layout = SavedLayout::new(records).unwrap();
    match RestoreEngine::new(layout, false) {
        Err(Error::Precondition(_)) => {}
        other => panic!("expected a precondition error, got {:?}", other.map(|_| ())),
    }
}

#[test]
fn strict_policy_aborts_on_rejected_placement() {
    let live = root_of(vec![
        workspace(70, 1, vec![win(21, 1, 1), win(22, 2, 2)]),
        workspace(71, 3, vec![]),
    ]);
    let wm = MiniWm::new(live);
    let snapshot = end_to_end_snapshot(21, 22);
    let mut engine = RestoreEngine::new(snapshot, false).unwrap();
    // answer the first placement command with a rejection
    let mut wm = wm;
    let mut event = RestoreEvent::Proceed;
    let outcome = loop {
        match engine.step(event) {
            RestoreAction::Advance => event = RestoreEvent::Proceed,
            RestoreAction::QueryTree => {
                event = RestoreEvent::Tree(RootNode(clone_tree(&wm.root)));
            }
            RestoreAction::Run { node, command } => {
                if matches!(command, NodeCommand::MoveToWorkspace(_)) {
                    event = RestoreEvent::Ran(false);
                } else {
                    let ok = wm.run(node, command);
                    event = RestoreEvent::Ran(ok);
                }
            }
            RestoreAction::Wait(_) => event = RestoreEvent::Waited,
            RestoreAction::Finish => break Ok(()),
            RestoreAction::Fail(e) => break Err(e),
        }
    };
    match outcome {
        Err(Error::Command { node }) => assert_eq!(node, 21),
        other => panic!("expected a command error, got {:?}", other),
    }
}

// ---------------------------------------------------------------------------
// Capture.
// ---------------------------------------------------------------------------

#[test]
fn capture_records_subtree() {
    let tree = workspace(
        40,
        3,
        vec![plain(
            50,
            LiveNodeType::Con,
            LiveLayout::Tabbed,
            vec![win(21, 800, 600), win(22, 640, 480)],
        )],
    );
    let layout = capture(&tree).expect("capture succeeds");
    assert_eq!(layout.node_count(), 4);
    assert_eq!(layout.root().id(), 40);
    assert!(matches!(layout.root().kind(), KindNode::Workspace(3)));
    let container = layout.lookup_by_id(50);
    assert_eq!(container.layout(), LayoutNode::Tabbed);
    assert!(matches!(container.kind(), KindNode::Splitter));
    assert_eq!(container.children(), &vec![21u64, 22u64]);
    let w = layout.lookup_by_id(22);
    match w.kind() {
        KindNode::NormalWindow(sw) => {
            assert_eq!(sw.width(), 640);
            assert_eq!(sw.height(), 480);
        }
        other => panic!("expected a window, got {:?}", other),
    }
}

#[test]
fn capture_rejects_unsupported_shapes() {
    // a workspace without a number
    let mut anonymous = workspace(40, 3, vec![]);
    anonymous.num = None;
    assert!(matches!(capture(&anonymous), Err(Error::Precondition(_))));
    // an unrecognized layout mode
    let mut odd = workspace(40, 3, vec![win(21, 1, 1)]);
    odd.children[0].layout = LiveLayout::Other;
    assert!(matches!(capture(&odd), Err(Error::Precondition(_))));
    // a node type the snapshot cannot describe
    let dock = workspace(40, 3, vec![plain(50, LiveNodeType::Dockarea, LiveLayout::SplitH, vec![])]);
    assert!(matches!(capture(&dock), Err(Error::Precondition(_))));
}

#[test]
fn capture_then_restore_round_trip() {
    // capture a live workspace, then restore it elsewhere: the shape returns
    let source = workspace(
        40,
        3,
        vec![plain(
            50,
            LiveNodeType::Con,
            LiveLayout::Tabbed,
            vec![win(21, 800, 600), win(22, 640, 480)],
        )],
    );
    let layout = capture(&source).expect("capture succeeds");
    let live = root_of(vec![workspace(80, 3, vec![win(21, 800, 600), win(22, 640, 480)])]);
    let mut wm = MiniWm::new(live);
    let mut engine = RestoreEngine::new(layout, false).unwrap();
    drive(&mut engine, &mut wm).expect("restore succeeds");
    let ws = MiniWm::find_ws_mut(&mut wm.root, 3).unwrap();
    assert_eq!(shape_of(&ws.children[0]), "Tabbed[w21,w22]");
}

// ---------------------------------------------------------------------------
// Tree helpers.
// ---------------------------------------------------------------------------

#[test]
fn helper_lookups() {
    let live = root_of(vec![
        workspace(70, 1, vec![win(21, 10, 20)]),
        workspace(71, 5, vec![plain(50, LiveNodeType::Con, LiveLayout::SplitV, vec![win(22, 5, 5)])]),
    ]);
    let root = RootNode(live);
    assert_eq!(find_node_by_id(22, &root).unwrap().id, 22);
    assert!(find_node_by_id(99, &root).is_none());
    assert_eq!(find_node_parent(22, &root).unwrap().id, 50);
    assert_eq!(find_node_parent(50, &root).unwrap().id, 71);
    assert!(find_node_parent(1, &root).is_none());
    let all = find_workspaces(&root);
    assert_eq!(all.len(), 2);
    assert_eq!(all[0].id, 70);
    assert_eq!(all[1].id, 71);
    assert_eq!(find_workspace_by_num(&root, 5).unwrap().id, 71);
    assert!(find_workspace_by_num(&root, 9).is_none());
    assert_eq!(find_workspace_of_node(22, &root).unwrap().id, 71);
    assert_eq!(find_workspace_of_node(70, &root).unwrap().id, 70);
    assert!(find_workspace_of_node(1, &root).is_none());
}

#[test]
fn workspace_selection() {
    let live = root_of(vec![workspace(70, 1, vec![]), workspace(71, 5, vec![])]);
    let root = RootNode(live);
    let infos = vec![
        WorkspaceInfo { id: 70, num: 1, focused: false },
        WorkspaceInfo { id: 71, num: 5, focused: true },
    ];
    assert_eq!(find_workspace_focused(&root, &infos).unwrap().id, 71);
    assert_eq!(select_workspace(&root, &infos, Some(1)).unwrap().id, 70);
    assert_eq!(select_workspace(&root, &infos, None).unwrap().id, 71);
    assert!(select_workspace(&root, &infos, Some(9)).is_err());
    let unfocused = vec![WorkspaceInfo { id: 70, num: 1, focused: false }];
    assert!(find_workspace_focused(&root, &unfocused).is_err());
}

#[test]
fn ratio_and_floating() {
    let tall = win(1, 100, 200);
    let wide = win(2, 200, 100);
    let square = win(3, 100, 100);
    assert!(ratio_of_node(&tall).is_vertical());
    assert!(!ratio_of_node(&wide).is_vertical());
    assert!(!ratio_of_node(&square).is_vertical());
    assert!(matches!(ratio_of_node(&tall), RectRatio::Vertical));
    let mut floating = win(4, 1, 1);
    floating.floating = Some(FloatingState::UserOn);
    assert!(is_floating_container(&floating));
    floating.floating = Some(FloatingState::UserOff);
    assert!(!is_floating_container(&floating));
    assert!(!is_floating_container(&wide));
}

#[test]
fn auto_split_follows_ratios() {
    // a wide window in a horizontal split gets a horizontal split
    let mut ws_node = workspace(70, 1, vec![win(21, 300, 100)]);
    ws_node.window_width = 1920;
    ws_node.window_height = 1080;
    let live = root_of(vec![ws_node]);
    let root = RootNode(live);
    let node = clone_tree(find_node_by_id(21, &root).unwrap());
    assert_eq!(auto_split_decision(&node, &root).unwrap(), Some(Split::Horizontal));
    // a tall window gets a vertical split
    let node_tall = win(21, 100, 300);
    let mut ws2 = workspace(70, 1, vec![clone_tree(&node_tall)]);
    ws2.window_width = 1920;
    ws2.window_height = 1080;
    let root2 = RootNode(root_of(vec![ws2]));
    assert_eq!(auto_split_decision(&node_tall, &root2).unwrap(), Some(Split::Vertical));
    // a vertical (rotated) workspace forces vertical splits
    let node_wide = win(21, 300, 100);
    let mut ws3 = workspace(70, 1, vec![clone_tree(&node_wide)]);
    ws3.window_width = 1080;
    ws3.window_height = 1920;
    let root3 = RootNode(root_of(vec![ws3]));
    assert_eq!(auto_split_decision(&node_wide, &root3).unwrap(), Some(Split::Vertical));
    // a floating window is left alone
    let mut floating = win(21, 300, 100);
    floating.floating = Some(FloatingState::AutoOn);
    assert_eq!(auto_split_decision(&floating, &root).unwrap(), None);
    // a window under a tabbed container is left alone
    let tabbed = plain(50, LiveNodeType::Con, LiveLayout::Tabbed, vec![win(23, 10, 10)]);
    let root4 = RootNode(root_of(vec![workspace(70, 1, vec![tabbed])]));
    let node4 = clone_tree(find_node_by_id(23, &root4).unwrap());
    assert_eq!(auto_split_decision(&node4, &root4).unwrap(), None);
}

#[test]
fn tabmode_detection_and_normalization() {
    let flat = workspace(70, 1, vec![win(21, 1, 1), win(22, 1, 1)]);
    assert!(!is_tabmode(&flat));
    let mut tabbed_container = plain(
        50,
        LiveNodeType::Con,
        LiveLayout::Tabbed,
        vec![win(21, 1, 1), win(22, 1, 1)],
    );
    tabbed_container.has_window_type = false;
    let tabbed_ws = workspace(70, 1, vec![tabbed_container]);
    assert!(is_tabmode(&tabbed_ws));
    // direct windows stay put; nested windows are listed in document order
    let nested = workspace(
        70,
        1,
        vec![
            win(21, 1, 1),
            plain(
                50,
                LiveNodeType::Con,
                LiveLayout::SplitV,
                vec![win(22, 1, 1), plain(51, LiveNodeType::Con, LiveLayout::SplitH, vec![win(23, 1, 1)])],
            ),
        ],
    );
    assert_eq!(normalize_moves(&nested), vec![22, 23]);
    assert_eq!(normalize_moves(&flat), Vec::<u64>::new());
}
