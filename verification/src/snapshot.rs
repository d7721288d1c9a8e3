//! The snapshot model: a flat, id-indexed list of node records capturing one
//! workspace subtree, validated for referential integrity at construction.

use std::collections::HashMap;
use vstd::prelude::*;

use crate::errors::Error;
use crate::errors::ValidationError;

verus! {

/// An opaque live-session-scoped node identifier.
pub type NodeId = u64;

/// The layout mode recorded for a saved node.
///
/// These are the only four container arrangements the restore engine knows
/// how to recreate; capture rejects anything else.
#[derive(Clone, Copy, Debug, PartialEq, Eq, Structural)]
pub enum LayoutNode {
    SplitH,
    SplitV,
    Stacked,
    Tabbed,
}

/// The recorded geometry of a saved window.
#[derive(Clone, Copy, Debug, PartialEq, Eq, Structural)]
pub struct SavedWindow {
    pub width: i64,
    pub height: i64,
}

impl SavedWindow {
    pub fn new(width: i64, height: i64) -> (r: Self)
        ensures
            r == (SavedWindow { width, height }),
    {
        SavedWindow { width, height }
    }

    /// The recorded width in pixels.
    pub fn width(&self) -> (r: i64)
        ensures
            r == self.width,
    {
        self.width
    }

    /// The recorded height in pixels.
    pub fn height(&self) -> (r: i64)
        ensures
            r == self.height,
    {
        self.height
    }
}

/// What a saved node is.
#[derive(Clone, Copy, Debug, PartialEq, Eq, Structural)]
pub enum KindNode {
    /// The saved node is a workspace, carrying its workspace number.
    Workspace(i32),
    /// The saved node is a normal window (a leaf of the tree).
    NormalWindow(SavedWindow),
    /// The saved node is a container holding one or more children.
    Splitter,
}

/// One record of a saved layout.
#[derive(Debug, PartialEq, Eq)]
#[verifier::ext_equal]
pub struct SavedNode {
    pub id: NodeId,
    pub kind: KindNode,
    pub layout: LayoutNode,
    pub children: Vec<NodeId>,
}

impl SavedNode {
    /// The mathematical content of this record.
    pub open spec fn model(&self) -> RecordModel {
        RecordModel {
            id: self.id,
            kind: self.kind,
            layout: self.layout,
            children: self.children@,
        }
    }

    pub fn new(id: NodeId, kind: KindNode, layout: LayoutNode, children: Vec<NodeId>) -> (r: Self)
        ensures
            r == (SavedNode { id, kind, layout, children }),
    {
        SavedNode { id, kind, layout, children }
    }

    /// The id of the node.
    pub fn id(&self) -> (r: NodeId)
        ensures
            r == self.id,
    {
        self.id
    }

    /// The type of the node.
    pub fn kind(&self) -> (r: &KindNode)
        ensures
            *r == self.kind,
    {
        &self.kind
    }

    /// The layout saved for this node.
    pub fn layout(&self) -> (r: LayoutNode)
        ensures
            r == self.layout,
    {
        self.layout
    }

    /// The ids of the node's children, in live sibling order.
    pub fn children(&self) -> (r: &Vec<NodeId>)
        ensures
            *r == self.children,
    {
        &self.children
    }
}

/// The mathematical content of one record: what the codecs and the contracts
/// speak about.  It mirrors [`SavedNode`] field for field, with the child
/// list as a sequence.
#[verifier::ext_equal]
pub struct RecordModel {
    pub id: NodeId,
    pub kind: KindNode,
    pub layout: LayoutNode,
    pub children: Seq<NodeId>,
}

/// The record models of a record list.
pub open spec fn models(nodes: Seq<SavedNode>) -> Seq<RecordModel> {
    nodes.map_values(|n: SavedNode| n.model())
}

/// Whether some record model in the list carries this id.
pub open spec fn models_have_id(ms: Seq<RecordModel>, id: NodeId) -> bool {
    exists|i: int| 0 <= i < ms.len() && ms[i].id == id
}

/// Referential integrity over record models.
pub open spec fn models_closed(ms: Seq<RecordModel>) -> bool {
    forall|i: int, j: int|
        0 <= i < ms.len() && 0 <= j < ms[i].children.len() ==> models_have_id(
            ms,
            #[trigger] ms[i].children[j],
        )
}

/// A record list and its model list say the same thing about integrity.
pub proof fn lemma_closed_models(nodes: Seq<SavedNode>)
    ensures
        spec_closed(nodes) <==> models_closed(models(nodes)),
        forall|id: NodeId| #[trigger]
            models_have_id(models(nodes), id) <==> spec_has_record(nodes, id),
{
    let ms = models(nodes);
    assert(ms.len() == nodes.len());
    assert forall|id: NodeId| models_have_id(ms, id) <==> spec_has_record(nodes, id) by {
        if models_have_id(ms, id) {
            let i = choose|i: int| 0 <= i < ms.len() && ms[i].id == id;
            assert(nodes[i].id == id);
        }
        if spec_has_record(nodes, id) {
            let i = choose|i: int| 0 <= i < nodes.len() && nodes[i].id == id;
            assert(ms[i].id == id);
        }
    }
    if spec_closed(nodes) {
        assert forall|i: int, j: int|
            0 <= i < ms.len() && 0 <= j < ms[i].children.len() implies models_have_id(
            ms,
            #[trigger] ms[i].children[j],
        ) by {
            assert(ms[i].children[j] == nodes[i].children@[j]);
            assert(spec_has_record(nodes, nodes[i].children@[j]));
        }
    }
    if models_closed(ms) {
        assert forall|i: int, j: int|
            0 <= i < nodes.len() && 0 <= j < nodes[i].children@.len() implies spec_has_record(
            nodes,
            #[trigger] nodes[i].children@[j],
        ) by {
            assert(nodes[i].children@[j] == ms[i].children[j]);
            assert(models_have_id(ms, ms[i].children[j]));
        }
    }
}

/// The id-to-position index that a record list induces: later records shadow
/// earlier ones carrying the same id.
pub open spec fn spec_index_map(nodes: Seq<SavedNode>, n: int) -> Map<NodeId, usize>
    decreases n,
{
    if n <= 0 {
        Map::empty()
    } else {
        spec_index_map(nodes, n - 1).insert(nodes[n - 1].id, (n - 1) as usize)
    }
}

/// Whether some record in the list carries this id.
pub open spec fn spec_has_record(nodes: Seq<SavedNode>, id: NodeId) -> bool {
    exists|i: int| 0 <= i < nodes.len() && nodes[i].id == id
}

/// Referential integrity: every id referenced by any `children` list has a
/// record of its own in the same list.
pub open spec fn spec_closed(nodes: Seq<SavedNode>) -> bool {
    forall|i: int, j: int|
        0 <= i < nodes.len() && 0 <= j < nodes[i].children@.len() ==> spec_has_record(
            nodes,
            #[trigger] nodes[i].children@[j],
        )
}

/// What the index map of a record list satisfies.
pub proof fn lemma_index_map_props(nodes: Seq<SavedNode>, n: int)
    requires
        0 <= n <= nodes.len(),
        nodes.len() <= usize::MAX,
    ensures
        forall|i: int| 0 <= i < n ==> spec_index_map(nodes, n).dom().contains(#[trigger] nodes[i].id),
        forall|id: NodeId| #[trigger]
            spec_index_map(nodes, n).dom().contains(id) ==> 0 <= spec_index_map(nodes, n)[id] < n
                && nodes[spec_index_map(nodes, n)[id] as int].id == id,
    decreases n,
{
    if n > 0 {
        lemma_index_map_props(nodes, n - 1);
        let m0 = spec_index_map(nodes, n - 1);
        let m = spec_index_map(nodes, n);
        assert forall|id: NodeId| #[trigger] m.dom().contains(id) implies 0 <= m[id] < n
            && nodes[m[id] as int].id == id by {
            if id == nodes[n - 1].id {
                assert(m[id] == (n - 1) as usize);
            } else {
                assert(m0.dom().contains(id));
                assert(m[id] == m0[id]);
            }
        }
    }
}

/// A validated saved layout: a non-empty record list in which every
/// referenced child id resolves, plus its id-to-position index.
#[derive(Debug)]
pub struct SavedLayout {
    pub nodes: Vec<SavedNode>,
    pub map_id: HashMap<NodeId, usize>,
}

impl View for SavedLayout {
    type V = Seq<SavedNode>;

    open spec fn view(&self) -> Seq<SavedNode> {
        self.nodes@
    }
}

impl SavedLayout {
    /// Well-formedness: what construction validates and every consumer
    /// relies on.
    pub open spec fn wf(&self) -> bool {
        &&& self.nodes@.len() > 0
        &&& self.map_id@ == spec_index_map(self.nodes@, self.nodes@.len() as int)
        &&& spec_closed(self.nodes@)
    }

    /// Validate a record list into a layout.
    ///
    /// Fails fast: an empty list or a dangling child reference is rejected
    /// here, never later during traversal.
    pub fn new(nodes: Vec<SavedNode>) -> (r: Result<SavedLayout, Error>)
        ensures
            r matches Ok(s) ==> s.wf() && s@ == nodes@,
            r is Ok <==> nodes@.len() > 0 && spec_closed(nodes@),
            r matches Err(e) ==> e is Validation,
            r matches Err(Error::Validation(v)) ==> v is EmptyLayout || v is MissingChild,
            (r matches Err(Error::Validation(ValidationError::EmptyLayout))) <==> nodes@.len()
                == 0,
            r matches Err(Error::Validation(ValidationError::MissingChild { node, child }))
                ==> exists|i: int, j: int|
                0 <= i < nodes@.len() && 0 <= j < nodes@[i].children@.len()
                    && #[trigger] nodes@[i].children@[j] == child && nodes@[i].id == node
                    && !spec_has_record(nodes@, child),
    {
        if nodes.len() == 0 {
            return Err(Error::Validation(ValidationError::EmptyLayout));
        }
        let ghost nseq = nodes@;
        let n = nodes.len();
        let mut map_id: HashMap<NodeId, usize> = HashMap::new();
        let mut i: usize = 0;
        while i < n
            invariant
                n == nseq.len(),
                nodes@ == nseq,
                0 <= i <= n,
                map_id@ == spec_index_map(nseq, i as int),
            decreases n - i,
        {
            map_id.insert(nodes[i].id, i);
            i += 1;
        }
        proof {
            lemma_index_map_props(nseq, n as int);
        }
        let mut i: usize = 0;
        while i < n
            invariant
                n == nseq.len(),
                nodes@ == nseq,
                map_id@ == spec_index_map(nseq, n as int),
                0 <= i <= n,
                forall|a: int, b: int|
                    0 <= a < i && 0 <= b < nseq[a].children@.len() ==> spec_has_record(
                        nseq,
                        #[trigger] nseq[a].children@[b],
                    ),
                forall|k: int| 0 <= k < n ==> map_id@.dom().contains(#[trigger] nseq[k].id),
                forall|id: NodeId| #[trigger]
                    map_id@.dom().contains(id) ==> spec_has_record(nseq, id),
            decreases n - i,
        {
            let c_len = nodes[i].children.len();
            let mut j: usize = 0;
            while j < c_len
                invariant
                    n == nseq.len(),
                    nodes@ == nseq,
                    map_id@ == spec_index_map(nseq, n as int),
                    0 <= i < n,
                    c_len == nseq[i as int].children@.len(),
                    0 <= j <= c_len,
                    forall|b: int|
                        0 <= b < j ==> spec_has_record(
                            nseq,
                            #[trigger] nseq[i as int].children@[b],
                        ),
                    forall|id: NodeId| #[trigger]
                        map_id@.dom().contains(id) ==> spec_has_record(nseq, id),
                decreases c_len - j,
            {
                let c = nodes[i].children[j];
                if !map_id.contains_key(&c) {
                    proof {
                        lemma_index_map_props(nseq, n as int);
                        assert(!spec_has_record(nseq, c)) by {
                            if spec_has_record(nseq, c) {
                                let w = choose|w: int| 0 <= w < nseq.len() && nseq[w].id == c;
                                assert(map_id@.dom().contains(nseq[w].id));
                            }
                        }
                        assert(0 <= i < nseq.len() && 0 <= j < nseq[i as int].children@.len()
                            && nseq[i as int].children@[j as int] == c);
                    }
                    return Err(
                        Error::Validation(ValidationError::MissingChild { node: nodes[i].id, child: c }),
                    );
                }
                j += 1;
            }
            i += 1;
        }
        Ok(SavedLayout { nodes, map_id })
    }

    /// How many records the layout holds.
    pub fn node_count(&self) -> (r: usize)
        ensures
            r == self@.len(),
    {
        self.nodes.len()
    }

    /// The record at a position.
    pub fn node_at(&self, index: usize) -> (r: &SavedNode)
        requires
            index < self@.len(),
        ensures
            *r == self@[index as int],
    {
        &self.nodes[index]
    }

    /// The first record; on a captured or decoded layout this is the
    /// workspace the subtree was taken from.
    pub fn root(&self) -> (r: &SavedNode)
        requires
            self.wf(),
        ensures
            *r == self@[0],
    {
        &self.nodes[0]
    }

    /// Whether some record carries this id.
    pub fn contains_id(&self, node_id: NodeId) -> (r: bool)
        requires
            self.wf(),
        ensures
            r == spec_has_record(self@, node_id),
    {
        proof {
            assert(self.nodes.len() == self.nodes@.len());
            lemma_index_map_props(self.nodes@, self.nodes@.len() as int);
            if spec_has_record(self.nodes@, node_id) {
                let w = choose|w: int|
                    0 <= w < self.nodes@.len() && self.nodes@[w].id == node_id;
                assert(self.map_id@.dom().contains(self.nodes@[w].id));
            }
        }
        self.map_id.contains_key(&node_id)
    }

    /// The position its index assigns to an id: the last record carrying it.
    pub open spec fn spec_index_of(&self, node_id: NodeId) -> int {
        self.map_id@[node_id] as int
    }

    /// The position of the record carrying the given id.
    pub fn index_of(&self, node_id: NodeId) -> (r: usize)
        requires
            self.wf(),
            spec_has_record(self@, node_id),
        ensures
            r as int == self.spec_index_of(node_id),
            r < self@.len(),
            self@[r as int].id == node_id,
    {
        proof {
            assert(self.nodes.len() == self.nodes@.len());
            lemma_index_map_props(self.nodes@, self.nodes@.len() as int);
            let w = choose|w: int| 0 <= w < self.nodes@.len() && self.nodes@[w].id == node_id;
            assert(self.map_id@.dom().contains(self.nodes@[w].id));
        }
        match self.map_id.get(&node_id) {
            Some(index) => *index,
            None => {
                // unreachable: the id is in the index by the precondition
                proof {
                    assert(false);
                }
                0
            },
        }
    }

    /// Return the saved record carrying the given id.
    pub fn lookup_by_id(&self, node_id: NodeId) -> (r: &SavedNode)
        requires
            self.wf(),
            spec_has_record(self@, node_id),
        ensures
            0 <= self.spec_index_of(node_id) < self@.len(),
            *r == self@[self.spec_index_of(node_id)],
            r.id == node_id,
    {
        proof {
            assert(self.nodes.len() == self.nodes@.len());
            lemma_index_map_props(self.nodes@, self.nodes@.len() as int);
            let w = choose|w: int| 0 <= w < self.nodes@.len() && self.nodes@[w].id == node_id;
            assert(self.map_id@.dom().contains(self.nodes@[w].id));
        }
        let index: &usize = match self.map_id.get(&node_id) {
            Some(index) => index,
            None => {
                // unreachable: the id is in the index by the precondition
                proof {
                    assert(false);
                }
                &0
            },
        };
        &self.nodes[*index]
    }
}

} // verus!
