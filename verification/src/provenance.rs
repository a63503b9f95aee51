//! Analysis provenance graph.
//!
//! [`ProvenanceGraph::push`] stays append-only. Claim ancestry uses
//! [`ProvenanceGraph::try_push`] and [`ProvenanceGraph::validate`]: unique
//! identities, no cycles, and parent binding. A nonempty id or a
//! syntactically valid parent link is not a complete lineage.
//!
//! SPDX-License-Identifier: MIT OR Apache-2.0

use crate::assumption::AssumptionSet;
use crate::text;
use vstd::prelude::*;

verus! {

/// Node in the provenance graph describing how an artifact was produced.
#[derive(Clone, Debug, PartialEq, Eq)]
pub struct ProvenanceNode {
    /// Artifact this node describes.
    pub artifact_id: String,
    /// Operation that produced the artifact.
    pub operation: String,
    /// Upstream artifact ids.
    pub parents: Vec<String>,
    /// Assumptions in force for this operation.
    pub assumptions: AssumptionSet,
    /// Library version string at production time.
    pub library_version: String,
    /// Optional configuration digest or label.
    pub config_digest: Option<String>,
}

impl ProvenanceNode {
    /// The artifact id as text.
    pub open spec fn id(self) -> Seq<char> {
        self.artifact_id@
    }

    /// The parent ids as texts.
    pub open spec fn parent_ids(self) -> Seq<Seq<char>> {
        text::texts(self.parents@)
    }
}

/// Directed provenance graph (nodes only; edges implied by `parents`).
#[derive(Clone, Debug, PartialEq, Eq)]
pub struct ProvenanceGraph {
    /// Provenance nodes in insertion order.
    pub nodes: Vec<ProvenanceNode>,
}

/// Provenance ancestry validation error.
#[derive(Clone, Debug, PartialEq, Eq)]
pub enum ProvenanceError {
    /// Empty artifact id.
    EmptyArtifactId,
    /// Duplicate artifact id in this graph.
    DuplicateIdentity {
        /// Conflicting id.
        id: String,
    },
    /// Parent list contains a cycle through `id`.
    Cycle {
        /// Artifact id on the cycle.
        id: String,
    },
    /// Parent id is empty.
    EmptyParent {
        /// Child artifact id.
        child: String,
    },
}

/// Mathematical form of [`ProvenanceError`].
pub enum ProvenanceFault {
    /// Empty artifact id.
    EmptyArtifactId,
    /// Two nodes carry this id.
    DuplicateIdentity(Seq<char>),
    /// This id lies on a cycle.
    Cycle(Seq<char>),
    /// The node of this id names an empty parent.
    EmptyParent(Seq<char>),
}

impl View for ProvenanceError {
    type V = ProvenanceFault;

    open spec fn view(&self) -> ProvenanceFault {
        match self {
            ProvenanceError::EmptyArtifactId => ProvenanceFault::EmptyArtifactId,
            ProvenanceError::DuplicateIdentity { id } => ProvenanceFault::DuplicateIdentity(id@),
            ProvenanceError::Cycle { id } => ProvenanceFault::Cycle(id@),
            ProvenanceError::EmptyParent { child } => ProvenanceFault::EmptyParent(child@),
        }
    }
}

impl ProvenanceError {
    /// Message text of this error.
    pub open spec fn message(self) -> Seq<char> {
        match self {
            ProvenanceError::EmptyArtifactId => "provenance node has an empty artifact id"@,
            ProvenanceError::DuplicateIdentity { id } => "duplicate provenance artifact id `"@ + id@
                + "`"@,
            ProvenanceError::Cycle { id } => "provenance cycle through `"@ + id@ + "`"@,
            ProvenanceError::EmptyParent { child } => "provenance parent of `"@ + child@
                + "` is empty"@,
        }
    }

    /// Human-readable message.
    pub fn to_message(&self) -> (out: String)
        ensures
            out@ == self.message(),
    {
        match self {
            ProvenanceError::EmptyArtifactId => "provenance node has an empty artifact id".to_owned(),
            ProvenanceError::DuplicateIdentity { id } => "duplicate provenance artifact id `".to_owned().concat(
            id.as_str()).concat("`"),
            ProvenanceError::Cycle { id } => "provenance cycle through `".to_owned().concat(
            id.as_str()).concat("`"),
            ProvenanceError::EmptyParent { child } => "provenance parent of `".to_owned().concat(
            child.as_str()).concat("` is empty"),
        }
    }
}

/// What is wrong with one node by itself, if anything.
pub open spec fn shape_fault(node: ProvenanceNode) -> Option<ProvenanceFault> {
    if node.id().len() == 0 {
        Some(ProvenanceFault::EmptyArtifactId)
    } else if node.parent_ids().contains(Seq::<char>::empty()) {
        Some(ProvenanceFault::EmptyParent(node.id()))
    } else {
        None
    }
}

/// Whether some node carries this id.
pub open spec fn present(nodes: Seq<ProvenanceNode>, id: Seq<char>) -> bool {
    exists|k: int| 0 <= k < nodes.len() && (#[trigger] nodes[k]).id() == id
}

/// Position of the first node that carries this id.
pub open spec fn resolves(nodes: Seq<ProvenanceNode>, id: Seq<char>, at: int) -> bool {
    &&& 0 <= at < nodes.len()
    &&& nodes[at].id() == id
    &&& forall|k: int| 0 <= k < at ==> (#[trigger] nodes[k]).id() != id
}

/// What is wrong with node `k` in the light of the nodes before it.
pub open spec fn node_fault(nodes: Seq<ProvenanceNode>, k: int) -> Option<ProvenanceFault> {
    if shape_fault(nodes[k]) is Some {
        shape_fault(nodes[k])
    } else if present(nodes.take(k), nodes[k].id()) {
        Some(ProvenanceFault::DuplicateIdentity(nodes[k].id()))
    } else {
        None
    }
}

/// One parent link between ids: the node of `from` names `to` as a parent.
pub open spec fn link(nodes: Seq<ProvenanceNode>, from: Seq<char>, to: Seq<char>) -> bool {
    exists|at: int| #[trigger] resolves(nodes, from, at) && nodes[at].parent_ids().contains(to)
}

/// A walk along parent links.
pub open spec fn is_walk(nodes: Seq<ProvenanceNode>, walk: Seq<Seq<char>>) -> bool {
    &&& walk.len() > 0
    &&& forall|k: int| 0 <= k < walk.len() - 1 ==> #[trigger] link(nodes, walk[k], walk[k + 1])
}

/// Whether `target` is reached by following parent links from one of `start`.
pub open spec fn reachable(
    nodes: Seq<ProvenanceNode>,
    start: Seq<Seq<char>>,
    target: Seq<char>,
) -> bool {
    exists|walk: Seq<Seq<char>>| #[trigger]
        is_walk(nodes, walk) && start.contains(walk[0]) && walk.last() == target
}

/// A closed walk of at least one link through `id`.
pub open spec fn on_cycle(nodes: Seq<ProvenanceNode>, id: Seq<char>) -> bool {
    exists|walk: Seq<Seq<char>>| #[trigger]
        is_walk(nodes, walk) && walk.len() >= 2 && walk[0] == id && walk.last() == id
}

/// No id lies on a cycle.
pub open spec fn acyclic(nodes: Seq<ProvenanceNode>) -> bool {
    forall|id: Seq<char>| !#[trigger] on_cycle(nodes, id)
}

/// Every node is well shaped and carries an id of its own.
pub open spec fn identities_valid(nodes: Seq<ProvenanceNode>) -> bool {
    forall|k: int| 0 <= k < nodes.len() ==> #[trigger] node_fault(nodes, k) is None
}

/// Whether `id` is named as a parent by some node and carried by none.
pub open spec fn unresolved(nodes: Seq<ProvenanceNode>, id: Seq<char>) -> bool {
    &&& exists|k: int| 0 <= k < nodes.len() && (#[trigger] nodes[k]).parent_ids().contains(id)
    &&& !present(nodes, id)
}

impl ProvenanceGraph {
    /// A valid ancestry: well-shaped nodes, unique ids, no cycle.
    pub open spec fn valid(self) -> bool {
        identities_valid(self.nodes@) && acyclic(self.nodes@)
    }

    /// Empty graph.
    #[must_use]
    pub fn new() -> (graph: Self)
        ensures
            graph.nodes@.len() == 0,
            graph.valid(),
    {
        let graph = ProvenanceGraph { nodes: Vec::new() };
        proof {
            assert forall|id: Seq<char>| !#[trigger] on_cycle(graph.nodes@, id) by {
                if on_cycle(graph.nodes@, id) {
                    let walk = choose|walk: Seq<Seq<char>>| #[trigger]
                        is_walk(graph.nodes@, walk) && walk.len() >= 2 && walk[0] == id
                            && walk.last() == id;
                    assert(link(graph.nodes@, walk[0], walk[0int + 1]));
                }
            }
        }
        graph
    }

    /// Insert a node without ancestry validation.
    ///
    /// Prefer [`Self::try_push`] at claim acceptance.
    pub fn push(&mut self, node: ProvenanceNode)
        ensures
            final(self).nodes@ == old(self).nodes@.push(node),
    {
        self.nodes.push(node);
    }

    /// Number of nodes.
    #[must_use]
    pub fn len(&self) -> (n: usize)
        ensures
            n == self.nodes@.len(),
    {
        self.nodes.len()
    }

    /// Whether empty.
    #[must_use]
    pub fn is_empty(&self) -> (empty: bool)
        ensures
            empty == (self.nodes@.len() == 0),
    {
        self.nodes.len() == 0
    }

    /// Position of the first node that carries `id`.
    fn position(&self, id: &str) -> (at: Option<usize>)
        ensures
            match at {
                Some(p) => resolves(self.nodes@, id@, p as int),
                None => !present(self.nodes@, id@),
            },
    {
        let mut i: usize = 0;
        while i < self.nodes.len()
            invariant
                0 <= i <= self.nodes.len(),
                forall|k: int| 0 <= k < i ==> (#[trigger] self.nodes@[k]).id() != id@,
            decreases self.nodes.len() - i,
        {
            if text::str_eq(self.nodes[i].artifact_id.as_str(), id) {
                return Some(i);
            }
            i = i + 1;
        }
        None
    }

    /// Look up a node by artifact id.
    #[must_use]
    pub fn get(&self, artifact_id: &str) -> (found: Option<&ProvenanceNode>)
        ensures
            match found {
                Some(node) => exists|at: int| #[trigger]
                    resolves(self.nodes@, artifact_id@, at) && *node == self.nodes@[at],
                None => !present(self.nodes@, artifact_id@),
            },
    {
        match self.position(artifact_id) {
            Some(p) => Some(&self.nodes[p]),
            None => None,
        }
    }

    /// Shape of one node: nonempty ids throughout.
    fn validate_node_shape(node: &ProvenanceNode) -> (r: Result<(), ProvenanceError>)
        ensures
            match r {
                Ok(()) => shape_fault(*node) is None,
                Err(e) => shape_fault(*node) == Some(e@),
            },
    {
        if node.artifact_id.as_str().is_empty() {
            return Err(ProvenanceError::EmptyArtifactId);
        }
        let mut i: usize = 0;
        while i < node.parents.len()
            invariant
                0 <= i <= node.parents.len(),
                node.id().len() != 0,
                forall|k: int| 0 <= k < i ==> node.parents@[k]@.len() != 0,
            decreases node.parents.len() - i,
        {
            if node.parents[i].as_str().is_empty() {
                proof {
                    assert(node.parent_ids()[i as int] =~= Seq::<char>::empty());
                }
                return Err(ProvenanceError::EmptyParent { child: node.artifact_id.clone() });
            }
            i = i + 1;
        }
        proof {
            if node.parent_ids().contains(Seq::<char>::empty()) {
                let k = choose|k: int|
                    0 <= k < node.parent_ids().len() && node.parent_ids()[k] == Seq::<char>::empty();
                assert(node.parents@[k]@.len() == 0);
            }
        }
        Ok(())
    }

    /// Parent artifact ids that are not nodes in this graph, in ascending order.
    #[must_use]
    pub fn unresolved_parents(&self) -> (missing: Vec<String>)
        ensures
            text::texts_ascending(text::texts(missing@)),
            forall|id: Seq<char>| #[trigger]
                text::texts(missing@).contains(id) <==> unresolved(self.nodes@, id),
    {
        let mut missing: Vec<String> = Vec::new();
        let mut i: usize = 0;
        proof {
            assert(text::texts(missing@).len() == 0);
        }
        while i < self.nodes.len()
            invariant
                0 <= i <= self.nodes.len(),
                text::texts_ascending(text::texts(missing@)),
                forall|id: Seq<char>| #[trigger]
                    text::texts(missing@).contains(id) <==> (!present(self.nodes@, id) && exists|k: int|
                        0 <= k < i && (#[trigger] self.nodes@[k]).parent_ids().contains(id)),
            decreases self.nodes.len() - i,
        {
            let node = &self.nodes[i];
            let mut j: usize = 0;
            while j < node.parents.len()
                invariant
                    0 <= i < self.nodes.len(),
                    *node == self.nodes@[i as int],
                    0 <= j <= node.parents.len(),
                    text::texts_ascending(text::texts(missing@)),
                    forall|id: Seq<char>| #[trigger]
                        text::texts(missing@).contains(id) <==> (!present(self.nodes@, id) && ((exists|
                            k: int,
                        |
                            0 <= k < i && (#[trigger] self.nodes@[k]).parent_ids().contains(id))
                            || node.parent_ids().take(j as int).contains(id))),
                decreases node.parents.len() - j,
            {
                let ghost seen = node.parent_ids().take(j as int);
                let ghost next = node.parent_ids().take(j + 1);
                proof {
                    assert(next =~= seen.push(node.parents@[j as int]@));
                    assert forall|id: Seq<char>|
                        next.contains(id) <==> (seen.contains(id) || id
                            == node.parents@[j as int]@) by {
                        if seen.contains(id) {
                            let k = choose|k: int| 0 <= k < seen.len() && seen[k] == id;
                            assert(next[k] == id);
                        }
                        if id == node.parents@[j as int]@ {
                            assert(next[j as int] == id);
                        }
                    }
                }
                match self.position(node.parents[j].as_str()) {
                    Some(p) => {
                        assert(self.nodes@[p as int].id() == node.parents@[j as int]@);
                    },
                    None => {
                        text::insert_text(&mut missing, &node.parents[j]);
                    },
                }
                j = j + 1;
            }
            proof {
                assert(node.parent_ids().take(j as int) =~= node.parent_ids());
            }
            i = i + 1;
        }
        missing
    }
}

/// A resolved position is unique.
proof fn lemma_resolves_unique(nodes: Seq<ProvenanceNode>, id: Seq<char>, a: int, b: int)
    requires
        resolves(nodes, id, a),
        resolves(nodes, id, b),
    ensures
        a == b,
{
    if a < b {
        assert(nodes[a].id() != id);
    } else if b < a {
        assert(nodes[b].id() != id);
    }
}

/// A walk extended by one link is a walk.
proof fn lemma_walk_push(nodes: Seq<ProvenanceNode>, walk: Seq<Seq<char>>, next: Seq<char>)
    requires
        is_walk(nodes, walk),
        link(nodes, walk.last(), next),
    ensures
        is_walk(nodes, walk.push(next)),
{
    let longer = walk.push(next);
    assert forall|k: int| 0 <= k < longer.len() - 1 implies #[trigger] link(
        nodes,
        longer[k],
        longer[k + 1],
    ) by {
        if k < walk.len() - 1 {
            assert(link(nodes, walk[k], walk[k + 1]));
        }
    }
}

/// A contiguous part of a walk is a walk.
proof fn lemma_walk_part(nodes: Seq<ProvenanceNode>, walk: Seq<Seq<char>>, from: int, to: int)
    requires
        is_walk(nodes, walk),
        0 <= from < to <= walk.len(),
    ensures
        is_walk(nodes, walk.subrange(from, to)),
{
    let part = walk.subrange(from, to);
    assert forall|k: int| 0 <= k < part.len() - 1 implies #[trigger] link(
        nodes,
        part[k],
        part[k + 1],
    ) by {
        assert(link(nodes, walk[from + k], walk[from + k + 1]));
    }
}

/// Two walks that meet join to one.
proof fn lemma_walk_join(nodes: Seq<ProvenanceNode>, a: Seq<Seq<char>>, b: Seq<Seq<char>>)
    requires
        is_walk(nodes, a),
        is_walk(nodes, b),
        a.last() == b[0],
    ensures
        is_walk(nodes, a + b.skip(1)),
        (a + b.skip(1)).len() == a.len() + b.len() - 1,
        (a + b.skip(1))[0] == a[0],
        (a + b.skip(1)).last() == b.last(),
{
    let joined = a + b.skip(1);
    assert forall|k: int| 0 <= k < joined.len() - 1 implies #[trigger] link(
        nodes,
        joined[k],
        joined[k + 1],
    ) by {
        if k < a.len() - 1 {
            assert(link(nodes, a[k], a[k + 1]));
        } else {
            let m = k - (a.len() - 1);
            assert(link(nodes, b[m], b[m + 1]));
            assert(joined[k] == b[m]);
            assert(joined[k + 1] == b[m + 1]);
        }
    }
}

/// Links between ids that an appended node does not carry stay as they are.
proof fn lemma_link_after_push(
    nodes: Seq<ProvenanceNode>,
    node: ProvenanceNode,
    from: Seq<char>,
    to: Seq<char>,
)
    requires
        from != node.id(),
        link(nodes.push(node), from, to),
    ensures
        link(nodes, from, to),
{
    let after = nodes.push(node);
    let at = choose|at: int| #[trigger]
        resolves(after, from, at) && after[at].parent_ids().contains(to);
    assert(at < nodes.len());
    assert(nodes[at] == after[at]);
    assert forall|k: int| 0 <= k < at implies (#[trigger] nodes[k]).id() != from by {
        assert(after[k].id() != from);
    }
    assert(resolves(nodes, from, at));
}

/// Appending a node of a new id that its own parents do not lead back to keeps
/// an ancestry free of cycles.
pub proof fn law_append_keeps_acyclic(nodes: Seq<ProvenanceNode>, node: ProvenanceNode)
    requires
        acyclic(nodes),
        !present(nodes, node.id()),
        !reachable(nodes, node.parent_ids(), node.id()),
    ensures
        acyclic(nodes.push(node)),
{
    let after = nodes.push(node);
    assert forall|id: Seq<char>| !#[trigger] on_cycle(after, id) by {
        if on_cycle(after, id) {
            let walk = choose|walk: Seq<Seq<char>>| #[trigger]
                is_walk(after, walk) && walk.len() >= 2 && walk[0] == id && walk.last() == id;
            if exists|p: int| 0 <= p < walk.len() && walk[p] == node.id() {
                let p = choose|p: int| 0 <= p < walk.len() && walk[p] == node.id();
                // The same closed walk, started at the new node.
                let round = if p == 0 || p == walk.len() - 1 {
                    walk
                } else {
                    lemma_walk_part(after, walk, p, walk.len() as int);
                    lemma_walk_part(after, walk, 0, p + 1);
                    lemma_walk_join(
                        after,
                        walk.subrange(p, walk.len() as int),
                        walk.subrange(0, p + 1),
                    );
                    walk.subrange(p, walk.len() as int) + walk.subrange(0, p + 1).skip(1)
                };
                assert(is_walk(after, round) && round.len() >= 2);
                assert(round[0] == node.id() && round.last() == node.id());
                lemma_round_walk_reaches(nodes, node, round, 1);
            } else {
                assert forall|k: int| 0 <= k < walk.len() - 1 implies #[trigger] link(
                    nodes,
                    walk[k],
                    walk[k + 1],
                ) by {
                    assert(link(after, walk[k], walk[k + 1]));
                    lemma_link_after_push(nodes, node, walk[k], walk[k + 1]);
                }
                assert(is_walk(nodes, walk));
                assert(on_cycle(nodes, id));
            }
        }
    }
}

/// A closed walk through a newly appended node leads from its parents back to it.
proof fn lemma_round_walk_reaches(
    nodes: Seq<ProvenanceNode>,
    node: ProvenanceNode,
    round: Seq<Seq<char>>,
    from: int,
)
    requires
        !present(nodes, node.id()),
        is_walk(nodes.push(node), round),
        1 <= from < round.len(),
        round[0] == node.id(),
        round.last() == node.id(),
        forall|k: int| 1 <= k < from ==> #[trigger] round[k] != node.id(),
    ensures
        reachable(nodes, node.parent_ids(), node.id()),
    decreases round.len() - from,
{
    let after = nodes.push(node);
    if round[from] == node.id() {
        let back = round.subrange(1, from + 1);
        assert(link(after, round[0], round[0int + 1]));
        let at = choose|at: int| #[trigger]
            resolves(after, round[0], at) && after[at].parent_ids().contains(round[1]);
        if at < nodes.len() {
            assert(nodes[at].id() == node.id());
            assert(present(nodes, node.id()));
        }
        assert(node.parent_ids().contains(back[0]));
        assert forall|k: int| 0 <= k < back.len() - 1 implies #[trigger] link(
            nodes,
            back[k],
            back[k + 1],
        ) by {
            assert(link(after, round[k + 1], round[k + 1 + 1]));
            assert(round[k + 1] != node.id());
            lemma_link_after_push(nodes, node, round[k + 1], round[k + 1 + 1]);
        }
        assert(is_walk(nodes, back));
        assert(back.last() == node.id());
    } else {
        lemma_round_walk_reaches(nodes, node, round, from + 1);
    }
}

/// What is reached is named as a parent by the start or by some node.
pub proof fn lemma_reached_is_named(
    nodes: Seq<ProvenanceNode>,
    start: Seq<Seq<char>>,
    target: Seq<char>,
)
    requires
        reachable(nodes, start, target),
    ensures
        start.contains(target) || exists|k: int|
            0 <= k < nodes.len() && (#[trigger] nodes[k]).parent_ids().contains(target),
{
    let walk = choose|walk: Seq<Seq<char>>| #[trigger]
        is_walk(nodes, walk) && start.contains(walk[0]) && walk.last() == target;
    if walk.len() > 1 {
        let k = walk.len() - 2;
        assert(link(nodes, walk[k], walk[k + 1]));
        let at = choose|at: int| #[trigger]
            resolves(nodes, walk[k], at) && nodes[at].parent_ids().contains(walk[k + 1]);
        assert(nodes[at].parent_ids().contains(target));
    }
}

impl ProvenanceGraph {
    /// Insert a node after checking unique identity, nonempty ids, and that
    /// adding it does not close a cycle through this node. Unresolved external
    /// parent ids are allowed; they are recorded as missing, not invented.
    ///
    /// Ids are unique, so a new cycle must pass through the new node, and it
    /// can only close through an existing node that already names the new id
    /// as a parent. Appending a leaf is one scan with no clones; otherwise only
    /// the ancestry reachable from the new node's parents is searched. Nodes
    /// appended with [`Self::push`] are checked by [`Self::validate`].
    pub fn try_push(&mut self, node: ProvenanceNode) -> (r: Result<(), ProvenanceError>)
        ensures
            match r {
                Ok(()) => {
                    &&& shape_fault(node) is None
                    &&& !present(old(self).nodes@, node.id())
                    &&& !reachable(old(self).nodes@, node.parent_ids(), node.id())
                    &&& final(self).nodes@ == old(self).nodes@.push(node)
                },
                Err(e) => {
                    &&& final(self).nodes@ == old(self).nodes@
                    &&& if shape_fault(node) is Some {
                        shape_fault(node) == Some(e@)
                    } else if present(old(self).nodes@, node.id()) {
                        e@ == ProvenanceFault::DuplicateIdentity(node.id())
                    } else {
                        &&& reachable(old(self).nodes@, node.parent_ids(), node.id())
                        &&& e@ == ProvenanceFault::Cycle(node.id())
                    }
                },
            },
            old(self).valid() ==> final(self).valid(),
    {
        match Self::validate_node_shape(&node) {
            Ok(()) => {},
            Err(e) => {
                return Err(e);
            },
        }
        let mut referenced = text::contains_text(&node.parents, node.artifact_id.as_str());
        let mut i: usize = 0;
        while i < self.nodes.len()
            invariant
                0 <= i <= self.nodes.len(),
                self.nodes@ == old(self).nodes@,
                shape_fault(node) is None,
                forall|k: int| 0 <= k < i ==> (#[trigger] self.nodes@[k]).id() != node.id(),
                referenced <==> (node.parent_ids().contains(node.id()) || exists|k: int|
                    0 <= k < i && (#[trigger] self.nodes@[k]).parent_ids().contains(node.id())),
            decreases self.nodes.len() - i,
        {
            let existing = &self.nodes[i];
            if text::str_eq(existing.artifact_id.as_str(), node.artifact_id.as_str()) {
                return Err(ProvenanceError::DuplicateIdentity { id: node.artifact_id.clone() });
            }
            referenced = referenced || text::contains_text(
                &existing.parents,
                node.artifact_id.as_str(),
            );
            i = i + 1;
        }
        if referenced {
            if self.reaches(&node.parents, node.artifact_id.as_str()) {
                return Err(ProvenanceError::Cycle { id: node.artifact_id.clone() });
            }
        }
        proof {
            if !referenced && reachable(self.nodes@, node.parent_ids(), node.id()) {
                lemma_reached_is_named(self.nodes@, node.parent_ids(), node.id());
            }
            let before = self.nodes@;
            let after = before.push(node);
            if old(self).valid() {
                law_append_keeps_acyclic(before, node);
                assert forall|k: int| 0 <= k < after.len() implies #[trigger] node_fault(
                    after,
                    k,
                ) is None by {
                    assert(after.take(k) =~= before.take(k));
                    if k < before.len() {
                        assert(node_fault(before, k) is None);
                    } else {
                        assert(before.take(k) =~= before);
                    }
                }
            }
        }
        self.nodes.push(node);
        Ok(())
    }

    /// Whether `target` is reachable by following parent links from `start`.
    fn reaches(&self, start: &Vec<String>, target: &str) -> (found: bool)
        ensures
            found == reachable(self.nodes@, text::texts(start@), target@),
    {
        let ghost nodes = self.nodes@;
        let ghost from = text::texts(start@);
        let mut visited: Vec<bool> = Vec::new();
        let mut n: usize = 0;
        while n < self.nodes.len()
            invariant
                0 <= n <= self.nodes.len(),
                visited@.len() == n,
                forall|k: int| 0 <= k < n ==> !visited@[k],
            decreases self.nodes.len() - n,
        {
            visited.push(false);
            n = n + 1;
        }
        let mut stack: Vec<&str> = Vec::new();
        let mut s: usize = 0;
        while s < start.len()
            invariant
                0 <= s <= start.len(),
                stack@.len() == s,
                forall|k: int| 0 <= k < s ==> (#[trigger] stack@[k])@ == start@[k]@,
            decreases start.len() - s,
        {
            stack.push(start[s].as_str());
            s = s + 1;
        }
        proof {
            assert forall|k: int| 0 <= k < stack@.len() implies reachable(
                nodes,
                from,
                (#[trigger] stack@[k])@,
            ) by {
                let walk = seq![stack@[k]@];
                assert(from[k] == walk[0]);
                assert(is_walk(nodes, walk));
            }
            assert forall|id: Seq<char>| from.contains(id) implies #[trigger] settled(
                nodes,
                visited@,
                stack@,
                target@,
                id,
            ) by {
                let k = choose|k: int| 0 <= k < from.len() && from[k] == id;
                assert(stack@[k]@ == id);
            }
        }
        while stack.len() > 0
            invariant
                nodes == self.nodes@,
                from == text::texts(start@),
                visited@.len() == nodes.len(),
                forall|k: int|
                    0 <= k < stack@.len() ==> reachable(nodes, from, (#[trigger] stack@[k])@),
                forall|id: Seq<char>| from.contains(id) ==> #[trigger] settled(
                    nodes,
                    visited@,
                    stack@,
                    target@,
                    id,
                ),
                forall|at: int, id: Seq<char>|
                    0 <= at < nodes.len() && visited@[at] && #[trigger] nodes[at].parent_ids().contains(id)
                        ==> settled(nodes, visited@, stack@, target@, id),
                forall|at: int| 0 <= at < nodes.len() && visited@[at] ==> nodes[at].id() != target@,
            decreases open_count(visited@), stack.len(),
        {
            let ghost before = stack@;
            let ghost visited_before = visited@;
            let id = match stack.pop() {
                Some(id) => id,
                None => {
                    return false;
                },
            };
            proof {
                assert(before.last()@ == id@);
                assert(reachable(nodes, from, id@));
            }
            if text::str_eq(id, target) {
                return true;
            }
            match self.position(id) {
                None => {
                    proof {
                        lemma_settled_after_pop(nodes, visited@, before, target@, from);
                    }
                },
                Some(position) => {
                    if visited[position] {
                        proof {
                            lemma_settled_after_pop(nodes, visited@, before, target@, from);
                        }
                    } else {
                        visited.set(position, true);
                        proof {
                            lemma_open_count_drops(visited_before, position as int);
                        }
                        let ghost popped = stack@;
                        let parents = &self.nodes[position].parents;
                        let mut p: usize = 0;
                        while p < parents.len()
                            invariant
                                0 <= p <= parents.len(),
                                parents@ == nodes[position as int].parents@,
                                stack@.len() == popped.len() + p,
                                forall|k: int|
                                    0 <= k < popped.len() ==> #[trigger] stack@[k] == popped[k],
                                forall|k: int|
                                    0 <= k < p ==> (#[trigger] stack@[popped.len() + k])@
                                        == parents@[k]@,
                            decreases parents.len() - p,
                        {
                            stack.push(parents[p].as_str());
                            p = p + 1;
                        }
                        proof {
                            lemma_expand(
                                nodes,
                                from,
                                target@,
                                visited_before,
                                before,
                                position as int,
                                stack@,
                            );
                        }
                    }
                },
            }
            proof {
                assert(visited@ == visited_before ==> stack@ =~= before.drop_last());
                assert forall|id: Seq<char>| from.contains(id) implies #[trigger] settled(
                    nodes,
                    visited@,
                    stack@,
                    target@,
                    id,
                ) by {
                    assert(settled(nodes, visited_before, before, target@, id));
                }
            }
        }
        proof {
            if reachable(nodes, from, target@) {
                let walk = choose|walk: Seq<Seq<char>>| #[trigger]
                    is_walk(nodes, walk) && from.contains(walk[0]) && walk.last() == target@;
                lemma_walk_stays_settled(nodes, visited@, stack@, target@, walk, walk.len() - 1);
            }
        }
        false
    }
}

/// Number of positions not yet visited.
spec fn open_count(visited: Seq<bool>) -> nat
    decreases visited.len(),
{
    if visited.len() == 0 {
        0
    } else {
        open_count(visited.drop_last()) + if visited.last() {
            0nat
        } else {
            1nat
        }
    }
}

proof fn lemma_open_count_drops(visited: Seq<bool>, at: int)
    requires
        0 <= at < visited.len(),
        !visited[at],
    ensures
        open_count(visited.update(at, true)) < open_count(visited),
    decreases visited.len(),
{
    let after = visited.update(at, true);
    if at == visited.len() - 1 {
        assert(after.drop_last() =~= visited.drop_last());
    } else {
        assert(after.drop_last() =~= visited.drop_last().update(at, true));
        lemma_open_count_drops(visited.drop_last(), at);
    }
}

/// An id that the search has dealt with or still has on its stack.
spec fn settled(
    nodes: Seq<ProvenanceNode>,
    visited: Seq<bool>,
    stack: Seq<&str>,
    target: Seq<char>,
    id: Seq<char>,
) -> bool {
    ||| exists|k: int| 0 <= k < stack.len() && (#[trigger] stack[k])@ == id
    ||| id != target && !present(nodes, id)
    ||| exists|at: int| #[trigger] resolves(nodes, id, at) && visited[at]
}

proof fn lemma_settled_after_pop(
    nodes: Seq<ProvenanceNode>,
    visited: Seq<bool>,
    before: Seq<&str>,
    target: Seq<char>,
    from: Seq<Seq<char>>,
)
    requires
        before.len() > 0,
        before.last()@ != target,
        !present(nodes, before.last()@) || exists|at: int| #[trigger]
            resolves(nodes, before.last()@, at) && visited[at],
    ensures
        forall|id: Seq<char>| #[trigger]
            settled(nodes, visited, before, target, id) ==> settled(
                nodes,
                visited,
                before.drop_last(),
                target,
                id,
            ),
{
    let stack = before.drop_last();
    assert forall|id: Seq<char>| #[trigger]
        settled(nodes, visited, before, target, id) implies settled(
        nodes,
        visited,
        stack,
        target,
        id,
    ) by {
        if exists|k: int| 0 <= k < before.len() && (#[trigger] before[k])@ == id {
            let k = choose|k: int| 0 <= k < before.len() && (#[trigger] before[k])@ == id;
            if k < stack.len() {
                assert(stack[k]@ == id);
            }
        }
    }
}

proof fn lemma_expand(
    nodes: Seq<ProvenanceNode>,
    from: Seq<Seq<char>>,
    target: Seq<char>,
    visited: Seq<bool>,
    before: Seq<&str>,
    position: int,
    stack: Seq<&str>,
)
    requires
        visited.len() == nodes.len(),
        before.len() > 0,
        before.last()@ != target,
        resolves(nodes, before.last()@, position),
        forall|k: int| 0 <= k < before.len() ==> reachable(nodes, from, (#[trigger] before[k])@),
        stack.len() == before.len() - 1 + nodes[position].parents@.len(),
        forall|k: int| 0 <= k < before.len() - 1 ==> #[trigger] stack[k] == before[k],
        forall|k: int|
            0 <= k < nodes[position].parents@.len() ==> (#[trigger] stack[before.len() - 1 + k])@
                == nodes[position].parents@[k]@,
    ensures
        forall|k: int| 0 <= k < stack.len() ==> reachable(nodes, from, (#[trigger] stack[k])@),
        forall|id: Seq<char>| #[trigger]
            settled(nodes, visited, before, target, id) ==> settled(
                nodes,
                visited.update(position, true),
                stack,
                target,
                id,
            ),
        forall|id: Seq<char>| #[trigger]
            nodes[position].parent_ids().contains(id) ==> settled(
                nodes,
                visited.update(position, true),
                stack,
                target,
                id,
            ),
{
    let after = visited.update(position, true);
    let id0 = before.last()@;
    assert forall|k: int| 0 <= k < stack.len() implies reachable(
        nodes,
        from,
        (#[trigger] stack[k])@,
    ) by {
        if k < before.len() - 1 {
            assert(stack[k] == before[k]);
        } else {
            let m = k - (before.len() - 1);
            assert(stack[before.len() - 1 + m]@ == nodes[position].parents@[m]@);
            assert(nodes[position].parent_ids()[m] == stack[k]@);
            assert(reachable(nodes, from, before[before.len() - 1]@));
            let walk = choose|walk: Seq<Seq<char>>| #[trigger]
                is_walk(nodes, walk) && from.contains(walk[0]) && walk.last() == id0;
            assert(link(nodes, walk.last(), stack[k]@));
            lemma_walk_push(nodes, walk, stack[k]@);
            assert(walk.push(stack[k]@)[0] == walk[0]);
            assert(walk.push(stack[k]@).last() == stack[k]@);
        }
    }
    assert forall|id: Seq<char>| #[trigger]
        settled(nodes, visited, before, target, id) implies settled(
        nodes,
        after,
        stack,
        target,
        id,
    ) by {
        if exists|k: int| 0 <= k < before.len() && (#[trigger] before[k])@ == id {
            let k = choose|k: int| 0 <= k < before.len() && (#[trigger] before[k])@ == id;
            if k < before.len() - 1 {
                assert(stack[k]@ == id);
            } else {
                assert(resolves(nodes, id, position) && after[position]);
            }
        } else if !(id != target && !present(nodes, id)) {
            let at = choose|at: int| #[trigger] resolves(nodes, id, at) && visited[at];
            assert(after[at]);
        }
    }
    assert forall|id: Seq<char>| #[trigger]
        nodes[position].parent_ids().contains(id) implies settled(
        nodes,
        after,
        stack,
        target,
        id,
    ) by {
        let m = choose|m: int|
            0 <= m < nodes[position].parent_ids().len() && nodes[position].parent_ids()[m] == id;
        assert(stack[before.len() - 1 + m]@ == id);
    }
}

/// With an empty stack a walk from the start never arrives at the target.
proof fn lemma_walk_stays_settled(
    nodes: Seq<ProvenanceNode>,
    visited: Seq<bool>,
    stack: Seq<&str>,
    target: Seq<char>,
    walk: Seq<Seq<char>>,
    k: int,
)
    requires
        stack.len() == 0,
        is_walk(nodes, walk),
        0 <= k < walk.len(),
        settled(nodes, visited, stack, target, walk[0]),
        forall|at: int, id: Seq<char>|
            0 <= at < nodes.len() && visited[at] && #[trigger] nodes[at].parent_ids().contains(id)
                ==> settled(nodes, visited, stack, target, id),
        forall|at: int| 0 <= at < nodes.len() && visited[at] ==> nodes[at].id() != target,
    ensures
        settled(nodes, visited, stack, target, walk[k]),
        walk[k] != target,
    decreases k,
{
    if k > 0 {
        lemma_walk_stays_settled(nodes, visited, stack, target, walk, k - 1);
        assert(link(nodes, walk[k - 1], walk[k - 1 + 1]));
        let at = choose|at: int| #[trigger]
            resolves(nodes, walk[k - 1], at) && nodes[at].parent_ids().contains(walk[k]);
        assert(present(nodes, walk[k - 1])) by {
            assert(nodes[at].id() == walk[k - 1]);
        }
        let seen = choose|seen: int| #[trigger] resolves(nodes, walk[k - 1], seen) && visited[seen];
        lemma_resolves_unique(nodes, walk[k - 1], at, seen);
        assert(nodes[at].parent_ids().contains(walk[k]));
    }
}

/// No two nodes carry one id.
pub open spec fn distinct_ids(nodes: Seq<ProvenanceNode>) -> bool {
    forall|i: int, j: int|
        0 <= i < j < nodes.len() ==> (#[trigger] nodes[i]).id() != (#[trigger] nodes[j]).id()
}

/// Node `j` is a parent of node `i`.
spec fn parent_at(nodes: Seq<ProvenanceNode>, i: int, j: int) -> bool {
    0 <= j < nodes.len() && nodes[i].parent_ids().contains(nodes[j].id())
}

/// State of the depth-first search: `trail` is the branch in progress, `order`
/// the finished nodes, each after all of its parents.
spec fn search_state(
    nodes: Seq<ProvenanceNode>,
    state: Seq<u8>,
    trail: Seq<int>,
    order: Seq<int>,
) -> bool {
    &&& state.len() == nodes.len()
    &&& forall|k: int|
        0 <= k < state.len() ==> {
            &&& #[trigger] state[k] <= 2
            &&& state[k] == 1 <==> trail.contains(k)
            &&& state[k] == 2 <==> order.contains(k)
        }
    &&& forall|m: int| 0 <= m < trail.len() ==> 0 <= #[trigger] trail[m] < nodes.len()
    &&& forall|m: int|
        0 <= m < trail.len() - 1 ==> #[trigger] parent_at(nodes, trail[m], trail[m + 1])
    &&& forall|m: int| 0 <= m < order.len() ==> 0 <= #[trigger] order[m] < nodes.len()
    &&& order.no_duplicates()
    &&& forall|m: int, j: int|
        0 <= m < order.len() && #[trigger] parent_at(nodes, order[m], j) ==> order.take(
            m,
        ).contains(j)
}

/// Number of nodes the search has not entered.
spec fn untouched(state: Seq<u8>) -> nat
    decreases state.len(),
{
    if state.len() == 0 {
        0
    } else {
        untouched(state.drop_last()) + if state.last() == 0 {
            1nat
        } else {
            0nat
        }
    }
}

proof fn lemma_untouched_update(state: Seq<u8>, at: int, value: u8)
    requires
        0 <= at < state.len(),
        value != 0,
    ensures
        untouched(state.update(at, value)) == untouched(state) - if state[at] == 0 {
            1int
        } else {
            0int
        },
    decreases state.len(),
{
    let after = state.update(at, value);
    if at == state.len() - 1 {
        assert(after.drop_last() =~= state.drop_last());
    } else {
        assert(after.drop_last() =~= state.drop_last().update(at, value));
        lemma_untouched_update(state.drop_last(), at, value);
    }
}

proof fn lemma_distinct_resolves(nodes: Seq<ProvenanceNode>, j: int)
    requires
        distinct_ids(nodes),
        0 <= j < nodes.len(),
    ensures
        resolves(nodes, nodes[j].id(), j),
{
}

/// Meeting a node of the branch in progress again closes a cycle through it.
proof fn lemma_trail_closes_cycle(
    nodes: Seq<ProvenanceNode>,
    state: Seq<u8>,
    trail: Seq<int>,
    order: Seq<int>,
    i: int,
)
    requires
        distinct_ids(nodes),
        search_state(nodes, state, trail, order),
        trail.contains(i),
        parent_at(nodes, trail.last(), i),
    ensures
        on_cycle(nodes, nodes[i].id()),
{
    let p = choose|p: int| 0 <= p < trail.len() && trail[p] == i;
    let n = (trail.len() - p) as nat;
    let walk = Seq::new(
        n + 1,
        |k: int|
            if k < n {
                nodes[trail[p + k]].id()
            } else {
                nodes[i].id()
            },
    );
    assert forall|k: int| 0 <= k < walk.len() - 1 implies #[trigger] link(
        nodes,
        walk[k],
        walk[k + 1],
    ) by {
        lemma_distinct_resolves(nodes, trail[p + k]);
        if k < n - 1 {
            assert(parent_at(nodes, trail[p + k], trail[p + k + 1]));
        }
        assert(resolves(nodes, walk[k], trail[p + k]));
    }
    assert(is_walk(nodes, walk));
}

/// A list of all nodes, each after all of its parents, rules out every cycle.
proof fn lemma_order_rules_out_cycles(
    nodes: Seq<ProvenanceNode>,
    state: Seq<u8>,
    order: Seq<int>,
)
    requires
        distinct_ids(nodes),
        search_state(nodes, state, Seq::<int>::empty(), order),
        forall|k: int| 0 <= k < nodes.len() ==> #[trigger] order.contains(k),
    ensures
        acyclic(nodes),
{
    assert forall|id: Seq<char>| !#[trigger] on_cycle(nodes, id) by {
        if on_cycle(nodes, id) {
            let walk = choose|walk: Seq<Seq<char>>| #[trigger]
                is_walk(nodes, walk) && walk.len() >= 2 && walk[0] == id && walk.last() == id;
            assert(link(nodes, walk[0], walk[0int + 1]));
            let at = choose|at: int| #[trigger]
                resolves(nodes, walk[0], at) && nodes[at].parent_ids().contains(walk[1]);
            assert(order.contains(at));
            let m0 = choose|m: int| 0 <= m < order.len() && order[m] == at;
            lemma_walk_descends(nodes, state, order, walk, m0, walk.len() - 1);
            let m = choose|m: int|
                0 <= m <= m0 - (walk.len() - 1) && nodes[#[trigger] order[m]].id()
                    == walk[walk.len() - 1];
            assert(nodes[order[m]].id() == nodes[order[m0]].id());
        }
    }
}

proof fn lemma_walk_descends(
    nodes: Seq<ProvenanceNode>,
    state: Seq<u8>,
    order: Seq<int>,
    walk: Seq<Seq<char>>,
    m0: int,
    k: int,
)
    requires
        distinct_ids(nodes),
        search_state(nodes, state, Seq::<int>::empty(), order),
        is_walk(nodes, walk),
        walk[0] == walk.last(),
        0 <= m0 < order.len(),
        nodes[order[m0]].id() == walk[0],
        0 <= k < walk.len(),
    ensures
        exists|m: int| 0 <= m <= m0 - k && nodes[#[trigger] order[m]].id() == walk[k],
    decreases k,
{
    if k == 0 {
        assert(nodes[order[m0]].id() == walk[k]);
    } else {
        lemma_walk_descends(nodes, state, order, walk, m0, k - 1);
        let m = choose|m: int|
            0 <= m <= m0 - (k - 1) && nodes[#[trigger] order[m]].id() == walk[k - 1];
        assert(link(nodes, walk[k - 1], walk[k - 1 + 1]));
        let at = choose|at: int| #[trigger]
            resolves(nodes, walk[k - 1], at) && nodes[at].parent_ids().contains(walk[k]);
        lemma_distinct_resolves(nodes, order[m]);
        lemma_resolves_unique(nodes, walk[k - 1], at, order[m]);
        let j = if k == walk.len() - 1 {
            order[m0]
        } else {
            assert(link(nodes, walk[k], walk[k + 1]));
            choose|at: int| #[trigger]
                resolves(nodes, walk[k], at) && nodes[at].parent_ids().contains(walk[k + 1])
        };
        assert(nodes[j].id() == walk[k]);
        assert(parent_at(nodes, order[m], j));
        let earlier = order.take(m);
        assert(earlier.contains(j));
        let q = choose|q: int| 0 <= q < earlier.len() && earlier[q] == j;
        assert(order[q] == j);
    }
}

impl ProvenanceGraph {
    /// Validate unique identities, nonempty ids, and acyclicity of the
    /// current graph. External parent references (ids not in this graph)
    /// are returned so a receiver can record unresolved lineage.
    ///
    /// The first faulty node in insertion order is reported; cycles are looked
    /// for only among well-shaped nodes with unique ids.
    pub fn validate(&self) -> (r: Result<Vec<String>, ProvenanceError>)
        ensures
            r is Ok <==> self.valid(),
            match r {
                Ok(missing) => {
                    &&& self.valid()
                    &&& text::texts_ascending(text::texts(missing@))
                    &&& forall|id: Seq<char>| #[trigger]
                        text::texts(missing@).contains(id) <==> unresolved(self.nodes@, id)
                },
                Err(e) => if identities_valid(self.nodes@) {
                    e@ matches ProvenanceFault::Cycle(id) && on_cycle(self.nodes@, id)
                } else {
                    exists|k: int|
                        {
                            &&& 0 <= k < self.nodes@.len()
                            &&& #[trigger] node_fault(self.nodes@, k) == Some(e@)
                            &&& forall|j: int|
                                0 <= j < k ==> #[trigger] node_fault(self.nodes@, j) is None
                        }
                },
            },
    {
        let mut i: usize = 0;
        while i < self.nodes.len()
            invariant
                0 <= i <= self.nodes.len(),
                forall|k: int| 0 <= k < i ==> #[trigger] node_fault(self.nodes@, k) is None,
            decreases self.nodes.len() - i,
        {
            match Self::validate_node_shape(&self.nodes[i]) {
                Ok(()) => {},
                Err(e) => {
                    assert(node_fault(self.nodes@, i as int) == Some(e@));
                    return Err(e);
                },
            }
            let mut j: usize = 0;
            while j < i
                invariant
                    0 <= j <= i,
                    i < self.nodes.len(),
                    shape_fault(self.nodes@[i as int]) is None,
                    forall|k: int| 0 <= k < i ==> #[trigger] node_fault(self.nodes@, k) is None,
                    forall|k: int|
                        0 <= k < j ==> (#[trigger] self.nodes@[k]).id()
                            != self.nodes@[i as int].id(),
                decreases i - j,
            {
                if text::str_eq(
                    self.nodes[j].artifact_id.as_str(),
                    self.nodes[i].artifact_id.as_str(),
                ) {
                    proof {
                        let before = self.nodes@.take(i as int);
                        assert(before[j as int].id() == self.nodes@[i as int].id());
                        assert(node_fault(self.nodes@, i as int) == Some(
                            ProvenanceFault::DuplicateIdentity(self.nodes@[i as int].id()),
                        ));
                    }
                    return Err(
                        ProvenanceError::DuplicateIdentity { id: self.nodes[i].artifact_id.clone() },
                    );
                }
                j = j + 1;
            }
            proof {
                let before = self.nodes@.take(i as int);
                assert forall|k: int| 0 <= k < before.len() implies (#[trigger] before[k]).id()
                    != self.nodes@[i as int].id() by {
                    assert(before[k] == self.nodes@[k]);
                }
                assert(node_fault(self.nodes@, i as int) is None);
            }
            i = i + 1;
        }
        proof {
            assert forall|a: int, b: int| 0 <= a < b < self.nodes@.len() implies (
            #[trigger] self.nodes@[a]).id() != (#[trigger] self.nodes@[b]).id() by {
                assert(node_fault(self.nodes@, b) is None);
                assert(self.nodes@.take(b)[a] == self.nodes@[a]);
            }
        }
        match self.assert_acyclic() {
            Ok(()) => Ok(self.unresolved_parents()),
            Err(e) => Err(e),
        }
    }

    /// Refuse a graph with a cycle, by depth-first search from every node.
    fn assert_acyclic(&self) -> (r: Result<(), ProvenanceError>)
        requires
            distinct_ids(self.nodes@),
        ensures
            match r {
                Ok(()) => acyclic(self.nodes@),
                Err(e) => e@ matches ProvenanceFault::Cycle(id) && on_cycle(self.nodes@, id),
            },
    {
        let mut state: Vec<u8> = Vec::new();
        let mut n: usize = 0;
        while n < self.nodes.len()
            invariant
                0 <= n <= self.nodes.len(),
                state@.len() == n,
                forall|k: int| 0 <= k < n ==> state@[k] == 0,
            decreases self.nodes.len() - n,
        {
            state.push(0);
            n = n + 1;
        }
        let ghost mut order: Seq<int> = Seq::empty();
        let mut i: usize = 0;
        while i < self.nodes.len()
            invariant
                0 <= i <= self.nodes.len(),
                distinct_ids(self.nodes@),
                search_state(self.nodes@, state@, Seq::<int>::empty(), order),
                forall|k: int| 0 <= k < i ==> #[trigger] order.contains(k),
            decreases self.nodes.len() - i,
        {
            let ghost before = order;
            match self.dfs_acyclic(i, &mut state, Ghost(Seq::<int>::empty()), Ghost(order)) {
                Ok(grown) => {
                    proof {
                        order = grown@;
                        assert forall|k: int| 0 <= k < i + 1 implies #[trigger] order.contains(
                            k,
                        ) by {
                            if k < i {
                                assert(before.contains(k));
                                let m = choose|m: int| 0 <= m < before.len() && before[m] == k;
                                assert(order[m] == k);
                            } else {
                                assert(state@[i as int] == 2);
                            }
                        }
                    }
                },
                Err(e) => {
                    return Err(e);
                },
            }
            i = i + 1;
        }
        proof {
            lemma_order_rules_out_cycles(self.nodes@, state@, order);
        }
        Ok(())
    }

    /// One branch of the search; yields the finished nodes, longer by this branch.
    fn dfs_acyclic(
        &self,
        i: usize,
        state: &mut Vec<u8>,
        Ghost(trail): Ghost<Seq<int>>,
        Ghost(order): Ghost<Seq<int>>,
    ) -> (r: Result<Ghost<Seq<int>>, ProvenanceError>)
        requires
            distinct_ids(self.nodes@),
            0 <= i < self.nodes@.len(),
            search_state(self.nodes@, old(state)@, trail, order),
            trail.len() > 0 ==> parent_at(self.nodes@, trail.last(), i as int),
        ensures
            match r {
                Ok(grown) => {
                    &&& search_state(self.nodes@, final(state)@, trail, grown@)
                    &&& final(state)@[i as int] == 2
                    &&& untouched(final(state)@) <= untouched(old(state)@)
                    &&& grown@.len() >= order.len()
                    &&& forall|m: int| 0 <= m < order.len() ==> #[trigger] grown@[m] == order[m]
                },
                Err(e) => e@ matches ProvenanceFault::Cycle(id) && on_cycle(self.nodes@, id),
            },
        decreases untouched(old(state)@),
    {
        let ghost nodes = self.nodes@;
        if state[i] == 1 {
            proof {
                assert(trail.contains(i as int));
                lemma_trail_closes_cycle(nodes, state@, trail, order, i as int);
            }
            return Err(ProvenanceError::Cycle { id: self.nodes[i].artifact_id.clone() });
        }
        if state[i] == 2 {
            return Ok(Ghost(order));
        }
        let ghost entered = state@;
        let ghost branch = trail.push(i as int);
        let ghost mut grown = order;
        state.set(i, 1);
        proof {
            lemma_untouched_update(entered, i as int, 1);
            lemma_branch_grows(nodes, entered, trail, order, i as int);
        }
        let parents = &self.nodes[i].parents;
        let mut p: usize = 0;
        while p < parents.len()
            invariant
                nodes == self.nodes@,
                distinct_ids(nodes),
                0 <= i < nodes.len(),
                parents@ == nodes[i as int].parents@,
                0 <= p <= parents.len(),
                branch == trail.push(i as int),
                entered == old(state)@,
                search_state(nodes, state@, branch, grown),
                untouched(state@) < untouched(entered),
                grown.len() >= order.len(),
                forall|m: int| 0 <= m < order.len() ==> #[trigger] grown[m] == order[m],
                forall|j: int|
                    0 <= j < nodes.len() && nodes[i as int].parent_ids().take(p as int).contains(
                        (#[trigger] nodes[j]).id(),
                    ) ==> grown.contains(j),
            decreases parents.len() - p,
        {
            let ghost seen = nodes[i as int].parent_ids().take(p as int);
            let ghost next = nodes[i as int].parent_ids().take(p + 1);
            let ghost before = grown;
            proof {
                assert(next =~= seen.push(parents@[p as int]@));
                assert(nodes[i as int].parent_ids()[p as int] == parents@[p as int]@);
            }
            match self.position(parents[p].as_str()) {
                Some(j) => {
                    assert(parent_at(nodes, branch.last(), j as int));
                    match self.dfs_acyclic(j, state, Ghost(branch), Ghost(grown)) {
                        Ok(longer) => {
                            proof {
                                grown = longer@;
                                assert(state@[j as int] == 2);
                                assert(grown.contains(j as int));
                            }
                        },
                        Err(e) => {
                            return Err(e);
                        },
                    }
                },
                None => {},
            }
            proof {
                assert forall|j: int|
                    0 <= j < nodes.len() && next.contains((#[trigger] nodes[j]).id()) implies grown.contains(
                j) by {
                    if seen.contains(nodes[j].id()) {
                        assert(before.contains(j));
                        let m = choose|m: int| 0 <= m < before.len() && before[m] == j;
                        assert(grown[m] == j);
                    } else {
                        let m = choose|m: int| 0 <= m < next.len() && next[m] == nodes[j].id();
                        if m < p {
                            assert(seen[m] == nodes[j].id());
                        }
                        assert(nodes[j].id() == parents@[p as int]@);
                        lemma_distinct_resolves(nodes, j);
                        assert(present(nodes, parents@[p as int]@));
                    }
                }
            }
            p = p + 1;
        }
        let ghost finished = state@;
        state.set(i, 2);
        proof {
            assert(nodes[i as int].parent_ids().take(p as int) =~= nodes[i as int].parent_ids());
            assert(branch[trail.len() as int] == i as int);
            assert(branch.contains(i as int));
            lemma_untouched_update(finished, i as int, 2);
            lemma_branch_finishes(nodes, finished, trail, grown, i as int, entered, order);
        }
        Ok(Ghost(grown.push(i as int)))
    }
}

proof fn lemma_branch_grows(
    nodes: Seq<ProvenanceNode>,
    state: Seq<u8>,
    trail: Seq<int>,
    order: Seq<int>,
    i: int,
)
    requires
        search_state(nodes, state, trail, order),
        0 <= i < nodes.len(),
        state[i] == 0,
        trail.len() > 0 ==> parent_at(nodes, trail.last(), i),
    ensures
        search_state(nodes, state.update(i, 1), trail.push(i), order),
{
    let after = state.update(i, 1);
    let branch = trail.push(i);
    assert forall|k: int| 0 <= k < after.len() implies {
        &&& #[trigger] after[k] <= 2
        &&& after[k] == 1 <==> branch.contains(k)
        &&& after[k] == 2 <==> order.contains(k)
    } by {
        assert(state[k] <= 2);
        if k == i {
            assert(branch[trail.len() as int] == i);
        } else {
            if trail.contains(k) {
                let m = choose|m: int| 0 <= m < trail.len() && trail[m] == k;
                assert(branch[m] == k);
            }
            if branch.contains(k) {
                let m = choose|m: int| 0 <= m < branch.len() && branch[m] == k;
                assert(trail[m] == k);
            }
        }
    }
    assert forall|m: int| 0 <= m < branch.len() - 1 implies #[trigger] parent_at(
        nodes,
        branch[m],
        branch[m + 1],
    ) by {
        if m < trail.len() - 1 {
            assert(parent_at(nodes, trail[m], trail[m + 1]));
        }
    }
}

proof fn lemma_branch_finishes(
    nodes: Seq<ProvenanceNode>,
    state: Seq<u8>,
    trail: Seq<int>,
    order: Seq<int>,
    i: int,
    entered: Seq<u8>,
    entry_order: Seq<int>,
)
    requires
        search_state(nodes, state, trail.push(i), order),
        search_state(nodes, entered, trail, entry_order),
        0 <= i < nodes.len(),
        entered[i] == 0,
        forall|j: int|
            0 <= j < nodes.len() && nodes[i].parent_ids().contains((#[trigger] nodes[j]).id())
                ==> order.contains(j),
    ensures
        search_state(nodes, state.update(i, 2), trail, order.push(i)),
        state[i] == 1,
{
    let branch = trail.push(i);
    let after = state.update(i, 2);
    let grown = order.push(i);
    assert(branch[trail.len() as int] == i);
    assert(state[i] == 1);
    assert(!order.contains(i));
    assert(!trail.contains(i)) by {
        assert(entered[i] == 0);
    }
    assert forall|k: int| 0 <= k < after.len() implies {
        &&& #[trigger] after[k] <= 2
        &&& after[k] == 1 <==> trail.contains(k)
        &&& after[k] == 2 <==> grown.contains(k)
    } by {
        assert(state[k] <= 2);
        if k == i {
            assert(grown[order.len() as int] == i);
        } else {
            if trail.contains(k) {
                let m = choose|m: int| 0 <= m < trail.len() && trail[m] == k;
                assert(branch[m] == k);
            }
            if branch.contains(k) {
                let m = choose|m: int| 0 <= m < branch.len() && branch[m] == k;
                assert(trail[m] == k);
            }
            if order.contains(k) {
                let m = choose|m: int| 0 <= m < order.len() && order[m] == k;
                assert(grown[m] == k);
            }
            if grown.contains(k) {
                let m = choose|m: int| 0 <= m < grown.len() && grown[m] == k;
                assert(order[m] == k);
            }
        }
    }
    assert forall|m: int| 0 <= m < trail.len() implies 0 <= #[trigger] trail[m] < nodes.len() by {
        assert(branch[m] == trail[m]);
    }
    assert forall|m: int| 0 <= m < trail.len() - 1 implies #[trigger] parent_at(
        nodes,
        trail[m],
        trail[m + 1],
    ) by {
        assert(parent_at(nodes, branch[m], branch[m + 1]));
    }
    assert forall|m: int, j: int|
        0 <= m < grown.len() && #[trigger] parent_at(nodes, grown[m], j) implies grown.take(
        m,
    ).contains(j) by {
        if m < order.len() {
            assert(parent_at(nodes, order[m], j));
            assert(grown.take(m) =~= order.take(m));
        } else {
            assert(grown.take(m) =~= order);
            assert(order.contains(j));
        }
    }
}

/// An external parent is unresolved lineage, not a cycle: an id that no node
/// carries lies on no cycle.
pub proof fn law_external_parent_is_not_a_cycle(nodes: Seq<ProvenanceNode>, id: Seq<char>)
    requires
        unresolved(nodes, id),
    ensures
        !on_cycle(nodes, id),
{
    if on_cycle(nodes, id) {
        let walk = choose|walk: Seq<Seq<char>>| #[trigger]
            is_walk(nodes, walk) && walk.len() >= 2 && walk[0] == id && walk.last() == id;
        assert(link(nodes, walk[0], walk[0int + 1]));
        let at = choose|at: int| #[trigger]
            resolves(nodes, walk[0], at) && nodes[at].parent_ids().contains(walk[1]);
        assert(nodes[at].id() == id);
    }
}

/// A graph has valid identities exactly where every node has an id, no node has a nameless
/// parent, and no two nodes share an id.
pub proof fn law_valid_identities_are_named_and_distinct(nodes: Seq<ProvenanceNode>)
    ensures
        identities_valid(nodes) <==> {
            &&& forall|k: int|
                0 <= k < nodes.len() ==> (#[trigger] nodes[k]).id().len() > 0
                    && !nodes[k].parent_ids().contains(Seq::<char>::empty())
            &&& forall|i: int, j: int|
                0 <= i < j < nodes.len() ==> (#[trigger] nodes[i]).id() != (
                #[trigger] nodes[j]).id()
        },
{
    if identities_valid(nodes) {
        assert forall|k: int| 0 <= k < nodes.len() implies (#[trigger] nodes[k]).id().len() > 0
            && !nodes[k].parent_ids().contains(Seq::<char>::empty()) by {
            assert(node_fault(nodes, k) is None);
        }
        assert forall|i: int, j: int| 0 <= i < j < nodes.len() implies (#[trigger] nodes[i]).id()
            != (#[trigger] nodes[j]).id() by {
            assert(node_fault(nodes, j) is None);
            assert(nodes.take(j)[i] == nodes[i]);
        }
    } else {
        let k = choose|k: int| 0 <= k < nodes.len() && !(#[trigger] node_fault(nodes, k) is None);
        if shape_fault(nodes[k]) is None {
            let i = choose|i: int|
                0 <= i < nodes.take(k).len() && (#[trigger] nodes.take(k)[i]).id()
                    == nodes[k].id();
            assert(nodes[i].id() == nodes[k].id());
        }
    }
}

/// From a start everything in it is reached, and so are the parents of what is reached.
pub proof fn law_descent_is_followed_to_the_parents(
    nodes: Seq<ProvenanceNode>,
    start: Seq<Seq<char>>,
    from: Seq<char>,
    to: Seq<char>,
)
    ensures
        start.contains(from) ==> reachable(nodes, start, from),
        reachable(nodes, start, from) && link(nodes, from, to) ==> reachable(nodes, start, to),
{
    if start.contains(from) {
        let walk = seq![from];
        assert(is_walk(nodes, walk) && walk[0] == from && walk.last() == from);
    }
    if reachable(nodes, start, from) && link(nodes, from, to) {
        let walk = choose|walk: Seq<Seq<char>>| #[trigger]
            is_walk(nodes, walk) && start.contains(walk[0]) && walk.last() == from;
        let longer = walk.push(to);
        assert forall|k: int| 0 <= k < longer.len() - 1 implies #[trigger] link(
            nodes,
            longer[k],
            longer[k + 1],
        ) by {
            if k < walk.len() - 1 {
                assert(link(nodes, walk[k], walk[k + 1]));
            }
        }
        assert(is_walk(nodes, longer) && longer[0] == walk[0] && longer.last() == to);
    }
}

proof fn lemma_walk_stays(
    nodes: Seq<ProvenanceNode>,
    within: spec_fn(Seq<char>) -> bool,
    walk: Seq<Seq<char>>,
    k: int,
)
    requires
        is_walk(nodes, walk),
        within(walk[0]),
        forall|from: Seq<char>, to: Seq<char>| #[trigger]
            link(nodes, from, to) && within(from) ==> within(to),
        0 <= k < walk.len(),
    ensures
        within(walk[k]),
    decreases k,
{
    if k > 0 {
        lemma_walk_stays(nodes, within, walk, k - 1);
        assert(link(nodes, walk[k - 1], walk[k - 1 + 1]));
    }
}

/// Nothing else is reached: whatever holds of a start, and of the parents of whatever it holds
/// of, holds of all that is reached.
pub proof fn law_only_descent_is_followed(
    nodes: Seq<ProvenanceNode>,
    within: spec_fn(Seq<char>) -> bool,
    start: Seq<Seq<char>>,
    target: Seq<char>,
)
    requires
        reachable(nodes, start, target),
        forall|id: Seq<char>| start.contains(id) ==> #[trigger] within(id),
        forall|from: Seq<char>, to: Seq<char>| #[trigger]
            link(nodes, from, to) && within(from) ==> within(to),
    ensures
        within(target),
{
    let walk = choose|walk: Seq<Seq<char>>| #[trigger]
        is_walk(nodes, walk) && start.contains(walk[0]) && walk.last() == target;
    lemma_walk_stays(nodes, within, walk, walk.len() - 1);
}

/// A node that leads back to itself, through a parent or on its own, makes a cycle; in a graph
/// whose nodes can be counted down along every link there is none.
pub proof fn law_cycles_lead_back(
    nodes: Seq<ProvenanceNode>,
    height: spec_fn(Seq<char>) -> int,
    from: Seq<char>,
    to: Seq<char>,
)
    ensures
        link(nodes, from, to) && reachable(nodes, seq![to], from) ==> !acyclic(nodes),
        (forall|a: Seq<char>, b: Seq<char>| #[trigger]
            link(nodes, a, b) ==> height(b) < height(a)) ==> acyclic(nodes),
{
    if link(nodes, from, to) && reachable(nodes, seq![to], from) {
        let walk = choose|walk: Seq<Seq<char>>| #[trigger]
            is_walk(nodes, walk) && seq![to].contains(walk[0]) && walk.last() == from;
        assert(walk[0] == to);
        let round = seq![from] + walk;
        assert forall|k: int| 0 <= k < round.len() - 1 implies #[trigger] link(
            nodes,
            round[k],
            round[k + 1],
        ) by {
            if k > 0 {
                assert(link(nodes, walk[k - 1], walk[k - 1 + 1]));
            }
        }
        assert(is_walk(nodes, round) && round[0] == from && round.last() == from);
        assert(on_cycle(nodes, from));
    }
    if forall|a: Seq<char>, b: Seq<char>| #[trigger] link(nodes, a, b) ==> height(b) < height(a) {
        assert forall|id: Seq<char>| !#[trigger] on_cycle(nodes, id) by {
            if on_cycle(nodes, id) {
                let walk = choose|walk: Seq<Seq<char>>| #[trigger]
                    is_walk(nodes, walk) && walk.len() >= 2 && walk[0] == id && walk.last() == id;
                lemma_heights_fall(nodes, height, walk, walk.len() - 1);
            }
        }
    }
}

proof fn lemma_heights_fall(
    nodes: Seq<ProvenanceNode>,
    height: spec_fn(Seq<char>) -> int,
    walk: Seq<Seq<char>>,
    k: int,
)
    requires
        is_walk(nodes, walk),
        forall|a: Seq<char>, b: Seq<char>| #[trigger] link(nodes, a, b) ==> height(b) < height(a),
        1 <= k < walk.len(),
    ensures
        height(walk[k]) < height(walk[0]),
    decreases k,
{
    assert(link(nodes, walk[k - 1], walk[k - 1 + 1]));
    if k > 1 {
        lemma_heights_fall(nodes, height, walk, k - 1);
    }
}

} // verus!
