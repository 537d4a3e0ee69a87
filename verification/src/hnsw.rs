//! The HNSW index: a layered proximity graph over vectors, its
//! configuration, errors and the records its operations report.
//!
//! Distances are floating-point and are computed by the caller: each
//! operation that compares distances receives them as order keys, `u64`
//! values whose unsigned order is the order of the distances, one per node
//! position (the distance from the query, or from the vector being
//! inserted). Vector components are held by their bit patterns.
use vstd::prelude::*;
use std::collections::HashMap;
use crate::types::VectorId;

verus! {

/// Errors of the HNSW index.
#[derive(Debug)]
pub enum HNSWError {
    DuplicateVector(VectorId),
    VectorNotFound(VectorId),
    DimensionMismatch { expected: usize, actual: usize },
    ChunkLoadError(String),
}

/// Settings of the HNSW index.
#[derive(Debug, Clone, Copy, PartialEq, Eq, Structural)]
pub struct HNSWConfig {
    pub max_connections: usize,
    pub max_connections_layer_0: usize,
    pub ef_construction: usize,
    pub seed: Option<u64>,
}

impl Default for HNSWConfig {
    /// 16 connections per node, 32 on the ground layer, a candidate list of
    /// 200 while building, no seed.
    fn default() -> (r: Self)
        ensures
            r.max_connections == 16,
            r.max_connections_layer_0 == 32,
            r.ef_construction == 200,
            r.seed is None,
    {
        HNSWConfig { max_connections: 16, max_connections_layer_0: 32, ef_construction: 200, seed: None }
    }
}

/// Errors of the HNSW operations.
#[derive(Debug)]
pub enum OperationError {
    HNSWError(HNSWError),
    OperationFailed(String),
}

/// The outcome of a batch of inserts.
pub struct BatchInsertResult {
    pub successful: usize,
    pub failed: usize,
    pub errors: Vec<(VectorId, HNSWError)>,
}

/// The outcome of a batch of deletes.
pub struct BatchDeleteResult {
    pub successful: usize,
    pub failed: usize,
    pub errors: Vec<(VectorId, HNSWError)>,
}

/// The outcome of optimizing the connections.
pub struct OptimizationResult {
    pub edges_added: usize,
    pub edges_removed: usize,
}

/// The outcome of rebalancing the graph.
pub struct RebalanceResult {
    pub nodes_moved: usize,
    pub layers_adjusted: usize,
}

/// The outcome of compacting the layers.
pub struct CompactionResult {
    pub layers_removed: usize,
    pub nodes_relocated: usize,
}

/// The outcome of defragmenting.
pub struct DefragmentResult {
    pub bytes_saved: usize,
    pub nodes_moved: usize,
}

/// The estimated memory of the index, in bytes.
pub struct MemoryUsage {
    pub total_bytes: usize,
    pub nodes_bytes: usize,
    pub vectors_bytes: usize,
    pub graph_bytes: usize,
}

/// Errors of saving and loading the index.
#[derive(Debug)]
pub enum PersistenceError {
    StorageError(String),
    SerializationError(String),
    DeserializationError(String),
    IncompatibleVersion { found: u32, expected: u32 },
    IntegrityError(String),
    RecoveryError(String),
    HNSWError(String),
}

/// What is saved of an index besides its nodes.
pub struct HNSWMetadata {
    pub version: u32,
    pub config: HNSWConfig,
    pub entry_point: Option<VectorId>,
    pub node_count: usize,
    pub dimension: Option<usize>,
}

/// What a recovery found of a saved index.
pub struct RecoveryInfo {
    pub expected_nodes: usize,
    pub found_nodes: usize,
    pub missing_chunks: Vec<usize>,
}

// ---------------------------------------------------------------------------
// Nodes
// ---------------------------------------------------------------------------

/// A node of the graph: a vector, its top layer, its neighbours on each
/// layer (each list without repeats), and a deletion mark.
#[derive(Clone)]
pub struct HNSWNode {
    id: VectorId,
    vector: Vec<u32>,
    level: usize,
    neighbors: Vec<Vec<VectorId>>,
    is_deleted: bool,
}

/// What a node holds.
pub struct NodeView {
    pub id: VectorId,
    pub vector: Seq<u32>,
    pub level: nat,
    pub neighbors: Seq<Seq<VectorId>>,
    pub deleted: bool,
}

/// The neighbour lists, each as a sequence.
pub open spec fn lists_view(v: Seq<Vec<VectorId>>) -> Seq<Seq<VectorId>> {
    v.map_values(|l: Vec<VectorId>| l@)
}

/// No identifier repeats.
pub open spec fn no_repeats(s: Seq<VectorId>) -> bool {
    forall|i: int, j: int| 0 <= i < j < s.len() ==> s[i] != s[j]
}

impl HNSWNode {
    /// What the node holds.
    pub closed spec fn view_node(&self) -> NodeView {
        NodeView {
            id: self.id,
            vector: self.vector@,
            level: self.level as nat,
            neighbors: lists_view(self.neighbors@),
            deleted: self.is_deleted,
        }
    }

    /// A node of layer zero with no neighbour.
    pub fn new(id: VectorId, vector: Vec<u32>) -> (r: Self)
        ensures
            r.view_node().id == id,
            r.view_node().vector == vector@,
            r.view_node().level == 0,
            r.view_node().neighbors == seq![Seq::<VectorId>::empty()],
            !r.view_node().deleted,
    {
        let mut neighbors: Vec<Vec<VectorId>> = Vec::new();
        neighbors.push(Vec::new());
        let r = HNSWNode { id, vector, level: 0, neighbors, is_deleted: false };
        assert(lists_view(r.neighbors@) =~= seq![Seq::<VectorId>::empty()]);
        r
    }

    /// The identifier.
    pub fn id(&self) -> (r: &VectorId)
        ensures
            *r == self.view_node().id,
    {
        &self.id
    }

    /// The vector's bits.
    pub fn vector(&self) -> (r: &Vec<u32>)
        ensures
            r@ == self.view_node().vector,
    {
        &self.vector
    }

    /// The top layer.
    pub fn level(&self) -> (r: usize)
        ensures
            r == self.view_node().level,
    {
        self.level
    }

    /// The number of neighbour lists.
    pub fn layer_count(&self) -> (r: usize)
        ensures
            r == self.view_node().neighbors.len(),
    {
        self.neighbors.len()
    }

    /// The neighbours on a layer.
    pub fn neighbors(&self, layer: usize) -> (r: &Vec<VectorId>)
        requires
            layer < self.view_node().neighbors.len(),
        ensures
            r@ == self.view_node().neighbors[layer as int],
    {
        &self.neighbors[layer]
    }

    /// Sets the top layer; the neighbour lists become one per layer up to it,
    /// keeping those that remain and adding empty ones.
    pub fn set_level(&mut self, level: usize)
        requires
            level < usize::MAX,
        ensures
            final(self).view_node().level == level,
            final(self).view_node().neighbors.len() == level + 1,
            forall|l: int| 0 <= l <= level ==> #[trigger] final(self).view_node().neighbors[l]
                == if l < old(self).view_node().neighbors.len() { old(self).view_node().neighbors[l] } else { Seq::<VectorId>::empty() },
            final(self).view_node().id == old(self).view_node().id,
            final(self).view_node().vector == old(self).view_node().vector,
            final(self).view_node().deleted == old(self).view_node().deleted,
    {
        let mut lists: Vec<Vec<VectorId>> = Vec::new();
        std::mem::swap(&mut lists, &mut self.neighbors);
        let ghost old_lists = lists_view(lists@);
        assert(forall|l: int| 0 <= l < lists.len() ==> (#[trigger] lists@[l])@ == old_lists[l]);
        while lists.len() > level + 1
            invariant
                level < usize::MAX,
                old_lists.len() >= lists.len(),
                lists.len() == old_lists.len() || lists.len() >= level + 1,
                forall|l: int| 0 <= l < lists.len() ==> (#[trigger] lists@[l])@ == old_lists[l],
            decreases lists.len(),
        {
            lists.pop();
        }
        while lists.len() < level + 1
            invariant
                level < usize::MAX,
                lists.len() <= level + 1,
                lists.len() >= old_lists.len() || lists.len() >= level + 1,
                forall|l: int| 0 <= l < lists.len() && l < old_lists.len() ==> (#[trigger] lists@[l])@ == old_lists[l],
                forall|l: int| old_lists.len() <= l < lists.len() ==> (#[trigger] lists@[l])@ == Seq::<VectorId>::empty(),
            decreases level + 1 - lists.len(),
        {
            lists.push(Vec::new());
        }
        self.neighbors = lists;
        self.level = level;
    }

    /// Adds a neighbour on a layer, unless it is there already; lists up to
    /// the layer are added first where missing.
    pub fn add_neighbor(&mut self, layer: usize, neighbor: VectorId)
        requires
            layer < usize::MAX,
        ensures
            final(self).view_node().id == old(self).view_node().id,
            final(self).view_node().vector == old(self).view_node().vector,
            final(self).view_node().level == old(self).view_node().level,
            final(self).view_node().deleted == old(self).view_node().deleted,
            final(self).view_node().neighbors.len() == if layer < old(self).view_node().neighbors.len() {
                old(self).view_node().neighbors.len() as int } else { layer + 1 },
            forall|l: int| 0 <= l < final(self).view_node().neighbors.len() && l != layer ==>
                #[trigger] final(self).view_node().neighbors[l] == if l < old(self).view_node().neighbors.len() {
                    old(self).view_node().neighbors[l] } else { Seq::<VectorId>::empty() },
            ({
                let before = if layer < old(self).view_node().neighbors.len() { old(self).view_node().neighbors[layer as int] }
                    else { Seq::<VectorId>::empty() };
                final(self).view_node().neighbors[layer as int] == if before.contains(neighbor) { before } else { before.push(neighbor) }
            }),
    {
        let mut lists: Vec<Vec<VectorId>> = Vec::new();
        std::mem::swap(&mut lists, &mut self.neighbors);
        let ghost old_lists = lists_view(lists@);
        assert(forall|l: int| 0 <= l < lists.len() ==> (#[trigger] lists@[l])@ == old_lists[l]);
        while lists.len() <= layer
            invariant
                layer < usize::MAX,
                lists.len() >= old_lists.len(),
                lists.len() <= layer + 1 || lists.len() == old_lists.len(),
                forall|l: int| 0 <= l < old_lists.len() ==> (#[trigger] lists@[l])@ == old_lists[l],
                forall|l: int| old_lists.len() <= l < lists.len() ==> (#[trigger] lists@[l])@ == Seq::<VectorId>::empty(),
            decreases layer + 1 - lists.len(),
        {
            lists.push(Vec::new());
        }
        let mut list: Vec<VectorId> = Vec::new();
        std::mem::swap(&mut list, &mut lists[layer]);
        let ghost before = list@;
        if !list_contains(&list, &neighbor) {
            list.push(neighbor);
        }
        std::mem::swap(&mut list, &mut lists[layer]);
        self.neighbors = lists;
    }

    /// Replaces the neighbours on a layer.
    fn set_neighbors(&mut self, layer: usize, list: Vec<VectorId>)
        requires
            layer < old(self).view_node().neighbors.len(),
        ensures
            final(self).view_node() == (NodeView {
                neighbors: old(self).view_node().neighbors.update(layer as int, list@),
                ..old(self).view_node()
            }),
    {
        let mut l = list;
        std::mem::swap(&mut l, &mut self.neighbors[layer]);
        assert(lists_view(self.neighbors@) =~= lists_view(old(self).neighbors@).update(layer as int, list@));
    }

    /// Whether the node is marked deleted.
    pub fn is_deleted(&self) -> (r: bool)
        ensures
            r == self.view_node().deleted,
    {
        self.is_deleted
    }

    /// Marks the node deleted.
    pub fn mark_deleted(&mut self)
        ensures
            final(self).view_node() == (NodeView { deleted: true, ..old(self).view_node() }),
    {
        self.is_deleted = true;
    }
}

/// Whether the list holds the identifier.
pub(crate) fn list_contains(list: &Vec<VectorId>, id: &VectorId) -> (r: bool)
    ensures
        r == list@.contains(*id),
{
    let mut i: usize = 0;
    while i < list.len()
        invariant
            i <= list.len(),
            forall|j: int| 0 <= j < i ==> list@[j] != *id,
        decreases list.len() - i,
    {
        if list[i] == *id {
            assert(list@[i as int].0@ =~= id.0@);
            assert(list@[i as int].0 =~= id.0);
            assert(list@[i as int] == *id);
            return true;
        }
        proof {
            if list@[i as int] == *id {
                assert(list@[i as int].0@ == id.0@);
            }
        }
        i = i + 1;
    }
    false
}

// ---------------------------------------------------------------------------
// The graph
// ---------------------------------------------------------------------------

/// The bucket of an identifier in the position index: its first eight
/// bytes.
pub open spec fn id_key(id: VectorId) -> u64 {
    (id.0@[0] as u64) | ((id.0@[1] as u64) << 8u64) | ((id.0@[2] as u64) << 16u64) | ((id.0@[3] as u64) << 24u64)
        | ((id.0@[4] as u64) << 32u64) | ((id.0@[5] as u64) << 40u64) | ((id.0@[6] as u64) << 48u64)
        | ((id.0@[7] as u64) << 56u64)
}

fn key_of(id: &VectorId) -> (r: u64)
    ensures
        r == id_key(*id),
{
    (id.0[0] as u64) | ((id.0[1] as u64) << 8u64) | ((id.0[2] as u64) << 16u64) | ((id.0[3] as u64) << 24u64)
        | ((id.0[4] as u64) << 32u64) | ((id.0[5] as u64) << 40u64) | ((id.0[6] as u64) << 48u64)
        | ((id.0[7] as u64) << 56u64)
}

/// The nodes of a graph, each by what it holds.
pub open spec fn nodes_view(v: Seq<HNSWNode>) -> Seq<NodeView> {
    v.map_values(|n: HNSWNode| n.view_node())
}

/// Some node has the identifier.
pub open spec fn has_id(ns: Seq<NodeView>, id: VectorId) -> bool {
    exists|p: int| 0 <= p < ns.len() && (#[trigger] ns[p]).id == id
}

/// The position of the identifier; meaningful where `has_id` holds.
pub open spec fn pos_of(ns: Seq<NodeView>, id: VectorId) -> int {
    choose|p: int| 0 <= p < ns.len() && (#[trigger] ns[p]).id == id
}

/// Identifiers do not repeat, and each node has a neighbour list for every
/// layer up to its own, none with a repeat.
pub open spec fn nodes_valid(ns: Seq<NodeView>) -> bool {
    &&& forall|p: int, q: int| 0 <= p < q < ns.len() ==> #[trigger] ns[p].id != #[trigger] ns[q].id
    &&& forall|p: int| 0 <= p < ns.len() ==> #[trigger] ns[p].neighbors.len() > ns[p].level
    &&& forall|p: int, l: int| 0 <= p < ns.len() && 0 <= l < ns[p].neighbors.len() ==> no_repeats(#[trigger] ns[p].neighbors[l])
}

/// An HNSW graph: its nodes, an index of their positions, the entry point
/// and the dimension of its vectors.
pub struct HNSWIndex {
    config: HNSWConfig,
    nodes: Vec<HNSWNode>,
    index: HashMap<u64, Vec<usize>>,
    entry_point: Option<VectorId>,
    dimension: Option<usize>,
}

impl HNSWIndex {
    /// The nodes, by what they hold.
    pub closed spec fn nodes_spec(&self) -> Seq<NodeView> {
        nodes_view(self.nodes@)
    }

    /// The settings.
    pub closed spec fn config_spec(&self) -> HNSWConfig {
        self.config
    }

    /// The entry point.
    pub closed spec fn entry_spec(&self) -> Option<VectorId> {
        self.entry_point
    }

    /// The dimension of the vectors, once known.
    pub closed spec fn dimension_spec(&self) -> Option<usize> {
        self.dimension
    }

    /// The nodes are valid and the index finds each of them.
    pub closed spec fn wf(&self) -> bool {
        &&& nodes_valid(self.nodes_spec())
        &&& forall|p: int| 0 <= p < self.nodes@.len() ==> #[trigger] self.index@.contains_key(id_key(self.nodes@[p].id))
            && self.index@[id_key(self.nodes@[p].id)]@.contains(p as usize)
        &&& forall|k: u64, j: int| #[trigger] self.index@.contains_key(k) && 0 <= j < self.index@[k]@.len()
            ==> (#[trigger] self.index@[k]@[j]) < self.nodes@.len() && id_key(self.nodes@[self.index@[k]@[j] as int].id) == k
    }

    /// An empty graph.
    pub fn new(config: HNSWConfig) -> (r: Self)
        ensures
            r.wf(),
            r.config_spec() == config,
            r.nodes_spec() == Seq::<NodeView>::empty(),
            r.entry_spec() is None,
            r.dimension_spec() is None,
    {
        let r = HNSWIndex { config, nodes: Vec::new(), index: HashMap::new(), entry_point: None, dimension: None };
        assert(r.nodes_spec() =~= Seq::<NodeView>::empty());
        r
    }

    /// The position of the identifier.
    pub fn find(&self, id: &VectorId) -> (r: Option<usize>)
        requires
            self.wf(),
        ensures
            match r {
                Some(p) => p < self.nodes_spec().len() && self.nodes_spec()[p as int].id == *id
                    && has_id(self.nodes_spec(), *id) && pos_of(self.nodes_spec(), *id) == p,
                None => !has_id(self.nodes_spec(), *id),
            },
    {
        broadcast use vstd::std_specs::hash::group_hash_axioms;
        let k = key_of(id);
        let ghost ns = self.nodes_spec();
        match self.index.get(&k) {
            Some(bucket) => {
                let mut j: usize = 0;
                while j < bucket.len()
                    invariant
                        self.wf(),
                        ns == self.nodes_spec(),
                        k == id_key(*id),
                        self.index@.contains_key(k),
                        bucket@ == self.index@[k]@,
                        j <= bucket.len(),
                        forall|t: int| 0 <= t < j ==> ns[bucket@[t] as int].id != *id,
                    decreases bucket.len() - j,
                {
                    let p = bucket[j];
                    assert(self.index@[k]@[j as int] == p);
                    assert(p < self.nodes@.len());
                    if self.nodes[p].id == *id {
                        assert(self.nodes@[p as int].id.0@ =~= id.0@);
                        assert(self.nodes@[p as int].id.0 =~= id.0);
                        assert(ns[p as int].id == *id);
                        proof {
                            self.lemma_pos_of(p as int);
                            assert(has_id(self.nodes_spec(), *id));
                            assert(pos_of(self.nodes_spec(), *id) == p);
                        }
                        return Some(p);
                    }
                    proof {
                        if ns[p as int].id == *id {
                            assert(self.nodes@[p as int].id.0@ == id.0@);
                        }
                    }
                    j = j + 1;
                }
                proof {
                    if has_id(ns, *id) {
                        let p = choose|p: int| 0 <= p < ns.len() && (#[trigger] ns[p]).id == *id;
                        assert(ns.len() == self.nodes@.len());
                        assert(self.nodes@.len() == self.nodes.len());
                        assert(p == (p as usize) as int);
                        assert(ns[p].id == self.nodes@[p].id);
                        assert(self.index@.contains_key(id_key(self.nodes@[p].id)));
                        assert(self.index@[k]@.contains(p as usize));
                        let t = choose|t: int| 0 <= t < self.index@[k]@.len() && self.index@[k]@[t] == p as usize;
                        assert(ns[bucket@[t] as int].id != *id);
                    }
                    assert(!has_id(ns, *id));
                }
                None
            },
            None => {
                proof {
                    if has_id(ns, *id) {
                        let p = choose|p: int| 0 <= p < ns.len() && (#[trigger] ns[p]).id == *id;
                        assert(ns[p].id == self.nodes@[p].id);
                        assert(self.index@.contains_key(id_key(self.nodes@[p].id)));
                    }
                }
                None
            },
        }
    }

    /// The nodes of a well-formed index are valid: no identifier twice, and
    /// each node has a list without repeats for every layer up to its own.
    pub proof fn lemma_wf_nodes_valid(&self)
        requires
            self.wf(),
        ensures
            nodes_valid(self.nodes_spec()),
    {
    }

    /// The positions and layers of the nodes of an index fit in `usize`.
    pub proof fn lemma_positions_fit(&self)
        ensures
            positions_fit(self.nodes_spec()),
    {
        broadcast use vstd::std_specs::vec::group_vec_axioms;
        assert(self.nodes.len() == self.nodes@.len());
        assert forall|q: int| 0 <= q < self.nodes_spec().len() implies (#[trigger] self.nodes_spec()[q]).neighbors.len() <= usize::MAX by {
            assert(self.nodes_spec()[q] == self.nodes@[q].view_node());
            assert(self.nodes@[q].neighbors.len() == self.nodes@[q].neighbors@.len());
        }
    }

    /// A node's identifier has only its position.
    proof fn lemma_pos_of(&self, p: int)
        requires
            self.wf(),
            0 <= p < self.nodes_spec().len(),
        ensures
            has_id(self.nodes_spec(), self.nodes_spec()[p].id),
            pos_of(self.nodes_spec(), self.nodes_spec()[p].id) == p,
    {
        let ns = self.nodes_spec();
        assert(has_id(ns, ns[p].id));
        let q = pos_of(ns, ns[p].id);
        if q != p {
            if q < p {
                assert(ns[q].id != ns[p].id);
            } else {
                assert(ns[p].id != ns[q].id);
            }
        }
    }

    /// The number of nodes.
    pub fn node_count(&self) -> (r: usize)
        ensures
            r == self.nodes_spec().len(),
    {
        self.nodes.len()
    }

    /// The entry point.
    pub fn entry_point(&self) -> (r: Option<VectorId>)
        ensures
            r == self.entry_spec(),
    {
        match &self.entry_point {
            Some(e) => Some(e.clone()),
            None => None,
        }
    }

    /// The dimension of the vectors, once known.
    pub fn dimension(&self) -> (r: Option<usize>)
        ensures
            r == self.dimension_spec(),
    {
        self.dimension
    }

    /// The settings.
    pub fn config(&self) -> (r: &HNSWConfig)
        ensures
            *r == self.config_spec(),
    {
        &self.config
    }

    /// The node of the identifier.
    pub fn get_node(&self, id: &VectorId) -> (r: Option<&HNSWNode>)
        requires
            self.wf(),
        ensures
            match r {
                Some(n) => has_id(self.nodes_spec(), *id) && n.view_node() == self.nodes_spec()[pos_of(self.nodes_spec(), *id)],
                None => !has_id(self.nodes_spec(), *id),
            },
    {
        match self.find(id) {
            Some(p) => Some(&self.nodes[p]),
            None => None,
        }
    }

    /// The node at a position.
    pub fn node_at(&self, p: usize) -> (r: &HNSWNode)
        requires
            p < self.nodes_spec().len(),
        ensures
            r.view_node() == self.nodes_spec()[p as int],
    {
        &self.nodes[p]
    }
}

// ---------------------------------------------------------------------------
// Candidate lists
// ---------------------------------------------------------------------------

/// A candidate: a node position and the order key of its distance.
pub type Candidate = (usize, u64);

/// Ascending by distance.
pub open spec fn sorted_by_key(s: Seq<Candidate>) -> bool {
    forall|i: int, j: int| 0 <= i < j < s.len() ==> s[i].1 <= s[j].1
}

/// No two candidates name the same node position.
pub open spec fn distinct_pos(s: Seq<Candidate>) -> bool {
    forall|i: int, j: int| 0 <= i < j < s.len() ==> s[i].0 != s[j].0
}

/// Every element of `a` is one of `b`.
pub open spec fn elements_of(a: Seq<Candidate>, b: Seq<Candidate>) -> bool {
    forall|i: int| 0 <= i < a.len() ==> b.contains(#[trigger] a[i])
}

/// The position of a nearest candidate.
fn min_index(v: &Vec<Candidate>) -> (r: usize)
    requires
        v@.len() > 0,
    ensures
        r < v@.len(),
        forall|j: int| 0 <= j < v@.len() ==> v@[r as int].1 <= #[trigger] v@[j].1,
{
    let mut best: usize = 0;
    let mut i: usize = 1;
    while i < v.len()
        invariant
            1 <= i <= v@.len(),
            best < i,
            forall|j: int| 0 <= j < i ==> v@[best as int].1 <= #[trigger] v@[j].1,
        decreases v.len() - i,
    {
        if v[i].1 < v[best].1 {
            best = i;
        }
        i = i + 1;
    }
    best
}

/// The position of a farthest candidate.
fn max_index(v: &Vec<Candidate>) -> (r: usize)
    requires
        v@.len() > 0,
    ensures
        r < v@.len(),
        forall|j: int| 0 <= j < v@.len() ==> #[trigger] v@[j].1 <= v@[r as int].1,
{
    let mut best: usize = 0;
    let mut i: usize = 1;
    while i < v.len()
        invariant
            1 <= i <= v@.len(),
            best < i,
            forall|j: int| 0 <= j < i ==> #[trigger] v@[j].1 <= v@[best as int].1,
        decreases v.len() - i,
    {
        if v[i].1 > v[best].1 {
            best = i;
        }
        i = i + 1;
    }
    best
}

/// The candidates in ascending order of distance.
fn sort_by_key(v: Vec<Candidate>) -> (r: Vec<Candidate>)
    ensures
        r@.len() == v@.len(),
        sorted_by_key(r@),
        elements_of(r@, v@),
        elements_of(v@, r@),
        distinct_pos(v@) ==> distinct_pos(r@),
{
    let ghost orig = v@;
    let mut work = v;
    let mut r: Vec<Candidate> = Vec::new();
    assert(elements_of(work@, orig)) by {
        assert forall|i: int| 0 <= i < work@.len() implies orig.contains(#[trigger] work@[i]) by {
            assert(orig[i] == work@[i]);
        }
    }
    assert forall|j: int| 0 <= j < orig.len() implies r@.contains(#[trigger] orig[j]) || work@.contains(orig[j]) by {
        assert(work@[j] == orig[j]);
    }
    while work.len() > 0
        invariant
            r@.len() + work@.len() == orig.len(),
            sorted_by_key(r@),
            forall|i: int, j: int| 0 <= i < r@.len() && 0 <= j < work@.len() ==> (#[trigger] r@[i]).1 <= (#[trigger] work@[j]).1,
            elements_of(r@, orig),
            elements_of(work@, orig),
            forall|j: int| 0 <= j < orig.len() ==> r@.contains(#[trigger] orig[j]) || work@.contains(orig[j]),
            distinct_pos(orig) ==> distinct_pos(r@) && distinct_pos(work@)
                && forall|i: int, j: int| 0 <= i < r@.len() && 0 <= j < work@.len() ==> (#[trigger] r@[i]).0 != (#[trigger] work@[j]).0,
        decreases work@.len(),
    {
        let m = min_index(&work);
        let ghost old_r = r@;
        let ghost old_w = work@;
        let x = work.remove(m);
        r.push(x);
        proof {
            assert forall|i: int| 0 <= i < work@.len() implies orig.contains(#[trigger] work@[i]) by {
                if i < m { assert(work@[i] == old_w[i]); } else { assert(work@[i] == old_w[i + 1]); }
                assert(old_w.contains(work@[i]) ==> orig.contains(work@[i]));
                if i < m { assert(old_w[i] == work@[i]); } else { assert(old_w[i + 1] == work@[i]); }
            }
            assert forall|i: int| 0 <= i < r@.len() implies orig.contains(#[trigger] r@[i]) by {
                if i < old_r.len() {
                    assert(r@[i] == old_r[i]);
                } else {
                    assert(r@[i] == old_w[m as int]);
                }
            }
            assert forall|i: int, j: int| 0 <= i < r@.len() && 0 <= j < work@.len() implies (#[trigger] r@[i]).1 <= (#[trigger] work@[j]).1 by {
                let j2 = if j < m { j } else { j + 1 };
                assert(work@[j] == old_w[j2]);
                if i < old_r.len() {
                    assert(r@[i] == old_r[i]);
                }
            }
            if distinct_pos(orig) {
                assert forall|i: int, j: int| 0 <= i < j < r@.len() implies r@[i].0 != r@[j].0 by {
                    if j < old_r.len() {
                        assert(r@[i] == old_r[i] && r@[j] == old_r[j]);
                    } else {
                        assert(r@[i] == old_r[i]);
                        assert(r@[j] == old_w[m as int]);
                    }
                }
                assert forall|i: int, j: int| 0 <= i < j < work@.len() implies work@[i].0 != work@[j].0 by {
                    let i2 = if i < m { i } else { i + 1 };
                    let j2 = if j < m { j } else { j + 1 };
                    assert(work@[i] == old_w[i2] && work@[j] == old_w[j2]);
                }
                assert forall|i: int, j: int| 0 <= i < r@.len() && 0 <= j < work@.len() implies (#[trigger] r@[i]).0 != (#[trigger] work@[j]).0 by {
                    let j2 = if j < m { j } else { j + 1 };
                    assert(work@[j] == old_w[j2]);
                    if i < old_r.len() {
                        assert(r@[i] == old_r[i]);
                    } else {
                        assert(r@[i] == old_w[m as int]);
                    }
                }
            }
            assert forall|j: int| 0 <= j < orig.len() implies r@.contains(#[trigger] orig[j]) || work@.contains(orig[j]) by {
                if old_r.contains(orig[j]) {
                    let i = choose|i: int| 0 <= i < old_r.len() && old_r[i] == orig[j];
                    assert(r@[i] == old_r[i]);
                } else {
                    assert(old_w.contains(orig[j]));
                    let i = choose|i: int| 0 <= i < old_w.len() && old_w[i] == orig[j];
                    if i == m {
                        assert(r@[old_r.len() as int] == old_w[m as int]);
                    } else if i < m {
                        assert(work@[i] == old_w[i]);
                    } else {
                        assert(work@[i - 1] == old_w[i]);
                    }
                }
            }
        }
    }
    assert forall|j: int| 0 <= j < orig.len() implies r@.contains(#[trigger] orig[j]) by {
        assert(r@.contains(orig[j]) || work@.contains(orig[j]));
    }
    r
}

/// The `k` nearest of the candidates, nearest first: the candidates sorted
/// by key and cut to `k`; every candidate left out is no nearer than any
/// kept.
pub fn rank_candidates(v: Vec<Candidate>, k: usize) -> (r: Vec<Candidate>)
    ensures
        r@.len() == if k < v@.len() { k as int } else { v@.len() as int },
        sorted_by_key(r@),
        elements_of(r@, v@),
        distinct_pos(v@) ==> distinct_pos(r@),
        forall|i: int, j: int| 0 <= i < r@.len() && 0 <= j < v@.len() && !r@.contains(#[trigger] v@[j])
            ==> (#[trigger] r@[i]).1 <= v@[j].1,
{
    let ghost orig = v@;
    let mut s = sort_by_key(v);
    let ghost full = s@;
    s.truncate(k);
    proof {
        assert forall|i: int, j: int| 0 <= i < s@.len() && 0 <= j < orig.len() && !s@.contains(#[trigger] orig[j])
            implies (#[trigger] s@[i]).1 <= orig[j].1 by {
            assert(full.contains(orig[j]));
            let p = choose|p: int| 0 <= p < full.len() && full[p] == orig[j];
            if p < s@.len() {
                assert(s@[p] == full[p]);
            }
            assert(s@[i] == full[i]);
        }
        assert forall|i: int| 0 <= i < s@.len() implies orig.contains(#[trigger] s@[i]) by {
            assert(s@[i] == full[i]);
        }
    }
    s
}

/// The number of marked entries.
pub open spec fn count_true(s: Seq<bool>) -> nat
    decreases s.len(),
{
    if s.len() == 0 {
        0
    } else {
        count_true(s.drop_last()) + if s.last() { 1nat } else { 0nat }
    }
}

proof fn lemma_count_true_none(s: Seq<bool>)
    requires
        forall|j: int| 0 <= j < s.len() ==> !(#[trigger] s[j]),
    ensures
        count_true(s) == 0,
    decreases s.len(),
{
    if s.len() > 0 {
        lemma_count_true_none(s.drop_last());
    }
}

proof fn lemma_count_true_bound(s: Seq<bool>)
    ensures
        count_true(s) <= s.len(),
    decreases s.len(),
{
    if s.len() > 0 {
        lemma_count_true_bound(s.drop_last());
    }
}

proof fn lemma_count_true_set(s: Seq<bool>, i: int)
    requires
        0 <= i < s.len(),
        !s[i],
    ensures
        count_true(s.update(i, true)) == count_true(s) + 1,
    decreases s.len(),
{
    let t = s.update(i, true);
    if i == s.len() - 1 {
        assert(t.drop_last() =~= s.drop_last());
    } else {
        lemma_count_true_set(s.drop_last(), i);
        assert(t.drop_last() =~= s.drop_last().update(i, true));
    }
}

/// Some candidate names the node position.
pub open spec fn has_pos(s: Seq<Candidate>, q: int) -> bool {
    exists|j: int| 0 <= j < s.len() && s[j].0 == q
}

/// Every candidate's key is at most `d`.
pub open spec fn keys_at_most(s: Seq<Candidate>, d: u64) -> bool {
    forall|j: int| 0 <= j < s.len() ==> s[j].1 <= d
}

/// How many candidates a layer search keeps at most.
pub open spec fn search_cap(ef: nat) -> nat {
    if ef == 0 { 1 } else { ef }
}

/// Node position `q` is a neighbour of node position `x` on the layer: `x`
/// reaches the layer and its list there names `q`'s identifier.
pub open spec fn is_layer_nbr(ns: Seq<NodeView>, x: int, layer: nat, q: int) -> bool {
    &&& 0 <= q < ns.len()
    &&& ns[x].level >= layer
    &&& ns[x].neighbors[layer as int].contains(ns[q].id)
}

/// A layer search's result is closed under the neighbours of what it found:
/// every neighbour on the layer, not marked deleted, of a found node is
/// found too, unless the result is full and that neighbour is no nearer than
/// the farthest found.
pub open spec fn layer_closed(r: Seq<Candidate>, ns: Seq<NodeView>, ef: nat, layer: nat, dist: Seq<u64>) -> bool {
    forall|i: int, q: int| 0 <= i < r.len() && #[trigger] is_layer_nbr(ns, r[i].0 as int, layer, q) && !ns[q].deleted
        ==> has_pos(r, q) || (r.len() == search_cap(ef) && dist[q] >= r[r.len() - 1].1)
}

/// Each visited node that the search considered is kept, or the kept set
/// is full and no farther than it.
spec fn settled(ns: Seq<NodeView>, visited: Seq<bool>, entry: int, w: Seq<Candidate>, ef: nat, dist: Seq<u64>) -> bool {
    forall|q: int| 0 <= q < ns.len() && #[trigger] visited[q] && (!ns[q].deleted || q == entry) && !has_pos(w, q)
        ==> w.len() == search_cap(ef) && keys_at_most(w, dist[q])
}

/// The neighbours on the layer of each expanded node are visited.
spec fn expanded_closed(ns: Seq<NodeView>, visited: Seq<bool>, layer: nat, expanded: Set<int>) -> bool {
    forall|x: int, q: int| expanded.contains(x) && #[trigger] is_layer_nbr(ns, x, layer, q) ==> visited[q]
}

/// Step `i` of a path of node positions is an edge of the layer to a node
/// not marked deleted.
pub open spec fn layer_step(ns: Seq<NodeView>, layer: nat, path: Seq<int>, i: int) -> bool {
    is_layer_nbr(ns, path[i], layer, path[i + 1]) && !ns[path[i + 1]].deleted
}

/// A path of node positions along the edges of a layer, each step to a node
/// not marked deleted.
pub open spec fn layer_path(ns: Seq<NodeView>, layer: nat, path: Seq<int>) -> bool {
    &&& path.len() >= 1
    &&& forall|i: int| 0 <= i < path.len() - 1 ==> #[trigger] layer_step(ns, layer, path, i)
}

/// Node position `q` is reached from `e` along the layer's edges through
/// nodes not marked deleted.
pub open spec fn reachable(ns: Seq<NodeView>, layer: nat, e: int, q: int) -> bool {
    exists|path: Seq<int>| #[trigger] layer_path(ns, layer, path) && path[0] == e && path.last() == q
}

proof fn lemma_reach_start(ns: Seq<NodeView>, layer: nat, e: int)
    ensures
        reachable(ns, layer, e, e),
{
    let path = seq![e];
    assert(layer_path(ns, layer, path));
}

proof fn lemma_reach_step(ns: Seq<NodeView>, layer: nat, e: int, x: int, q: int)
    requires
        reachable(ns, layer, e, x),
        is_layer_nbr(ns, x, layer, q),
        !ns[q].deleted,
    ensures
        reachable(ns, layer, e, q),
{
    let path = choose|path: Seq<int>| #[trigger] layer_path(ns, layer, path) && path[0] == e && path.last() == x;
    let p2 = path.push(q);
    assert forall|i: int| 0 <= i < p2.len() - 1 implies #[trigger] layer_step(ns, layer, p2, i) by {
        if i < path.len() - 1 {
            assert(layer_step(ns, layer, path, i));
            assert(p2[i] == path[i] && p2[i + 1] == path[i + 1]);
        } else {
            assert(p2[i] == x && p2[i + 1] == q);
        }
    }
    assert(layer_path(ns, layer, p2));
    assert(p2[0] == e && p2.last() == q);
}

/// What a search of a layer returns from the entry position `e`: at least
/// one and at most `max(ef, 1)` candidates in ascending order of distance,
/// no node twice, each a node position with its distance key, each the entry or a node not
/// marked deleted, the nearest no farther than the entry.
pub open spec fn layer_result(r: Seq<Candidate>, ns: Seq<NodeView>, e: int, ef: nat, dist: Seq<u64>) -> bool {
    &&& 1 <= r.len() <= if ef == 0 { 1 } else { ef }
    &&& sorted_by_key(r)
    &&& distinct_pos(r)
    &&& forall|i: int| 0 <= i < r.len() ==> (#[trigger] r[i]).0 < ns.len() && r[i].1 == dist[r[i].0 as int]
        && (r[i].0 == e || !ns[r[i].0 as int].deleted)
    &&& r[0].1 <= dist[e]
}

impl HNSWIndex {
    /// A best-first search of one layer from the entry position: nodes are
    /// expanded nearest first, neighbours not yet seen and not marked deleted
    /// join while fewer than `ef` are kept or they are nearer than the
    /// farthest kept, and the search stops when the nearest unexpanded node
    /// is farther than every kept one; every kept node is reached from the
    /// entry along the layer's edges. `dist` holds the distance key of each
    /// node position.
    pub fn search_layer(&self, entry: usize, ef: usize, layer: usize, dist: &Vec<u64>) -> (r: Vec<Candidate>)
        requires
            self.wf(),
            entry < self.nodes_spec().len(),
            dist@.len() == self.nodes_spec().len(),
        ensures
            layer_result(r@, self.nodes_spec(), entry as int, ef as nat, dist@),
            layer_closed(r@, self.nodes_spec(), ef as nat, layer as nat, dist@),
            forall|i: int| 0 <= i < r@.len() ==> reachable(self.nodes_spec(), layer as nat, entry as int, (#[trigger] r@[i]).0 as int),
    {
        let n = self.nodes.len();
        let ghost ns = self.nodes_spec();
        let mut visited: Vec<bool> = Vec::new();
        let mut t: usize = 0;
        while t < n
            invariant
                t <= n,
                visited@.len() == t,
                forall|j: int| 0 <= j < t ==> !(#[trigger] visited@[j]),
            decreases n - t,
        {
            visited.push(false);
            t = t + 1;
        }
        proof {
            lemma_count_true_none(visited@);
            lemma_count_true_set(visited@, entry as int);
        }
        let ghost vis_init = visited@;
        visited.set(entry, true);
        let mut vcount: usize = 1;
        let d0 = dist[entry];
        let mut cands: Vec<Candidate> = Vec::new();
        cands.push((entry, d0));
        let mut nearest: Vec<Candidate> = Vec::new();
        nearest.push((entry, d0));
        let mut done = false;
        let ghost mut expanded: Set<int> = Set::empty();
        assert(nearest@[0].1 <= d0);
        proof {
            assert forall|q: int| 0 <= q < ns.len() && #[trigger] visited@[q] && (!ns[q].deleted || q == entry)
                && !has_pos(nearest@, q) implies nearest@.len() == search_cap(ef as nat) && keys_at_most(nearest@, dist@[q]) by {
                if q != entry {
                    assert(visited@ == vis_init.update(entry as int, true));
                }
                assert(nearest@[0].0 == entry);
            }
            assert(has_pos(cands@, entry as int)) by { assert(cands@[0].0 == entry); }
            lemma_reach_start(ns, layer as nat, entry as int);
        }
        while !done && cands.len() > 0
            invariant
                self.wf(),
                ns == self.nodes_spec(),
                n == ns.len(),
                entry < n,
                dist@.len() == n,
                d0 == dist@[entry as int],
                visited@.len() == n,
                vcount == count_true(visited@),
                vcount <= n,
                visited@[entry as int],
                forall|i: int| 0 <= i < cands@.len() ==> (#[trigger] cands@[i]).0 < n && cands@[i].1 == dist@[cands@[i].0 as int],
                1 <= nearest@.len() <= if ef == 0 { 1 } else { ef as int },
                forall|i: int| 0 <= i < nearest@.len() ==> (#[trigger] nearest@[i]).0 < n
                    && nearest@[i].1 == dist@[nearest@[i].0 as int]
                    && (nearest@[i].0 == entry || !ns[nearest@[i].0 as int].deleted),
                exists|i: int| 0 <= i < nearest@.len() && (#[trigger] nearest@[i]).1 <= d0,
                distinct_pos(nearest@),
                forall|i: int| 0 <= i < nearest@.len() ==> visited@[(#[trigger] nearest@[i]).0 as int],
                settled(ns, visited@, entry as int, nearest@, ef as nat, dist@),
                expanded_closed(ns, visited@, layer as nat, expanded),
                forall|j: int| 0 <= j < nearest@.len() ==> expanded.contains((#[trigger] nearest@[j]).0 as int)
                    || has_pos(cands@, nearest@[j].0 as int),
                done ==> forall|c: int, j: int| 0 <= c < cands@.len() && 0 <= j < nearest@.len()
                    ==> (#[trigger] nearest@[j]).1 < (#[trigger] cands@[c]).1,
                forall|i: int| 0 <= i < cands@.len() ==> reachable(ns, layer as nat, entry as int, (#[trigger] cands@[i]).0 as int),
                forall|i: int| 0 <= i < nearest@.len() ==> reachable(ns, layer as nat, entry as int, (#[trigger] nearest@[i]).0 as int),
            decreases 2 * (n - vcount) + cands@.len() + if done { 0int } else { 1int },
        {
            let ci = min_index(&cands);
            let ghost cands0 = cands@;
            let cur = cands.remove(ci);
            proof {
                assert(cur == cands0[ci as int]);
                assert(reachable(ns, layer as nat, entry as int, cur.0 as int));
                assert forall|i: int| 0 <= i < cands@.len() implies reachable(ns, layer as nat, entry as int, (#[trigger] cands@[i]).0 as int) by {
                    let i2 = if i < ci { i } else { i + 1 };
                    assert(cands@[i] == cands0[i2]);
                }
                assert forall|x: int| has_pos(cands0, x) && x != cur.0 implies has_pos(cands@, x) by {
                    let c = choose|c: int| 0 <= c < cands0.len() && cands0[c].0 == x;
                    let c2 = if c < ci { c } else { c - 1 };
                    assert(cands@[c2] == cands0[c]);
                }
            }
            let w = max_index(&nearest);
            if cur.1 > nearest[w].1 {
                done = true;
                proof {
                    assert forall|c: int, j: int| 0 <= c < cands@.len() && 0 <= j < nearest@.len()
                        implies (#[trigger] nearest@[j]).1 < (#[trigger] cands@[c]).1 by {
                        let c2 = if c < ci { c } else { c + 1 };
                        assert(cands@[c] == cands0[c2]);
                        assert(cands0[ci as int].1 <= cands0[c2].1);
                    }
                    assert forall|j: int| 0 <= j < nearest@.len() implies expanded.contains((#[trigger] nearest@[j]).0 as int)
                        || has_pos(cands@, nearest@[j].0 as int) by {
                        if nearest@[j].0 == cur.0 {
                            assert(nearest@[j].1 == cur.1);
                        }
                    }
                }
            } else {
                let node = &self.nodes[cur.0];
                proof {
                    assert(ns[cur.0 as int] == node.view_node());
                    assert(ns[cur.0 as int].neighbors.len() > ns[cur.0 as int].level);
                    assert(node.view_node().neighbors.len() == node.neighbors@.len());
                }
                proof {
                    assert forall|j: int| 0 <= j < nearest@.len() implies expanded.contains((#[trigger] nearest@[j]).0 as int)
                        || has_pos(cands@, nearest@[j].0 as int) || nearest@[j].0 == cur.0 by {
                        if !expanded.contains(nearest@[j].0 as int) && nearest@[j].0 != cur.0 {
                            assert(has_pos(cands0, nearest@[j].0 as int));
                        }
                    }
                }
                if node.level >= layer {
                    let nbrs = &node.neighbors[layer];
                    proof {
                        assert(nbrs@ == ns[cur.0 as int].neighbors[layer as int]);
                    }
                    let ghost vc0 = vcount;
                    let ghost cl0 = cands@.len();
                    let mut k: usize = 0;
                    while k < nbrs.len()
                        invariant
                            self.wf(),
                            ns == self.nodes_spec(),
                            n == ns.len(),
                            entry < n,
                            dist@.len() == n,
                            d0 == dist@[entry as int],
                            visited@.len() == n,
                            vcount == count_true(visited@),
                            vcount <= n,
                            visited@[entry as int],
                            k <= nbrs@.len(),
                            2 * (n - vcount) + cands@.len() <= 2 * (n - vc0) + cl0,
                            vc0 <= vcount,
                            forall|i: int| 0 <= i < cands@.len() ==> (#[trigger] cands@[i]).0 < n && cands@[i].1 == dist@[cands@[i].0 as int],
                            1 <= nearest@.len() <= if ef == 0 { 1 } else { ef as int },
                            forall|i: int| 0 <= i < nearest@.len() ==> (#[trigger] nearest@[i]).0 < n
                                && nearest@[i].1 == dist@[nearest@[i].0 as int]
                                && (nearest@[i].0 == entry || !ns[nearest@[i].0 as int].deleted),
                            exists|i: int| 0 <= i < nearest@.len() && (#[trigger] nearest@[i]).1 <= d0,
                            distinct_pos(nearest@),
                            forall|i: int| 0 <= i < nearest@.len() ==> visited@[(#[trigger] nearest@[i]).0 as int],
                            settled(ns, visited@, entry as int, nearest@, ef as nat, dist@),
                            expanded_closed(ns, visited@, layer as nat, expanded),
                            forall|j: int| 0 <= j < nearest@.len() ==> expanded.contains((#[trigger] nearest@[j]).0 as int)
                                || has_pos(cands@, nearest@[j].0 as int) || nearest@[j].0 == cur.0,
                            nbrs@ == ns[cur.0 as int].neighbors[layer as int],
                            forall|t: int, q: int| 0 <= t < k && 0 <= q < n && #[trigger] ns[q].id == #[trigger] nbrs@[t] ==> visited@[q],
                            ns[cur.0 as int].level >= layer,
                            reachable(ns, layer as nat, entry as int, cur.0 as int),
                            forall|i: int| 0 <= i < cands@.len() ==> reachable(ns, layer as nat, entry as int, (#[trigger] cands@[i]).0 as int),
                            forall|i: int| 0 <= i < nearest@.len() ==> reachable(ns, layer as nat, entry as int, (#[trigger] nearest@[i]).0 as int),
                        decreases nbrs@.len() - k,
                    {
                        let ghost vis_a = visited@;
                        let ghost w_a = nearest@;
                        let ghost c_a = cands@;
                        match self.find(&nbrs[k]) {
                            Some(q) => {
                                proof {
                                    assert forall|q2: int| 0 <= q2 < n && #[trigger] ns[q2].id == nbrs@[k as int] implies q2 == q by {
                                        if q2 < q {
                                            assert(ns[q2].id != ns[q as int].id);
                                        } else if q2 > q {
                                            assert(ns[q as int].id != ns[q2].id);
                                        }
                                    }
                                }
                                if !visited[q] {
                                    proof {
                                        lemma_count_true_set(visited@, q as int);
                                        lemma_count_true_bound(visited@.update(q as int, true));
                                    }
                                    let ghost vis0 = visited@;
                                    proof {
                                        assert forall|i: int| 0 <= i < nearest@.len() implies (#[trigger] nearest@[i]).0 != q by {
                                            assert(vis0[nearest@[i].0 as int]);
                                        }
                                        assert(!has_pos(nearest@, q as int));
                                    }
                                    visited.set(q, true);
                                    vcount = vcount + 1;
                                    if !self.nodes[q].is_deleted {
                                        proof {
                                            assert(ns[q as int] == self.nodes@[q as int].view_node());
                                        }
                                        let d = dist[q];
                                        let w2 = max_index(&nearest);
                                        if d < nearest[w2].1 || nearest.len() < ef {
                                            cands.push((q, d));
                                            let ghost before = nearest@;
                                            nearest.push((q, d));
                                            proof {
                                                assert(is_layer_nbr(ns, cur.0 as int, layer as nat, q as int)) by {
                                                    assert(nbrs@[k as int] == ns[q as int].id);
                                                    assert(ns[cur.0 as int].neighbors[layer as int][k as int] == ns[q as int].id);
                                                }
                                                lemma_reach_step(ns, layer as nat, entry as int, cur.0 as int, q as int);
                                                assert forall|i: int| 0 <= i < cands@.len() implies reachable(ns, layer as nat, entry as int, (#[trigger] cands@[i]).0 as int) by {
                                                    if i < c_a.len() {
                                                        assert(cands@[i] == c_a[i]);
                                                    }
                                                }
                                                assert forall|i: int| 0 <= i < nearest@.len() implies reachable(ns, layer as nat, entry as int, (#[trigger] nearest@[i]).0 as int) by {
                                                    if i < before.len() {
                                                        assert(nearest@[i] == before[i]);
                                                    }
                                                }
                                                let i0 = choose|i: int| 0 <= i < before.len() && (#[trigger] before[i]).1 <= d0;
                                                assert(nearest@[i0] == before[i0]);
                                                assert forall|i: int, j: int| 0 <= i < j < nearest@.len() implies nearest@[i].0 != nearest@[j].0 by {
                                                    assert(nearest@[i] == before[i]);
                                                    if j < before.len() {
                                                        assert(nearest@[j] == before[j]);
                                                    }
                                                }
                                                assert forall|i: int| 0 <= i < nearest@.len() implies visited@[(#[trigger] nearest@[i]).0 as int] by {
                                                    if i < before.len() {
                                                        assert(nearest@[i] == before[i]);
                                                    }
                                                }
                                                assert(has_pos(nearest@, q as int)) by {
                                                    assert(nearest@[before.len() as int].0 == q);
                                                }
                                                assert forall|x: int| has_pos(before, x) implies has_pos(nearest@, x) by {
                                                    let j = choose|j: int| 0 <= j < before.len() && before[j].0 == x;
                                                    assert(nearest@[j] == before[j]);
                                                }
                                                assert forall|x: int| has_pos(c_a, x) implies has_pos(cands@, x) by {
                                                    let j = choose|j: int| 0 <= j < c_a.len() && c_a[j].0 == x;
                                                    assert(cands@[j] == c_a[j]);
                                                }
                                                assert(has_pos(cands@, q as int)) by {
                                                    assert(cands@[c_a.len() as int].0 == q);
                                                }
                                                assert forall|j: int| 0 <= j < nearest@.len() implies expanded.contains((#[trigger] nearest@[j]).0 as int)
                                                    || has_pos(cands@, nearest@[j].0 as int) || nearest@[j].0 == cur.0 by {
                                                    if j < before.len() {
                                                        assert(nearest@[j] == before[j]);
                                                    }
                                                }
                                            }
                                            if nearest.len() > ef {
                                                let w3 = max_index(&nearest);
                                                let ghost before2 = nearest@;
                                                let ghost i1 = choose|i: int| 0 <= i < before2.len() && (#[trigger] before2[i]).1 <= d0;
                                                nearest.remove(w3);
                                                proof {
                                                    assert forall|i: int| 0 <= i < nearest@.len() implies reachable(ns, layer as nat, entry as int, (#[trigger] nearest@[i]).0 as int) by {
                                                        let i2 = if i < w3 { i } else { i + 1 };
                                                        assert(nearest@[i] == before2[i2]);
                                                    }
                                                    assert forall|i: int, j: int| 0 <= i < j < nearest@.len() implies nearest@[i].0 != nearest@[j].0 by {
                                                        let i2 = if i < w3 { i } else { i + 1 };
                                                        let j2 = if j < w3 { j } else { j + 1 };
                                                        assert(nearest@[i] == before2[i2] && nearest@[j] == before2[j2]);
                                                    }
                                                    assert forall|i: int| 0 <= i < nearest@.len() implies visited@[(#[trigger] nearest@[i]).0 as int] by {
                                                        let i2 = if i < w3 { i } else { i + 1 };
                                                        assert(nearest@[i] == before2[i2]);
                                                    }
                                                    if i1 != w3 {
                                                        let i2 = if i1 < w3 { i1 } else { i1 - 1 };
                                                        assert(nearest@[i2] == before2[i1]);
                                                    } else {
                                                        let o: int = if w3 == 0 { 1 } else { 0 };
                                                        assert(before2[o].1 <= before2[w3 as int].1);
                                                        let i2 = if o < w3 { o } else { o - 1 };
                                                        assert(nearest@[i2] == before2[o]);
                                                    }
                                                    assert forall|j: int| 0 <= j < nearest@.len() implies expanded.contains((#[trigger] nearest@[j]).0 as int)
                                                        || has_pos(cands@, nearest@[j].0 as int) || nearest@[j].0 == cur.0 by {
                                                        let j2 = if j < w3 { j } else { j + 1 };
                                                        assert(nearest@[j] == before2[j2]);
                                                    }
                                                    // the kept set was full and is full again
                                                    assert(before.len() == search_cap(ef as nat));
                                                    assert(d < w_a[w2 as int].1);
                                                    assert(nearest@.len() == search_cap(ef as nat));
                                                    assert forall|x: int| has_pos(before2, x) && x != before2[w3 as int].0 implies has_pos(nearest@, x) by {
                                                        let j = choose|j: int| 0 <= j < before2.len() && before2[j].0 == x;
                                                        let j2 = if j < w3 { j } else { j - 1 };
                                                        assert(nearest@[j2] == before2[j]);
                                                    }
                                                    assert forall|x: int| 0 <= x < ns.len() && #[trigger] visited@[x] && (!ns[x].deleted || x == entry)
                                                        && !has_pos(nearest@, x) implies nearest@.len() == search_cap(ef as nat) && keys_at_most(nearest@, dist@[x]) by {
                                                        assert forall|j: int| 0 <= j < nearest@.len() implies nearest@[j].1 <= dist@[x] by {
                                                            let j2 = if j < w3 { j } else { j + 1 };
                                                            assert(nearest@[j] == before2[j2]);
                                                            if x == before2[w3 as int].0 {
                                                                assert(before2[j2].1 <= before2[w3 as int].1);
                                                            } else {
                                                                assert(x != q);
                                                                assert(!has_pos(before, x));
                                                                assert(vis_a[x]);
                                                                assert(keys_at_most(w_a, dist@[x]));
                                                                assert(w_a[w2 as int].1 <= dist@[x]);
                                                                if j2 < before.len() {
                                                                    assert(before2[j2] == before[j2]);
                                                                }
                                                            }
                                                        }
                                                    }
                                                }
                                            } else {
                                                proof {
                                                    assert(before.len() < search_cap(ef as nat));
                                                    assert forall|x: int| 0 <= x < ns.len() && #[trigger] visited@[x] && (!ns[x].deleted || x == entry)
                                                        && !has_pos(nearest@, x) implies nearest@.len() == search_cap(ef as nat) && keys_at_most(nearest@, dist@[x]) by {
                                                        if x != q {
                                                            assert(vis_a[x]);
                                                            assert(!has_pos(w_a, x));
                                                        }
                                                    }
                                                }
                                            }
                                        } else {
                                            proof {
                                                assert(w_a.len() == search_cap(ef as nat));
                                                assert forall|j: int| 0 <= j < w_a.len() implies w_a[j].1 <= d by {
                                                    assert(w_a[j].1 <= w_a[w2 as int].1);
                                                }
                                                assert forall|x: int| 0 <= x < ns.len() && #[trigger] visited@[x] && (!ns[x].deleted || x == entry)
                                                    && !has_pos(nearest@, x) implies nearest@.len() == search_cap(ef as nat) && keys_at_most(nearest@, dist@[x]) by {
                                                    if x != q {
                                                        assert(vis_a[x]);
                                                    }
                                                }
                                            }
                                        }
                                    } else {
                                        proof {
                                            assert(ns[q as int] == self.nodes@[q as int].view_node());
                                            assert(q != entry);
                                            assert forall|x: int| 0 <= x < ns.len() && #[trigger] visited@[x] && (!ns[x].deleted || x == entry)
                                                && !has_pos(nearest@, x) implies nearest@.len() == search_cap(ef as nat) && keys_at_most(nearest@, dist@[x]) by {
                                                if x != q {
                                                    assert(vis_a[x]);
                                                }
                                            }
                                        }
                                    }
                                    proof {
                                        assert forall|x: int, q2: int| expanded.contains(x) && #[trigger] is_layer_nbr(ns, x, layer as nat, q2)
                                            implies visited@[q2] by {
                                            assert(vis_a[q2]);
                                        }
                                    }
                                }
                                proof {
                                    assert forall|t: int, q2: int| 0 <= t < k + 1 && 0 <= q2 < n && #[trigger] ns[q2].id == #[trigger] nbrs@[t]
                                        implies visited@[q2] by {
                                        if t < k {
                                            assert(vis_a[q2]);
                                        }
                                    }
                                }
                            },
                            None => {
                                proof {
                                    assert forall|t: int, q2: int| 0 <= t < k + 1 && 0 <= q2 < n && #[trigger] ns[q2].id == #[trigger] nbrs@[t]
                                        implies visited@[q2] by {
                                        if t == k {
                                            assert(has_id(ns, nbrs@[t]));
                                        }
                                    }
                                }
                            },
                        }
                        k = k + 1;
                    }
                }
                proof {
                    let x0 = cur.0 as int;
                    assert forall|x: int, q2: int| expanded.insert(x0).contains(x) && #[trigger] is_layer_nbr(ns, x, layer as nat, q2)
                        implies visited@[q2] by {
                        if x == x0 && !expanded.contains(x) {
                            assert(ns[x0] == self.nodes@[x0].view_node());
                            let nb = ns[x0].neighbors[layer as int];
                            let t = choose|t: int| 0 <= t < nb.len() && nb[t] == ns[q2].id;
                        }
                    }
                    expanded = expanded.insert(x0);
                }
            }
        }
        proof {
            assert forall|j: int| 0 <= j < nearest@.len() implies expanded.contains((#[trigger] nearest@[j]).0 as int) by {
                if !expanded.contains(nearest@[j].0 as int) {
                    let c = choose|c: int| 0 <= c < cands@.len() && cands@[c].0 == nearest@[j].0;
                    assert(nearest@[j].1 < cands@[c].1);
                }
            }
        }
        let r = sort_by_key(nearest);
        proof {
            assert forall|i: int, q: int| 0 <= i < r@.len() && #[trigger] is_layer_nbr(ns, r@[i].0 as int, layer as nat, q) && !ns[q].deleted
                implies has_pos(r@, q) || (r@.len() == search_cap(ef as nat) && dist@[q] >= r@[r@.len() - 1].1) by {
                assert(nearest@.contains(r@[i]));
                let j = choose|j: int| 0 <= j < nearest@.len() && nearest@[j] == r@[i];
                assert(expanded.contains(nearest@[j].0 as int));
                assert(visited@[q]);
                if has_pos(nearest@, q) {
                    let j2 = choose|j2: int| 0 <= j2 < nearest@.len() && nearest@[j2].0 == q;
                    assert(r@.contains(nearest@[j2]));
                    let i2 = choose|i2: int| 0 <= i2 < r@.len() && r@[i2] == nearest@[j2];
                    assert(r@[i2].0 == q);
                } else {
                    assert(nearest@.len() == search_cap(ef as nat) && keys_at_most(nearest@, dist@[q]));
                    assert(nearest@.contains(r@[r@.len() - 1]));
                }
            }
            let i0 = choose|i: int| 0 <= i < nearest@.len() && (#[trigger] nearest@[i]).1 <= d0;
            assert(r@.contains(nearest@[i0]));
            let j = choose|j: int| 0 <= j < r@.len() && r@[j] == nearest@[i0];
            assert forall|i: int| 0 <= i < r@.len() implies (#[trigger] r@[i]).0 < ns.len() && r@[i].1 == dist@[r@[i].0 as int]
                && (r@[i].0 == entry || !ns[r@[i].0 as int].deleted) by {
                assert(nearest@.contains(r@[i]));
            }
            if j > 0 {
                assert(r@[0].1 <= r@[j].1);
            }
            assert forall|i: int| 0 <= i < r@.len() implies reachable(ns, layer as nat, entry as int, (#[trigger] r@[i]).0 as int) by {
                assert(nearest@.contains(r@[i]));
                let j2 = choose|j2: int| 0 <= j2 < nearest@.len() && nearest@[j2] == r@[i];
                assert(reachable(ns, layer as nat, entry as int, nearest@[j2].0 as int));
            }
        }
        r
    }
}

/// The connection limit of a layer.
pub open spec fn max_conn(c: HNSWConfig, layer: nat) -> usize {
    if layer == 0 { c.max_connections_layer_0 } else { c.max_connections }
}

/// Each neighbour list of each node either stayed or gained `id` at its end;
/// nothing else about the nodes changed.
pub open spec fn lists_gain_only(before: Seq<NodeView>, after: Seq<NodeView>, id: VectorId) -> bool {
    &&& after.len() == before.len()
    &&& forall|p: int| 0 <= p < before.len() ==> {
        &&& (#[trigger] after[p]).id == before[p].id
        &&& after[p].vector == before[p].vector
        &&& after[p].level == before[p].level
        &&& after[p].deleted == before[p].deleted
        &&& after[p].neighbors.len() == before[p].neighbors.len()
        &&& forall|l: int| 0 <= l < before[p].neighbors.len() ==> #[trigger] after[p].neighbors[l] == before[p].neighbors[l]
            || after[p].neighbors[l] == before[p].neighbors[l].push(id)
    }
}

proof fn lemma_gain_only_trans(a: Seq<NodeView>, b: Seq<NodeView>, c: Seq<NodeView>, id: VectorId)
    requires
        lists_gain_only(a, b, id),
        lists_gain_only(b, c, id),
        forall|p: int, l: int| 0 <= p < b.len() && 0 <= l < b[p].neighbors.len() && c[p].neighbors[l] != b[p].neighbors[l]
            ==> !(#[trigger] b[p].neighbors[l]).contains(id),
    ensures
        lists_gain_only(a, c, id),
{
    assert forall|p: int| 0 <= p < a.len() implies {
        &&& (#[trigger] c[p]).id == a[p].id
        &&& c[p].vector == a[p].vector
        &&& c[p].level == a[p].level
        &&& c[p].deleted == a[p].deleted
        &&& c[p].neighbors.len() == a[p].neighbors.len()
        &&& forall|l: int| 0 <= l < a[p].neighbors.len() ==> #[trigger] c[p].neighbors[l] == a[p].neighbors[l]
            || c[p].neighbors[l] == a[p].neighbors[l].push(id)
    } by {
        assert(b[p].id == a[p].id);
        assert forall|l: int| 0 <= l < a[p].neighbors.len() implies #[trigger] c[p].neighbors[l] == a[p].neighbors[l]
            || c[p].neighbors[l] == a[p].neighbors[l].push(id) by {
            assert(b[p].neighbors[l] == a[p].neighbors[l] || b[p].neighbors[l] == a[p].neighbors[l].push(id));
            assert(c[p].neighbors[l] == b[p].neighbors[l] || c[p].neighbors[l] == b[p].neighbors[l].push(id));
            if b[p].neighbors[l] == a[p].neighbors[l].push(id) && c[p].neighbors[l] != b[p].neighbors[l] {
                assert(b[p].neighbors[l][a[p].neighbors[l].len() as int] == id);
            }
        }
    }
}

impl HNSWIndex {
    /// Puts a node last and indexes its position.
    fn push_node(&mut self, node: HNSWNode)
        requires
            old(self).wf(),
            !has_id(old(self).nodes_spec(), node.view_node().id),
            node.view_node().neighbors.len() > node.view_node().level,
            forall|l: int| 0 <= l < node.view_node().neighbors.len() ==> no_repeats(#[trigger] node.view_node().neighbors[l]),
        ensures
            final(self).wf(),
            final(self).nodes_spec() == old(self).nodes_spec().push(node.view_node()),
            final(self).config_spec() == old(self).config_spec(),
            final(self).entry_spec() == old(self).entry_spec(),
            final(self).dimension_spec() == old(self).dimension_spec(),
    {
        broadcast use vstd::std_specs::hash::group_hash_axioms;
        let ghost ns = self.nodes_spec();
        let ghost nv = node.view_node();
        let n = self.nodes.len();
        let key = key_of(&node.id);
        let mut bucket: Vec<usize> = match self.index.remove(&key) {
            Some(b) => b,
            None => Vec::new(),
        };
        let ghost old_bucket = bucket@;
        let ghost old_index = old(self).index@;
        bucket.push(n);
        self.index.insert(key, bucket);
        self.nodes.push(node);
        proof {
            assert(self.nodes_spec() =~= ns.push(nv));
            let ns2 = self.nodes_spec();
            assert forall|p: int, q: int| 0 <= p < q < ns2.len() implies #[trigger] ns2[p].id != #[trigger] ns2[q].id by {
                if q == ns.len() {
                    assert(ns2[p] == ns[p]);
                    if ns[p].id == nv.id {
                        assert(has_id(ns, nv.id));
                    }
                } else {
                    assert(ns2[p] == ns[p] && ns2[q] == ns[q]);
                }
            }
            assert forall|p: int| 0 <= p < ns2.len() implies #[trigger] ns2[p].neighbors.len() > ns2[p].level by {
                if p < ns.len() { assert(ns2[p] == ns[p]); }
            }
            assert forall|p: int, l: int| 0 <= p < ns2.len() && 0 <= l < ns2[p].neighbors.len() implies no_repeats(#[trigger] ns2[p].neighbors[l]) by {
                if p < ns.len() { assert(ns2[p] == ns[p]); }
            }
            assert forall|p: int| 0 <= p < self.nodes@.len() implies #[trigger] self.index@.contains_key(id_key(self.nodes@[p].id))
                && self.index@[id_key(self.nodes@[p].id)]@.contains(p as usize) by {
                if p < n {
                    assert(self.nodes@[p] == old(self).nodes@[p]);
                    assert(old_index.contains_key(id_key(old(self).nodes@[p].id)));
                    if id_key(self.nodes@[p].id) == key {
                        assert(old_index[key]@ == old_bucket);
                        let t = choose|t: int| 0 <= t < old_bucket.len() && old_bucket[t] == p as usize;
                        assert(self.index@[key]@[t] == p as usize);
                    }
                } else {
                    assert(self.index@[key]@[old_bucket.len() as int] == n);
                }
            }
            assert forall|k: u64, j: int| #[trigger] self.index@.contains_key(k) && 0 <= j < self.index@[k]@.len()
                implies (#[trigger] self.index@[k]@[j]) < self.nodes@.len() && id_key(self.nodes@[self.index@[k]@[j] as int].id) == k by {
                if k == key {
                    if j < old_bucket.len() {
                        assert(self.index@[k]@[j] == old_bucket[j]);
                        assert(old_index.contains_key(key));
                        assert(old_index[key]@[j] == old_bucket[j]);
                        assert(self.nodes@[old_bucket[j] as int] == old(self).nodes@[old_bucket[j] as int]);
                    }
                } else {
                    assert(old_index.contains_key(k));
                    assert(self.index@[k] == old_index[k]);
                    assert(self.nodes@[old_index[k]@[j] as int] == old(self).nodes@[old_index[k]@[j] as int]);
                }
            }
        }
    }
}

/// The identifier is that of one of the first `take` candidates.
pub open spec fn is_candidate_id(ns: Seq<NodeView>, cands: Seq<Candidate>, take: int, x: VectorId) -> bool {
    exists|i: int| 0 <= i < take && x == ns[cands[i].0 as int].id
}

/// The identifiers of the nodes of the first `n` candidates, in candidate
/// order, each once.
pub open spec fn candidate_ids(ns: Seq<NodeView>, cands: Seq<Candidate>, n: int) -> Seq<VectorId>
    decreases n,
{
    if n <= 0 {
        Seq::empty()
    } else {
        let prev = candidate_ids(ns, cands, n - 1);
        let x = ns[cands[n - 1].0 as int].id;
        if prev.contains(x) { prev } else { prev.push(x) }
    }
}

impl HNSWIndex {
    /// Adds `id` as a neighbour of the node at a position, on a layer it has.
    fn link(&mut self, p: usize, layer: usize, id: &VectorId)
        requires
            old(self).wf(),
            layer < usize::MAX,
            p < old(self).nodes_spec().len(),
            layer <= old(self).nodes_spec()[p as int].level,
        ensures
            final(self).wf(),
            final(self).config_spec() == old(self).config_spec(),
            final(self).entry_spec() == old(self).entry_spec(),
            final(self).dimension_spec() == old(self).dimension_spec(),
            lists_gain_only(old(self).nodes_spec(), final(self).nodes_spec(), *id),
            forall|q: int, l: int| 0 <= q < old(self).nodes_spec().len() && 0 <= l < old(self).nodes_spec()[q].neighbors.len()
                && final(self).nodes_spec()[q].neighbors[l] != old(self).nodes_spec()[q].neighbors[l]
                ==> !(#[trigger] old(self).nodes_spec()[q].neighbors[l]).contains(*id),
            final(self).nodes_spec()[p as int].neighbors[layer as int].contains(*id),
            forall|q: int, l: int| 0 <= q < old(self).nodes_spec().len() && 0 <= l < old(self).nodes_spec()[q].neighbors.len()
                && (q != p || l != layer) ==> #[trigger] final(self).nodes_spec()[q].neighbors[l] == old(self).nodes_spec()[q].neighbors[l],
    {
        let ghost ns = self.nodes_spec();
        proof {
            assert(ns[p as int].neighbors.len() > ns[p as int].level);
            assert(ns[p as int] == self.nodes@[p as int].view_node());
        }
        self.nodes[p].add_neighbor(layer, id.clone());
        proof {
            let ns2 = self.nodes_spec();
            assert forall|q: int| 0 <= q < ns.len() && q != p implies #[trigger] ns2[q] == ns[q] by {
                assert(self.nodes@[q] == old(self).nodes@[q]);
            }
            assert(ns2[p as int] == self.nodes@[p as int].view_node());
            let a = ns[p as int].neighbors[layer as int];
            assert(ns2[p as int].neighbors[layer as int].contains(*id)) by {
                if a.contains(*id) {
                } else {
                    assert(a.push(*id)[a.len() as int] == *id);
                }
            }
            assert forall|q: int, r: int| 0 <= q < r < ns2.len() implies #[trigger] ns2[q].id != #[trigger] ns2[r].id by {
                assert(ns2[q].id == ns[q].id && ns2[r].id == ns[r].id);
            }
            assert forall|q: int| 0 <= q < ns2.len() implies #[trigger] ns2[q].neighbors.len() > ns2[q].level by {
                assert(ns2[q].neighbors.len() == ns[q].neighbors.len());
            }
            assert forall|q: int, l: int| 0 <= q < ns2.len() && 0 <= l < ns2[q].neighbors.len() implies no_repeats(#[trigger] ns2[q].neighbors[l]) by {
                if q != p || l != layer {
                    assert(ns2[q].neighbors[l] == ns[q].neighbors[l]);
                } else {
                    assert(no_repeats(a));
                    if !a.contains(*id) {
                        let b = a.push(*id);
                        assert forall|i: int, j: int| 0 <= i < j < b.len() implies b[i] != b[j] by {
                            if j == a.len() {
                                assert(b[i] == a[i]);
                            } else {
                                assert(b[i] == a[i] && b[j] == a[j]);
                            }
                        }
                    }
                }
            }
            assert forall|q: int| 0 <= q < self.nodes@.len() implies #[trigger] self.index@.contains_key(id_key(self.nodes@[q].id))
                && self.index@[id_key(self.nodes@[q].id)]@.contains(q as usize) by {
                assert(ns2[q].id == ns[q].id);
            }
            assert forall|k: u64, j: int| #[trigger] self.index@.contains_key(k) && 0 <= j < self.index@[k]@.len()
                implies (#[trigger] self.index@[k]@[j]) < self.nodes@.len() && id_key(self.nodes@[self.index@[k]@[j] as int].id) == k by {
                let q = self.index@[k]@[j] as int;
                assert(ns2[q].id == ns[q].id);
            }
        }
    }

    /// Adds to the new node's list of a layer the nodes of the first `take`
    /// candidates, in candidate order, each once.
    fn add_layer_neighbors(&self, node: &mut HNSWNode, lc: usize, cands: &Vec<Candidate>, take: usize)
        requires
            self.wf(),
            take <= cands@.len(),
            forall|i: int| 0 <= i < cands@.len() ==> (#[trigger] cands@[i]).0 < self.nodes_spec().len(),
            lc < old(node).view_node().neighbors.len(),
            lc < usize::MAX,
            old(node).view_node().neighbors[lc as int].len() == 0,
        ensures
            final(node).view_node().id == old(node).view_node().id,
            final(node).view_node().vector == old(node).view_node().vector,
            final(node).view_node().level == old(node).view_node().level,
            final(node).view_node().deleted == old(node).view_node().deleted,
            final(node).view_node().neighbors.len() == old(node).view_node().neighbors.len(),
            forall|l: int| 0 <= l < old(node).view_node().neighbors.len() && l != lc ==>
                #[trigger] final(node).view_node().neighbors[l] == old(node).view_node().neighbors[l],
            final(node).view_node().neighbors[lc as int].len() <= take,
            no_repeats(final(node).view_node().neighbors[lc as int]),
            forall|t: int| 0 <= t < final(node).view_node().neighbors[lc as int].len() ==> is_candidate_id(
                self.nodes_spec(), cands@, take as int, #[trigger] final(node).view_node().neighbors[lc as int][t]),
            final(node).view_node().neighbors[lc as int] == candidate_ids(self.nodes_spec(), cands@, take as int),
    {
        let ghost first = node.view_node();
        let mut j: usize = 0;
        while j < take
            invariant
                self.wf(),
                j <= take,
                take <= cands@.len(),
                forall|i: int| 0 <= i < cands@.len() ==> (#[trigger] cands@[i]).0 < self.nodes_spec().len(),
                lc < first.neighbors.len(),
                lc < usize::MAX,
                node.view_node().id == first.id,
                node.view_node().vector == first.vector,
                node.view_node().level == first.level,
                node.view_node().deleted == first.deleted,
                node.view_node().neighbors.len() == first.neighbors.len(),
                forall|l: int| 0 <= l < first.neighbors.len() && l != lc ==> #[trigger] node.view_node().neighbors[l] == first.neighbors[l],
                node.view_node().neighbors[lc as int].len() <= j,
                no_repeats(node.view_node().neighbors[lc as int]),
                forall|t: int| 0 <= t < node.view_node().neighbors[lc as int].len() ==> is_candidate_id(
                    self.nodes_spec(), cands@, j as int, #[trigger] node.view_node().neighbors[lc as int][t]),
                node.view_node().neighbors[lc as int] == candidate_ids(self.nodes_spec(), cands@, j as int),
            decreases take - j,
        {
            let q = cands[j].0;
            proof {
                assert(self.nodes_spec()[q as int] == self.nodes@[q as int].view_node());
            }
            let qid = self.nodes[q].id.clone();
            let ghost a = node.view_node().neighbors[lc as int];
            node.add_neighbor(lc, qid);
            proof {
                let b = node.view_node().neighbors[lc as int];
                if !a.contains(qid) {
                    assert forall|x: int, y: int| 0 <= x < y < b.len() implies b[x] != b[y] by {
                        if y == a.len() {
                            assert(b[x] == a[x]);
                        } else {
                            assert(b[x] == a[x] && b[y] == a[y]);
                        }
                    }
                    assert forall|t: int| 0 <= t < b.len() implies is_candidate_id(self.nodes_spec(), cands@, j + 1, #[trigger] b[t]) by {
                        if t < a.len() {
                            assert(b[t] == a[t]);
                            assert(is_candidate_id(self.nodes_spec(), cands@, j as int, a[t]));
                            let i = choose|i: int| 0 <= i < j && a[t] == self.nodes_spec()[cands@[i].0 as int].id;
                        } else {
                            assert(b[t] == self.nodes_spec()[cands@[j as int].0 as int].id);
                        }
                    }
                } else {
                    assert forall|t: int| 0 <= t < b.len() implies is_candidate_id(self.nodes_spec(), cands@, j + 1, #[trigger] b[t]) by {
                        assert(b[t] == a[t]);
                        assert(is_candidate_id(self.nodes_spec(), cands@, j as int, a[t]));
                        let i = choose|i: int| 0 <= i < j && a[t] == self.nodes_spec()[cands@[i].0 as int].id;
                    }
                }
            }
            j = j + 1;
        }
    }

    /// Makes `id` a neighbour of each of the first `take` candidates that
    /// reaches the layer, noting those that exceed `m` neighbours.
    fn link_back(&mut self, id: &VectorId, lc: usize, cands: &Vec<Candidate>, take: usize, m: usize,
        prunes: &mut Vec<(usize, usize)>)
        requires
            old(self).wf(),
            lc < usize::MAX,
            take <= cands@.len(),
            forall|i: int| 0 <= i < cands@.len() ==> (#[trigger] cands@[i]).0 < old(self).nodes_spec().len(),
            distinct_pos(cands@),
        ensures
            final(self).wf(),
            final(self).config_spec() == old(self).config_spec(),
            final(self).entry_spec() == old(self).entry_spec(),
            final(self).dimension_spec() == old(self).dimension_spec(),
            lists_gain_only(old(self).nodes_spec(), final(self).nodes_spec(), *id),
            forall|q: int, l: int| 0 <= q < old(self).nodes_spec().len() && 0 <= l < old(self).nodes_spec()[q].neighbors.len()
                && final(self).nodes_spec()[q].neighbors[l] != old(self).nodes_spec()[q].neighbors[l]
                ==> !(#[trigger] old(self).nodes_spec()[q].neighbors[l]).contains(*id),
            forall|i: int| 0 <= i < take ==> final(self).nodes_spec()[(#[trigger] cands@[i]).0 as int].level < lc
                || final(self).nodes_spec()[cands@[i].0 as int].neighbors[lc as int].contains(*id),
            final(prunes)@.len() >= old(prunes)@.len(),
            forall|i: int| 0 <= i < old(prunes)@.len() ==> #[trigger] final(prunes)@[i] == old(prunes)@[i],
            forall|i: int| old(prunes)@.len() <= i < final(prunes)@.len() ==> (#[trigger] final(prunes)@[i]).0 < old(self).nodes_spec().len()
                && final(prunes)@[i].1 == lc && lc < old(self).nodes_spec()[final(prunes)@[i].0 as int].neighbors.len(),
            forall|q: int, l: int| 0 <= q < old(self).nodes_spec().len() && 0 <= l < old(self).nodes_spec()[q].neighbors.len() && l != lc
                ==> #[trigger] final(self).nodes_spec()[q].neighbors[l] == old(self).nodes_spec()[q].neighbors[l],
            forall|q: int| 0 <= q < old(self).nodes_spec().len() && lc < old(self).nodes_spec()[q].neighbors.len()
                && #[trigger] final(self).nodes_spec()[q].neighbors[lc as int] != old(self).nodes_spec()[q].neighbors[lc as int]
                && final(self).nodes_spec()[q].neighbors[lc as int].len() > m
                ==> final(prunes)@.contains((q as usize, lc)),
    {
        let ghost start = self.nodes_spec();
        proof {
            assert forall|q: int| 0 <= q < start.len() implies {
                &&& (#[trigger] start[q]).id == start[q].id
                &&& start[q].vector == start[q].vector
                &&& start[q].level == start[q].level
                &&& start[q].deleted == start[q].deleted
                &&& start[q].neighbors.len() == start[q].neighbors.len()
                &&& forall|l: int| 0 <= l < start[q].neighbors.len() ==> #[trigger] start[q].neighbors[l] == start[q].neighbors[l]
                    || start[q].neighbors[l] == start[q].neighbors[l].push(*id)
            } by {}
        }
        let mut j: usize = 0;
        while j < take
            invariant
                self.wf(),
                j <= take,
                take <= cands@.len(),
                start.len() == self.nodes_spec().len(),
                forall|i: int| 0 <= i < cands@.len() ==> (#[trigger] cands@[i]).0 < start.len(),
                lc < usize::MAX,
                self.config == old(self).config,
                self.entry_point == old(self).entry_point,
                self.dimension == old(self).dimension,
                start == old(self).nodes_spec(),
                lists_gain_only(start, self.nodes_spec(), *id),
                forall|q: int, l: int| 0 <= q < start.len() && 0 <= l < start[q].neighbors.len()
                    && self.nodes_spec()[q].neighbors[l] != start[q].neighbors[l]
                    ==> !(#[trigger] start[q].neighbors[l]).contains(*id),
                forall|i: int| 0 <= i < j ==> self.nodes_spec()[(#[trigger] cands@[i]).0 as int].level < lc
                    || self.nodes_spec()[cands@[i].0 as int].neighbors[lc as int].contains(*id),
                prunes@.len() >= old(prunes)@.len(),
                forall|i: int| 0 <= i < old(prunes)@.len() ==> #[trigger] prunes@[i] == old(prunes)@[i],
                forall|i: int| old(prunes)@.len() <= i < prunes@.len() ==> (#[trigger] prunes@[i]).0 < start.len()
                    && prunes@[i].1 == lc && lc < start[prunes@[i].0 as int].neighbors.len(),
                distinct_pos(cands@),
                forall|q: int, l: int| 0 <= q < start.len() && 0 <= l < start[q].neighbors.len() && l != lc
                    ==> #[trigger] self.nodes_spec()[q].neighbors[l] == start[q].neighbors[l],
                forall|q: int| 0 <= q < start.len() && lc < start[q].neighbors.len()
                    && #[trigger] self.nodes_spec()[q].neighbors[lc as int] != start[q].neighbors[lc as int]
                    ==> (exists|i: int| 0 <= i < j && cands@[i].0 == q)
                        && (self.nodes_spec()[q].neighbors[lc as int].len() > m ==> prunes@.contains((q as usize, lc))),
            decreases take - j,
        {
            let q = cands[j].0;
            proof {
                assert(self.nodes_spec()[q as int] == self.nodes@[q as int].view_node());
            }
            if self.nodes[q].level >= lc {
                let ghost mid = self.nodes_spec();
                self.link(q, lc, id);
                proof {
                    let fin = self.nodes_spec();
                    lemma_gain_only_trans(start, mid, fin, *id);
                    assert forall|x: int, l: int| 0 <= x < start.len() && 0 <= l < start[x].neighbors.len()
                        && fin[x].neighbors[l] != start[x].neighbors[l]
                        implies !(#[trigger] start[x].neighbors[l]).contains(*id) by {
                        if mid[x].neighbors[l] == start[x].neighbors[l] {
                        } else {
                            assert(mid[x].neighbors[l] == start[x].neighbors[l].push(*id));
                        }
                    }
                    assert forall|i: int| 0 <= i < j + 1 implies fin[(#[trigger] cands@[i]).0 as int].level < lc
                        || fin[cands@[i].0 as int].neighbors[lc as int].contains(*id) by {
                        let x = cands@[i].0 as int;
                        if i < j && mid[x].level >= lc {
                            assert(mid[x].neighbors[lc as int].contains(*id));
                            let t = choose|t: int| 0 <= t < mid[x].neighbors[lc as int].len() && mid[x].neighbors[lc as int][t] == *id;
                            if fin[x].neighbors[lc as int] != mid[x].neighbors[lc as int] {
                                assert(fin[x].neighbors[lc as int] == mid[x].neighbors[lc as int].push(*id));
                                assert(fin[x].neighbors[lc as int][t] == *id);
                            }
                        }
                    }
                }
                let ghost pr0 = prunes@;
                proof {
                    assert(self.nodes_spec()[q as int] == self.nodes@[q as int].view_node());
                }
                if self.nodes[q].neighbors[lc].len() > m {
                    prunes.push((q, lc));
                }
                proof {
                    let fin = self.nodes_spec();
                    assert forall|x: (usize, usize)| pr0.contains(x) implies prunes@.contains(x) by {
                        let t = choose|t: int| 0 <= t < pr0.len() && pr0[t] == x;
                        assert(prunes@[t] == pr0[t]);
                    }
                    if fin[q as int].neighbors[lc as int].len() > m {
                        assert(prunes@[pr0.len() as int] == (q, lc));
                    }
                    assert forall|x: int| 0 <= x < start.len() && lc < start[x].neighbors.len()
                        && #[trigger] fin[x].neighbors[lc as int] != start[x].neighbors[lc as int]
                        implies (exists|i: int| 0 <= i < j + 1 && cands@[i].0 == x)
                            && (fin[x].neighbors[lc as int].len() > m ==> prunes@.contains((x as usize, lc))) by {
                        if x != q {
                            assert(fin[x].neighbors[lc as int] == mid[x].neighbors[lc as int]);
                            let i0 = choose|i: int| 0 <= i < j && cands@[i].0 == x;
                            assert(pr0.contains((x as usize, lc)) ==> prunes@.contains((x as usize, lc)));
                        } else {
                            assert(cands@[j as int].0 == x);
                        }
                    }
                }
            } else {
                proof {
                    assert(self.nodes_spec()[q as int].level < lc);
                }
            }
            j = j + 1;
        }
    }
}

/// In a sequence of nodes with distinct identifiers, a node's identifier
/// has only its position.
pub proof fn lemma_unique_pos(ns: Seq<NodeView>, p: int)
    requires
        forall|a: int, b: int| 0 <= a < b < ns.len() ==> #[trigger] ns[a].id != #[trigger] ns[b].id,
        0 <= p < ns.len(),
    ensures
        has_id(ns, ns[p].id),
        pos_of(ns, ns[p].id) == p,
{
    assert(has_id(ns, ns[p].id));
    let q = pos_of(ns, ns[p].id);
    if q < p {
        assert(ns[q].id != ns[p].id);
    } else if q > p {
        assert(ns[p].id != ns[q].id);
    }
}

/// Every neighbour list of an existing node that the insert changed and
/// that now exceeds its layer's limit is listed.
pub open spec fn over_limit_listed(before: Seq<NodeView>, after: Seq<NodeView>, pairs: Seq<(usize, usize)>, c: HNSWConfig) -> bool {
    forall|q: int, l: int| 0 <= q < before.len() && 0 <= l < before[q].neighbors.len()
        && #[trigger] after[q].neighbors[l] != before[q].neighbors[l]
        && after[q].neighbors[l].len() > max_conn(c, l as nat)
        ==> pairs.contains((q as usize, l as usize))
}

/// What an insert made of the new node: its neighbours on each layer, at
/// most the layer's limit, are existing nodes, each of which either lies
/// below the layer or lists the new node back.
pub open spec fn insert_links(before: Seq<NodeView>, after: Seq<NodeView>, nv: NodeView, c: HNSWConfig, upto: int) -> bool {
    &&& forall|l: int| 0 <= l < upto ==> (#[trigger] nv.neighbors[l]).len() <= max_conn(c, l as nat)
    &&& forall|l: int, j: int| 0 <= l < upto && 0 <= j < nv.neighbors[l].len() ==>
        has_id(before, #[trigger] nv.neighbors[l][j])
        && (after[pos_of(before, nv.neighbors[l][j])].level < l
            || after[pos_of(before, nv.neighbors[l][j])].neighbors[l].contains(nv.id))
}

/// The new node's list on layer `l` is made of the nodes found by a search
/// of that layer from the entry position `e` with a candidate list of
/// `ef_construction`: the first of them, up to the layer's limit, each once.
pub open spec fn layer_linked(before: Seq<NodeView>, nv: NodeView, e: int, c: HNSWConfig, dist: Seq<u64>, l: int) -> bool {
    exists|w: Seq<Candidate>| {
        &&& layer_result(w, before, e, c.ef_construction as nat, dist)
        &&& layer_closed(w, before, c.ef_construction as nat, l as nat, dist)
        &&& nv.neighbors[l] == candidate_ids(before, w,
            if (max_conn(c, l as nat) as int) < w.len() { max_conn(c, l as nat) as int } else { w.len() as int })
    }
}

/// Gaining the new identifier leaves every layer neighbour relation among
/// the existing nodes as it was.
proof fn lemma_gain_only_nbr(before: Seq<NodeView>, mid: Seq<NodeView>, id: VectorId, x: int, l: nat, q: int)
    requires
        nodes_valid(before),
        lists_gain_only(before, mid, id),
        !has_id(before, id),
        0 <= x < before.len(),
    ensures
        is_layer_nbr(mid, x, l, q) == is_layer_nbr(before, x, l, q),
{
    if 0 <= q < before.len() && before[x].level >= l {
        assert(mid[x].neighbors.len() == before[x].neighbors.len());
        assert(before[x].neighbors.len() > before[x].level);
        let a = before[x].neighbors[l as int];
        let b = mid[x].neighbors[l as int];
        assert(b == a || b == a.push(id));
        assert(mid[q].id == before[q].id);
        assert(before[q].id != id);
        if b == a.push(id) {
            if b.contains(before[q].id) {
                let t = choose|t: int| 0 <= t < b.len() && b[t] == before[q].id;
                assert(t < a.len());
                assert(a[t] == b[t]);
            }
            if a.contains(before[q].id) {
                let t = choose|t: int| 0 <= t < a.len() && a[t] == before[q].id;
                assert(b[t] == a[t]);
            }
        }
    }
}

/// A layer search's guarantees carry over from a graph to the graph before
/// it gained the new identifier.
proof fn lemma_layer_transfer(w: Seq<Candidate>, before: Seq<NodeView>, mid: Seq<NodeView>, id: VectorId, e: int, ef: nat,
    l: nat, dist: Seq<u64>)
    requires
        nodes_valid(before),
        lists_gain_only(before, mid, id),
        !has_id(before, id),
        layer_result(w, mid, e, ef, dist),
        layer_closed(w, mid, ef, l, dist),
    ensures
        layer_result(w, before, e, ef, dist),
        layer_closed(w, before, ef, l, dist),
{
    assert forall|i: int| 0 <= i < w.len() implies (#[trigger] w[i]).0 < before.len() && w[i].1 == dist[w[i].0 as int]
        && (w[i].0 == e || !before[w[i].0 as int].deleted) by {
        assert(mid[w[i].0 as int].deleted == before[w[i].0 as int].deleted);
    }
    assert forall|i: int, q: int| 0 <= i < w.len() && #[trigger] is_layer_nbr(before, w[i].0 as int, l, q) && !before[q].deleted
        implies has_pos(w, q) || (w.len() == search_cap(ef) && dist[q] >= w[w.len() - 1].1) by {
        lemma_gain_only_nbr(before, mid, id, w[i].0 as int, l, q);
        assert(is_layer_nbr(mid, w[i].0 as int, l, q));
        assert(mid[q].deleted == before[q].deleted);
    }
}

/// Candidate identifiers depend on the nodes' identifiers alone.
proof fn lemma_candidate_ids_same(a: Seq<NodeView>, b: Seq<NodeView>, cands: Seq<Candidate>, n: int)
    requires
        a.len() == b.len(),
        forall|p: int| 0 <= p < a.len() ==> #[trigger] a[p].id == b[p].id,
        n <= cands.len(),
        forall|i: int| 0 <= i < cands.len() ==> (#[trigger] cands[i]).0 < a.len(),
    ensures
        candidate_ids(a, cands, n) == candidate_ids(b, cands, n),
    decreases n,
{
    if n > 0 {
        lemma_candidate_ids_same(a, b, cands, n - 1);
        assert(a[cands[n - 1].0 as int].id == b[cands[n - 1].0 as int].id);
    }
}

impl HNSWIndex {
    /// Inserts a vector as a node of the given top layer (drawn by the
    /// caller). Refused for an identifier already present, and for a vector
    /// whose length differs from the index's dimension (the first vector
    /// sets it). The first node becomes the entry point. Otherwise, on each
    /// layer from zero up to the node's, the nearest nodes found from the
    /// entry point (with a candidate list of `ef_construction`), up to the
    /// layer's connection limit, become its neighbours, and it becomes a
    /// neighbour of each of them that reaches the layer; a node of a higher
    /// layer than the entry point's becomes the entry point. `dist` holds
    /// the distance key of each node from the new vector. The result lists
    /// the neighbours, by position and layer, that now exceed the limit and
    /// are to be pruned with `prune_listed`.
    pub fn insert(&mut self, id: VectorId, vector: Vec<u32>, level: usize, dist: &Vec<u64>)
        -> (r: Result<Vec<(usize, usize)>, HNSWError>)
        requires
            old(self).wf(),
            dist@.len() == old(self).nodes_spec().len(),
            level < usize::MAX,
            old(self).entry_spec() matches Some(e) ==> has_id(old(self).nodes_spec(), e),
        ensures
            final(self).wf(),
            final(self).config_spec() == old(self).config_spec(),
            has_id(old(self).nodes_spec(), id) ==> (r matches Err(HNSWError::DuplicateVector(x)) && x == id
                && final(self).nodes_spec() == old(self).nodes_spec() && final(self).entry_spec() == old(self).entry_spec()
                && final(self).dimension_spec() == old(self).dimension_spec()),
            !has_id(old(self).nodes_spec(), id) && (old(self).dimension_spec() matches Some(d) && d != vector@.len())
                ==> (r matches Err(HNSWError::DimensionMismatch { expected, actual })
                    && Some(expected) == old(self).dimension_spec()
                    && actual == vector@.len() && final(self).nodes_spec() == old(self).nodes_spec()
                    && final(self).entry_spec() == old(self).entry_spec()
                    && final(self).dimension_spec() == old(self).dimension_spec()),
            !has_id(old(self).nodes_spec(), id) && !(old(self).dimension_spec() matches Some(d) && d != vector@.len())
                ==> r is Ok,
            r is Ok ==> ({
                let before = old(self).nodes_spec();
                let after = final(self).nodes_spec();
                let nv = after.last();
                &&& final(self).dimension_spec() == Some(vector@.len() as usize)
                &&& after.len() == before.len() + 1
                &&& lists_gain_only(before, after.drop_last(), id)
                &&& nv.id == id && nv.vector == vector@ && nv.level == level && !nv.deleted
                &&& nv.neighbors.len() == level + 1
                &&& insert_links(before, after, nv, old(self).config_spec(), level + 1)
                &&& old(self).entry_spec() is None ==> forall|l: int| 0 <= l <= level ==> (#[trigger] nv.neighbors[l]).len() == 0
                &&& (old(self).entry_spec() matches Some(e) ==> forall|l: int| 0 <= l <= level
                    ==> #[trigger] layer_linked(before, nv, pos_of(before, e), old(self).config_spec(), dist@, l))
                &&& final(self).entry_spec() == match old(self).entry_spec() {
                    None => Some(id),
                    Some(e) => if level > before[pos_of(before, e)].level { Some(id) } else { Some(e) },
                }
                &&& forall|i: int| 0 <= i < r->Ok_0@.len() ==> (#[trigger] r->Ok_0@[i]).0 < before.len()
                    && r->Ok_0@[i].1 <= level && r->Ok_0@[i].1 < after[r->Ok_0@[i].0 as int].neighbors.len()
                &&& over_limit_listed(before, after, r->Ok_0@, old(self).config_spec())
            }),
    {
        if self.find(&id).is_some() {
            return Err(HNSWError::DuplicateVector(id));
        }
        match self.dimension {
            Some(d) => {
                if d != vector.len() {
                    return Err(HNSWError::DimensionMismatch { expected: d, actual: vector.len() });
                }
            },
            None => {},
        }
        let ghost before = self.nodes_spec();
        let ghost vv = vector@;
        let vlen = vector.len();
        self.dimension = Some(vlen);
        let mut node = HNSWNode::new(id.clone(), vector);
        node.set_level(level);
        let mut prunes: Vec<(usize, usize)> = Vec::new();
        let n = self.nodes.len();
        proof {
            assert(lists_gain_only(before, self.nodes_spec(), id));
        }
        match self.entry_point.clone() {
            None => {
                self.entry_point = Some(id.clone());
            },
            Some(e) => {
                let ep = match self.find(&e) {
                    Some(p) => p,
                    None => {
                        proof {
                            assert(false);
                        }
                        0
                    },
                };
                proof {
                    assert(self.nodes_spec()[ep as int] == self.nodes@[ep as int].view_node());
                }
                let entry_level = self.nodes[ep].level;
                let mut lc: usize = 0;
                while lc <= level
                    invariant
                        self.wf(),
                        n == self.nodes_spec().len(),
                        before.len() == n,
                        dist@.len() == n,
                        ep < n,
                        lc <= level + 1,
                        level < usize::MAX,
                        self.config == old(self).config,
                        self.entry_point == old(self).entry_point,
                        self.dimension == Some(vlen),
                        vlen == vv.len(),
                        !has_id(before, id),
                        nodes_valid(before),
                        lists_gain_only(before, self.nodes_spec(), id),
                        node.view_node().id == id,
                        node.view_node().vector == vv,
                        node.view_node().level == level,
                        !node.view_node().deleted,
                        node.view_node().neighbors.len() == level + 1,
                        forall|l: int| 0 <= l <= level ==> no_repeats(#[trigger] node.view_node().neighbors[l]),
                        forall|l: int| lc <= l <= level ==> (#[trigger] node.view_node().neighbors[l]).len() == 0,
                        insert_links(before, self.nodes_spec(), node.view_node(), self.config, lc as int),
                        forall|i: int| 0 <= i < prunes@.len() ==> (#[trigger] prunes@[i]).0 < n && prunes@[i].1 <= level
                            && prunes@[i].1 < before[prunes@[i].0 as int].neighbors.len(),
                        before == old(self).nodes_spec(),
                        ep == pos_of(before, old(self).entry_spec()->0),
                        forall|l: int| 0 <= l < lc ==> #[trigger] layer_linked(before, node.view_node(), ep as int, self.config, dist@, l),
                        forall|q: int, l: int| 0 <= q < n && lc <= l < before[q].neighbors.len()
                            ==> #[trigger] self.nodes_spec()[q].neighbors[l] == before[q].neighbors[l],
                        forall|q: int, l: int| 0 <= q < n && 0 <= l < before[q].neighbors.len()
                            && #[trigger] self.nodes_spec()[q].neighbors[l] != before[q].neighbors[l]
                            && self.nodes_spec()[q].neighbors[l].len() > max_conn(self.config, l as nat)
                            ==> prunes@.contains((q as usize, l as usize)),
                    decreases level + 1 - lc,
                {
                    let m = if lc == 0 { self.config.max_connections_layer_0 } else { self.config.max_connections };
                    let cands = self.search_layer(ep, self.config.ef_construction, lc, dist);
                    let take = if m < cands.len() { m } else { cands.len() };
                    let ghost mid = self.nodes_spec();
                    let ghost node_before = node.view_node();
                    self.add_layer_neighbors(&mut node, lc, &cands, take);
                    let ghost prunes_before = prunes@;
                    proof {
                        lemma_layer_transfer(cands@, before, mid, id, ep as int, self.config.ef_construction as nat, lc as nat, dist@);
                        lemma_candidate_ids_same(mid, before, cands@, take as int);
                        let nvb = node.view_node();
                        assert(take as int == if (max_conn(self.config, lc as nat) as int) < cands@.len() {
                            max_conn(self.config, lc as nat) as int } else { cands@.len() as int });
                        assert(layer_linked(before, nvb, ep as int, self.config, dist@, lc as int));
                        assert forall|l: int| 0 <= l < lc + 1 implies #[trigger] layer_linked(before, nvb, ep as int, self.config, dist@, l) by {
                            if l < lc {
                                assert(layer_linked(before, node_before, ep as int, self.config, dist@, l));
                                assert(nvb.neighbors[l] == node_before.neighbors[l]);
                                let w = choose|w: Seq<Candidate>| {
                                    &&& layer_result(w, before, ep as int, self.config.ef_construction as nat, dist@)
                                    &&& layer_closed(w, before, self.config.ef_construction as nat, l as nat, dist@)
                                    &&& node_before.neighbors[l] == candidate_ids(before, w,
                                        if (max_conn(self.config, l as nat) as int) < w.len() { max_conn(self.config, l as nat) as int } else { w.len() as int })
                                };
                            }
                        }
                    }
                    self.link_back(&id, lc, &cands, take, m, &mut prunes);
                    proof {
                        let fin = self.nodes_spec();
                        let nv = node.view_node();
                        lemma_gain_only_trans(before, mid, fin, id);
                        assert forall|l: int| 0 <= l < lc + 1 implies (#[trigger] nv.neighbors[l]).len() <= max_conn(self.config, l as nat) by {
                            if l < lc {
                                assert(nv.neighbors[l] == node_before.neighbors[l]);
                            }
                        }
                        assert forall|l: int, j: int| 0 <= l < lc + 1 && 0 <= j < nv.neighbors[l].len() implies
                            has_id(before, #[trigger] nv.neighbors[l][j])
                            && (fin[pos_of(before, nv.neighbors[l][j])].level < l
                                || fin[pos_of(before, nv.neighbors[l][j])].neighbors[l].contains(id)) by {
                            if l < lc {
                                assert(nv.neighbors[l] == node_before.neighbors[l]);
                                let x = nv.neighbors[l][j];
                                let p = pos_of(before, x);
                                assert(has_id(before, x));
                                assert(0 <= p < n && before[p].id == x);
                                assert(mid[p].level < l || mid[p].neighbors[l].contains(id));
                                if mid[p].level >= l {
                                    assert(mid[p].neighbors.len() > mid[p].level);
                                    if fin[p].neighbors[l] != mid[p].neighbors[l] {
                                        assert(!mid[p].neighbors[l].contains(id));
                                    }
                                }
                            } else {
                                let x = nv.neighbors[l][j];
                                assert(is_candidate_id(mid, cands@, take as int, x));
                                let i = choose|i: int| 0 <= i < take && x == mid[cands@[i].0 as int].id;
                                let p = cands@[i].0 as int;
                                assert(mid[p].id == before[p].id);
                                lemma_unique_pos(before, p);
                                assert(fin[cands@[i].0 as int].level < lc || fin[cands@[i].0 as int].neighbors[lc as int].contains(id));
                            }
                        }
                        assert forall|l: int| lc + 1 <= l <= level implies (#[trigger] nv.neighbors[l]).len() == 0 by {
                            assert(nv.neighbors[l] == node_before.neighbors[l]);
                        }
                        assert forall|l: int| 0 <= l <= level implies no_repeats(#[trigger] nv.neighbors[l]) by {
                            if l != lc {
                                assert(nv.neighbors[l] == node_before.neighbors[l]);
                            }
                        }
                        assert forall|i: int| 0 <= i < prunes@.len() implies (#[trigger] prunes@[i]).0 < n && prunes@[i].1 <= level
                            && prunes@[i].1 < before[prunes@[i].0 as int].neighbors.len() by {
                            if i < prunes_before.len() {
                                assert(prunes@[i] == prunes_before[i]);
                            }
                        }
                        assert forall|q: int, l: int| 0 <= q < n && lc + 1 <= l < before[q].neighbors.len()
                            implies #[trigger] fin[q].neighbors[l] == before[q].neighbors[l] by {
                            assert(mid[q].neighbors.len() == before[q].neighbors.len());
                            assert(mid[q].neighbors[l] == before[q].neighbors[l]);
                        }
                        assert forall|q: int, l: int| 0 <= q < n && 0 <= l < before[q].neighbors.len()
                            && #[trigger] fin[q].neighbors[l] != before[q].neighbors[l]
                            && fin[q].neighbors[l].len() > max_conn(self.config, l as nat)
                            implies prunes@.contains((q as usize, l as usize)) by {
                            assert(mid[q].neighbors.len() == before[q].neighbors.len());
                            if l != lc {
                                assert(fin[q].neighbors[l] == mid[q].neighbors[l]);
                                assert(prunes_before.contains((q as usize, l as usize)));
                                let t = choose|t: int| 0 <= t < prunes_before.len() && prunes_before[t] == (q as usize, l as usize);
                                assert(prunes@[t] == prunes_before[t]);
                            } else {
                                assert(mid[q].neighbors[l] == before[q].neighbors[l]);
                                assert(m == max_conn(self.config, l as nat));
                            }
                        }
                    }
                    lc = lc + 1;
                }
                if level > entry_level {
                    self.entry_point = Some(id.clone());
                }
            },
        }
        let ghost mid2 = self.nodes_spec();
        let ghost nv2 = node.view_node();
        proof {
            if !has_id(before, id) {
            }
            assert(!has_id(mid2, id)) by {
                if has_id(mid2, id) {
                    let p = choose|p: int| 0 <= p < mid2.len() && (#[trigger] mid2[p]).id == id;
                    assert(before[p].id == id);
                }
            }
        }
        self.push_node(node);
        proof {
            let after = self.nodes_spec();
            assert(after.drop_last() =~= mid2);
            assert forall|i: int| 0 <= i < prunes@.len() implies (#[trigger] prunes@[i]).1 < after[prunes@[i].0 as int].neighbors.len() by {
                let q = prunes@[i].0 as int;
                assert(after[q] == mid2[q]);
            }
            assert forall|l: int, j: int| 0 <= l < level + 1 && 0 <= j < nv2.neighbors[l].len() implies
                has_id(before, #[trigger] nv2.neighbors[l][j])
                && (after[pos_of(before, nv2.neighbors[l][j])].level < l
                    || after[pos_of(before, nv2.neighbors[l][j])].neighbors[l].contains(id)) by {
                if old(self).entry_point is Some {
                    let p = pos_of(before, nv2.neighbors[l][j]);
                    assert(after[p] == mid2[p]);
                }
            }
        }
        Ok(prunes)
    }
}

/// The number of identifiers in the list that name nodes.
pub open spec fn count_present(ns: Seq<NodeView>, l: Seq<VectorId>) -> nat
    decreases l.len(),
{
    if l.len() == 0 {
        0
    } else {
        count_present(ns, l.drop_last()) + if has_id(ns, l.last()) { 1nat } else { 0nat }
    }
}

/// A pruned list: the `m` nearest of the listed identifiers that name
/// nodes, by the keys given for the old list (ties kept in list order).
pub open spec fn pruned(ns: Seq<NodeView>, old_list: Seq<VectorId>, new_list: Seq<VectorId>, keys: Seq<u64>, m: nat) -> bool {
    &&& no_repeats(new_list)
    &&& new_list.len() == if m < count_present(ns, old_list) { m } else { count_present(ns, old_list) }
    &&& forall|i: int| 0 <= i < new_list.len() ==> old_list.contains(#[trigger] new_list[i]) && has_id(ns, new_list[i])
    &&& forall|a: int, b: int| 0 <= a < old_list.len() && 0 <= b < old_list.len() && new_list.contains(#[trigger] old_list[a])
        && has_id(ns, #[trigger] old_list[b]) && !new_list.contains(old_list[b]) ==> keys[a] <= keys[b]
}

proof fn lemma_count_present_take(ns: Seq<NodeView>, l: Seq<VectorId>, j: int)
    requires
        0 <= j < l.len(),
    ensures
        count_present(ns, l.take(j + 1)) == count_present(ns, l.take(j)) + if has_id(ns, l[j]) { 1nat } else { 0nat },
{
    assert(l.take(j + 1).drop_last() =~= l.take(j));
}

impl HNSWIndex {
    /// Keeps, of the neighbours of a node on a layer, the layer's limit of
    /// those nearest to it among the ones still in the graph; `keys` holds
    /// the distance key of each listed neighbour from the node, in list
    /// order.
    pub fn prune_neighbors(&mut self, p: usize, layer: usize, keys: &Vec<u64>)
        requires
            old(self).wf(),
            p < old(self).nodes_spec().len(),
            layer < old(self).nodes_spec()[p as int].neighbors.len(),
            keys@.len() == old(self).nodes_spec()[p as int].neighbors[layer as int].len(),
        ensures
            final(self).wf(),
            final(self).config_spec() == old(self).config_spec(),
            final(self).entry_spec() == old(self).entry_spec(),
            final(self).dimension_spec() == old(self).dimension_spec(),
            final(self).nodes_spec().len() == old(self).nodes_spec().len(),
            forall|q: int| 0 <= q < old(self).nodes_spec().len() && q != p ==> #[trigger] final(self).nodes_spec()[q] == old(self).nodes_spec()[q],
            final(self).nodes_spec()[p as int] == (NodeView {
                neighbors: old(self).nodes_spec()[p as int].neighbors.update(layer as int, final(self).nodes_spec()[p as int].neighbors[layer as int]),
                ..old(self).nodes_spec()[p as int]
            }),
            pruned(old(self).nodes_spec(), old(self).nodes_spec()[p as int].neighbors[layer as int],
                final(self).nodes_spec()[p as int].neighbors[layer as int], keys@, max_conn(old(self).config_spec(), layer as nat) as nat),
    {
        let ghost ns = self.nodes_spec();
        proof {
            assert(ns[p as int] == self.nodes@[p as int].view_node());
        }
        let m = if layer == 0 { self.config.max_connections_layer_0 } else { self.config.max_connections };
        let list = self.nodes[p].neighbors[layer].clone();
        let ghost ol = ns[p as int].neighbors[layer as int];
        assert(list@ == ol);
        // The listed identifiers that name nodes, by index, with their keys.
        let mut cands: Vec<Candidate> = Vec::new();
        let mut j: usize = 0;
        while j < list.len()
            invariant
                self.wf(),
                ns == self.nodes_spec(),
                list@ == ol,
                keys@.len() == ol.len(),
                j <= ol.len(),
                cands@.len() == count_present(ns, ol.take(j as int)),
                forall|i: int| 0 <= i < cands@.len() ==> (#[trigger] cands@[i]).0 < j && has_id(ns, ol[cands@[i].0 as int])
                    && cands@[i].1 == keys@[cands@[i].0 as int],
                forall|a: int, b: int| 0 <= a < b < cands@.len() ==> (#[trigger] cands@[a]).0 < (#[trigger] cands@[b]).0,
                forall|b: int| 0 <= b < j && has_id(ns, #[trigger] ol[b]) ==> exists|i: int| 0 <= i < cands@.len() && cands@[i].0 == b,
            decreases ol.len() - j,
        {
            proof {
                lemma_count_present_take(ns, ol, j as int);
            }
            if self.find(&list[j]).is_some() {
                let ghost before = cands@;
                cands.push((j, keys[j]));
                proof {
                    assert forall|b: int| 0 <= b < j + 1 && has_id(ns, #[trigger] ol[b]) implies exists|i: int| 0 <= i < cands@.len() && cands@[i].0 == b by {
                        if b < j {
                            let i = choose|i: int| 0 <= i < before.len() && before[i].0 == b;
                            assert(cands@[i] == before[i]);
                        } else {
                            assert(cands@[before.len() as int].0 == b);
                        }
                    }
                }
            } else {
                proof {
                    assert forall|b: int| 0 <= b < j + 1 && has_id(ns, #[trigger] ol[b]) implies exists|i: int| 0 <= i < cands@.len() && cands@[i].0 == b by {
                        if b < j {
                        } else {
                            assert(!has_id(ns, ol[b]));
                        }
                    }
                }
            }
            j = j + 1;
        }
        proof {
            assert(ol.take(ol.len() as int) =~= ol);
        }
        // Selection of the nearest, in ascending order, ties in list order.
        let ghost all = cands@;
        let mut kept: Vec<VectorId> = Vec::new();
        let ghost mut chosen: Seq<int> = Seq::empty();
        while kept.len() < m && cands.len() > 0
            invariant
                self.wf(),
                ns == self.nodes_spec(),
                list@ == ol,
                no_repeats(ol),
                keys@.len() == ol.len(),
                all.len() == count_present(ns, ol),
                kept@.len() == chosen.len(),
                kept@.len() + cands@.len() == all.len(),
                kept@.len() <= m,
                forall|i: int| 0 <= i < cands@.len() ==> (#[trigger] cands@[i]).0 < ol.len() && has_id(ns, ol[cands@[i].0 as int])
                    && cands@[i].1 == keys@[cands@[i].0 as int],
                forall|t: int| 0 <= t < chosen.len() ==> 0 <= #[trigger] chosen[t] < ol.len() && kept@[t] == ol[chosen[t]]
                    && has_id(ns, ol[chosen[t]]),
                forall|t: int, i: int| 0 <= t < chosen.len() && 0 <= i < cands@.len() ==> keys@[#[trigger] chosen[t]] <= (#[trigger] cands@[i]).1,
                forall|t: int, i: int| 0 <= t < chosen.len() && 0 <= i < cands@.len() ==> #[trigger] chosen[t] != (#[trigger] cands@[i]).0,
                forall|a: int, b: int| 0 <= a < b < chosen.len() ==> #[trigger] chosen[a] != #[trigger] chosen[b],
                forall|a: int, b: int| 0 <= a < b < cands@.len() ==> (#[trigger] cands@[a]).0 != (#[trigger] cands@[b]).0,
                forall|b: int| 0 <= b < ol.len() && has_id(ns, #[trigger] ol[b]) ==> (exists|t: int| 0 <= t < chosen.len() && chosen[t] == b)
                    || (exists|i: int| 0 <= i < cands@.len() && cands@[i].0 == b),
            decreases cands@.len(),
        {
            let x = min_index(&cands);
            let ghost old_c = cands@;
            let ghost old_ch = chosen;
            let c = cands.remove(x);
            kept.push(list[c.0].clone());
            proof {
                chosen = chosen.push(c.0 as int);
                assert forall|i: int| 0 <= i < cands@.len() implies (#[trigger] cands@[i]).0 < ol.len() && has_id(ns, ol[cands@[i].0 as int])
                    && cands@[i].1 == keys@[cands@[i].0 as int] by {
                    let i2 = if i < x { i } else { i + 1 };
                    assert(cands@[i] == old_c[i2]);
                }
                assert forall|t: int| 0 <= t < chosen.len() implies 0 <= #[trigger] chosen[t] < ol.len() && kept@[t] == ol[chosen[t]]
                    && has_id(ns, ol[chosen[t]]) by {
                    if t < old_ch.len() {
                        assert(chosen[t] == old_ch[t]);
                    }
                }
                assert forall|t: int, i: int| 0 <= t < chosen.len() && 0 <= i < cands@.len() implies keys@[#[trigger] chosen[t]] <= (#[trigger] cands@[i]).1 by {
                    let i2 = if i < x { i } else { i + 1 };
                    assert(cands@[i] == old_c[i2]);
                    if t < old_ch.len() {
                        assert(chosen[t] == old_ch[t]);
                    } else {
                        assert(old_c[x as int].1 <= old_c[i2].1);
                    }
                }
                assert forall|t: int, i: int| 0 <= t < chosen.len() && 0 <= i < cands@.len() implies #[trigger] chosen[t] != (#[trigger] cands@[i]).0 by {
                    let i2 = if i < x { i } else { i + 1 };
                    assert(cands@[i] == old_c[i2]);
                    if t < old_ch.len() {
                        assert(chosen[t] == old_ch[t]);
                    }
                }
                assert forall|a: int, b: int| 0 <= a < b < chosen.len() implies #[trigger] chosen[a] != #[trigger] chosen[b] by {
                    if b < old_ch.len() {
                        assert(chosen[a] == old_ch[a] && chosen[b] == old_ch[b]);
                    } else {
                        assert(chosen[a] == old_ch[a]);
                    }
                }
                assert forall|a: int, b: int| 0 <= a < b < cands@.len() implies (#[trigger] cands@[a]).0 != (#[trigger] cands@[b]).0 by {
                    let a2 = if a < x { a } else { a + 1 };
                    let b2 = if b < x { b } else { b + 1 };
                    assert(cands@[a] == old_c[a2] && cands@[b] == old_c[b2]);
                }
                assert forall|b: int| 0 <= b < ol.len() && has_id(ns, #[trigger] ol[b]) implies (exists|t: int| 0 <= t < chosen.len() && chosen[t] == b)
                    || (exists|i: int| 0 <= i < cands@.len() && cands@[i].0 == b) by {
                    if exists|t: int| 0 <= t < old_ch.len() && old_ch[t] == b {
                        let t = choose|t: int| 0 <= t < old_ch.len() && old_ch[t] == b;
                        assert(chosen[t] == old_ch[t]);
                    } else {
                        let i = choose|i: int| 0 <= i < old_c.len() && old_c[i].0 == b;
                        if i == x {
                            assert(chosen[old_ch.len() as int] == b);
                        } else if i < x {
                            assert(cands@[i] == old_c[i]);
                        } else {
                            assert(cands@[i - 1] == old_c[i]);
                        }
                    }
                }
            }
        }
        let ghost kl = kept@;
        self.nodes[p].set_neighbors(layer, kept);
        proof {
            let ns2 = self.nodes_spec();
            assert forall|q: int| 0 <= q < ns.len() && q != p implies #[trigger] ns2[q] == ns[q] by {
                assert(self.nodes@[q] == old(self).nodes@[q]);
            }
            assert(ns2[p as int] == self.nodes@[p as int].view_node());
            assert(ns2[p as int].neighbors[layer as int] == kl);
            // the kept list
            assert(no_repeats(kl)) by {
                assert forall|a: int, b: int| 0 <= a < b < kl.len() implies kl[a] != kl[b] by {
                    assert(chosen[a] != chosen[b]);
                    assert(kl[a] == ol[chosen[a]] && kl[b] == ol[chosen[b]]);
                }
            }
            assert forall|i: int| 0 <= i < kl.len() implies ol.contains(#[trigger] kl[i]) && has_id(ns, kl[i]) by {
                assert(kl[i] == ol[chosen[i]]);
            }
            assert forall|a: int, b: int| 0 <= a < ol.len() && 0 <= b < ol.len() && kl.contains(#[trigger] ol[a])
                && has_id(ns, #[trigger] ol[b]) && !kl.contains(ol[b]) implies keys@[a] <= keys@[b] by {
                let t = choose|t: int| 0 <= t < kl.len() && kl[t] == ol[a];
                assert(ol[chosen[t]] == ol[a]);
                assert(chosen[t] == a);
                if exists|t2: int| 0 <= t2 < chosen.len() && chosen[t2] == b {
                    let t2 = choose|t2: int| 0 <= t2 < chosen.len() && chosen[t2] == b;
                    assert(kl[t2] == ol[b]);
                } else {
                    let i = choose|i: int| 0 <= i < cands@.len() && cands@[i].0 == b;
                    assert(keys@[chosen[t]] <= cands@[i].1);
                }
            }
            assert(kl.len() == if m < count_present(ns, ol) { m as nat } else { count_present(ns, ol) });
            // the graph stays valid
            assert forall|q: int, r: int| 0 <= q < r < ns2.len() implies #[trigger] ns2[q].id != #[trigger] ns2[r].id by {
                assert(ns2[q].id == ns[q].id && ns2[r].id == ns[r].id);
            }
            assert forall|q: int| 0 <= q < ns2.len() implies #[trigger] ns2[q].neighbors.len() > ns2[q].level by {
                assert(ns2[q].neighbors.len() == ns[q].neighbors.len());
            }
            assert forall|q: int, l: int| 0 <= q < ns2.len() && 0 <= l < ns2[q].neighbors.len() implies no_repeats(#[trigger] ns2[q].neighbors[l]) by {
                if q != p || l != layer {
                    assert(ns2[q].neighbors[l] == ns[q].neighbors[l]);
                }
            }
            assert forall|q: int| 0 <= q < self.nodes@.len() implies #[trigger] self.index@.contains_key(id_key(self.nodes@[q].id))
                && self.index@[id_key(self.nodes@[q].id)]@.contains(q as usize) by {
                assert(ns2[q].id == ns[q].id);
                assert(ns2[q] == self.nodes@[q].view_node());
                assert(ns[q] == old(self).nodes@[q].view_node());
                assert(old(self).index@.contains_key(id_key(old(self).nodes@[q].id)));
            }
            assert forall|k: u64, j: int| #[trigger] self.index@.contains_key(k) && 0 <= j < self.index@[k]@.len()
                implies (#[trigger] self.index@[k]@[j]) < self.nodes@.len() && id_key(self.nodes@[self.index@[k]@[j] as int].id) == k by {
                let q = self.index@[k]@[j] as int;
                assert(ns2[q].id == ns[q].id);
            }
        }
    }
}

/// The two sequences hold the same nodes but for their neighbour lists,
/// and each node has as many lists in both.
pub open spec fn same_but_lists(a: Seq<NodeView>, b: Seq<NodeView>) -> bool {
    &&& a.len() == b.len()
    &&& forall|q: int| 0 <= q < a.len() ==> {
        &&& (#[trigger] b[q]).id == a[q].id
        &&& b[q].vector == a[q].vector
        &&& b[q].level == a[q].level
        &&& b[q].deleted == a[q].deleted
        &&& b[q].neighbors.len() == a[q].neighbors.len()
    }
}

/// Of the lists named by a sequence of (position, layer) pairs.
pub open spec fn first_listed(pairs: Seq<(usize, usize)>, i: int) -> bool {
    forall|j: int| 0 <= j < i ==> #[trigger] pairs[j] != pairs[i]
}

/// What pruning the listed neighbour lists made of the nodes: each listed
/// list is within its layer's limit, pruned by the keys given with its
/// first listing where it exceeded the limit and kept where it did not;
/// every other list is kept.
pub open spec fn pruned_listed(before: Seq<NodeView>, after: Seq<NodeView>, pairs: Seq<(usize, usize)>,
    keys: Seq<Seq<u64>>, c: HNSWConfig) -> bool {
    &&& same_but_lists(before, after)
    &&& forall|q: int, l: int| 0 <= q < before.len() && 0 <= l < before[q].neighbors.len()
        && !pairs.contains((q as usize, l as usize)) ==> #[trigger] after[q].neighbors[l] == before[q].neighbors[l]
    &&& forall|i: int| 0 <= i < pairs.len() ==> (#[trigger] after[pairs[i].0 as int]).neighbors[pairs[i].1 as int].len()
        <= max_conn(c, pairs[i].1 as nat)
    &&& forall|i: int| 0 <= i < pairs.len() && #[trigger] first_listed(pairs, i) ==> {
        let (p, l) = pairs[i];
        let old_list = before[p as int].neighbors[l as int];
        let new_list = after[p as int].neighbors[l as int];
        if old_list.len() > max_conn(c, l as nat) {
            pruned(before, old_list, new_list, keys[i], max_conn(c, l as nat) as nat)
        } else {
            new_list == old_list
        }
    }
}

proof fn lemma_count_present_same_ids(a: Seq<NodeView>, b: Seq<NodeView>, l: Seq<VectorId>)
    requires
        a.len() == b.len(),
        forall|p: int| 0 <= p < a.len() ==> #[trigger] a[p].id == b[p].id,
    ensures
        count_present(a, l) == count_present(b, l),
    decreases l.len(),
{
    if l.len() > 0 {
        lemma_count_present_same_ids(a, b, l.drop_last());
        lemma_same_ids_has_id(a, b, l.last());
    }
}

proof fn lemma_pruned_same_ids(a: Seq<NodeView>, b: Seq<NodeView>, ol: Seq<VectorId>, nl: Seq<VectorId>, keys: Seq<u64>, m: nat)
    requires
        a.len() == b.len(),
        forall|p: int| 0 <= p < a.len() ==> #[trigger] a[p].id == b[p].id,
        pruned(a, ol, nl, keys, m),
    ensures
        pruned(b, ol, nl, keys, m),
{
    lemma_count_present_same_ids(a, b, ol);
    assert forall|x: VectorId| has_id(a, x) == has_id(b, x) by {
        lemma_same_ids_has_id(a, b, x);
    }
}

impl HNSWIndex {
    /// Prunes each listed neighbour list, given as (position, layer), that
    /// exceeds its layer's limit, by the keys given with it: the distance
    /// key of each listed neighbour from the node, in list order. A list
    /// listed twice is pruned once.
    pub fn prune_listed(&mut self, pairs: &Vec<(usize, usize)>, keys: &Vec<Vec<u64>>)
        requires
            old(self).wf(),
            keys@.len() == pairs@.len(),
            forall|i: int| 0 <= i < pairs@.len() ==> (#[trigger] pairs@[i]).0 < old(self).nodes_spec().len()
                && pairs@[i].1 < old(self).nodes_spec()[pairs@[i].0 as int].neighbors.len()
                && keys@[i]@.len() == old(self).nodes_spec()[pairs@[i].0 as int].neighbors[pairs@[i].1 as int].len(),
        ensures
            final(self).wf(),
            final(self).config_spec() == old(self).config_spec(),
            final(self).entry_spec() == old(self).entry_spec(),
            final(self).dimension_spec() == old(self).dimension_spec(),
            pruned_listed(old(self).nodes_spec(), final(self).nodes_spec(), pairs@,
                keys@.map_values(|k: Vec<u64>| k@), old(self).config_spec()),
    {
        let ghost start = self.nodes_spec();
        let ghost ks = keys@.map_values(|k: Vec<u64>| k@);
        let ghost c = self.config;
        let mut i: usize = 0;
        while i < pairs.len()
            invariant
                self.wf(),
                i <= pairs@.len(),
                self.config == c,
                c == old(self).config_spec(),
                self.entry_point == old(self).entry_spec(),
                self.dimension == old(self).dimension_spec(),
                start == old(self).nodes_spec(),
                ks == keys@.map_values(|k: Vec<u64>| k@),
                keys@.len() == pairs@.len(),
                forall|j: int| 0 <= j < pairs@.len() ==> (#[trigger] pairs@[j]).0 < start.len()
                    && pairs@[j].1 < start[pairs@[j].0 as int].neighbors.len()
                    && keys@[j]@.len() == start[pairs@[j].0 as int].neighbors[pairs@[j].1 as int].len(),
                same_but_lists(start, self.nodes_spec()),
                forall|q: int, l: int| 0 <= q < start.len() && 0 <= l < start[q].neighbors.len()
                    && !pairs@.take(i as int).contains((q as usize, l as usize))
                    ==> #[trigger] self.nodes_spec()[q].neighbors[l] == start[q].neighbors[l],
                forall|j: int| 0 <= j < i ==> (#[trigger] self.nodes_spec()[pairs@[j].0 as int]).neighbors[pairs@[j].1 as int].len()
                    <= max_conn(c, pairs@[j].1 as nat),
                forall|j: int| 0 <= j < i && #[trigger] first_listed(pairs@, j) ==> {
                    let (p, l) = pairs@[j];
                    let old_list = start[p as int].neighbors[l as int];
                    let new_list = self.nodes_spec()[p as int].neighbors[l as int];
                    if old_list.len() > max_conn(c, l as nat) {
                        pruned(start, old_list, new_list, ks[j], max_conn(c, l as nat) as nat)
                    } else {
                        new_list == old_list
                    }
                },
            decreases pairs@.len() - i,
        {
            let (p, layer) = pairs[i];
            let ghost cur = self.nodes_spec();
            proof {
                assert(cur[p as int] == self.nodes@[p as int].view_node());
                assert(pairs@.take(i as int + 1) =~= pairs@.take(i as int).push(pairs@[i as int]));
            }
            let m = if layer == 0 { self.config.max_connections_layer_0 } else { self.config.max_connections };
            if self.nodes[p].neighbors[layer].len() > m {
                proof {
                    // Not listed before: a list listed before is within the limit.
                    if pairs@.take(i as int).contains((p, layer)) {
                        let j = choose|j: int| 0 <= j < i && #[trigger] pairs@.take(i as int)[j] == (p, layer);
                        assert(pairs@[j] == (p, layer));
                    }
                    assert(cur[p as int].neighbors[layer as int] == start[p as int].neighbors[layer as int]);
                    assert(first_listed(pairs@, i as int)) by {
                        assert forall|j: int| 0 <= j < i implies #[trigger] pairs@[j] != pairs@[i as int] by {
                            if pairs@[j] == pairs@[i as int] {
                                assert(pairs@.take(i as int)[j] == pairs@[j]);
                            }
                        }
                    }
                }
                self.prune_neighbors(p, layer, &keys[i]);
                proof {
                    let fin = self.nodes_spec();
                    lemma_pruned_same_ids(cur, start, cur[p as int].neighbors[layer as int],
                        fin[p as int].neighbors[layer as int], keys@[i as int]@, max_conn(c, layer as nat) as nat);
                    assert(ks[i as int] == keys@[i as int]@);
                    assert forall|q: int| 0 <= q < start.len() implies {
                        &&& (#[trigger] fin[q]).id == start[q].id
                        &&& fin[q].vector == start[q].vector
                        &&& fin[q].level == start[q].level
                        &&& fin[q].deleted == start[q].deleted
                        &&& fin[q].neighbors.len() == start[q].neighbors.len()
                    } by {
                        assert(cur[q].id == start[q].id);
                    }
                    assert forall|q: int, l: int| 0 <= q < start.len() && 0 <= l < start[q].neighbors.len()
                        && !pairs@.take(i + 1).contains((q as usize, l as usize))
                        implies #[trigger] fin[q].neighbors[l] == start[q].neighbors[l] by {
                        assert(pairs@.take(i + 1)[i as int] == (p, layer));
                        assert(!pairs@.take(i as int).contains((q as usize, l as usize))) by {
                            if pairs@.take(i as int).contains((q as usize, l as usize)) {
                                let j = choose|j: int| 0 <= j < i && #[trigger] pairs@.take(i as int)[j] == (q as usize, l as usize);
                                assert(pairs@.take(i + 1)[j] == (q as usize, l as usize));
                            }
                        }
                        assert(q != p || l != layer);
                    }
                    assert forall|j: int| 0 <= j < i + 1 && #[trigger] first_listed(pairs@, j) implies {
                        let (p2, l2) = pairs@[j];
                        let old_list = start[p2 as int].neighbors[l2 as int];
                        let new_list = fin[p2 as int].neighbors[l2 as int];
                        if old_list.len() > max_conn(c, l2 as nat) {
                            pruned(start, old_list, new_list, ks[j], max_conn(c, l2 as nat) as nat)
                        } else {
                            new_list == old_list
                        }
                    } by {
                        if j < i {
                            assert(pairs@[j] != (p, layer));
                        }
                    }
                }
            } else {
                proof {
                    let fin = self.nodes_spec();
                    assert forall|q: int, l: int| 0 <= q < start.len() && 0 <= l < start[q].neighbors.len()
                        && !pairs@.take(i + 1).contains((q as usize, l as usize))
                        implies #[trigger] fin[q].neighbors[l] == start[q].neighbors[l] by {
                        if pairs@.take(i as int).contains((q as usize, l as usize)) {
                            let j = choose|j: int| 0 <= j < i && #[trigger] pairs@.take(i as int)[j] == (q as usize, l as usize);
                            assert(pairs@.take(i + 1)[j] == (q as usize, l as usize));
                        }
                    }
                    assert forall|j: int| 0 <= j < i + 1 && #[trigger] first_listed(pairs@, j) implies {
                        let (p2, l2) = pairs@[j];
                        let old_list = start[p2 as int].neighbors[l2 as int];
                        let new_list = fin[p2 as int].neighbors[l2 as int];
                        if old_list.len() > max_conn(c, l2 as nat) {
                            pruned(start, old_list, new_list, ks[j], max_conn(c, l2 as nat) as nat)
                        } else {
                            new_list == old_list
                        }
                    } by {
                        if j == i {
                            assert(!pairs@.take(i as int).contains((p, layer))) by {
                                if pairs@.take(i as int).contains((p, layer)) {
                                    let t = choose|t: int| 0 <= t < i && #[trigger] pairs@.take(i as int)[t] == (p, layer);
                                    assert(pairs@[t] == pairs@[j]);
                                }
                            }
                        }
                    }
                }
            }
            i = i + 1;
        }
        proof {
            assert(pairs@.take(pairs@.len() as int) =~= pairs@);
        }
    }
}

/// Every neighbour list of every node is within its layer's limit.
pub open spec fn degree_bounded(ns: Seq<NodeView>, c: HNSWConfig) -> bool {
    forall|p: int, l: int| 0 <= p < ns.len() && 0 <= l < ns[p].neighbors.len()
        ==> (#[trigger] ns[p].neighbors[l]).len() <= max_conn(c, l as nat)
}

/// The positions and layers of the nodes fit in `usize`, as those of a
/// graph held in memory do.
pub open spec fn positions_fit(ns: Seq<NodeView>) -> bool {
    &&& ns.len() <= usize::MAX
    &&& forall|q: int| 0 <= q < ns.len() ==> (#[trigger] ns[q]).neighbors.len() <= usize::MAX
}

/// An insert followed by pruning the lists it returned keeps every
/// neighbour list within its layer's limit: the new node's lists are within
/// it, an existing list the insert pushed over it is listed and pruned, and
/// every other list is as it was.
pub proof fn law_insert_then_prune_bounded(before: Seq<NodeView>, after: Seq<NodeView>, fin: Seq<NodeView>,
    id: VectorId, pairs: Seq<(usize, usize)>, keys: Seq<Seq<u64>>, c: HNSWConfig)
    requires
        degree_bounded(before, c),
        positions_fit(after),
        after.len() == before.len() + 1,
        lists_gain_only(before, after.drop_last(), id),
        insert_links(before, after, after.last(), c, after.last().neighbors.len() as int),
        over_limit_listed(before, after, pairs, c),
        pruned_listed(after, fin, pairs, keys, c),
    ensures
        degree_bounded(fin, c),
{
    assert forall|p: int, l: int| 0 <= p < fin.len() && 0 <= l < fin[p].neighbors.len()
        implies (#[trigger] fin[p].neighbors[l]).len() <= max_conn(c, l as nat) by {
        if pairs.contains((p as usize, l as usize)) {
            let i = choose|i: int| 0 <= i < pairs.len() && pairs[i] == (p as usize, l as usize);
            assert(fin[pairs[i].0 as int].neighbors[pairs[i].1 as int].len() <= max_conn(c, pairs[i].1 as nat));
        } else {
            assert(fin[p].neighbors.len() == after[p].neighbors.len());
            assert(fin[p].neighbors[l] == after[p].neighbors[l]);
            if p < before.len() {
                assert(after.drop_last()[p] == after[p]);
                assert(after[p].neighbors.len() == before[p].neighbors.len());
                if after[p].neighbors[l] == before[p].neighbors[l] {
                    assert(before[p].neighbors[l].len() <= max_conn(c, l as nat));
                } else if after[p].neighbors[l].len() > max_conn(c, l as nat) {
                    assert(pairs.contains((p as usize, l as usize)));
                }
            } else {
                assert(after.last() == after[p]);
                assert(after.last().neighbors[l].len() <= max_conn(c, l as nat));
            }
        }
    }
}

/// The message of a search whose entry point is not among the nodes.
pub open spec fn missing_entry_message(e: VectorId, n: nat) -> Seq<char> {
    "Entry point node not found in index. Entry point: "@ + e.debug_form() + ", Total nodes in memory: "@
        + crate::text::decimal(n)
        + ". This may indicate that lazy loading is enabled but the entry point was not properly loaded."@
}

/// Whether a graph of the given dimension refuses a query of the given length.
pub open spec fn refuses_dimension(d: Option<usize>, query_len: usize) -> bool {
    d matches Some(x) && x != query_len
}

/// The number of nodes not marked deleted.
pub open spec fn count_active(ns: Seq<NodeView>) -> nat
    decreases ns.len(),
{
    if ns.len() == 0 {
        0
    } else {
        count_active(ns.drop_last()) + if ns.last().deleted { 0nat } else { 1nat }
    }
}

/// The highest layer of the nodes, zero without nodes.
pub open spec fn max_level(ns: Seq<NodeView>) -> nat
    decreases ns.len(),
{
    if ns.len() == 0 {
        0
    } else if ns.last().level > max_level(ns.drop_last()) {
        ns.last().level
    } else {
        max_level(ns.drop_last())
    }
}

/// The number of nodes that reach a layer.
pub open spec fn count_reaching(ns: Seq<NodeView>, l: nat) -> nat
    decreases ns.len(),
{
    if ns.len() == 0 {
        0
    } else {
        count_reaching(ns.drop_last(), l) + if ns.last().level >= l { 1nat } else { 0nat }
    }
}

/// The greedy descent of a search: from position `from` on layer `hi`, a
/// layer search with a candidate list of one on each layer down to just
/// above `lo`, each starting from the nearest the one above found, ends at
/// position `to`.
pub open spec fn descends(ns: Seq<NodeView>, from: int, hi: nat, lo: nat, to: int, dist: Seq<u64>) -> bool
    decreases hi - lo,
{
    if hi <= lo {
        to == from
    } else {
        exists|w: Seq<Candidate>| {
            &&& layer_result(w, ns, from, 1, dist)
            &&& #[trigger] layer_closed(w, ns, 1, hi, dist)
            &&& descends(ns, w[0].0 as int, (hi - 1) as nat, lo, to, dist)
        }
    }
}

proof fn lemma_descends_step(ns: Seq<NodeView>, from: int, hi: nat, lo: nat, x: int, w: Seq<Candidate>, dist: Seq<u64>)
    requires
        hi >= lo,
        lo > 0,
        descends(ns, from, hi, lo, x, dist),
        layer_result(w, ns, x, 1, dist),
        layer_closed(w, ns, 1, lo, dist),
    ensures
        descends(ns, from, hi, (lo - 1) as nat, w[0].0 as int, dist),
    decreases hi - lo,
{
    if hi == lo {
        assert(x == from);
        assert(descends(ns, w[0].0 as int, (hi - 1) as nat, (lo - 1) as nat, w[0].0 as int, dist));
    } else {
        let w1 = choose|w1: Seq<Candidate>| {
            &&& layer_result(w1, ns, from, 1, dist)
            &&& #[trigger] layer_closed(w1, ns, 1, hi, dist)
            &&& descends(ns, w1[0].0 as int, (hi - 1) as nat, lo, x, dist)
        };
        lemma_descends_step(ns, w1[0].0 as int, (hi - 1) as nat, lo, x, w, dist);
    }
}

/// The candidates among the first `j` that name nodes not marked deleted,
/// in order.
pub open spec fn live_candidates(ns: Seq<NodeView>, w: Seq<Candidate>, j: int) -> Seq<Candidate>
    decreases j,
{
    if j <= 0 {
        Seq::empty()
    } else {
        let prev = live_candidates(ns, w, j - 1);
        if ns[w[j - 1].0 as int].deleted { prev } else { prev.push(w[j - 1]) }
    }
}

impl HNSWIndex {
    /// The `k` nearest nodes found for a query: empty for an empty graph;
    /// refused for a query of another dimension, and when the entry point
    /// is not among the nodes; otherwise a greedy descent from the entry
    /// point's top layer, with a candidate list of one, then of `ef` on
    /// layer zero, of whose finds those not marked deleted are returned.
    /// `dist` holds each node's distance key from the query.
    pub fn search(&self, k: usize, ef: usize, query_len: usize, dist: &Vec<u64>) -> (r: Result<Vec<Candidate>, HNSWError>)
        requires
            self.wf(),
            dist@.len() == self.nodes_spec().len(),
        ensures
            self.entry_spec() is None ==> (r matches Ok(v) && v@.len() == 0),
            self.entry_spec() is Some && refuses_dimension(self.dimension_spec(), query_len)
                ==> (r matches Err(HNSWError::DimensionMismatch { expected, actual })
                    && Some(expected) == self.dimension_spec() && actual == query_len),
            self.entry_spec() is Some && !refuses_dimension(self.dimension_spec(), query_len)
                && !has_id(self.nodes_spec(), self.entry_spec()->0) ==> (r matches Err(HNSWError::ChunkLoadError(m))
                    && m@ == missing_entry_message(self.entry_spec()->0, self.nodes_spec().len())),
            self.entry_spec() is Some && !refuses_dimension(self.dimension_spec(), query_len)
                && has_id(self.nodes_spec(), self.entry_spec()->0) ==> (r matches Ok(v) && {
                    let ns = self.nodes_spec();
                    let ep = pos_of(ns, self.entry_spec()->0);
                    &&& v@.len() <= k
                    &&& sorted_by_key(v@)
                    &&& distinct_pos(v@)
                    &&& forall|i: int| 0 <= i < v@.len() ==> (#[trigger] v@[i]).0 < ns.len()
                        && v@[i].1 == dist@[v@[i].0 as int] && !ns[v@[i].0 as int].deleted
                    &&& exists|w: Seq<Candidate>, e: int| 0 <= e < ns.len()
                        && #[trigger] descends(ns, ep, ns[ep].level, 0, e, dist@)
                        && layer_result(w, ns, e, ef as nat, dist@)
                        && #[trigger] layer_closed(w, ns, ef as nat, 0, dist@)
                        && (forall|i: int| 0 <= i < w.len() ==> reachable(ns, 0, e, (#[trigger] w[i]).0 as int))
                        && v@ == live_candidates(ns, w, w.len() as int).take(
                            if k < live_candidates(ns, w, w.len() as int).len() { k as int }
                            else { live_candidates(ns, w, w.len() as int).len() as int })
                }),
    {
        let e = match &self.entry_point {
            Some(e) => e,
            None => {
                return Ok(Vec::new());
            },
        };
        match self.dimension {
            Some(d) => {
                if query_len != d {
                    return Err(HNSWError::DimensionMismatch { expected: d, actual: query_len });
                }
            },
            None => {},
        }
        let ep = match self.find(e) {
            Some(p) => p,
            None => {
                let mut m = String::from_str("Entry point node not found in index. Entry point: ");
                let dbg = e.debug_string();
                m.append(dbg.as_str());
                m.append(", Total nodes in memory: ");
                crate::text::push_decimal(&mut m, self.nodes.len());
                m.append(". This may indicate that lazy loading is enabled but the entry point was not properly loaded.");
                return Err(HNSWError::ChunkLoadError(m));
            },
        };
        proof {
            assert(self.nodes_spec()[ep as int] == self.nodes@[ep as int].view_node());
        }
        let top = self.nodes[ep].level;
        let ghost ns = self.nodes_spec();
        proof {
            self.lemma_pos_of(ep as int);
        }
        let mut nearest: Vec<Candidate> = Vec::new();
        nearest.push((ep, dist[ep]));
        let mut lc: usize = top;
        let mut done = false;
        let ghost mut from0: int = 0;
        while !done
            invariant
                self.wf(),
                ns == self.nodes_spec(),
                dist@.len() == ns.len(),
                ep < ns.len(),
                top == ns[ep as int].level,
                lc <= top,
                nearest@.len() >= 1,
                sorted_by_key(nearest@),
                distinct_pos(nearest@),
                forall|i: int| 0 <= i < nearest@.len() ==> (#[trigger] nearest@[i]).0 < ns.len()
                    && nearest@[i].1 == dist@[nearest@[i].0 as int],
                !done ==> descends(ns, ep as int, top as nat, lc as nat, nearest@[0].0 as int, dist@),
                done ==> 0 <= from0 < ns.len()
                    && descends(ns, ep as int, top as nat, 0, from0, dist@)
                    && layer_result(nearest@, ns, from0, ef as nat, dist@)
                    && layer_closed(nearest@, ns, ef as nat, 0, dist@)
                    && forall|i: int| 0 <= i < nearest@.len() ==> reachable(ns, 0, from0, (#[trigger] nearest@[i]).0 as int),
            decreases lc, if done { 0int } else { 1int },
        {
            let layer_ef = if lc == 0 { ef } else { 1 };
            let from = nearest[0].0;
            let next = self.search_layer(from, layer_ef, lc, dist);
            proof {
                from0 = from as int;
                if lc > 0 {
                    lemma_descends_step(ns, ep as int, top as nat, lc as nat, from as int, next@, dist@);
                }
            }
            nearest = next;
            if lc == 0 {
                done = true;
            } else {
                lc = lc - 1;
            }
        }
        let ghost w = nearest@;
        // The finds not marked deleted, in order.
        let mut live: Vec<Candidate> = Vec::new();
        let mut j: usize = 0;
        while j < nearest.len()
            invariant
                self.wf(),
                ns == self.nodes_spec(),
                w == nearest@,
                j <= w.len(),
                sorted_by_key(w),
                distinct_pos(w),
                forall|i: int| 0 <= i < w.len() ==> (#[trigger] w[i]).0 < ns.len() && w[i].1 == dist@[w[i].0 as int],
                live@ == live_candidates(ns, w, j as int),
                sorted_by_key(live@),
                distinct_pos(live@),
                forall|t: int| 0 <= t < live@.len() ==> exists|i: int| 0 <= i < j && #[trigger] live@[t] == w[i],
                forall|t: int| 0 <= t < live@.len() ==> (#[trigger] live@[t]).0 < ns.len()
                    && live@[t].1 == dist@[live@[t].0 as int] && !ns[live@[t].0 as int].deleted,
            decreases w.len() - j,
        {
            let c = nearest[j];
            proof {
                assert(ns[c.0 as int] == self.nodes@[c.0 as int].view_node());
            }
            if !self.nodes[c.0].is_deleted() {
                let ghost before = live@;
                live.push(c);
                proof {
                    assert forall|a: int, b: int| 0 <= a < b < live@.len() implies live@[a].1 <= live@[b].1 by {
                        if b == before.len() {
                            let i = choose|i: int| 0 <= i < j && #[trigger] before[a] == w[i];
                            assert(live@[a] == before[a]);
                        } else {
                            assert(live@[a] == before[a] && live@[b] == before[b]);
                        }
                    }
                    assert forall|a: int, b: int| 0 <= a < b < live@.len() implies live@[a].0 != live@[b].0 by {
                        if b == before.len() {
                            let i = choose|i: int| 0 <= i < j && #[trigger] before[a] == w[i];
                            assert(live@[a] == before[a]);
                        } else {
                            assert(live@[a] == before[a] && live@[b] == before[b]);
                        }
                    }
                    assert forall|t: int| 0 <= t < live@.len() implies exists|i: int| 0 <= i < j + 1 && #[trigger] live@[t] == w[i] by {
                        if t < before.len() {
                            let i = choose|i: int| 0 <= i < j && #[trigger] before[t] == w[i];
                            assert(live@[t] == w[i]);
                        } else {
                            assert(live@[t] == w[j as int]);
                        }
                    }
                }
            } else {
                proof {
                    assert forall|t: int| 0 <= t < live@.len() implies exists|i: int| 0 <= i < j + 1 && #[trigger] live@[t] == w[i] by {
                        let i = choose|i: int| 0 <= i < j && #[trigger] live@[t] == w[i];
                    }
                }
            }
            j = j + 1;
        }
        let ghost lv = live@;
        live.truncate(k);
        proof {
            assert(live@ =~= lv.take(if k < lv.len() { k as int } else { lv.len() as int }));
            assert(descends(ns, pos_of(ns, self.entry_spec()->0), ns[pos_of(ns, self.entry_spec()->0)].level, 0, from0, dist@));
        }
        Ok(live)
    }

    /// Marks the node of the identifier deleted; refused for an unknown one.
    pub fn mark_deleted(&mut self, id: &VectorId) -> (r: Result<(), HNSWError>)
        requires
            old(self).wf(),
        ensures
            final(self).wf(),
            final(self).config_spec() == old(self).config_spec(),
            final(self).entry_spec() == old(self).entry_spec(),
            final(self).dimension_spec() == old(self).dimension_spec(),
            has_id(old(self).nodes_spec(), *id) ==> r is Ok && final(self).nodes_spec() == old(self).nodes_spec().update(
                pos_of(old(self).nodes_spec(), *id),
                NodeView { deleted: true, ..old(self).nodes_spec()[pos_of(old(self).nodes_spec(), *id)] }),
            !has_id(old(self).nodes_spec(), *id) ==> (r matches Err(HNSWError::VectorNotFound(x)) && x == *id
                && final(self).nodes_spec() == old(self).nodes_spec()),
    {
        match self.find(id) {
            Some(p) => {
                let ghost ns = self.nodes_spec();
                proof {
                    assert(ns[p as int] == self.nodes@[p as int].view_node());
                }
                self.nodes[p].mark_deleted();
                proof {
                    let ns2 = self.nodes_spec();
                    assert forall|q: int| 0 <= q < ns.len() && q != p implies #[trigger] ns2[q] == ns[q] by {
                        assert(self.nodes@[q] == old(self).nodes@[q]);
                    }
                    assert(ns2[p as int] == self.nodes@[p as int].view_node());
                    assert(ns2 =~= ns.update(p as int, NodeView { deleted: true, ..ns[p as int] }));
                    assert forall|q: int| 0 <= q < self.nodes@.len() implies #[trigger] self.index@.contains_key(id_key(self.nodes@[q].id))
                        && self.index@[id_key(self.nodes@[q].id)]@.contains(q as usize) by {
                        assert(ns2[q].id == ns[q].id);
                        assert(ns2[q] == self.nodes@[q].view_node());
                        assert(ns[q] == old(self).nodes@[q].view_node());
                        assert(old(self).index@.contains_key(id_key(old(self).nodes@[q].id)));
                    }
                    assert forall|k: u64, j: int| #[trigger] self.index@.contains_key(k) && 0 <= j < self.index@[k]@.len()
                        implies (#[trigger] self.index@[k]@[j]) < self.nodes@.len() && id_key(self.nodes@[self.index@[k]@[j] as int].id) == k by {
                        let q = self.index@[k]@[j] as int;
                        assert(ns2[q].id == ns[q].id);
                    }
                }
                Ok(())
            },
            None => Err(HNSWError::VectorNotFound(id.clone())),
        }
    }

    /// Whether the identifier names a node marked deleted.
    pub fn is_deleted(&self, id: &VectorId) -> (r: bool)
        requires
            self.wf(),
        ensures
            r == (has_id(self.nodes_spec(), *id) && self.nodes_spec()[pos_of(self.nodes_spec(), *id)].deleted),
    {
        match self.find(id) {
            Some(p) => {
                proof {
                    assert(self.nodes_spec()[p as int] == self.nodes@[p as int].view_node());
                }
                self.nodes[p].is_deleted
            },
            None => false,
        }
    }

    /// The number of nodes not marked deleted.
    pub fn active_count(&self) -> (r: usize)
        ensures
            r == count_active(self.nodes_spec()),
    {
        let ghost ns = self.nodes_spec();
        let mut c: usize = 0;
        let mut i: usize = 0;
        while i < self.nodes.len()
            invariant
                ns == self.nodes_spec(),
                i <= ns.len(),
                c == count_active(ns.take(i as int)),
                c <= i,
            decreases self.nodes.len() - i,
        {
            proof {
                assert(ns.take(i + 1).drop_last() =~= ns.take(i as int));
                assert(ns[i as int] == self.nodes@[i as int].view_node());
            }
            if !self.nodes[i].is_deleted {
                c = c + 1;
            }
            i = i + 1;
        }
        assert(ns.take(ns.len() as int) =~= ns);
        c
    }

    /// The highest layer of any node, zero without nodes.
    pub fn get_max_level(&self) -> (r: usize)
        ensures
            r == max_level(self.nodes_spec()),
    {
        let ghost ns = self.nodes_spec();
        let mut best: usize = 0;
        let mut i: usize = 0;
        while i < self.nodes.len()
            invariant
                ns == self.nodes_spec(),
                i <= ns.len(),
                best == max_level(ns.take(i as int)),
            decreases self.nodes.len() - i,
        {
            proof {
                assert(ns.take(i + 1).drop_last() =~= ns.take(i as int));
                assert(ns[i as int] == self.nodes@[i as int].view_node());
            }
            if self.nodes[i].level > best {
                best = self.nodes[i].level;
            }
            i = i + 1;
        }
        assert(ns.take(ns.len() as int) =~= ns);
        best
    }

    /// For each layer up to the highest, the number of nodes that reach it.
    pub fn get_level_distribution(&self) -> (r: Vec<usize>)
        requires
            max_level(self.nodes_spec()) < usize::MAX,
        ensures
            r@.len() == max_level(self.nodes_spec()) + 1,
            forall|l: int| 0 <= l < r@.len() ==> #[trigger] r@[l] == count_reaching(self.nodes_spec(), l as nat),
    {
        let top = self.get_max_level();
        let mut r: Vec<usize> = Vec::new();
        let mut l: usize = 0;
        while l <= top
            invariant
                top == max_level(self.nodes_spec()),
                top < usize::MAX,
                l <= top + 1,
                r@.len() == l,
                forall|t: int| 0 <= t < l ==> #[trigger] r@[t] == count_reaching(self.nodes_spec(), t as nat),
            decreases top + 1 - l,
        {
            let c = self.count_at_least(l);
            r.push(c);
            l = l + 1;
        }
        r
    }

    /// The number of nodes that reach a layer.
    fn count_at_least(&self, layer: usize) -> (r: usize)
        ensures
            r == count_reaching(self.nodes_spec(), layer as nat),
    {
        let ghost ns = self.nodes_spec();
        let mut c: usize = 0;
        let mut i: usize = 0;
        while i < self.nodes.len()
            invariant
                ns == self.nodes_spec(),
                i <= ns.len(),
                c == count_reaching(ns.take(i as int), layer as nat),
                c <= i,
            decreases self.nodes.len() - i,
        {
            proof {
                assert(ns.take(i + 1).drop_last() =~= ns.take(i as int));
                assert(ns[i as int] == self.nodes@[i as int].view_node());
            }
            if self.nodes[i].level >= layer {
                c = c + 1;
            }
            i = i + 1;
        }
        assert(ns.take(ns.len() as int) =~= ns);
        c
    }

    /// Makes the identifier the entry point.
    pub fn set_entry_point(&mut self, id: VectorId)
        ensures
            final(self).entry_spec() == Some(id),
            final(self).nodes_spec() == old(self).nodes_spec(),
            final(self).config_spec() == old(self).config_spec(),
            final(self).dimension_spec() == old(self).dimension_spec(),
            old(self).wf() ==> final(self).wf(),
    {
        self.entry_point = Some(id);
    }

    /// The nodes.
    pub fn nodes(&self) -> (r: &Vec<HNSWNode>)
        ensures
            nodes_view(r@) == self.nodes_spec(),
    {
        &self.nodes
    }
}


// ---------------------------------------------------------------------------
// Removing deleted nodes
// ---------------------------------------------------------------------------

/// Whether a node is marked deleted.
pub open spec fn deleted_node() -> spec_fn(NodeView) -> bool {
    |n: NodeView| n.deleted
}

/// Whether a node is not marked deleted.
pub open spec fn live_node() -> spec_fn(NodeView) -> bool {
    |n: NodeView| !n.deleted
}

/// Whether an identifier is not in the sequence.
pub open spec fn not_in(s: Seq<VectorId>) -> spec_fn(VectorId) -> bool {
    |x: VectorId| !s.contains(x)
}

/// The identifiers of the nodes marked deleted, in order.
pub open spec fn deleted_ids(ns: Seq<NodeView>) -> Seq<VectorId> {
    ns.filter(deleted_node()).map_values(|n: NodeView| n.id)
}

/// A node with the identifiers of the deleted nodes of `ns` taken out of its
/// neighbour lists up to its top layer.
pub open spec fn cleaned(ns: Seq<NodeView>, n: NodeView) -> NodeView {
    NodeView {
        neighbors: Seq::new(
            n.neighbors.len(),
            |l: int|
                if l <= n.level {
                    n.neighbors[l].filter(not_in(deleted_ids(ns)))
                } else {
                    n.neighbors[l]
                },
        ),
        ..n
    }
}

/// The nodes of `part` not marked deleted, each cleaned of the deleted
/// nodes of `ns`.
pub open spec fn cleaned_live(ns: Seq<NodeView>, part: Seq<NodeView>) -> Seq<NodeView> {
    part.filter(live_node()).map_values(|n: NodeView| cleaned(ns, n))
}

/// The nodes left by a vacuum: those not marked deleted, cleaned of the
/// deleted ones, in their order.
pub open spec fn vacuumed(ns: Seq<NodeView>) -> Seq<NodeView> {
    cleaned_live(ns, ns)
}

/// A node marked deleted reads as deleted: after `mark_deleted` of a known
/// identifier, the node of that identifier is marked deleted.
pub proof fn law_mark_deleted_is_deleted(ns: Seq<NodeView>, id: VectorId)
    requires
        nodes_valid(ns),
        has_id(ns, id),
    ensures
        ({
            let p = pos_of(ns, id);
            let after = ns.update(p, NodeView { deleted: true, ..ns[p] });
            has_id(after, id) && after[pos_of(after, id)].deleted
        }),
{
    let p = pos_of(ns, id);
    let after = ns.update(p, NodeView { deleted: true, ..ns[p] });
    assert(after[p].id == id);
    assert(has_id(after, id));
    let q = pos_of(after, id);
    if q != p {
        assert(ns[q].id == after[q].id);
        if q < p {
            assert(ns[q].id != ns[p].id);
        } else {
            assert(ns[p].id != ns[q].id);
        }
    }
}

/// A vacuum leaves no node marked deleted, keeps every node that was not,
/// and leaves no neighbour list, up to a node's top layer, naming a node
/// that was marked deleted.
pub proof fn law_vacuum_removes_deleted(ns: Seq<NodeView>)
    ensures
        forall|i: int| 0 <= i < vacuumed(ns).len() ==> !(#[trigger] vacuumed(ns)[i]).deleted,
        forall|p: int| 0 <= p < ns.len() && !ns[p].deleted ==> has_id(vacuumed(ns), #[trigger] ns[p].id),
        forall|i: int, l: int, j: int|
            0 <= i < vacuumed(ns).len() && 0 <= l <= vacuumed(ns)[i].level && l < vacuumed(ns)[i].neighbors.len()
                && 0 <= j < vacuumed(ns)[i].neighbors[l].len()
                ==> !deleted_ids(ns).contains(#[trigger] vacuumed(ns)[i].neighbors[l][j]),
{
    broadcast use vstd::seq_lib::group_filter_ensures;
    let live = ns.filter(live_node());
    let v = vacuumed(ns);
    assert(v.len() == live.len());
    assert forall|i: int| 0 <= i < v.len() implies !(#[trigger] v[i]).deleted by {
        assert(v[i] == cleaned(ns, live[i]));
        assert(live_node()(live[i]));
    }
    assert forall|p: int| 0 <= p < ns.len() && !ns[p].deleted implies has_id(v, #[trigger] ns[p].id) by {
        assert(live_node()(ns[p]));
        assert(live.contains(ns[p]));
        let k = choose|k: int| 0 <= k < live.len() && live[k] == ns[p];
        assert(v[k] == cleaned(ns, live[k]));
        assert(v[k].id == ns[p].id);
    }
    assert forall|i: int, l: int, j: int|
        0 <= i < v.len() && 0 <= l <= v[i].level && l < v[i].neighbors.len() && 0 <= j < v[i].neighbors[l].len()
        implies !deleted_ids(ns).contains(#[trigger] v[i].neighbors[l][j]) by {
        let n = live[i];
        assert(v[i] == cleaned(ns, n));
        let kept = n.neighbors[l].filter(not_in(deleted_ids(ns)));
        assert(v[i].neighbors[l] == kept);
        assert(not_in(deleted_ids(ns))(kept[j]));
    }
}

/// The identifiers of the list not in `removed`, in order.
fn without(list: &Vec<VectorId>, removed: &Vec<VectorId>) -> (r: Vec<VectorId>)
    ensures
        r@ == list@.filter(not_in(removed@)),
        no_repeats(list@) ==> no_repeats(r@),
{
    let ghost pred = not_in(removed@);
    let mut r: Vec<VectorId> = Vec::new();
    let mut i: usize = 0;
    while i < list.len()
        invariant
            pred == not_in(removed@),
            i <= list.len(),
            r@ == list@.take(i as int).filter(pred),
            forall|a: int| 0 <= a < r@.len() ==> exists|t: int| 0 <= t < i && #[trigger] r@[a] == list@[t],
            no_repeats(list@) ==> no_repeats(r@),
        decreases list.len() - i,
    {
        proof {
            reveal(Seq::filter);
            assert(list@.take(i + 1).drop_last() =~= list@.take(i as int));
            assert(list@.take(i + 1).last() == list@[i as int]);
        }
        let keep = !list_contains(removed, &list[i]);
        if keep {
            let ghost before = r@;
            r.push(list[i].clone());
            proof {
                assert(r@ =~= before.push(list@[i as int]));
                assert forall|a: int| 0 <= a < r@.len() implies exists|t: int| 0 <= t < i + 1 && #[trigger] r@[a] == list@[t] by {
                    if a < before.len() {
                        assert(r@[a] == before[a]);
                        let t = choose|t: int| 0 <= t < i && before[a] == list@[t];
                        assert(r@[a] == list@[t]);
                    } else {
                        assert(r@[a] == list@[i as int]);
                    }
                }
                if no_repeats(list@) {
                    assert forall|a: int, b: int| 0 <= a < b < r@.len() implies r@[a] != r@[b] by {
                        if b == before.len() {
                            let t = choose|t: int| 0 <= t < i && before[a] == list@[t];
                            assert(r@[a] == list@[t]);
                            assert(list@[t] != list@[i as int]);
                        } else {
                            assert(r@[a] == before[a] && r@[b] == before[b]);
                        }
                    }
                }
            }
        }
        i = i + 1;
    }
    assert(list@.take(list@.len() as int) =~= list@);
    r
}

impl HNSWIndex {
    /// The identifiers of the nodes marked deleted, in order.
    fn collect_deleted(&self) -> (r: Vec<VectorId>)
        ensures
            r@ == deleted_ids(self.nodes_spec()),
    {
        let ghost ns = self.nodes_spec();
        let mut r: Vec<VectorId> = Vec::new();
        let mut i: usize = 0;
        while i < self.nodes.len()
            invariant
                ns == self.nodes_spec(),
                i <= ns.len(),
                r@ == deleted_ids(ns.take(i as int)),
            decreases self.nodes.len() - i,
        {
            proof {
                reveal(Seq::filter);
                assert(ns.take(i + 1).drop_last() =~= ns.take(i as int));
                assert(ns.take(i + 1).last() == ns[i as int]);
                assert(ns[i as int] == self.nodes@[i as int].view_node());
            }
            if self.nodes[i].is_deleted {
                let ghost before = r@;
                r.push(self.nodes[i].id.clone());
                proof {
                    assert(ns.take(i + 1).filter(deleted_node()) == ns.take(i as int).filter(deleted_node()).push(ns[i as int]));
                    assert(r@ =~= deleted_ids(ns.take(i + 1)));
                }
            } else {
                proof {
                    assert(ns.take(i + 1).filter(deleted_node()) == ns.take(i as int).filter(deleted_node()));
                }
            }
            i = i + 1;
        }
        assert(ns.take(ns.len() as int) =~= ns);
        r
    }

    /// The node at a position with the identifiers in `removed` taken out
    /// of its neighbour lists up to its top layer.
    fn cleaned_node(&self, p: usize, removed: &Vec<VectorId>) -> (r: HNSWNode)
        requires
            self.wf(),
            p < self.nodes_spec().len(),
        ensures
            r.view_node() == (NodeView {
                neighbors: Seq::new(
                    self.nodes_spec()[p as int].neighbors.len(),
                    |l: int|
                        if l <= self.nodes_spec()[p as int].level {
                            self.nodes_spec()[p as int].neighbors[l].filter(not_in(removed@))
                        } else {
                            self.nodes_spec()[p as int].neighbors[l]
                        },
                ),
                ..self.nodes_spec()[p as int]
            }),
            r.view_node().neighbors.len() > r.view_node().level,
            forall|l: int| 0 <= l < r.view_node().neighbors.len() ==> no_repeats(#[trigger] r.view_node().neighbors[l]),
    {
        let ghost nv = self.nodes_spec()[p as int];
        let n = &self.nodes[p];
        proof {
            assert(nv == n.view_node());
            assert(nodes_valid(self.nodes_spec()));
            assert forall|l: int| 0 <= l < n.neighbors@.len() implies no_repeats(#[trigger] n.neighbors@[l]@) by {
                assert(nv.neighbors[l] == n.neighbors@[l]@);
                assert(no_repeats(self.nodes_spec()[p as int].neighbors[l]));
            }
        }
        let mut lists: Vec<Vec<VectorId>> = Vec::new();
        let mut l: usize = 0;
        while l < n.neighbors.len()
            invariant
                nv == n.view_node(),
                l <= n.neighbors@.len(),
                lists@.len() == l,
                forall|t: int| 0 <= t < n.neighbors@.len() ==> no_repeats(#[trigger] n.neighbors@[t]@),
                forall|t: int| 0 <= t < l ==> (#[trigger] lists@[t])@ == if t <= nv.level {
                    nv.neighbors[t].filter(not_in(removed@))
                } else {
                    nv.neighbors[t]
                },
                forall|t: int| 0 <= t < l ==> no_repeats(#[trigger] lists@[t]@),
            decreases n.neighbors.len() - l,
        {
            proof {
                assert(nv.neighbors[l as int] == n.neighbors@[l as int]@);
            }
            if l <= n.level {
                let kept = without(&n.neighbors[l], removed);
                lists.push(kept);
            } else {
                let copy = n.neighbors[l].clone();
                proof {
                    assert forall|t: int| 0 <= t < copy@.len() implies copy@[t] == n.neighbors@[l as int]@[t] by {
                        assert(cloned::<VectorId>(n.neighbors@[l as int]@[t], copy@[t]));
                    }
                    assert(copy@ =~= n.neighbors@[l as int]@);
                }
                lists.push(copy);
            }
            l = l + 1;
        }
        let vector = n.vector.clone();
        proof {
            assert forall|t: int| 0 <= t < vector@.len() implies vector@[t] == n.vector@[t] by {
                assert(cloned::<u32>(n.vector@[t], vector@[t]));
            }
            assert(vector@ =~= n.vector@);
        }
        let r = HNSWNode { id: n.id.clone(), vector, level: n.level, neighbors: lists, is_deleted: n.is_deleted };
        proof {
            assert(lists_view(r.neighbors@) =~= Seq::new(
                nv.neighbors.len(),
                |t: int| if t <= nv.level { nv.neighbors[t].filter(not_in(removed@)) } else { nv.neighbors[t] },
            ));
            assert forall|t: int| 0 <= t < r.view_node().neighbors.len() implies no_repeats(#[trigger] r.view_node().neighbors[t]) by {
                assert(r.view_node().neighbors[t] == lists@[t]@);
            }
        }
        r
    }

    /// Removes the nodes marked deleted and takes their identifiers out of
    /// the other nodes' neighbour lists up to each node's top layer; returns
    /// how many nodes were removed. The entry point is left as it was.
    pub fn vacuum(&mut self) -> (r: Result<usize, OperationError>)
        requires
            old(self).wf(),
        ensures
            final(self).wf(),
            final(self).nodes_spec() == vacuumed(old(self).nodes_spec()),
            r matches Ok(c) && c == old(self).nodes_spec().filter(deleted_node()).len(),
            final(self).config_spec() == old(self).config_spec(),
            final(self).entry_spec() == old(self).entry_spec(),
            final(self).dimension_spec() == old(self).dimension_spec(),
    {
        let ghost ns = self.nodes_spec();
        let removed = self.collect_deleted();
        let mut g = HNSWIndex::new(self.config);
        let mut j: usize = 0;
        while j < self.nodes.len()
            invariant
                self.wf(),
                ns == self.nodes_spec(),
                removed@ == deleted_ids(ns),
                j <= ns.len(),
                g.wf(),
                g.config_spec() == self.config_spec(),
                g.entry_spec() is None,
                g.dimension_spec() is None,
                g.nodes_spec() == cleaned_live(ns, ns.take(j as int)),
                forall|q: int| 0 <= q < g.nodes_spec().len() ==> exists|t: int| 0 <= t < j && (#[trigger] g.nodes_spec()[q]).id == ns[t].id,
            decreases self.nodes.len() - j,
        {
            let ghost gn = g.nodes_spec();
            proof {
                reveal(Seq::filter);
                assert(ns.take(j + 1).drop_last() =~= ns.take(j as int));
                assert(ns.take(j + 1).last() == ns[j as int]);
                assert(ns[j as int] == self.nodes@[j as int].view_node());
            }
            if !self.nodes[j].is_deleted {
                let node = self.cleaned_node(j, &removed);
                proof {
                    assert(node.view_node() == cleaned(ns, ns[j as int]));
                    if has_id(gn, node.view_node().id) {
                        let q = choose|q: int| 0 <= q < gn.len() && (#[trigger] gn[q]).id == node.view_node().id;
                        let t = choose|t: int| 0 <= t < j && (#[trigger] gn[q]).id == ns[t].id;
                        assert(ns[t].id == ns[j as int].id);
                        assert(false);
                    }
                }
                g.push_node(node);
                proof {
                    assert(ns.take(j + 1).filter(live_node()) == ns.take(j as int).filter(live_node()).push(ns[j as int]));
                    assert(g.nodes_spec() =~= cleaned_live(ns, ns.take(j + 1)));
                    assert forall|q: int| 0 <= q < g.nodes_spec().len() implies exists|t: int| 0 <= t < j + 1 && (#[trigger] g.nodes_spec()[q]).id == ns[t].id by {
                        if q < gn.len() {
                            assert(g.nodes_spec()[q] == gn[q]);
                            let t = choose|t: int| 0 <= t < j && (#[trigger] gn[q]).id == ns[t].id;
                            assert(g.nodes_spec()[q].id == ns[t].id);
                        } else {
                            assert(g.nodes_spec()[q].id == ns[j as int].id);
                        }
                    }
                }
            } else {
                proof {
                    assert(ns.take(j + 1).filter(live_node()) == ns.take(j as int).filter(live_node()));
                }
            }
            j = j + 1;
        }
        proof {
            assert(ns.take(ns.len() as int) =~= ns);
            assert(removed@.len() == ns.filter(deleted_node()).len());
        }
        let count = removed.len();
        std::mem::swap(&mut g.entry_point, &mut self.entry_point);
        g.dimension = self.dimension;
        *self = g;
        Ok(count)
    }
}


// ---------------------------------------------------------------------------
// Restoring nodes, counts and memory
// ---------------------------------------------------------------------------

/// A node has a neighbour list for each of its layers, none with a repeat;
/// every node built by `HNSWNode`'s methods has.
pub open spec fn node_valid(n: NodeView) -> bool {
    &&& n.neighbors.len() > n.level
    &&& forall|l: int| 0 <= l < n.neighbors.len() ==> no_repeats(#[trigger] n.neighbors[l])
}

impl HNSWIndex {
    /// Puts a saved node back: it replaces the node of the same identifier,
    /// or goes last; the dimension becomes the node's vector length when it
    /// is not known yet.
    pub fn restore_node(&mut self, node: HNSWNode) -> (r: Result<(), HNSWError>)
        requires
            old(self).wf(),
            node_valid(node.view_node()),
        ensures
            final(self).wf(),
            r is Ok,
            final(self).dimension_spec() == match old(self).dimension_spec() {
                Some(d) => Some(d),
                None => Some(node.view_node().vector.len() as usize),
            },
            has_id(old(self).nodes_spec(), node.view_node().id) ==> final(self).nodes_spec()
                == old(self).nodes_spec().update(pos_of(old(self).nodes_spec(), node.view_node().id), node.view_node()),
            !has_id(old(self).nodes_spec(), node.view_node().id) ==> final(self).nodes_spec()
                == old(self).nodes_spec().push(node.view_node()),
            final(self).config_spec() == old(self).config_spec(),
            final(self).entry_spec() == old(self).entry_spec(),
    {
        if self.dimension.is_none() {
            self.dimension = Some(node.vector.len());
        }
        let ghost nv = node.view_node();
        match self.find(&node.id) {
            Some(p) => {
                let ghost ns = self.nodes_spec();
                let ghost old_nodes = self.nodes@;
                self.nodes.set(p, node);
                proof {
                    let ns2 = self.nodes_spec();
                    assert(ns2 =~= ns.update(p as int, nv));
                    assert forall|a: int, b: int| 0 <= a < b < ns2.len() implies #[trigger] ns2[a].id != #[trigger] ns2[b].id by {
                        assert(ns2[a].id == ns[a].id && ns2[b].id == ns[b].id);
                    }
                    assert forall|a: int| 0 <= a < ns2.len() implies #[trigger] ns2[a].neighbors.len() > ns2[a].level by {
                        if a != p { assert(ns2[a] == ns[a]); }
                    }
                    assert forall|a: int, l: int| 0 <= a < ns2.len() && 0 <= l < ns2[a].neighbors.len() implies no_repeats(#[trigger] ns2[a].neighbors[l]) by {
                        if a != p { assert(ns2[a] == ns[a]); }
                    }
                    assert forall|q: int| 0 <= q < self.nodes@.len() implies #[trigger] self.index@.contains_key(id_key(self.nodes@[q].id))
                        && self.index@[id_key(self.nodes@[q].id)]@.contains(q as usize) by {
                        assert(ns2[q].id == ns[q].id);
                    }
                    assert forall|k: u64, j: int| #[trigger] self.index@.contains_key(k) && 0 <= j < self.index@[k]@.len()
                        implies (#[trigger] self.index@[k]@[j]) < self.nodes@.len() && id_key(self.nodes@[self.index@[k]@[j] as int].id) == k by {
                        let q = self.index@[k]@[j] as int;
                        assert(ns2[q].id == ns[q].id);
                    }
                }
            },
            None => {
                self.push_node(node);
            },
        }
        Ok(())
    }
}

/// The nodes after marking the node of one identifier deleted, where there
/// is one.
pub open spec fn mark_one(ns: Seq<NodeView>, id: VectorId) -> Seq<NodeView> {
    if has_id(ns, id) {
        ns.update(pos_of(ns, id), NodeView { deleted: true, ..ns[pos_of(ns, id)] })
    } else {
        ns
    }
}

/// The nodes after marking the nodes of the identifiers deleted, in turn.
pub open spec fn mark_all(ns: Seq<NodeView>, ids: Seq<VectorId>) -> Seq<NodeView>
    decreases ids.len(),
{
    if ids.len() == 0 {
        ns
    } else {
        mark_one(mark_all(ns, ids.drop_last()), ids.last())
    }
}

/// The identifiers, in order, that name no node.
pub open spec fn unknown_ids(ns: Seq<NodeView>, ids: Seq<VectorId>) -> Seq<VectorId>
    decreases ids.len(),
{
    if ids.len() == 0 {
        Seq::empty()
    } else if has_id(ns, ids.last()) {
        unknown_ids(ns, ids.drop_last())
    } else {
        unknown_ids(ns, ids.drop_last()).push(ids.last())
    }
}

/// Marking keeps every node's identifier where it was.
proof fn lemma_mark_all_ids(ns: Seq<NodeView>, ids: Seq<VectorId>)
    ensures
        mark_all(ns, ids).len() == ns.len(),
        forall|p: int| 0 <= p < ns.len() ==> #[trigger] mark_all(ns, ids)[p].id == ns[p].id,
    decreases ids.len(),
{
    if ids.len() > 0 {
        lemma_mark_all_ids(ns, ids.drop_last());
    }
}

/// Nodes with the same identifiers in the same places name the same
/// identifiers.
proof fn lemma_same_ids_has_id(a: Seq<NodeView>, b: Seq<NodeView>, id: VectorId)
    requires
        a.len() == b.len(),
        forall|p: int| 0 <= p < a.len() ==> #[trigger] a[p].id == b[p].id,
    ensures
        has_id(a, id) == has_id(b, id),
{
    if has_id(a, id) {
        let p = pos_of(a, id);
        assert(b[p].id == id);
    }
    if has_id(b, id) {
        let p = pos_of(b, id);
        assert(a[p].id == id);
    }
}

proof fn lemma_unknown_len(ns: Seq<NodeView>, ids: Seq<VectorId>)
    ensures
        unknown_ids(ns, ids).len() <= ids.len(),
    decreases ids.len(),
{
    if ids.len() > 0 {
        lemma_unknown_len(ns, ids.drop_last());
    }
}

/// The nodes with those whose identifier is listed marked deleted.
pub open spec fn marked_listed(ns: Seq<NodeView>, ids: Seq<VectorId>) -> Seq<NodeView> {
    Seq::new(ns.len(), |p: int| NodeView { deleted: ns[p].deleted || ids.contains(ns[p].id), ..ns[p] })
}

/// A batch of deletes marks deleted exactly the nodes whose identifier it
/// lists, whatever the order and repeats of the list, and changes nothing
/// else of any node.
pub proof fn law_batch_delete_marks_listed(ns: Seq<NodeView>, ids: Seq<VectorId>)
    requires
        nodes_valid(ns),
    ensures
        mark_all(ns, ids) == marked_listed(ns, ids),
    decreases ids.len(),
{
    if ids.len() == 0 {
        assert(mark_all(ns, ids) =~= marked_listed(ns, ids));
    } else {
        let pre = ids.drop_last();
        let x = ids.last();
        law_batch_delete_marks_listed(ns, pre);
        let m = mark_all(ns, pre);
        assert forall|p: int| 0 <= p < ns.len() implies ids.contains(#[trigger] ns[p].id)
            == (pre.contains(ns[p].id) || ns[p].id == x) by {
            if ids.contains(ns[p].id) {
                let k = choose|k: int| 0 <= k < ids.len() && ids[k] == ns[p].id;
                if k < ids.len() - 1 {
                    assert(pre[k] == ns[p].id);
                }
            }
            if pre.contains(ns[p].id) {
                let k = choose|k: int| 0 <= k < pre.len() && pre[k] == ns[p].id;
                assert(ids[k] == ns[p].id);
            }
            if ns[p].id == x {
                assert(ids[ids.len() - 1] == x);
            }
        }
        if has_id(m, x) {
            let q = pos_of(m, x);
            assert(m[q].id == ns[q].id);
            assert forall|p: int| 0 <= p < ns.len() && p != q implies #[trigger] ns[p].id != x by {
                if p < q {
                    assert(ns[p].id != ns[q].id);
                } else {
                    assert(ns[q].id != ns[p].id);
                }
            }
        } else {
            assert forall|p: int| 0 <= p < ns.len() implies #[trigger] ns[p].id != x by {
                assert(m[p].id == ns[p].id);
            }
        }
        assert(mark_all(ns, ids) =~= marked_listed(ns, ids));
    }
}

impl HNSWIndex {
    /// Marks the node of each identifier deleted, in turn; an identifier
    /// that names no node is counted as failed and listed with its error.
    pub fn batch_delete(&mut self, ids: &Vec<VectorId>) -> (r: Result<BatchDeleteResult, OperationError>)
        requires
            old(self).wf(),
        ensures
            final(self).wf(),
            final(self).config_spec() == old(self).config_spec(),
            final(self).entry_spec() == old(self).entry_spec(),
            final(self).dimension_spec() == old(self).dimension_spec(),
            final(self).nodes_spec() == mark_all(old(self).nodes_spec(), ids@),
            r matches Ok(b) && {
                let miss = unknown_ids(old(self).nodes_spec(), ids@);
                &&& b.failed == miss.len()
                &&& b.successful + b.failed == ids@.len()
                &&& b.errors@.len() == miss.len()
                &&& forall|j: int| 0 <= j < miss.len() ==> #[trigger] b.errors@[j] == (miss[j], HNSWError::VectorNotFound(miss[j]))
            },
    {
        let ghost ns0 = self.nodes_spec();
        let mut successful: usize = 0;
        let mut failed: usize = 0;
        let mut errors: Vec<(VectorId, HNSWError)> = Vec::new();
        let mut i: usize = 0;
        while i < ids.len()
            invariant
                i <= ids@.len(),
                self.wf(),
                self.config_spec() == old(self).config_spec(),
                self.entry_spec() == old(self).entry_spec(),
                self.dimension_spec() == old(self).dimension_spec(),
                ns0 == old(self).nodes_spec(),
                self.nodes_spec() == mark_all(ns0, ids@.subrange(0, i as int)),
                failed == unknown_ids(ns0, ids@.subrange(0, i as int)).len(),
                successful + failed == i,
                errors@.len() == failed,
                forall|j: int| 0 <= j < failed ==> #[trigger] errors@[j] == (
                    unknown_ids(ns0, ids@.subrange(0, i as int))[j],
                    HNSWError::VectorNotFound(unknown_ids(ns0, ids@.subrange(0, i as int))[j])),
            decreases ids.len() - i,
        {
            let ghost pre = ids@.subrange(0, i as int);
            let ghost next = ids@.subrange(0, i + 1);
            proof {
                assert(next.drop_last() =~= pre);
                assert(next.last() == ids@[i as int]);
                lemma_mark_all_ids(ns0, pre);
                lemma_same_ids_has_id(mark_all(ns0, pre), ns0, ids@[i as int]);
                lemma_unknown_len(ns0, pre);
            }
            let ghost before = self.nodes_spec();
            let ghost errs = errors@;
            match self.mark_deleted(&ids[i]) {
                Ok(_) => {
                    successful = successful + 1;
                },
                Err(e) => {
                    failed = failed + 1;
                    errors.push((ids[i].clone(), e));
                    proof {
                        let u = unknown_ids(ns0, next);
                        assert(u == unknown_ids(ns0, pre).push(ids@[i as int]));
                        assert forall|j: int| 0 <= j < failed implies #[trigger] errors@[j] == (u[j], HNSWError::VectorNotFound(u[j])) by {
                            if j < failed - 1 {
                                assert(errors@[j] == errs[j]);
                            }
                        }
                    }
                },
            }
            proof {
                assert(self.nodes_spec() == mark_one(before, ids@[i as int]));
            }
            i = i + 1;
        }
        proof {
            assert(ids@.subrange(0, ids@.len() as int) =~= ids@);
        }
        Ok(BatchDeleteResult { successful, failed, errors })
    }

    /// Optimizing the connections changes nothing yet: the index is left as
    /// it was and the outcome counts no edge.
    pub fn optimize_connections(&mut self) -> (r: Result<OptimizationResult, OperationError>)
        ensures
            *final(self) == *old(self),
            r matches Ok(c) && c.edges_added == 0 && c.edges_removed == 0,
    {
        Ok(OptimizationResult { edges_added: 0, edges_removed: 0 })
    }

    /// Rebalancing moves nothing yet: the index is left as it was and the
    /// outcome counts no node and no layer.
    pub fn rebalance(&mut self) -> (r: Result<RebalanceResult, OperationError>)
        ensures
            *final(self) == *old(self),
            r matches Ok(c) && c.nodes_moved == 0 && c.layers_adjusted == 0,
    {
        Ok(RebalanceResult { nodes_moved: 0, layers_adjusted: 0 })
    }
}

impl HNSWIndex {
    /// Compacting the layers moves nothing yet: the index is left as it was
    /// and the outcome counts no layer and no node.
    pub fn compact_layers(&mut self) -> (r: Result<CompactionResult, OperationError>)
        ensures
            *final(self) == *old(self),
            r matches Ok(c) && c.layers_removed == 0 && c.nodes_relocated == 0,
    {
        Ok(CompactionResult { layers_removed: 0, nodes_relocated: 0 })
    }

    /// Defragmenting moves nothing yet: the index is left as it was and the
    /// outcome counts no byte and no node.
    pub fn defragment(&mut self) -> (r: Result<DefragmentResult, OperationError>)
        ensures
            *final(self) == *old(self),
            r matches Ok(c) && c.bytes_saved == 0 && c.nodes_moved == 0,
    {
        Ok(DefragmentResult { bytes_saved: 0, nodes_moved: 0 })
    }
}

/// The sum of a sequence of naturals.
pub open spec fn total(s: Seq<nat>) -> nat
    decreases s.len(),
{
    if s.len() == 0 {
        0
    } else {
        total(s.drop_last()) + s.last()
    }
}

/// A prefix sums to no more than the whole.
pub proof fn lemma_total_prefix(s: Seq<nat>, i: int)
    requires
        0 <= i <= s.len(),
    ensures
        total(s.take(i)) <= total(s),
    decreases s.len() - i,
{
    if i < s.len() {
        lemma_total_prefix(s, i + 1);
        assert(s.take(i + 1).drop_last() =~= s.take(i));
    } else {
        assert(s.take(i) =~= s);
    }
}

/// The number of neighbour entries of a node on its layers up to its top.
pub open spec fn node_edges(n: NodeView) -> nat {
    total(Seq::new(n.level + 1, |l: int| n.neighbors[l].len()))
}

/// The neighbour entries of the nodes not marked deleted.
pub open spec fn live_edges(ns: Seq<NodeView>) -> nat {
    total(ns.map_values(|n: NodeView| if n.deleted { 0nat } else { node_edges(n) }))
}

/// The neighbour entries of all nodes.
pub open spec fn all_edges(ns: Seq<NodeView>) -> nat {
    total(ns.map_values(|n: NodeView| node_edges(n)))
}

/// The vector components of all nodes.
pub open spec fn vector_words(ns: Seq<NodeView>) -> nat {
    total(ns.map_values(|n: NodeView| n.vector.len()))
}

/// The highest top layer of a node not marked deleted, zero without one.
pub open spec fn max_live_level(ns: Seq<NodeView>) -> nat
    decreases ns.len(),
{
    if ns.len() == 0 {
        0
    } else if !ns.last().deleted && ns.last().level > max_live_level(ns.drop_last()) {
        ns.last().level
    } else {
        max_live_level(ns.drop_last())
    }
}

/// The bytes held per node besides its vector and lists: the identifier,
/// the deletion mark and the level.
pub open spec fn node_overhead() -> nat {
    33 + (usize::BITS / 8) as nat
}

/// The shape of the graph over the nodes not marked deleted: their number,
/// their edges (neighbour entries over two, each edge being held at both
/// ends), the highest top layer and the number of components, taken as one
/// for a graph with nodes.
pub struct GraphCounts {
    pub total_nodes: usize,
    pub total_edges: usize,
    pub max_layer: usize,
    pub connected_components: usize,
}

impl HNSWIndex {
    /// The neighbour entries of the node at a position on its layers up to
    /// its top.
    fn node_edge_count(&self, p: usize) -> (r: usize)
        requires
            self.wf(),
            p < self.nodes_spec().len(),
            node_edges(self.nodes_spec()[p as int]) <= usize::MAX,
        ensures
            r == node_edges(self.nodes_spec()[p as int]),
    {
        let ghost nv = self.nodes_spec()[p as int];
        let n = &self.nodes[p];
        let ghost terms = Seq::new(nv.level + 1, |l: int| nv.neighbors[l].len());
        proof {
            assert(nv == n.view_node());
            assert(nv.neighbors.len() > nv.level);
        }
        let lists = n.neighbors.len();
        let mut sum: usize = 0;
        let mut l: usize = 0;
        while l <= n.level
            invariant
                nv == n.view_node(),
                nv.neighbors.len() > nv.level,
                n.neighbors@.len() == nv.neighbors.len(),
                lists == nv.neighbors.len(),
                terms == Seq::new(nv.level + 1, |l: int| nv.neighbors[l].len()),
                total(terms) <= usize::MAX,
                l <= nv.level + 1,
                sum == total(terms.take(l as int)),
            decreases nv.level + 1 - l,
        {
            proof {
                lemma_total_prefix(terms, l + 1);
                assert(terms.take(l + 1).drop_last() =~= terms.take(l as int));
                assert(nv.neighbors[l as int] == n.neighbors@[l as int]@);
            }
            sum = sum + n.neighbors[l].len();
            l = l + 1;
        }
        assert(terms.take(terms.len() as int) =~= terms);
        sum
    }

    /// The shape of the graph over the nodes not marked deleted; all zero
    /// when there is none.
    pub fn graph_counts(&self) -> (r: GraphCounts)
        requires
            self.wf(),
            live_edges(self.nodes_spec()) <= usize::MAX,
        ensures
            count_active(self.nodes_spec()) == 0 ==> r == (GraphCounts {
                total_nodes: 0, total_edges: 0, max_layer: 0, connected_components: 0 }),
            count_active(self.nodes_spec()) > 0 ==> r == (GraphCounts {
                total_nodes: count_active(self.nodes_spec()) as usize,
                total_edges: (live_edges(self.nodes_spec()) / 2) as usize,
                max_layer: max_live_level(self.nodes_spec()) as usize,
                connected_components: 1,
            }),
    {
        let ghost ns = self.nodes_spec();
        let ghost terms = ns.map_values(|n: NodeView| if n.deleted { 0nat } else { node_edges(n) });
        let mut active: usize = 0;
        let mut edges: usize = 0;
        let mut top: usize = 0;
        let mut i: usize = 0;
        while i < self.nodes.len()
            invariant
                self.wf(),
                ns == self.nodes_spec(),
                terms == ns.map_values(|n: NodeView| if n.deleted { 0nat } else { node_edges(n) }),
                total(terms) <= usize::MAX,
                i <= ns.len(),
                active == count_active(ns.take(i as int)),
                active <= i,
                edges == total(terms.take(i as int)),
                top == max_live_level(ns.take(i as int)),
            decreases self.nodes.len() - i,
        {
            proof {
                assert(ns.take(i + 1).drop_last() =~= ns.take(i as int));
                assert(terms.take(i + 1).drop_last() =~= terms.take(i as int));
                assert(ns[i as int] == self.nodes@[i as int].view_node());
                lemma_total_prefix(terms, i + 1);
            }
            if !self.nodes[i].is_deleted {
                proof {
                    assert(terms[i as int] == node_edges(ns[i as int]));
                    assert(total(terms.take(i + 1)) == total(terms.take(i as int)) + terms[i as int]);
                }
                let e = self.node_edge_count(i);
                edges = edges + e;
                active = active + 1;
                if self.nodes[i].level > top {
                    top = self.nodes[i].level;
                }
            }
            i = i + 1;
        }
        proof {
            assert(ns.take(ns.len() as int) =~= ns);
            assert(terms.take(terms.len() as int) =~= terms);
        }
        if active == 0 {
            return GraphCounts { total_nodes: 0, total_edges: 0, max_layer: 0, connected_components: 0 };
        }
        GraphCounts { total_nodes: active, total_edges: edges / 2, max_layer: top, connected_components: 1 }
    }

    /// The estimated memory of the index: per node its overhead, four bytes
    /// per vector component and 32 bytes per neighbour entry up to its top
    /// layer, plus `self_size`, the size of the index value itself.
    pub fn estimate_memory_usage(&self, self_size: usize) -> (r: MemoryUsage)
        requires
            self.wf(),
            self_size + self.nodes_spec().len() * node_overhead() + vector_words(self.nodes_spec()) * 4
                + all_edges(self.nodes_spec()) * 32 <= usize::MAX,
        ensures
            r.nodes_bytes == self.nodes_spec().len() * node_overhead(),
            r.vectors_bytes == vector_words(self.nodes_spec()) * 4,
            r.graph_bytes == all_edges(self.nodes_spec()) * 32,
            r.total_bytes == self_size + r.nodes_bytes + r.vectors_bytes + r.graph_bytes,
    {
        let ghost ns = self.nodes_spec();
        let ghost words = ns.map_values(|n: NodeView| n.vector.len());
        let ghost entries = ns.map_values(|n: NodeView| node_edges(n));
        let overhead: usize = 33 + (usize::BITS / 8) as usize;
        let mut word_count: usize = 0;
        let mut entry_count: usize = 0;
        let mut i: usize = 0;
        while i < self.nodes.len()
            invariant
                self.wf(),
                ns == self.nodes_spec(),
                words == ns.map_values(|n: NodeView| n.vector.len()),
                entries == ns.map_values(|n: NodeView| node_edges(n)),
                total(words) * 4 + total(entries) * 32 <= usize::MAX,
                i <= ns.len(),
                word_count == total(words.take(i as int)),
                entry_count == total(entries.take(i as int)),
            decreases self.nodes.len() - i,
        {
            proof {
                assert(words.take(i + 1).drop_last() =~= words.take(i as int));
                assert(entries.take(i + 1).drop_last() =~= entries.take(i as int));
                assert(ns[i as int] == self.nodes@[i as int].view_node());
                lemma_total_prefix(words, i + 1);
                lemma_total_prefix(entries, i + 1);
            }
            word_count = word_count + self.nodes[i].vector.len();
            let e = self.node_edge_count(i);
            entry_count = entry_count + e;
            i = i + 1;
        }
        proof {
            assert(words.take(words.len() as int) =~= words);
            assert(entries.take(entries.len() as int) =~= entries);
            assert(overhead == node_overhead());
            assert(self.nodes.len() == ns.len());
        }
        let nodes_bytes = self.nodes.len() * overhead;
        let vectors_bytes = word_count * 4;
        let graph_bytes = entry_count * 32;
        MemoryUsage {
            total_bytes: self_size + nodes_bytes + vectors_bytes + graph_bytes,
            nodes_bytes,
            vectors_bytes,
            graph_bytes,
        }
    }
}


} // verus!
