//! Chunked storage of vectors: chunks of vectors, their metadata, and the
//! manifest that lists the chunks and the structure of the indexes.
//!
//! Vector components are single-precision floats, held here by their bit
//! patterns (`f32::to_bits`); nothing in this module reads their values.
use vstd::prelude::*;
use std::collections::HashMap;
use crate::assoc::{distinct_keys, pairs_map, lemma_pairs_map, lemma_pairs_map_update, lemma_pairs_map_push, lemma_pairs_map_lookup};
use crate::types::VectorId;
use crate::schema::MetadataSchema;
use crate::text::{decimal, push_decimal, concat};

verus! {

/// Errors of chunks and manifests.
pub enum ChunkError {
    Serialization(String),
    Deserialization(String),
    InvalidVersion { expected: u32, found: u32 },
    ChunkOverlap(String),
    InvalidRange { start: usize, end: usize },
}

/// The message of a chunk error.
pub open spec fn chunk_error_message(e: ChunkError) -> Seq<char> {
    match e {
        ChunkError::Serialization(m) => "Serialization error: "@ + m@,
        ChunkError::Deserialization(m) => "Deserialization error: "@ + m@,
        ChunkError::InvalidVersion { expected, found } =>
            "Invalid version: expected "@ + decimal(expected as nat) + ", found "@ + decimal(found as nat),
        ChunkError::ChunkOverlap(m) => "Chunk overlap detected: "@ + m@,
        ChunkError::InvalidRange { start, end } =>
            "Invalid chunk range: start="@ + decimal(start as nat) + ", end="@ + decimal(end as nat),
    }
}

impl ChunkError {
    /// The message of the error.
    pub fn to_string(&self) -> (r: String)
        ensures
            r@ == chunk_error_message(*self),
    {
        match self {
            ChunkError::Serialization(m) => concat("Serialization error: ", m.as_str()),
            ChunkError::Deserialization(m) => concat("Deserialization error: ", m.as_str()),
            ChunkError::InvalidVersion { expected, found } => {
                let mut r = String::from_str("Invalid version: expected ");
                push_decimal(&mut r, *expected as usize);
                r.append(", found ");
                push_decimal(&mut r, *found as usize);
                r
            },
            ChunkError::ChunkOverlap(m) => concat("Chunk overlap detected: ", m.as_str()),
            ChunkError::InvalidRange { start, end } => {
                let mut r = String::from_str("Invalid chunk range: start=");
                push_decimal(&mut r, *start);
                r.append(", end=");
                push_decimal(&mut r, *end);
                r
            },
        }
    }
}

/// The manifest format version that this library writes and reads.
pub const MANIFEST_VERSION: u32 = 3;

// ---------------------------------------------------------------------------
// VectorChunk
// ---------------------------------------------------------------------------

/// A chunk of vectors, covering the index range `start_idx..=end_idx`.
pub struct VectorChunk {
    pub chunk_id: String,
    pub start_idx: usize,
    pub end_idx: usize,
    /// The vectors by identifier; identifiers do not repeat.
    pub vectors: Vec<(VectorId, Vec<u32>)>,
}

/// An index lies within a chunk's range.
pub open spec fn in_chunk_range(x: usize, c: &VectorChunk) -> bool {
    c.start_idx <= x <= c.end_idx
}

impl VectorChunk {
    /// The pairs of identifier and vector bits, in order.
    pub open spec fn entries(&self) -> Seq<(VectorId, Seq<u32>)> {
        self.vectors@.map_values(|p: (VectorId, Vec<u32>)| (p.0, p.1@))
    }

    /// The vectors by identifier.
    pub open spec fn vector_map(&self) -> Map<VectorId, Seq<u32>> {
        pairs_map(self.entries(), self.entries().len() as int)
    }

    /// Identifiers do not repeat.
    pub open spec fn wf(&self) -> bool {
        distinct_keys(self.entries())
    }

    /// An empty chunk.
    pub fn new(chunk_id: String, start_idx: usize, end_idx: usize) -> (r: Self)
        ensures
            r.wf(),
            r.chunk_id@ == chunk_id@,
            r.start_idx == start_idx,
            r.end_idx == end_idx,
            r.vector_map() == Map::<VectorId, Seq<u32>>::empty(),
    {
        let r = VectorChunk { chunk_id, start_idx, end_idx, vectors: Vec::new() };
        assert(r.entries() =~= Seq::<(VectorId, Seq<u32>)>::empty());
        r
    }

    /// The position of the identifier.
    fn position(&self, id: &VectorId) -> (r: Option<usize>)
        ensures
            match r {
                Some(i) => i < self.vectors.len() && self.entries()[i as int].0 == *id,
                None => forall|j: int| 0 <= j < self.entries().len() ==> #[trigger] self.entries()[j].0 != *id,
            },
    {
        let mut i: usize = 0;
        while i < self.vectors.len()
            invariant
                i <= self.vectors.len(),
                forall|j: int| 0 <= j < i ==> #[trigger] self.entries()[j].0 != *id,
            decreases self.vectors.len() - i,
        {
            if self.vectors[i].0 == *id {
                assert(self.vectors[i as int].0.0@ =~= id.0@);
                assert(self.vectors[i as int].0.0 =~= id.0);
                assert(self.entries()[i as int].0 == self.vectors[i as int].0);
                return Some(i);
            }
            assert(self.entries()[i as int].0 == self.vectors[i as int].0);
            i = i + 1;
        }
        None
    }

    /// Adds a vector, replacing the one of the same identifier.
    pub fn add_vector(&mut self, id: VectorId, vector: Vec<u32>)
        requires
            old(self).wf(),
        ensures
            final(self).wf(),
            final(self).vector_map() == old(self).vector_map().insert(id, vector@),
            final(self).chunk_id == old(self).chunk_id,
            final(self).start_idx == old(self).start_idx,
            final(self).end_idx == old(self).end_idx,
    {
        let ghost old_entries = self.entries();
        let ghost vv = vector@;
        match self.position(&id) {
            Some(i) => {
                self.vectors.set(i, (id, vector));
                proof {
                    assert(self.entries() =~= old_entries.update(i as int, (id, vv)));
                    lemma_pairs_map_update(old_entries, i as int, id, vv);
                }
            },
            None => {
                self.vectors.push((id, vector));
                proof {
                    assert(self.entries() =~= old_entries.push((id, vv)));
                    lemma_pairs_map_push(old_entries, id, vv);
                }
            },
        }
    }

    /// The vector of the identifier.
    pub fn get_vector(&self, id: &VectorId) -> (r: Option<&Vec<u32>>)
        requires
            self.wf(),
        ensures
            match r {
                Some(v) => self.vector_map().contains_key(*id) && self.vector_map()[*id] == v@,
                None => !self.vector_map().contains_key(*id),
            },
    {
        proof {
            lemma_pairs_map_lookup(self.entries(), *id);
        }
        match self.position(id) {
            Some(i) => {
                assert(self.entries()[i as int].0 == *id);
                Some(&self.vectors[i].1)
            },
            None => None,
        }
    }

    /// Whether the two chunks' index ranges overlap: an end point of one lies
    /// within the other.
    pub fn overlaps_with(&self, other: &VectorChunk) -> (r: bool)
        ensures
            r == (in_chunk_range(other.start_idx, self) || in_chunk_range(other.end_idx, self)
                || in_chunk_range(self.start_idx, other) || in_chunk_range(self.end_idx, other)),
    {
        (self.start_idx <= other.start_idx && other.start_idx <= self.end_idx)
            || (self.start_idx <= other.end_idx && other.end_idx <= self.end_idx)
            || (other.start_idx <= self.start_idx && self.start_idx <= other.end_idx)
            || (other.start_idx <= self.end_idx && self.end_idx <= other.end_idx)
    }

    /// The number of vectors.
    pub fn len(&self) -> (r: usize)
        requires
            self.wf(),
        ensures
            r == self.vector_map().dom().len(),
    {
        proof {
            crate::assoc::lemma_pairs_map_len(self.entries());
        }
        self.vectors.len()
    }

    /// Whether the chunk holds no vector.
    pub fn is_empty(&self) -> (r: bool)
        requires
            self.wf(),
        ensures
            r == (self.vector_map().dom().len() == 0),
    {
        self.len() == 0
    }
}

impl View for VectorChunk {
    /// Identifier, range and entries.
    type V = (Seq<char>, usize, usize, Seq<(VectorId, Seq<u32>)>);

    open spec fn view(&self) -> Self::V {
        (self.chunk_id@, self.start_idx, self.end_idx, self.entries())
    }
}

impl Clone for VectorChunk {
    /// A chunk with the same identifier, range and entries.
    fn clone(&self) -> (r: Self)
        ensures
            r@ == self@,
    {
        let mut vectors: Vec<(VectorId, Vec<u32>)> = Vec::new();
        let mut i: usize = 0;
        while i < self.vectors.len()
            invariant
                i <= self.vectors.len(),
                vectors@.len() == i,
                forall|k: int| 0 <= k < i ==> (#[trigger] vectors@[k]).0 == self.vectors@[k].0
                    && vectors@[k].1@ == self.vectors@[k].1@,
            decreases self.vectors.len() - i,
        {
            let id = self.vectors[i].0.clone();
            let v = self.vectors[i].1.clone();
            vectors.push((id, v));
            i = i + 1;
        }
        let r = VectorChunk {
            chunk_id: self.chunk_id.clone(),
            start_idx: self.start_idx,
            end_idx: self.end_idx,
            vectors,
        };
        assert(r.entries() =~= self.entries());
        r
    }
}

// ---------------------------------------------------------------------------
// ChunkMetadata
// ---------------------------------------------------------------------------

/// Metadata of a chunk.
pub struct ChunkMetadata {
    pub chunk_id: String,
    /// The content identifier in S5 storage, once uploaded.
    pub cid: Option<String>,
    pub vector_count: usize,
    pub byte_size: usize,
    /// The first and the last vector identifier of the chunk.
    pub vector_id_range: (VectorId, VectorId),
}

impl ChunkMetadata {
    /// Metadata of a chunk not yet uploaded.
    pub fn new(chunk_id: String, vector_count: usize, byte_size: usize, start_id: VectorId, end_id: VectorId) -> (r: Self)
        ensures
            r.chunk_id == chunk_id,
            r.cid is None,
            r.vector_count == vector_count,
            r.byte_size == byte_size,
            r.vector_id_range == (start_id, end_id),
    {
        ChunkMetadata { chunk_id, cid: None, vector_count, byte_size, vector_id_range: (start_id, end_id) }
    }

    /// Records the content identifier after upload.
    pub fn set_cid(&mut self, cid: String)
        ensures
            final(self).cid == Some(cid),
            final(self).chunk_id == old(self).chunk_id,
            final(self).vector_count == old(self).vector_count,
            final(self).byte_size == old(self).byte_size,
            final(self).vector_id_range == old(self).vector_id_range,
    {
        self.cid = Some(cid);
    }
}

// ---------------------------------------------------------------------------
// HNSWManifest
// ---------------------------------------------------------------------------

/// A layer of the HNSW graph.
pub struct LayerMetadata {
    pub layer_id: usize,
    pub node_count: usize,
}

/// The HNSW graph structure in a manifest.
pub struct HNSWManifest {
    pub entry_point: VectorId,
    pub layers: Vec<LayerMetadata>,
    /// The chunk of each node, by the node's display form; keys do not repeat.
    pub node_chunk_map: Vec<(String, String)>,
}

/// The pairs of a string-keyed list, by their strings.
pub open spec fn string_pairs(v: Seq<(String, String)>) -> Seq<(Seq<char>, Seq<char>)> {
    v.map_values(|p: (String, String)| (p.0@, p.1@))
}

impl HNSWManifest {
    /// The chunk of each node display form.
    pub open spec fn chunk_map(&self) -> Map<Seq<char>, Seq<char>> {
        pairs_map(string_pairs(self.node_chunk_map@), self.node_chunk_map@.len() as int)
    }

    /// Keys do not repeat.
    pub open spec fn wf(&self) -> bool {
        distinct_keys(string_pairs(self.node_chunk_map@))
    }

    /// A manifest with the entry point, no layers and no node mapping.
    pub fn new(entry_point: VectorId) -> (r: Self)
        ensures
            r.wf(),
            r.entry_point == entry_point,
            r.layers@.len() == 0,
            r.chunk_map() == Map::<Seq<char>, Seq<char>>::empty(),
    {
        let r = HNSWManifest { entry_point, layers: Vec::new(), node_chunk_map: Vec::new() };
        assert(string_pairs(r.node_chunk_map@) =~= Seq::<(Seq<char>, Seq<char>)>::empty());
        r
    }

    /// Appends a layer.
    pub fn add_layer(&mut self, layer_id: usize, node_count: usize)
        ensures
            final(self).layers@.len() == old(self).layers@.len() + 1,
            forall|i: int| 0 <= i < old(self).layers@.len() ==> #[trigger] final(self).layers@[i] == old(self).layers@[i],
            final(self).layers@.last().layer_id == layer_id,
            final(self).layers@.last().node_count == node_count,
            final(self).entry_point == old(self).entry_point,
            final(self).node_chunk_map == old(self).node_chunk_map,
    {
        self.layers.push(LayerMetadata { layer_id, node_count });
    }

    /// Maps a node, by its display form, to its chunk.
    pub fn add_node_chunk_mapping(&mut self, node_id: VectorId, chunk_id: String)
        requires
            old(self).wf(),
        ensures
            final(self).wf(),
            final(self).chunk_map() == old(self).chunk_map().insert(node_id.display_form(), chunk_id@),
            final(self).entry_point == old(self).entry_point,
            final(self).layers == old(self).layers,
    {
        let key = node_id.to_string();
        let ghost old_pairs = string_pairs(self.node_chunk_map@);
        let ghost cv = chunk_id@;
        match string_position(&self.node_chunk_map, &key) {
            Some(i) => {
                self.node_chunk_map.set(i, (key, chunk_id));
                proof {
                    assert(string_pairs(self.node_chunk_map@) =~= old_pairs.update(i as int, (node_id.display_form(), cv)));
                    lemma_pairs_map_update(old_pairs, i as int, node_id.display_form(), cv);
                }
            },
            None => {
                self.node_chunk_map.push((key, chunk_id));
                proof {
                    assert(string_pairs(self.node_chunk_map@) =~= old_pairs.push((node_id.display_form(), cv)));
                    lemma_pairs_map_push(old_pairs, node_id.display_form(), cv);
                }
            },
        }
    }

    /// The chunk of a node.
    pub fn get_chunk_for_node(&self, node_id: &VectorId) -> (r: Option<&String>)
        requires
            self.wf(),
        ensures
            match r {
                Some(c) => self.chunk_map().contains_key(node_id.display_form())
                    && self.chunk_map()[node_id.display_form()] == c@,
                None => !self.chunk_map().contains_key(node_id.display_form()),
            },
    {
        let key = node_id.to_string();
        proof {
            lemma_pairs_map_lookup(string_pairs(self.node_chunk_map@), key@);
        }
        match string_position(&self.node_chunk_map, &key) {
            Some(i) => {
                assert(string_pairs(self.node_chunk_map@)[i as int].0 == key@);
                Some(&self.node_chunk_map[i].1)
            },
            None => None,
        }
    }
}

/// The position of the key in a string-keyed list.
fn string_position(v: &Vec<(String, String)>, key: &String) -> (r: Option<usize>)
    ensures
        match r {
            Some(i) => i < v.len() && string_pairs(v@)[i as int].0 == key@,
            None => forall|j: int| 0 <= j < v.len() ==> #[trigger] string_pairs(v@)[j].0 != key@,
        },
{
    let mut i: usize = 0;
    while i < v.len()
        invariant
            i <= v.len(),
            forall|j: int| 0 <= j < i ==> #[trigger] string_pairs(v@)[j].0 != key@,
        decreases v.len() - i,
    {
        if v[i].0 == *key {
            return Some(i);
        }
        i = i + 1;
    }
    None
}

// ---------------------------------------------------------------------------
// IVFManifest
// ---------------------------------------------------------------------------

/// The IVF index structure in a manifest.
pub struct IVFManifest {
    /// The centroids, by the bits of their components.
    pub centroids: Vec<Vec<u32>>,
    /// The chunk names of each cluster.
    pub cluster_assignments: HashMap<usize, Vec<String>>,
}

impl IVFManifest {
    /// A manifest with the centroids and no assignment.
    pub fn new(centroids: Vec<Vec<u32>>) -> (r: Self)
        ensures
            r.centroids == centroids,
            r.cluster_assignments@ == Map::<usize, Vec<String>>::empty(),
    {
        IVFManifest { centroids, cluster_assignments: HashMap::new() }
    }

    /// Assigns chunks to a cluster, replacing an earlier assignment.
    pub fn add_cluster_assignment(&mut self, cluster_id: usize, chunk_ids: Vec<String>)
        ensures
            final(self).cluster_assignments@ == old(self).cluster_assignments@.insert(cluster_id, chunk_ids),
            final(self).centroids == old(self).centroids,
    {
        broadcast use vstd::std_specs::hash::group_hash_axioms;
        self.cluster_assignments.insert(cluster_id, chunk_ids);
    }

    /// The chunks of a cluster.
    pub fn get_chunks_for_cluster(&self, cluster_id: usize) -> (r: Option<&Vec<String>>)
        ensures
            match r {
                Some(c) => self.cluster_assignments@.contains_key(cluster_id)
                    && self.cluster_assignments@[cluster_id] == *c,
                None => !self.cluster_assignments@.contains_key(cluster_id),
            },
    {
        broadcast use vstd::std_specs::hash::group_hash_axioms;
        self.cluster_assignments.get(&cluster_id)
    }

    /// The number of centroids.
    pub fn num_centroids(&self) -> (r: usize)
        ensures
            r == self.centroids@.len(),
    {
        self.centroids.len()
    }
}

// ---------------------------------------------------------------------------
// Manifest
// ---------------------------------------------------------------------------

/// The top-level manifest of a chunked vector index.
pub struct Manifest {
    pub version: u32,
    /// Vectors per chunk.
    pub chunk_size: usize,
    pub total_vectors: usize,
    pub chunks: Vec<ChunkMetadata>,
    pub hnsw_structure: Option<HNSWManifest>,
    pub ivf_structure: Option<IVFManifest>,
    /// Soft-deleted vector identifiers, by display form.
    pub deleted_vectors: Option<Vec<String>>,
    /// The schema that metadata is validated against.
    pub schema: Option<MetadataSchema>,
}

/// The identifiers of the chunks, in order.
pub open spec fn chunk_ids_of(chunks: Seq<ChunkMetadata>) -> Seq<Seq<char>> {
    chunks.map_values(|c: ChunkMetadata| c.chunk_id@)
}

/// Whether a later identifier repeats the one at `i`.
pub open spec fn repeats_later(ids: Seq<Seq<char>>, i: int) -> bool {
    exists|j: int| i < j < ids.len() && ids[i] == ids[j]
}

/// The first index that a later chunk shares its identifier with.
pub open spec fn first_duplicate(ids: Seq<Seq<char>>) -> Option<int> {
    if exists|i: int| 0 <= i < ids.len() && #[trigger] repeats_later(ids, i) {
        Some(choose|i: int| 0 <= i < ids.len() && #[trigger] repeats_later(ids, i)
            && forall|k: int| 0 <= k < i ==> !#[trigger] repeats_later(ids, k))
    } else {
        None
    }
}

/// After mapping a node to a chunk, looking the node up gives that chunk,
/// and the lookup of any node of another display form is as before: the
/// maps are those of `HNSWManifest::chunk_map` before and after
/// `add_node_chunk_mapping`, which `get_chunk_for_node` reads.
pub proof fn law_chunk_lookup_after_mapping(before: Map<Seq<char>, Seq<char>>, node: Seq<char>, chunk: Seq<char>,
    other: Seq<char>)
    ensures
        before.insert(node, chunk).contains_key(node),
        before.insert(node, chunk)[node] == chunk,
        other != node ==> before.insert(node, chunk).contains_key(other) == before.contains_key(other),
        other != node && before.contains_key(other) ==> before.insert(node, chunk)[other] == before[other],
{
}

/// A manifest is accepted exactly when no two of its chunks share an
/// identifier.
pub proof fn law_manifest_accepts_distinct(ids: Seq<Seq<char>>)
    ensures
        first_duplicate(ids) is None <==> forall|i: int, j: int| 0 <= i < j < ids.len() ==> ids[i] != ids[j],
{
    if first_duplicate(ids) is None {
        assert forall|i: int, j: int| 0 <= i < j < ids.len() implies ids[i] != ids[j] by {
            if ids[i] == ids[j] {
                assert(repeats_later(ids, i));
            }
        }
    } else {
        let i = choose|i: int| 0 <= i < ids.len() && #[trigger] repeats_later(ids, i);
        let j = choose|j: int| i < j < ids.len() && ids[i] == ids[j];
        assert(ids[i] == ids[j]);
    }
}

/// A repeat at `i`, with none at an earlier index, is the first duplicate.
proof fn lemma_first_duplicate(ids: Seq<Seq<char>>, i: int, j: int)
    requires
        0 <= i < j < ids.len(),
        ids[i] == ids[j],
        forall|k: int, l: int| 0 <= k < i && k < l < ids.len() ==> ids[k] != ids[l],
    ensures
        first_duplicate(ids) == Some(i),
{
    assert(repeats_later(ids, i));
    assert forall|k: int| 0 <= k < i implies !#[trigger] repeats_later(ids, k) by {
        if repeats_later(ids, k) {
            let b = choose|b: int| k < b < ids.len() && ids[k] == ids[b];
            assert(ids[k] != ids[b]);
        }
    }
    let c = choose|c: int| 0 <= c < ids.len() && #[trigger] repeats_later(ids, c)
        && forall|k: int| 0 <= k < c ==> !#[trigger] repeats_later(ids, k);
    if c > i {
        assert(!repeats_later(ids, i));
    }
}

impl Manifest {
    /// A manifest of the current version with no chunks and no structures.
    pub fn new(chunk_size: usize, total_vectors: usize) -> (r: Self)
        ensures
            r.version == MANIFEST_VERSION,
            r.chunk_size == chunk_size,
            r.total_vectors == total_vectors,
            r.chunks@.len() == 0,
            r.hnsw_structure is None,
            r.ivf_structure is None,
            r.deleted_vectors is None,
            r.schema is None,
    {
        Manifest {
            version: MANIFEST_VERSION,
            chunk_size,
            total_vectors,
            chunks: Vec::new(),
            hnsw_structure: None,
            ivf_structure: None,
            deleted_vectors: None,
            schema: None,
        }
    }

    /// Appends a chunk.
    pub fn add_chunk(&mut self, chunk: ChunkMetadata)
        ensures
            final(self).chunks@ == old(self).chunks@.push(chunk),
            final(self).version == old(self).version,
            final(self).chunk_size == old(self).chunk_size,
            final(self).total_vectors == old(self).total_vectors,
    {
        self.chunks.push(chunk);
    }

    /// Sets the HNSW structure.
    pub fn set_hnsw_structure(&mut self, hnsw: HNSWManifest)
        ensures
            final(self).hnsw_structure == Some(hnsw),
            final(self).chunks == old(self).chunks,
            final(self).ivf_structure == old(self).ivf_structure,
            final(self).version == old(self).version,
    {
        self.hnsw_structure = Some(hnsw);
    }

    /// Sets the IVF structure.
    pub fn set_ivf_structure(&mut self, ivf: IVFManifest)
        ensures
            final(self).ivf_structure == Some(ivf),
            final(self).chunks == old(self).chunks,
            final(self).hnsw_structure == old(self).hnsw_structure,
            final(self).version == old(self).version,
    {
        self.ivf_structure = Some(ivf);
    }

    /// Accepts a decoded manifest of this version or an earlier one; a later
    /// version is `InvalidVersion`.
    pub fn check_version(manifest: Manifest) -> (r: Result<Manifest, ChunkError>)
        ensures
            manifest.version <= MANIFEST_VERSION ==> r == Ok::<Manifest, ChunkError>(manifest),
            manifest.version > MANIFEST_VERSION ==> (r matches Err(ChunkError::InvalidVersion { expected, found })
                && expected == MANIFEST_VERSION && found == manifest.version),
    {
        if manifest.version > MANIFEST_VERSION {
            return Err(ChunkError::InvalidVersion { expected: MANIFEST_VERSION, found: manifest.version });
        }
        Ok(manifest)
    }

    /// Checks that no two chunks share an identifier; the error names the
    /// identifier of the first chunk that a later one repeats.
    pub fn validate(&self) -> (r: Result<(), ChunkError>)
        ensures
            match first_duplicate(chunk_ids_of(self.chunks@)) {
                None => r is Ok,
                Some(i) => (r matches Err(ChunkError::ChunkOverlap(msg))
                    && msg@ == "Duplicate chunk ID: "@ + chunk_ids_of(self.chunks@)[i]),
            },
    {
        let ghost ids = chunk_ids_of(self.chunks@);
        let n = self.chunks.len();
        let mut i: usize = 0;
        while i < n
            invariant
                n == self.chunks.len(),
                ids == chunk_ids_of(self.chunks@),
                i <= n,
                forall|k: int, j: int| 0 <= k < i && k < j < n ==> ids[k] != ids[j],
            decreases n - i,
        {
            let mut j: usize = i + 1;
            while j < n
                invariant
                    n == self.chunks.len(),
                    ids == chunk_ids_of(self.chunks@),
                    i < n,
                    i + 1 <= j <= n,
                    forall|k: int, l: int| 0 <= k < i && k < l < n ==> ids[k] != ids[l],
                    forall|l: int| i < l < j ==> ids[i as int] != ids[l],
                decreases n - j,
            {
                if self.chunks[i].chunk_id == self.chunks[j].chunk_id {
                    let mut msg = String::from_str("Duplicate chunk ID: ");
                    msg.append(self.chunks[i].chunk_id.as_str());
                    proof {
                        lemma_first_duplicate(ids, i as int, j as int);
                    }
                    return Err(ChunkError::ChunkOverlap(msg));
                }
                j = j + 1;
            }
            i = i + 1;
        }
        Ok(())
    }

    /// The number of chunks.
    pub fn num_chunks(&self) -> (r: usize)
        ensures
            r == self.chunks@.len(),
    {
        self.chunks.len()
    }

    /// The first chunk with the identifier.
    pub fn get_chunk(&self, chunk_id: &str) -> (r: Option<&ChunkMetadata>)
        ensures
            match r {
                Some(c) => exists|i: int| 0 <= i < self.chunks@.len() && self.chunks@[i] == *c
                    && c.chunk_id@ == chunk_id@
                    && forall|k: int| 0 <= k < i ==> #[trigger] self.chunks@[k].chunk_id@ != chunk_id@,
                None => forall|k: int| 0 <= k < self.chunks@.len() ==> #[trigger] self.chunks@[k].chunk_id@ != chunk_id@,
            },
    {
        let key = String::from_str(chunk_id);
        let mut i: usize = 0;
        while i < self.chunks.len()
            invariant
                i <= self.chunks.len(),
                key@ == chunk_id@,
                forall|k: int| 0 <= k < i ==> #[trigger] self.chunks@[k].chunk_id@ != chunk_id@,
            decreases self.chunks.len() - i,
        {
            if self.chunks[i].chunk_id == key {
                return Some(&self.chunks[i]);
            }
            i = i + 1;
        }
        None
    }

    /// The identifiers of all chunks, in order.
    pub fn get_chunk_ids(&self) -> (r: Vec<String>)
        ensures
            r@.len() == self.chunks@.len(),
            forall|i: int| 0 <= i < r@.len() ==> #[trigger] r@[i]@ == self.chunks@[i].chunk_id@,
    {
        let mut r: Vec<String> = Vec::new();
        let mut i: usize = 0;
        while i < self.chunks.len()
            invariant
                i <= self.chunks.len(),
                r@.len() == i,
                forall|k: int| 0 <= k < i ==> #[trigger] r@[k]@ == self.chunks@[k].chunk_id@,
            decreases self.chunks.len() - i,
        {
            r.push(self.chunks[i].chunk_id.clone());
            i = i + 1;
        }
        r
    }
}

} // verus!
