//! The inverted-file (IVF) index: its configuration, identifiers of
//! clusters, errors, the records its operations report, and the
//! bookkeeping of its clusters: centroids, one inverted list per cluster,
//! the dimension, and the count of vectors.
//!
//! Training (k-means) and the choice of the nearest centroid compare
//! floating-point distances and are made by the caller, which passes the
//! resulting cluster; vector components are held by their bit patterns.
use vstd::prelude::*;
use crate::types::{VectorId, lemma_id_eq};
use crate::hnsw::{total, lemma_total_prefix};

verus! {

/// Errors of the IVF index.
#[derive(Debug)]
pub enum IVFError {
    NotTrained,
    DuplicateVector(VectorId),
    DimensionMismatch { expected: usize, actual: usize },
    InsufficientTrainingData { got: usize, need: usize },
    InconsistentDimensions { expected: usize, found: usize },
    InvalidConfig(String),
    ChunkLoadError(String),
    VectorNotFound(VectorId),
}

/// Settings of the IVF index.
#[derive(Debug, Clone, Copy, PartialEq, Eq, Structural)]
pub struct IVFConfig {
    pub n_clusters: usize,
    pub n_probe: usize,
    pub train_size: usize,
    pub max_iterations: usize,
    pub seed: Option<u64>,
}

impl Default for IVFConfig {
    /// 256 clusters, 16 probed, 10000 training vectors, 25 iterations, no
    /// seed.
    fn default() -> (r: Self)
        ensures
            r.n_clusters == 256,
            r.n_probe == 16,
            r.train_size == 10000,
            r.max_iterations == 25,
            r.seed is None,
    {
        IVFConfig { n_clusters: 256, n_probe: 16, train_size: 10000, max_iterations: 25, seed: None }
    }
}

/// A usable IVF configuration.
pub open spec fn ivf_config_valid(c: IVFConfig) -> bool {
    c.n_clusters > 0 && c.n_probe > 0 && c.n_probe <= c.n_clusters && c.train_size > 0 && c.max_iterations > 0
}

impl IVFConfig {
    /// Clusters, probes, training size and iterations are positive, and no
    /// more clusters are probed than there are.
    pub fn is_valid(&self) -> (r: bool)
        ensures
            r == ivf_config_valid(*self),
    {
        self.n_clusters > 0 && self.n_probe > 0 && self.n_probe <= self.n_clusters && self.train_size > 0
            && self.max_iterations > 0
    }
}

/// The identifier of a cluster.
#[derive(Debug, Clone, Copy, PartialEq, Eq, Hash, Structural)]
pub struct ClusterId(pub usize);

/// Errors of the IVF operations.
#[derive(Debug)]
pub enum OperationError {
    IVF(IVFError),
    InvalidParameter(String),
    OperationFailed(String),
}

/// The outcome of a batch of inserts.
pub struct BatchInsertResult {
    pub successful: usize,
    pub failed: usize,
    pub errors: Vec<(VectorId, IVFError)>,
}

/// The outcome of retraining.
pub struct RetrainResult {
    pub old_clusters: usize,
    pub new_clusters: usize,
    pub vectors_reassigned: usize,
    pub converged: bool,
}

/// The outcome of adding clusters.
pub struct AddClustersResult {
    pub clusters_added: usize,
    pub vectors_reassigned: usize,
}

/// The estimated memory of the index, in bytes.
pub struct MemoryUsage {
    pub total_bytes: usize,
    pub centroids_bytes: usize,
    pub vectors_bytes: usize,
    pub inverted_lists_bytes: usize,
}

/// The outcome of a compaction.
pub struct CompactionResult {
    pub bytes_saved: usize,
    pub clusters_compacted: usize,
}

/// The outcome of balancing the clusters.
pub struct BalanceResult {
    pub vectors_moved: usize,
    pub balance_improved: bool,
}

/// A centroid as exported: its cluster number, its components by their
/// bits, and its dimension.
pub struct ExportedCentroid {
    pub id: usize,
    pub vector: Vec<u32>,
    pub dimension: usize,
}

/// Errors of saving and loading the index.
#[allow(inconsistent_fields)]
#[derive(Debug)]
pub enum PersistenceError {
    Storage(String),
    Serialization(String),
    IncompatibleVersion { expected: u32, found: u32 },
    InvalidData(String),
    IncompleteSave { expected: usize, found: usize },
}

/// What a check of a saved index found.
#[derive(Debug)]
pub struct IntegrityCheckResult {
    pub expected_vectors: usize,
    pub found_vectors: usize,
    pub has_metadata: bool,
    pub has_centroids: bool,
    pub missing_clusters: Vec<ClusterId>,
    pub is_complete: bool,
}

/// The outcome of migrating a saved index.
pub struct MigrationResult {
    pub vectors_migrated: usize,
    pub old_clusters: usize,
    pub new_clusters: usize,
}


/// What an inverted list holds: vectors kept inline, and references to the
/// chunks that hold lazily loaded vectors.
pub struct ListView {
    pub vectors: Seq<(VectorId, Seq<u32>)>,
    pub chunk_refs: Seq<(VectorId, Seq<char>)>,
}

/// The vectors of one cluster.
pub struct InvertedList {
    vectors: Vec<(VectorId, Vec<u32>)>,
    chunk_refs: Vec<(VectorId, String)>,
}

/// The identifiers of inline vectors.
pub open spec fn vector_ids(v: Seq<(VectorId, Seq<u32>)>) -> Seq<VectorId> {
    v.map_values(|p: (VectorId, Seq<u32>)| p.0)
}

/// The identifiers of chunk references.
pub open spec fn ref_ids(v: Seq<(VectorId, Seq<char>)>) -> Seq<VectorId> {
    v.map_values(|p: (VectorId, Seq<char>)| p.0)
}

impl InvertedList {
    /// What the list holds.
    pub closed spec fn view_list(&self) -> ListView {
        ListView {
            vectors: self.vectors@.map_values(|p: (VectorId, Vec<u32>)| (p.0, p.1@)),
            chunk_refs: self.chunk_refs@.map_values(|p: (VectorId, String)| (p.0, p.1@)),
        }
    }

    /// An empty list.
    pub fn new() -> (r: Self)
        ensures
            r.view_list().vectors.len() == 0,
            r.view_list().chunk_refs.len() == 0,
    {
        InvertedList { vectors: Vec::new(), chunk_refs: Vec::new() }
    }

    /// The number of vectors held inline.
    pub fn size(&self) -> (r: usize)
        ensures
            r == self.view_list().vectors.len(),
    {
        self.vectors.len()
    }

    /// Whether an inline vector has the identifier.
    fn has_vector(&self, id: &VectorId) -> (r: bool)
        ensures
            r == vector_ids(self.view_list().vectors).contains(*id),
    {
        let ghost ids = vector_ids(self.view_list().vectors);
        let mut i: usize = 0;
        while i < self.vectors.len()
            invariant
                ids == vector_ids(self.view_list().vectors),
                ids.len() == self.vectors@.len(),
                i <= self.vectors@.len(),
                forall|j: int| 0 <= j < i ==> ids[j] != *id,
            decreases self.vectors.len() - i,
        {
            proof {
                assert(ids[i as int] == self.vectors@[i as int].0);
                lemma_id_eq(self.vectors@[i as int].0, *id);
            }
            if self.vectors[i].0 == *id {
                return true;
            }
            i = i + 1;
        }
        false
    }

    /// Whether a chunk reference has the identifier.
    fn has_ref(&self, id: &VectorId) -> (r: bool)
        ensures
            r == ref_ids(self.view_list().chunk_refs).contains(*id),
    {
        let ghost ids = ref_ids(self.view_list().chunk_refs);
        let mut i: usize = 0;
        while i < self.chunk_refs.len()
            invariant
                ids == ref_ids(self.view_list().chunk_refs),
                ids.len() == self.chunk_refs@.len(),
                i <= self.chunk_refs@.len(),
                forall|j: int| 0 <= j < i ==> ids[j] != *id,
            decreases self.chunk_refs.len() - i,
        {
            proof {
                assert(ids[i as int] == self.chunk_refs@[i as int].0);
                lemma_id_eq(self.chunk_refs@[i as int].0, *id);
            }
            if self.chunk_refs[i].0 == *id {
                return true;
            }
            i = i + 1;
        }
        false
    }

    /// Adds an inline vector; refused when the list has one of the
    /// identifier already.
    pub fn insert(&mut self, id: VectorId, vector: Vec<u32>) -> (r: Result<(), IVFError>)
        ensures
            vector_ids(old(self).view_list().vectors).contains(id) ==> (r matches Err(IVFError::DuplicateVector(x))
                && x == id && final(self).view_list() == old(self).view_list()),
            !vector_ids(old(self).view_list().vectors).contains(id) ==> r is Ok && final(self).view_list() == (ListView {
                vectors: old(self).view_list().vectors.push((id, vector@)),
                chunk_refs: old(self).view_list().chunk_refs,
            }),
    {
        if self.has_vector(&id) {
            return Err(IVFError::DuplicateVector(id));
        }
        self.vectors.push((id, vector));
        proof {
            assert(self.view_list().vectors =~= old(self).view_list().vectors.push((id, vector@)));
            assert(self.view_list().chunk_refs =~= old(self).view_list().chunk_refs);
        }
        Ok(())
    }

    /// Adds a reference to the chunk that holds a vector; refused when the
    /// list has a vector or a reference of the identifier already.
    pub fn insert_with_chunk(&mut self, id: VectorId, chunk_id: String) -> (r: Result<(), IVFError>)
        ensures
            (vector_ids(old(self).view_list().vectors).contains(id) || ref_ids(old(self).view_list().chunk_refs).contains(id))
                ==> (r matches Err(IVFError::DuplicateVector(x)) && x == id && final(self).view_list() == old(self).view_list()),
            !(vector_ids(old(self).view_list().vectors).contains(id) || ref_ids(old(self).view_list().chunk_refs).contains(id))
                ==> r is Ok && final(self).view_list() == (ListView {
                    vectors: old(self).view_list().vectors,
                    chunk_refs: old(self).view_list().chunk_refs.push((id, chunk_id@)),
                }),
    {
        if self.has_ref(&id) || self.has_vector(&id) {
            return Err(IVFError::DuplicateVector(id));
        }
        self.chunk_refs.push((id, chunk_id));
        proof {
            assert(self.view_list().chunk_refs =~= old(self).view_list().chunk_refs.push((id, chunk_id@)));
            assert(self.view_list().vectors =~= old(self).view_list().vectors);
        }
        Ok(())
    }

    /// Inline vectors and references together.
    pub fn len(&self) -> (r: usize)
        requires
            self.view_list().vectors.len() + self.view_list().chunk_refs.len() <= usize::MAX,
        ensures
            r == self.view_list().vectors.len() + self.view_list().chunk_refs.len(),
    {
        self.vectors.len() + self.chunk_refs.len()
    }

    /// Whether some vector is loaded lazily.
    pub fn has_chunk_refs(&self) -> (r: bool)
        ensures
            r == (self.view_list().chunk_refs.len() > 0),
    {
        self.chunk_refs.len() > 0
    }

    /// The inline vectors.
    pub fn vectors(&self) -> (r: &Vec<(VectorId, Vec<u32>)>)
        ensures
            r@.map_values(|p: (VectorId, Vec<u32>)| (p.0, p.1@)) == self.view_list().vectors,
    {
        &self.vectors
    }

    /// The chunk references.
    pub fn chunk_refs(&self) -> (r: &Vec<(VectorId, String)>)
        ensures
            r@.map_values(|p: (VectorId, String)| (p.0, p.1@)) == self.view_list().chunk_refs,
    {
        &self.chunk_refs
    }
}

/// The number of vectors of a list.
pub open spec fn list_len(l: ListView) -> nat {
    l.vectors.len() + l.chunk_refs.len()
}

/// The vectors of the first `n` lists.
pub open spec fn lists_total(ls: Seq<ListView>, n: int) -> nat
    decreases n,
{
    if n <= 0 {
        0
    } else {
        lists_total(ls, n - 1) + list_len(ls[n - 1])
    }
}

/// The lists, each by what it holds.
pub open spec fn lists_of(v: Seq<InvertedList>) -> Seq<ListView> {
    v.map_values(|l: InvertedList| l.view_list())
}

/// The bookkeeping of an IVF index: settings, centroids (by their bits),
/// one inverted list per cluster, the dimension once trained, whether it is
/// trained, the count of vectors, and the vectors of lazily loaded entries
/// already read.
pub struct IVFIndex {
    config: IVFConfig,
    centroids: Vec<Vec<u32>>,
    lists: Vec<InvertedList>,
    dimension: Option<usize>,
    trained: bool,
    total_vectors: usize,
    vector_cache: Vec<(VectorId, Vec<u32>)>,
}

/// The cache after storing a vector under its identifier: it replaces the
/// cached vector of that identifier, or goes last.
pub open spec fn cache_put(c: Seq<(VectorId, Seq<u32>)>, id: VectorId, v: Seq<u32>) -> Seq<(VectorId, Seq<u32>)> {
    if exists|i: int| 0 <= i < c.len() && (#[trigger] c[i]).0 == id {
        c.update(choose|i: int| 0 <= i < c.len() && (#[trigger] c[i]).0 == id && forall|j: int| 0 <= j < i ==> c[j].0 != id, (id, v))
    } else {
        c.push((id, v))
    }
}

impl IVFIndex {
    /// The settings.
    pub closed spec fn config_spec(&self) -> IVFConfig {
        self.config
    }

    /// The centroids, each by its bits.
    pub closed spec fn centroids_spec(&self) -> Seq<Seq<u32>> {
        self.centroids@.map_values(|c: Vec<u32>| c@)
    }

    /// The inverted lists, cluster by cluster.
    pub closed spec fn lists_spec(&self) -> Seq<ListView> {
        lists_of(self.lists@)
    }

    /// The dimension, once trained.
    pub closed spec fn dimension_spec(&self) -> Option<usize> {
        self.dimension
    }

    /// Whether the index is trained.
    pub closed spec fn trained_spec(&self) -> bool {
        self.trained
    }

    /// The count of vectors.
    pub closed spec fn total_spec(&self) -> nat {
        self.total_vectors as nat
    }

    /// The cached vectors of lazily loaded entries.
    pub closed spec fn cache_spec(&self) -> Seq<(VectorId, Seq<u32>)> {
        self.vector_cache@.map_values(|p: (VectorId, Vec<u32>)| (p.0, p.1@))
    }

    /// An untrained index; the settings must be valid.
    pub fn new(config: IVFConfig) -> (r: Self)
        requires
            ivf_config_valid(config),
        ensures
            r.config_spec() == config,
            r.centroids_spec().len() == 0,
            r.lists_spec().len() == 0,
            r.dimension_spec() is None,
            !r.trained_spec(),
            r.total_spec() == 0,
            r.cache_spec().len() == 0,
    {
        IVFIndex {
            config,
            centroids: Vec::new(),
            lists: Vec::new(),
            dimension: None,
            trained: false,
            total_vectors: 0,
            vector_cache: Vec::new(),
        }
    }

    /// The settings.
    pub fn config(&self) -> (r: &IVFConfig)
        ensures
            *r == self.config_spec(),
    {
        &self.config
    }

    /// Whether the index is trained.
    pub fn is_trained(&self) -> (r: bool)
        ensures
            r == self.trained_spec(),
    {
        self.trained
    }

    /// The dimension, once trained.
    pub fn dimension(&self) -> (r: Option<usize>)
        ensures
            r == self.dimension_spec(),
    {
        self.dimension
    }

    /// The count of vectors.
    pub fn total_vectors(&self) -> (r: usize)
        ensures
            r == self.total_spec(),
    {
        self.total_vectors
    }

    /// The centroids, each by its bits.
    pub fn centroids(&self) -> (r: &Vec<Vec<u32>>)
        ensures
            r@.map_values(|c: Vec<u32>| c@) == self.centroids_spec(),
    {
        &self.centroids
    }

    /// The checks of training data, given the length of each training
    /// vector: at least one vector per cluster, all of one length, which
    /// is returned.
    pub fn check_training_data(&self, lengths: &Vec<usize>) -> (r: Result<usize, IVFError>)
        ensures
            lengths@.len() == 0 ==> (r matches Err(IVFError::InsufficientTrainingData { got, need })
                && got == 0 && need == self.config_spec().n_clusters),
            0 < lengths@.len() < self.config_spec().n_clusters ==> (r matches Err(IVFError::InsufficientTrainingData { got, need })
                && got == lengths@.len() && need == self.config_spec().n_clusters),
            lengths@.len() > 0 && lengths@.len() >= self.config_spec().n_clusters ==> match r {
                Ok(d) => d == lengths@[0] && forall|i: int| 0 <= i < lengths@.len() ==> lengths@[i] == d,
                Err(IVFError::InconsistentDimensions { expected, found }) => expected == lengths@[0]
                    && exists|i: int| 0 <= i < lengths@.len() && lengths@[i] == found && found != expected
                        && forall|j: int| 0 <= j < i ==> lengths@[j] == expected,
                Err(_) => false,
            },
    {
        if lengths.len() == 0 {
            return Err(IVFError::InsufficientTrainingData { got: 0, need: self.config.n_clusters });
        }
        if lengths.len() < self.config.n_clusters {
            return Err(IVFError::InsufficientTrainingData { got: lengths.len(), need: self.config.n_clusters });
        }
        let dim = lengths[0];
        let mut i: usize = 0;
        while i < lengths.len()
            invariant
                i <= lengths@.len(),
                dim == lengths@[0],
                lengths@.len() > 0,
                lengths@.len() >= self.config_spec().n_clusters,
                forall|j: int| 0 <= j < i ==> lengths@[j] == dim,
            decreases lengths.len() - i,
        {
            if lengths[i] != dim {
                return Err(IVFError::InconsistentDimensions { expected: dim, found: lengths[i] });
            }
            i = i + 1;
        }
        Ok(dim)
    }

    /// Installs trained centroids: the index is trained with the given
    /// dimension and an empty list for each of its clusters. The count of
    /// vectors is left as it was.
    pub fn set_trained(&mut self, centroids: Vec<Vec<u32>>, dimension: usize)
        ensures
            final(self).config_spec() == old(self).config_spec(),
            final(self).centroids_spec() == centroids@.map_values(|c: Vec<u32>| c@),
            final(self).dimension_spec() == Some(dimension),
            final(self).trained_spec(),
            final(self).lists_spec().len() == old(self).config_spec().n_clusters,
            forall|c: int| 0 <= c < final(self).lists_spec().len() ==> list_len(#[trigger] final(self).lists_spec()[c]) == 0,
            final(self).total_spec() == old(self).total_spec(),
            final(self).cache_spec() == old(self).cache_spec(),
    {
        self.centroids = centroids;
        self.dimension = Some(dimension);
        self.trained = true;
        let mut lists: Vec<InvertedList> = Vec::new();
        let mut i: usize = 0;
        while i < self.config.n_clusters
            invariant
                i <= self.config.n_clusters,
                lists@.len() == i,
                forall|c: int| 0 <= c < i ==> list_len(#[trigger] lists_of(lists@)[c]) == 0,
            decreases self.config.n_clusters - i,
        {
            let ghost before = lists@;
            lists.push(InvertedList::new());
            proof {
                assert forall|c: int| 0 <= c < i + 1 implies list_len(#[trigger] lists_of(lists@)[c]) == 0 by {
                    assert(lists_of(lists@)[c] == lists@[c].view_list());
                    if c < i {
                        assert(lists@[c] == before[c]);
                        assert(lists_of(before)[c] == before[c].view_list());
                    }
                }
            }
            i = i + 1;
        }
        self.lists = lists;
    }

    /// Refused before training.
    pub fn check_trained(&self) -> (r: Result<(), IVFError>)
        ensures
            self.trained_spec() ==> r is Ok,
            !self.trained_spec() ==> r matches Err(IVFError::NotTrained),
    {
        if !self.trained {
            return Err(IVFError::NotTrained);
        }
        Ok(())
    }

    /// The checks of a query or an insert: the index is trained and the
    /// vector has its dimension.
    pub fn check_vector(&self, len: usize) -> (r: Result<(), IVFError>)
        ensures
            !self.trained_spec() ==> r matches Err(IVFError::NotTrained),
            self.trained_spec() && (self.dimension_spec() matches Some(d) && d != len) ==> (r matches Err(
                IVFError::DimensionMismatch { expected, actual }) && Some(expected) == self.dimension_spec() && actual == len),
            self.trained_spec() && !(self.dimension_spec() matches Some(d) && d != len) ==> r is Ok,
    {
        if !self.trained {
            return Err(IVFError::NotTrained);
        }
        match self.dimension {
            Some(d) => {
                if len != d {
                    return Err(IVFError::DimensionMismatch { expected: d, actual: len });
                }
            },
            None => {},
        }
        Ok(())
    }

    /// Inserts a vector inline into the list of `cluster`, the cluster of
    /// the nearest centroid. Refused before training, for a vector of
    /// another dimension, and for an identifier the list has.
    pub fn insert(&mut self, id: VectorId, vector: Vec<u32>, cluster: usize) -> (r: Result<(), IVFError>)
        requires
            old(self).trained_spec() ==> cluster < old(self).lists_spec().len(),
            old(self).total_spec() < usize::MAX,
        ensures
            final(self).config_spec() == old(self).config_spec(),
            final(self).centroids_spec() == old(self).centroids_spec(),
            final(self).dimension_spec() == old(self).dimension_spec(),
            final(self).trained_spec() == old(self).trained_spec(),
            final(self).cache_spec() == old(self).cache_spec(),
            !old(self).trained_spec() ==> (r matches Err(IVFError::NotTrained) && *final(self) == *old(self)),
            old(self).trained_spec() && (old(self).dimension_spec() matches Some(d) && d != vector@.len())
                ==> (r matches Err(IVFError::DimensionMismatch { expected, actual })
                    && Some(expected) == old(self).dimension_spec() && actual == vector@.len()
                    && final(self).lists_spec() == old(self).lists_spec()
                    && final(self).total_spec() == old(self).total_spec()),
            old(self).trained_spec() && !(old(self).dimension_spec() matches Some(d) && d != vector@.len()) ==> ({
                let l = old(self).lists_spec()[cluster as int];
                &&& vector_ids(l.vectors).contains(id) ==> (r matches Err(IVFError::DuplicateVector(x)) && x == id
                    && final(self).lists_spec() == old(self).lists_spec()
                    && final(self).total_spec() == old(self).total_spec())
                &&& !vector_ids(l.vectors).contains(id) ==> r is Ok && final(self).total_spec() == old(self).total_spec() + 1
                    && final(self).lists_spec() == old(self).lists_spec().update(cluster as int,
                        ListView { vectors: l.vectors.push((id, vector@)), chunk_refs: l.chunk_refs })
            }),
    {
        self.insert_with_chunk(id, vector, cluster, None)
    }

    /// Inserts a vector into the list of `cluster`, the cluster of the
    /// nearest centroid; with a chunk, the list keeps a reference to the
    /// chunk and the vector is cached. Refused before training, for a
    /// vector of another dimension, and for an identifier the list has.
    pub fn insert_with_chunk(&mut self, id: VectorId, vector: Vec<u32>, cluster: usize, chunk_id: Option<String>)
        -> (r: Result<(), IVFError>)
        requires
            old(self).trained_spec() ==> cluster < old(self).lists_spec().len(),
            old(self).total_spec() < usize::MAX,
        ensures
            chunk_id is None ==> final(self).cache_spec() == old(self).cache_spec(),
            final(self).config_spec() == old(self).config_spec(),
            final(self).centroids_spec() == old(self).centroids_spec(),
            final(self).dimension_spec() == old(self).dimension_spec(),
            final(self).trained_spec() == old(self).trained_spec(),
            !old(self).trained_spec() ==> (r matches Err(IVFError::NotTrained) && *final(self) == *old(self)),
            old(self).trained_spec() && (old(self).dimension_spec() matches Some(d) && d != vector@.len())
                ==> (r matches Err(IVFError::DimensionMismatch { expected, actual })
                    && Some(expected) == old(self).dimension_spec() && actual == vector@.len()
                    && final(self).lists_spec() == old(self).lists_spec()
                    && final(self).total_spec() == old(self).total_spec()),
            old(self).trained_spec() && !(old(self).dimension_spec() matches Some(d) && d != vector@.len()) ==> ({
                let l = old(self).lists_spec()[cluster as int];
                let dup = match chunk_id {
                    Some(_) => vector_ids(l.vectors).contains(id) || ref_ids(l.chunk_refs).contains(id),
                    None => vector_ids(l.vectors).contains(id),
                };
                &&& dup ==> (r matches Err(IVFError::DuplicateVector(x)) && x == id
                    && final(self).lists_spec() == old(self).lists_spec()
                    && final(self).total_spec() == old(self).total_spec()
                    && final(self).cache_spec() == old(self).cache_spec())
                &&& !dup ==> r is Ok && final(self).total_spec() == old(self).total_spec() + 1
                    && final(self).lists_spec() == old(self).lists_spec().update(cluster as int, match chunk_id {
                        Some(c) => ListView { vectors: l.vectors, chunk_refs: l.chunk_refs.push((id, c@)) },
                        None => ListView { vectors: l.vectors.push((id, vector@)), chunk_refs: l.chunk_refs },
                    })
                    && final(self).cache_spec() == match chunk_id {
                        Some(_) => cache_put(old(self).cache_spec(), id, vector@),
                        None => old(self).cache_spec(),
                    }
            }),
    {
        match self.check_vector(vector.len()) {
            Err(e) => {
                return Err(e);
            },
            Ok(()) => {},
        }
        let ghost ls = self.lists_spec();
        proof {
            assert(self.trained_spec());
            assert(self.lists@.len() == ls.len());
            assert(cluster < self.lists@.len());
        }
        let mut list = InvertedList::new();
        std::mem::swap(&mut list, &mut self.lists[cluster]);
        proof {
            assert(list.view_list() == ls[cluster as int]);
            assert forall|c: int| 0 <= c < ls.len() && c != cluster implies #[trigger] self.lists_spec()[c] == ls[c] by {}
            assert(self.lists_spec().len() == ls.len());
        }
        let outcome = match chunk_id {
            Some(c) => {
                let res = list.insert_with_chunk(id.clone(), c);
                if res.is_ok() {
                    self.cache_vector(id, vector);
                }
                res
            },
            None => list.insert(id, vector),
        };
        let ghost lv = list.view_list();
        proof {
            assert(self.lists_spec().len() == ls.len());
            assert(self.lists@.len() == self.lists_spec().len());
        }
        let ghost mid = self.lists_spec();
        std::mem::swap(&mut list, &mut self.lists[cluster]);
        proof {
            assert(self.lists_spec() =~= mid.update(cluster as int, lv));
            assert forall|c: int| 0 <= c < ls.len() && c != cluster implies #[trigger] mid[c] == ls[c] by {}
            assert(mid.update(cluster as int, lv) =~= ls.update(cluster as int, lv));
        }
        match outcome {
            Ok(()) => {
                self.total_vectors = self.total_vectors + 1;
                Ok(())
            },
            Err(e) => {
                proof {
                    assert(ls.update(cluster as int, ls[cluster as int]) =~= ls);
                }
                Err(e)
            },
        }
    }

    /// The first position of the identifier in the cache.
    fn cache_position(&self, id: &VectorId) -> (r: Option<usize>)
        ensures
            match r {
                Some(i) => i < self.cache_spec().len() && self.cache_spec()[i as int].0 == *id
                    && forall|j: int| 0 <= j < i ==> self.cache_spec()[j].0 != *id,
                None => forall|j: int| 0 <= j < self.cache_spec().len() ==> self.cache_spec()[j].0 != *id,
            },
    {
        let ghost c = self.cache_spec();
        let mut i: usize = 0;
        while i < self.vector_cache.len()
            invariant
                c == self.cache_spec(),
                c.len() == self.vector_cache@.len(),
                i <= c.len(),
                forall|j: int| 0 <= j < i ==> c[j].0 != *id,
            decreases self.vector_cache.len() - i,
        {
            proof {
                assert(c[i as int].0 == self.vector_cache@[i as int].0);
                lemma_id_eq(self.vector_cache@[i as int].0, *id);
            }
            if self.vector_cache[i].0 == *id {
                return Some(i);
            }
            i = i + 1;
        }
        None
    }

    /// Stores a vector in the cache under its identifier.
    fn cache_vector(&mut self, id: VectorId, vector: Vec<u32>)
        ensures
            final(self).cache_spec() == cache_put(old(self).cache_spec(), id, vector@),
            final(self).config_spec() == old(self).config_spec(),
            final(self).centroids_spec() == old(self).centroids_spec(),
            final(self).lists_spec() == old(self).lists_spec(),
            final(self).dimension_spec() == old(self).dimension_spec(),
            final(self).trained_spec() == old(self).trained_spec(),
            final(self).total_spec() == old(self).total_spec(),
    {
        let ghost c = self.cache_spec();
        match self.cache_position(&id) {
            Some(i) => {
                proof {
                    assert(exists|k: int| 0 <= k < c.len() && (#[trigger] c[k]).0 == id) by {
                        assert(c[i as int].0 == id);
                    }
                    let k = choose|k: int| 0 <= k < c.len() && (#[trigger] c[k]).0 == id && forall|j: int| 0 <= j < k ==> c[j].0 != id;
                    assert(k == i) by {
                        if k < i {
                            assert(c[k].0 != id);
                        } else if k > i {
                            assert(c[i as int].0 != id);
                        }
                    }
                }
                self.vector_cache.set(i, (id, vector));
                proof {
                    assert(self.cache_spec() =~= cache_put(c, id, vector@));
                }
            },
            None => {
                self.vector_cache.push((id, vector));
                proof {
                    assert(!(exists|k: int| 0 <= k < c.len() && (#[trigger] c[k]).0 == id));
                    assert(self.cache_spec() =~= c.push((id, vector@)));
                }
            },
        }
    }

    /// The vectors in a cluster's list; none for a cluster the index does
    /// not have.
    pub fn get_cluster_size(&self, cluster: ClusterId) -> (r: usize)
        requires
            cluster.0 < self.lists_spec().len() ==> list_len(self.lists_spec()[cluster.0 as int]) <= usize::MAX,
        ensures
            cluster.0 < self.lists_spec().len() ==> r == list_len(self.lists_spec()[cluster.0 as int]),
            cluster.0 >= self.lists_spec().len() ==> r == 0,
    {
        if cluster.0 < self.lists.len() {
            proof {
                assert(self.lists_spec()[cluster.0 as int] == self.lists@[cluster.0 as int].view_list());
            }
            self.lists[cluster.0].len()
        } else {
            0
        }
    }

    /// The list of a cluster.
    pub fn get_inverted_list(&self, cluster: ClusterId) -> (r: Option<&InvertedList>)
        ensures
            cluster.0 < self.lists_spec().len() ==> (r matches Some(l) && l.view_list() == self.lists_spec()[cluster.0 as int]),
            cluster.0 >= self.lists_spec().len() ==> r is None,
    {
        if cluster.0 < self.lists.len() {
            Some(&self.lists[cluster.0])
        } else {
            None
        }
    }

    /// The size of every cluster, in cluster order.
    pub fn get_cluster_sizes(&self) -> (r: Vec<(ClusterId, usize)>)
        requires
            lists_total(self.lists_spec(), self.lists_spec().len() as int) <= usize::MAX,
        ensures
            r@.len() == self.lists_spec().len(),
            forall|c: int| 0 <= c < r@.len() ==> (#[trigger] r@[c]).0 == ClusterId(c as usize)
                && r@[c].1 == list_len(self.lists_spec()[c]),
    {
        let ghost ls = self.lists_spec();
        let mut r: Vec<(ClusterId, usize)> = Vec::new();
        let mut c: usize = 0;
        while c < self.lists.len()
            invariant
                ls == self.lists_spec(),
                ls.len() == self.lists@.len(),
                lists_total(ls, ls.len() as int) <= usize::MAX,
                c <= ls.len(),
                r@.len() == c,
                forall|k: int| 0 <= k < c ==> (#[trigger] r@[k]).0 == ClusterId(k as usize) && r@[k].1 == list_len(ls[k]),
            decreases self.lists.len() - c,
        {
            proof {
                lemma_lists_total_bound(ls, c as int, ls.len() as int);
                assert(ls[c as int] == self.lists@[c as int].view_list());
            }
            let n = self.lists[c].len();
            r.push((ClusterId(c), n));
            c = c + 1;
        }
        r
    }

    /// The size of every cluster that holds a vector, in cluster order.
    pub fn get_cluster_distribution(&self) -> (r: Vec<(ClusterId, usize)>)
        requires
            lists_total(self.lists_spec(), self.lists_spec().len() as int) <= usize::MAX,
        ensures
            forall|k: int| 0 <= k < r@.len() ==> (#[trigger] r@[k]).1 > 0 && (r@[k].0).0 < self.lists_spec().len()
                && r@[k].1 == list_len(self.lists_spec()[(r@[k].0).0 as int]),
            forall|k: int, j: int| 0 <= k < j < r@.len() ==> (r@[k].0).0 < (r@[j].0).0,
            forall|c: int| 0 <= c < self.lists_spec().len() && list_len(#[trigger] self.lists_spec()[c]) > 0
                ==> exists|k: int| 0 <= k < r@.len() && (r@[k].0).0 == c,
    {
        let all = self.get_cluster_sizes();
        let mut r: Vec<(ClusterId, usize)> = Vec::new();
        let mut i: usize = 0;
        while i < all.len()
            invariant
                all@.len() == self.lists_spec().len(),
                forall|c: int| 0 <= c < all@.len() ==> (#[trigger] all@[c]).0 == ClusterId(c as usize)
                    && all@[c].1 == list_len(self.lists_spec()[c]),
                i <= all@.len(),
                forall|k: int| 0 <= k < r@.len() ==> (#[trigger] r@[k]).1 > 0 && (r@[k].0).0 < i
                    && r@[k].1 == list_len(self.lists_spec()[(r@[k].0).0 as int]),
                forall|k: int, j: int| 0 <= k < j < r@.len() ==> (r@[k].0).0 < (r@[j].0).0,
                forall|c: int| 0 <= c < i && list_len(#[trigger] self.lists_spec()[c]) > 0
                    ==> exists|k: int| 0 <= k < r@.len() && (r@[k].0).0 == c,
            decreases all.len() - i,
        {
            let (cid, n) = all[i];
            if n > 0 {
                let ghost before = r@;
                r.push((cid, n));
                proof {
                    assert(r@[before.len() as int] == (cid, n));
                    assert forall|c: int| 0 <= c < i + 1 && list_len(#[trigger] self.lists_spec()[c]) > 0
                        implies exists|k: int| 0 <= k < r@.len() && (r@[k].0).0 == c by {
                        if c < i {
                            let k = choose|k: int| 0 <= k < before.len() && (before[k].0).0 == c;
                            assert(r@[k] == before[k]);
                        } else {
                            assert((r@[before.len() as int].0).0 == c);
                        }
                    }
                }
            } else {
                proof {
                    assert forall|c: int| 0 <= c < i + 1 && list_len(#[trigger] self.lists_spec()[c]) > 0
                        implies exists|k: int| 0 <= k < r@.len() && (r@[k].0).0 == c by {
                        if c == i {
                            assert(all@[c].1 == 0);
                        }
                    }
                }
            }
            i = i + 1;
        }
        r
    }

    /// Replaces the lists (as a load does); the count of vectors becomes
    /// the number they hold.
    pub fn set_inverted_lists(&mut self, lists: Vec<InvertedList>)
        requires
            lists_total(lists_of(lists@), lists@.len() as int) <= usize::MAX,
        ensures
            final(self).lists_spec() == lists_of(lists@),
            final(self).total_spec() == lists_total(lists_of(lists@), lists@.len() as int),
            final(self).config_spec() == old(self).config_spec(),
            final(self).centroids_spec() == old(self).centroids_spec(),
            final(self).dimension_spec() == old(self).dimension_spec(),
            final(self).trained_spec() == old(self).trained_spec(),
            final(self).cache_spec() == old(self).cache_spec(),
    {
        let ghost ls = lists_of(lists@);
        let mut total: usize = 0;
        let mut i: usize = 0;
        while i < lists.len()
            invariant
                ls == lists_of(lists@),
                ls.len() == lists@.len(),
                lists_total(ls, ls.len() as int) <= usize::MAX,
                i <= ls.len(),
                total == lists_total(ls, i as int),
            decreases lists.len() - i,
        {
            proof {
                lemma_lists_total_bound(ls, i as int + 1, ls.len() as int);
                assert(ls[i as int] == lists@[i as int].view_list());
                lemma_lists_total_bound(ls, i as int, i as int + 1);
            }
            let n = lists[i].len();
            total = total + n;
            i = i + 1;
        }
        self.lists = lists;
        self.total_vectors = total;
    }
}

/// A prefix of the lists holds no more vectors than a longer one.
proof fn lemma_lists_total_bound(ls: Seq<ListView>, a: int, b: int)
    requires
        0 <= a <= b <= ls.len(),
    ensures
        lists_total(ls, a) <= lists_total(ls, b),
        a < b ==> list_len(ls[a]) <= lists_total(ls, b),
    decreases b - a,
{
    if a < b {
        lemma_lists_total_bound(ls, a, b - 1);
        if a < b - 1 {
            lemma_lists_total_bound(ls, a, b - 1);
        }
    }
}


/// The vector components held inline by a list.
pub open spec fn list_words(l: ListView) -> nat {
    total(l.vectors.map_values(|p: (VectorId, Seq<u32>)| p.1.len()))
}

/// The vector components held inline by the lists.
pub open spec fn lists_words(ls: Seq<ListView>) -> nat {
    total(ls.map_values(|l: ListView| list_words(l)))
}

/// The vectors held inline by the lists.
pub open spec fn lists_inline(ls: Seq<ListView>) -> nat {
    total(ls.map_values(|l: ListView| l.vectors.len()))
}

/// The estimated bytes of the centroids.
pub open spec fn centroid_bytes(n: nat, dimension: Option<usize>) -> nat {
    n * (match dimension { Some(d) => d as nat, None => 0 }) * 4
}

/// The estimated bytes of the lists' bookkeeping: 48 per list and 80 per
/// inline vector.
pub open spec fn list_bytes(ls: Seq<ListView>) -> nat {
    48 * ls.len() + 80 * lists_inline(ls)
}

/// The clusters among the first `n` configured ones that hold no vector,
/// a cluster without a list among them.
pub open spec fn empty_clusters(ls: Seq<ListView>, n: int) -> nat
    decreases n,
{
    if n <= 0 {
        0
    } else {
        empty_clusters(ls, n - 1) + if n - 1 >= ls.len() || list_len(ls[n - 1]) == 0 { 1nat } else { 0nat }
    }
}

proof fn lemma_empty_clusters_bound(ls: Seq<ListView>, n: int)
    requires
        n >= 0,
    ensures
        empty_clusters(ls, n) <= n,
    decreases n,
{
    if n > 0 {
        lemma_empty_clusters_bound(ls, n - 1);
    }
}

impl InvertedList {
    /// The vector components held inline.
    fn word_count(&self) -> (r: usize)
        requires
            list_words(self.view_list()) <= usize::MAX,
        ensures
            r == list_words(self.view_list()),
    {
        let ghost words = self.view_list().vectors.map_values(|p: (VectorId, Seq<u32>)| p.1.len());
        let mut c: usize = 0;
        let mut i: usize = 0;
        while i < self.vectors.len()
            invariant
                words == self.view_list().vectors.map_values(|p: (VectorId, Seq<u32>)| p.1.len()),
                words.len() == self.vectors@.len(),
                total(words) <= usize::MAX,
                i <= words.len(),
                c == total(words.take(i as int)),
            decreases self.vectors.len() - i,
        {
            proof {
                assert(words.take(i + 1).drop_last() =~= words.take(i as int));
                lemma_total_prefix(words, i + 1);
                assert(words[i as int] == self.vectors@[i as int].1@.len());
            }
            c = c + self.vectors[i].1.len();
            i = i + 1;
        }
        proof {
            assert(words.take(words.len() as int) =~= words);
        }
        c
    }
}

impl IVFIndex {
    /// The centroids with their cluster numbers and dimensions; refused
    /// before training.
    pub fn export_centroids(&self) -> (r: Result<Vec<ExportedCentroid>, OperationError>)
        ensures
            !self.trained_spec() ==> r matches Err(OperationError::IVF(IVFError::NotTrained)),
            self.trained_spec() ==> (r matches Ok(v) && v@.len() == self.centroids_spec().len()
                && forall|i: int| 0 <= i < v@.len() ==> (#[trigger] v@[i]).id == i && v@[i].vector@ == self.centroids_spec()[i]
                    && v@[i].dimension == self.centroids_spec()[i].len()),
    {
        if !self.trained {
            return Err(OperationError::IVF(IVFError::NotTrained));
        }
        let mut out: Vec<ExportedCentroid> = Vec::new();
        let mut i: usize = 0;
        while i < self.centroids.len()
            invariant
                i <= self.centroids@.len(),
                out@.len() == i,
                forall|k: int| 0 <= k < i ==> (#[trigger] out@[k]).id == k && out@[k].vector@ == self.centroids_spec()[k]
                    && out@[k].dimension == self.centroids_spec()[k].len(),
            decreases self.centroids.len() - i,
        {
            let v = self.centroids[i].clone();
            let d = v.len();
            out.push(ExportedCentroid { id: i, vector: v, dimension: d });
            i = i + 1;
        }
        Ok(out)
    }

    /// Installs exported centroids: refused when there are none or when
    /// their dimensions differ; otherwise the index is trained with their
    /// dimension and an empty list for each centroid. The count of vectors
    /// and the settings are left as they were.
    pub fn import_centroids(&mut self, data: Vec<ExportedCentroid>) -> (r: Result<(), OperationError>)
        ensures
            data@.len() == 0 ==> (r matches Err(OperationError::InvalidParameter(m)) && m@ == "No centroids to import"@
                && *final(self) == *old(self)),
            data@.len() > 0 && (exists|i: int| 0 <= i < data@.len() && (#[trigger] data@[i]).dimension != data@[0].dimension)
                ==> (r matches Err(OperationError::InvalidParameter(m)) && m@ == "Inconsistent centroid dimensions"@
                && *final(self) == *old(self)),
            data@.len() > 0 && (forall|i: int| 0 <= i < data@.len() ==> (#[trigger] data@[i]).dimension == data@[0].dimension)
                ==> {
                &&& r is Ok
                &&& final(self).centroids_spec() == data@.map_values(|c: ExportedCentroid| c.vector@)
                &&& final(self).dimension_spec() == Some(data@[0].dimension)
                &&& final(self).trained_spec()
                &&& final(self).lists_spec().len() == data@.len()
                &&& forall|c: int| 0 <= c < data@.len() ==> list_len(#[trigger] final(self).lists_spec()[c]) == 0
                &&& final(self).config_spec() == old(self).config_spec()
                &&& final(self).total_spec() == old(self).total_spec()
                &&& final(self).cache_spec() == old(self).cache_spec()
            },
    {
        if data.len() == 0 {
            return Err(OperationError::InvalidParameter(String::from_str("No centroids to import")));
        }
        let dimension = data[0].dimension;
        let mut i: usize = 0;
        while i < data.len()
            invariant
                i <= data@.len(),
                data@.len() > 0,
                dimension == data@[0].dimension,
                forall|k: int| 0 <= k < i ==> (#[trigger] data@[k]).dimension == dimension,
            decreases data.len() - i,
        {
            if data[i].dimension != dimension {
                return Err(OperationError::InvalidParameter(String::from_str("Inconsistent centroid dimensions")));
            }
            i = i + 1;
        }
        let mut ordered: Vec<Vec<u32>> = Vec::new();
        let mut lists: Vec<InvertedList> = Vec::new();
        let mut j: usize = 0;
        while j < data.len()
            invariant
                j <= data@.len(),
                ordered@.len() == j,
                forall|k: int| 0 <= k < j ==> (#[trigger] ordered@[k])@ == data@[k].vector@,
                lists@.len() == j,
                forall|c: int| 0 <= c < j ==> list_len(#[trigger] lists_of(lists@)[c]) == 0,
            decreases data.len() - j,
        {
            let ghost before = lists@;
            ordered.push(data[j].vector.clone());
            lists.push(InvertedList::new());
            proof {
                assert forall|c2: int| 0 <= c2 < j + 1 implies list_len(#[trigger] lists_of(lists@)[c2]) == 0 by {
                    assert(lists_of(lists@)[c2] == lists@[c2].view_list());
                    if c2 < j {
                        assert(lists@[c2] == before[c2]);
                        assert(lists_of(before)[c2] == before[c2].view_list());
                    }
                }
            }
            j = j + 1;
        }
        self.centroids = ordered;
        self.dimension = Some(dimension);
        self.trained = true;
        self.lists = lists;
        proof {
            assert(self.centroids_spec() =~= data@.map_values(|c: ExportedCentroid| c.vector@));
        }
        Ok(())
    }

    /// How many of the configured clusters hold no vector.
    pub fn empty_cluster_count(&self) -> (r: usize)
        ensures
            r == empty_clusters(self.lists_spec(), self.config_spec().n_clusters as int),
    {
        let ghost ls = self.lists_spec();
        let mut c: usize = 0;
        let mut i: usize = 0;
        while i < self.config.n_clusters
            invariant
                ls == self.lists_spec(),
                ls.len() == self.lists@.len(),
                i <= self.config.n_clusters,
                c == empty_clusters(ls, i as int),
            decreases self.config.n_clusters - i,
        {
            proof {
                lemma_empty_clusters_bound(ls, i as int);
            }
            if i >= self.lists.len() {
                c = c + 1;
            } else {
                proof {
                    assert(ls[i as int] == self.lists@[i as int].view_list());
                }
                if self.lists[i].vectors.len() == 0 && self.lists[i].chunk_refs.len() == 0 {
                    c = c + 1;
                }
            }
            i = i + 1;
        }
        c
    }

    /// The estimated memory of the index: four bytes per centroid
    /// component, four per inline vector component, 48 per list and 80 per
    /// inline vector, and 256 for the index itself.
    pub fn estimate_memory_usage(&self) -> (r: MemoryUsage)
        requires
            centroid_bytes(self.centroids_spec().len(), self.dimension_spec()) + 4 * lists_words(self.lists_spec())
                + list_bytes(self.lists_spec()) + 256 <= usize::MAX,
        ensures
            r.centroids_bytes == centroid_bytes(self.centroids_spec().len(), self.dimension_spec()),
            r.vectors_bytes == 4 * lists_words(self.lists_spec()),
            r.inverted_lists_bytes == list_bytes(self.lists_spec()),
            r.total_bytes == r.centroids_bytes + r.vectors_bytes + r.inverted_lists_bytes + 256,
    {
        let ghost ls = self.lists_spec();
        let ghost words = ls.map_values(|l: ListView| list_words(l));
        let ghost inline = ls.map_values(|l: ListView| l.vectors.len());
        let dim: usize = match self.dimension {
            Some(d) => d,
            None => 0,
        };
        let mut word_count: usize = 0;
        let mut inline_count: usize = 0;
        let mut i: usize = 0;
        while i < self.lists.len()
            invariant
                ls == self.lists_spec(),
                ls.len() == self.lists@.len(),
                words == ls.map_values(|l: ListView| list_words(l)),
                inline == ls.map_values(|l: ListView| l.vectors.len()),
                4 * total(words) + 80 * total(inline) <= usize::MAX,
                i <= ls.len(),
                word_count == total(words.take(i as int)),
                inline_count == total(inline.take(i as int)),
            decreases self.lists.len() - i,
        {
            proof {
                assert(words.take(i + 1).drop_last() =~= words.take(i as int));
                assert(inline.take(i + 1).drop_last() =~= inline.take(i as int));
                lemma_total_prefix(words, i + 1);
                lemma_total_prefix(inline, i + 1);
                assert(ls[i as int] == self.lists@[i as int].view_list());
                assert(list_words(ls[i as int]) <= total(words));
            }
            let w = self.lists[i].word_count();
            word_count = word_count + w;
            inline_count = inline_count + self.lists[i].vectors.len();
            i = i + 1;
        }
        proof {
            assert(words.take(words.len() as int) =~= words);
            assert(inline.take(inline.len() as int) =~= inline);
            assert(self.centroids@.len() == self.centroids_spec().len());
            assert(self.centroids@.len() * dim * 4 <= usize::MAX);
        }
        let centroids_bytes = self.centroids.len() * dim * 4;
        let vectors_bytes = 4 * word_count;
        let inverted_lists_bytes = 48 * self.lists.len() + 80 * inline_count;
        MemoryUsage {
            total_bytes: centroids_bytes + vectors_bytes + inverted_lists_bytes + 256,
            centroids_bytes,
            vectors_bytes,
            inverted_lists_bytes,
        }
    }

    /// Compacting counts every list and saves no estimated byte: the
    /// estimate depends on what the lists hold, which stays as it was.
    pub fn compact_clusters(&mut self) -> (r: Result<CompactionResult, OperationError>)
        ensures
            *final(self) == *old(self),
            r matches Ok(c) && c.clusters_compacted == old(self).lists_spec().len() && c.bytes_saved == 0,
    {
        Ok(CompactionResult { bytes_saved: 0, clusters_compacted: self.lists.len() })
    }
}


/// The first position of an inline vector of the identifier.
pub open spec fn first_pos(vs: Seq<(VectorId, Seq<u32>)>, id: VectorId) -> int {
    choose|i: int| 0 <= i < vs.len() && vs[i].0 == id && forall|j: int| 0 <= j < i ==> vs[j].0 != id
}

impl InvertedList {
    /// The first position of an inline vector of the identifier.
    fn vector_position(&self, id: &VectorId) -> (r: Option<usize>)
        ensures
            r is None ==> !vector_ids(self.view_list().vectors).contains(*id),
            r matches Some(i) ==> vector_ids(self.view_list().vectors).contains(*id)
                && i == first_pos(self.view_list().vectors, *id) && i < self.view_list().vectors.len()
                && self.view_list().vectors[i as int].0 == *id
                && forall|j: int| 0 <= j < i ==> self.view_list().vectors[j].0 != *id,
    {
        let ghost vs = self.view_list().vectors;
        let mut i: usize = 0;
        while i < self.vectors.len()
            invariant
                vs == self.view_list().vectors,
                vs.len() == self.vectors@.len(),
                i <= vs.len(),
                forall|j: int| 0 <= j < i ==> vs[j].0 != *id,
            decreases self.vectors.len() - i,
        {
            proof {
                assert(vs[i as int].0 == self.vectors@[i as int].0);
                lemma_id_eq(self.vectors@[i as int].0, *id);
            }
            if self.vectors[i].0 == *id {
                proof {
                    assert(vector_ids(vs)[i as int] == *id);
                    let k = first_pos(vs, *id);
                    assert(0 <= k < vs.len() && vs[k].0 == *id && forall|j: int| 0 <= j < k ==> vs[j].0 != *id);
                    if k < i {
                        assert(vs[k].0 != *id);
                    } else if k > i {
                        assert(vs[i as int].0 != *id);
                    }
                }
                return Some(i);
            }
            i = i + 1;
        }
        proof {
            assert forall|j: int| 0 <= j < vs.len() implies vector_ids(vs)[j] != *id by {}
        }
        None
    }

    /// Takes out the first inline vector of the identifier.
    fn take_vector(&mut self, id: &VectorId) -> (r: Option<Vec<u32>>)
        ensures
            !vector_ids(old(self).view_list().vectors).contains(*id) ==> r is None && final(self).view_list() == old(self).view_list(),
            vector_ids(old(self).view_list().vectors).contains(*id) ==> ({
                let vs = old(self).view_list().vectors;
                let i = first_pos(vs, *id);
                &&& r matches Some(v) && v@ == vs[i].1
                &&& final(self).view_list() == (ListView { vectors: vs.remove(i), chunk_refs: old(self).view_list().chunk_refs })
            }),
    {
        match self.vector_position(id) {
            None => None,
            Some(i) => {
                let (_, v) = self.vectors.remove(i);
                proof {
                    assert(self.view_list().vectors =~= old(self).view_list().vectors.remove(i as int));
                    assert(self.view_list().chunk_refs =~= old(self).view_list().chunk_refs);
                }
                Some(v)
            },
        }
    }

    /// Stores an inline vector: it replaces the first one of the
    /// identifier, or goes last.
    fn put_vector(&mut self, id: VectorId, vector: Vec<u32>)
        ensures
            final(self).view_list() == (ListView {
                vectors: cache_put(old(self).view_list().vectors, id, vector@),
                chunk_refs: old(self).view_list().chunk_refs,
            }),
    {
        let ghost vs = self.view_list().vectors;
        let ghost vv = vector@;
        match self.vector_position(&id) {
            Some(i) => {
                proof {
                    assert(exists|k: int| 0 <= k < vs.len() && (#[trigger] vs[k]).0 == id) by {
                        assert(vs[i as int].0 == id);
                    }
                    let k = choose|k: int| 0 <= k < vs.len() && (#[trigger] vs[k]).0 == id && forall|j: int| 0 <= j < k ==> vs[j].0 != id;
                    assert(k == i) by {
                        if k < i {
                            assert(vs[k].0 != id);
                        } else if k > i {
                            assert(vs[i as int].0 != id);
                        }
                    }
                }
                self.vectors.set(i, (id, vector));
                proof {
                    assert(self.view_list().vectors =~= vs.update(i as int, (id, vv)));
                    assert(self.view_list().chunk_refs =~= old(self).view_list().chunk_refs);
                }
            },
            None => {
                self.vectors.push((id, vector));
                proof {
                    assert forall|k: int| 0 <= k < vs.len() implies (#[trigger] vs[k]).0 != id by {
                        assert(vector_ids(vs)[k] == vs[k].0);
                    }
                    assert(self.view_list().vectors =~= vs.push((id, vv)));
                    assert(self.view_list().chunk_refs =~= old(self).view_list().chunk_refs);
                }
            },
        }
    }
}

impl IVFIndex {
    /// Moves the inline vector of the identifier from one cluster's list to
    /// another's, where it replaces a vector of the same identifier or goes
    /// last; false, and nothing changes, when the first list has no such
    /// vector. The count of vectors is left as it was.
    pub fn move_vector(&mut self, id: &VectorId, from: ClusterId, to: ClusterId) -> (r: bool)
        requires
            from.0 < old(self).lists_spec().len(),
            to.0 < old(self).lists_spec().len(),
            from.0 != to.0,
        ensures
            final(self).config_spec() == old(self).config_spec(),
            final(self).centroids_spec() == old(self).centroids_spec(),
            final(self).dimension_spec() == old(self).dimension_spec(),
            final(self).trained_spec() == old(self).trained_spec(),
            final(self).total_spec() == old(self).total_spec(),
            final(self).cache_spec() == old(self).cache_spec(),
            ({
                let lf = old(self).lists_spec()[from.0 as int];
                let lt = old(self).lists_spec()[to.0 as int];
                let i = first_pos(lf.vectors, *id);
                &&& !vector_ids(lf.vectors).contains(*id) ==> !r && final(self).lists_spec() == old(self).lists_spec()
                &&& vector_ids(lf.vectors).contains(*id) ==> r && final(self).lists_spec() == old(self).lists_spec()
                    .update(from.0 as int, ListView { vectors: lf.vectors.remove(i), chunk_refs: lf.chunk_refs })
                    .update(to.0 as int, ListView { vectors: cache_put(lt.vectors, *id, lf.vectors[i].1), chunk_refs: lt.chunk_refs })
            }),
    {
        let ghost ls = self.lists_spec();
        let f = from.0;
        let t = to.0;
        let mut list = InvertedList::new();
        std::mem::swap(&mut list, &mut self.lists[f]);
        proof {
            assert(list.view_list() == ls[f as int]);
        }
        let taken = list.take_vector(id);
        let ghost lfv = list.view_list();
        let ghost mid = self.lists_spec();
        std::mem::swap(&mut list, &mut self.lists[f]);
        proof {
            assert(self.lists_spec() =~= mid.update(f as int, lfv));
            assert(mid.update(f as int, lfv) =~= ls.update(f as int, lfv));
        }
        match taken {
            None => {
                proof {
                    assert(ls.update(f as int, lfv) =~= ls);
                }
                false
            },
            Some(v) => {
                let ghost ls1 = self.lists_spec();
                let mut target = InvertedList::new();
                std::mem::swap(&mut target, &mut self.lists[t]);
                proof {
                    assert(target.view_list() == ls1[t as int]);
                    assert(ls1[t as int] == ls[t as int]);
                }
                target.put_vector(id.clone(), v);
                let ghost ltv = target.view_list();
                let ghost mid2 = self.lists_spec();
                std::mem::swap(&mut target, &mut self.lists[t]);
                proof {
                    assert(self.lists_spec() =~= mid2.update(t as int, ltv));
                    assert(mid2.update(t as int, ltv) =~= ls1.update(t as int, ltv));
                }
                true
            },
        }
    }
}


impl IVFIndex {
    /// The inverted lists, cluster by cluster.
    pub fn get_all_inverted_lists(&self) -> (r: &Vec<InvertedList>)
        ensures
            lists_of(r@) == self.lists_spec(),
    {
        &self.lists
    }

    /// The centroids, each by its bits.
    pub fn get_centroids(&self) -> (r: &Vec<Vec<u32>>)
        ensures
            r@.map_values(|c: Vec<u32>| c@) == self.centroids_spec(),
    {
        &self.centroids
    }
}

} // verus!
