# vector_db

A vector database core for AI applications: recent vectors live in an HNSW
graph, older ones in an IVF index, and both are saved to S5 storage.

## Layout

- `src/` — the verified library (Verus). Every function carries a contract
  over mathematical models (`Seq`, `Map`, views) and is proved.
  - `json`, `metadata_filter`, `schema`: a JSON model, metadata filters
    (`Equals`, `In`, `Range`, `And`, `Or`) and schema validation.
  - `hnsw`: the HNSW graph — layered nodes, best-first layer search,
    insertion with mutual links, pruning, deletion marks, vacuum, counts.
    Distances are computed by the caller and passed as `u64` order keys.
  - `ivf`: the IVF clusters — inverted lists, training checks, inserts,
    moves between clusters, centroid import and export, memory estimates.
  - `hybrid`: where each vector lives (recent or historical) by the age of
    its timestamp, migration candidates, age distribution, filtered search
    selection.
  - `persistence`: format versions, chunk layout and paths, what a load
    rebuilds, incremental merges and integrity reports.
  - `storage`, `s5`, `chunk_cache`, `chunk`: caches, circuit breaker and
    retries, write batching, S5 configuration, chunks and manifests.
  - `chunk_loader`, `s5_node`: the retry decisions of chunk loads and
    uploads, S5 node addresses, and which content identifier holds a key.
  - `api`, `client`, `search`, `session`, `maintenance`: service settings,
    answers and the decisions of the maintenance tools.
- `tests/` — tests against the compiled library.
- `app/` — the runtime around it: float distances and k-means, JSON and
  serde conversions, HTTP storage, the async index service, persistence to
  S5 and the REST server.

Vector components are held by their `f32` bit patterns in the library; the
runtime converts.
