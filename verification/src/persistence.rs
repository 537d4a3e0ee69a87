//! What saving and loading decide, apart from the storage calls: the format
//! version, how the nodes of an HNSW index are laid out in chunks and where
//! each chunk goes, what a load rebuilds from the saved nodes, how an
//! incremental save merges changed nodes into a chunk, and what an
//! integrity check reports; and the version check of the hybrid index's
//! metadata.
use vstd::prelude::*;
use crate::hnsw::{HNSWIndex, HNSWMetadata, HNSWNode, NodeView, PersistenceError, RecoveryInfo, has_id, pos_of,
    no_repeats, node_valid, nodes_valid, nodes_view};
use crate::hybrid::{HybridConfig, HybridTracker, PersistenceError as HybridPersistenceError};
use crate::types::VectorId;
use crate::ivf::{ClusterId, IVFConfig, IVFIndex, IntegrityCheckResult, PersistenceError as IVFPersistenceError};
use crate::text::{decimal, push_decimal};

verus! {

/// The format version written and read.
pub const FORMAT_VERSION: u32 = 1;

impl HNSWMetadata {
    /// The metadata saved with an index.
    pub fn from_index(index: &HNSWIndex) -> (r: Self)
        ensures
            r.version == FORMAT_VERSION,
            r.config == index.config_spec(),
            r.entry_point == index.entry_spec(),
            r.node_count == index.nodes_spec().len(),
            r.dimension == index.dimension_spec(),
    {
        HNSWMetadata {
            version: FORMAT_VERSION,
            config: *index.config(),
            entry_point: index.entry_point(),
            node_count: index.node_count(),
            dimension: index.dimension(),
        }
    }

    /// Saved metadata of another version is refused.
    pub fn check_version(&self) -> (r: Result<(), PersistenceError>)
        ensures
            self.version == FORMAT_VERSION ==> r is Ok,
            self.version != FORMAT_VERSION ==> (r matches Err(PersistenceError::IncompatibleVersion { found, expected })
                && found == self.version && expected == FORMAT_VERSION),
    {
        if self.version != FORMAT_VERSION {
            return Err(PersistenceError::IncompatibleVersion { found: self.version, expected: FORMAT_VERSION });
        }
        Ok(())
    }
}

/// The number of chunks of `chunk_size` nodes that hold `node_count` nodes.
pub fn expected_chunks(node_count: usize, chunk_size: usize) -> (r: usize)
    requires
        chunk_size > 0,
        node_count + chunk_size <= usize::MAX,
    ensures
        r == (node_count + chunk_size - 1) / (chunk_size as int),
{
    (node_count + chunk_size - 1) / chunk_size
}

/// The message of a listing with too few chunks.
pub open spec fn too_few_chunks_message(expected: nat, found: nat) -> Seq<char> {
    "Expected "@ + decimal(expected) + " chunks, found "@ + decimal(found)
}

/// A load needs at least the expected number of chunks.
pub fn check_chunk_count(found: usize, expected: usize) -> (r: Result<(), PersistenceError>)
    ensures
        found >= expected ==> r is Ok,
        found < expected ==> (r matches Err(PersistenceError::IntegrityError(m))
            && m@ == too_few_chunks_message(expected as nat, found as nat)),
{
    if found < expected {
        let mut m = String::from_str("Expected ");
        push_decimal(&mut m, expected);
        m.append(" chunks, found ");
        push_decimal(&mut m, found);
        return Err(PersistenceError::IntegrityError(m));
    }
    Ok(())
}

/// A numeral left-padded with zeros to `width` characters.
pub open spec fn zero_padded(s: Seq<char>, width: nat) -> Seq<char> {
    if s.len() < width {
        Seq::new((width - s.len()) as nat, |i: int| '0') + s
    } else {
        s
    }
}

/// Where a chunk of an index saved under `path` goes.
pub open spec fn chunk_path_spec(path: Seq<char>, chunk_id: nat) -> Seq<char> {
    path + "/nodes/chunk_"@ + zero_padded(decimal(chunk_id), 4) + ".cbor"@
}

/// Appends the numeral of `n` left-padded with zeros to `width`
/// characters.
fn push_padded(s: &mut String, n: usize, width: usize)
    requires
        width <= 64,
    ensures
        final(s)@ == old(s)@ + zero_padded(decimal(n as nat), width as nat),
{
    let mut digits = String::new();
    push_decimal(&mut digits, n);
    let len = digits.as_str().unicode_len();
    let ghost base = s@;
    let mut pad: usize = len;
    while pad < width
        invariant
            len == decimal(n as nat).len(),
            digits@ == decimal(n as nat),
            width <= 64,
            len <= pad <= width || (len > width && pad == len),
            s@ == base + Seq::new((pad - len) as nat, |i: int| '0'),
        decreases width - pad,
    {
        proof {
            reveal_strlit("0");
        }
        s.append("0");
        proof {
            assert(s@ =~= base + Seq::new((pad + 1 - len) as nat, |i: int| '0'));
        }
        pad = pad + 1;
    }
    s.append(digits.as_str());
    proof {
        if len < width {
            assert(pad == width);
        } else {
            assert(Seq::new((pad - len) as nat, |i: int| '0') =~= Seq::<char>::empty());
        }
        assert(s@ =~= base + zero_padded(decimal(n as nat), width as nat));
    }
}

/// Where a chunk of an index saved under `path` goes: its number has at
/// least four digits.
pub fn chunk_path(path: &str, chunk_id: usize) -> (r: String)
    ensures
        r@ == chunk_path_spec(path@, chunk_id as nat),
{
    let mut r = String::from_str(path);
    r.append("/nodes/chunk_");
    push_padded(&mut r, chunk_id, 4);
    r.append(".cbor");
    proof {
        assert(r@ =~= chunk_path_spec(path@, chunk_id as nat));
    }
    r
}

/// The positions of the nodes of each chunk, in order: chunk `i` holds the
/// nodes from `i * chunk_size` up to the next chunk's first, the last chunk
/// ending at `len`.
pub fn chunk_bounds(len: usize, chunk_size: usize) -> (r: Vec<(usize, usize)>)
    requires
        chunk_size > 0,
    ensures
        r@.len() * chunk_size >= len,
        r@.len() > 0 ==> (r@.len() - 1) * chunk_size < len,
        r@.len() == (len + chunk_size - 1) / (chunk_size as int),
        forall|i: int| 0 <= i < r@.len() ==> (#[trigger] r@[i]).0 == i * chunk_size
            && r@[i].1 == if (i + 1) * chunk_size <= len { (i + 1) * chunk_size } else { len as int },
{
    let mut r: Vec<(usize, usize)> = Vec::new();
    let mut start: usize = 0;
    assert(r@.len() * chunk_size == 0) by (nonlinear_arith)
        requires
            r@.len() == 0,
    ;
    while start < len
        invariant
            chunk_size > 0,
            start <= len,
            start < len ==> start == r@.len() * chunk_size,
            start == len ==> r@.len() * chunk_size >= len,
            r@.len() > 0 ==> (r@.len() - 1) * chunk_size < len,
            forall|i: int| 0 <= i < r@.len() ==> (#[trigger] r@[i]).0 == i * chunk_size
                && r@[i].1 == if (i + 1) * chunk_size <= len { (i + 1) * chunk_size } else { len as int },
        decreases len - start,
    {
        let ghost n = r@.len();
        proof {
            assert((n + 1) * chunk_size == n * chunk_size + chunk_size) by (nonlinear_arith);
        }
        let end = if len - start > chunk_size { start + chunk_size } else { len };
        r.push((start, end));
        start = end;
    }
    proof {
        law_saved_chunks_expected(len as nat, chunk_size as nat, r@.len());
    }
    r
}

/// What a saved chunk count and `chunk_bounds` agree on: an index of `len`
/// nodes saved in chunks of `chunk_size` is written as exactly the number
/// of chunks that a load of it expects.
pub proof fn law_saved_chunks_expected(len: nat, chunk_size: nat, count: nat)
    requires
        chunk_size > 0,
        count * chunk_size >= len,
        count > 0 ==> (count - 1) * chunk_size < len,
    ensures
        count == (len + chunk_size - 1) / (chunk_size as int),
{
    let q = (len + chunk_size - 1) / (chunk_size as int);
    let m = (len + chunk_size - 1) % (chunk_size as int);
    assert(q * chunk_size + m == len + chunk_size - 1 && 0 <= m < chunk_size) by (nonlinear_arith)
        requires
            chunk_size > 0,
            q == (len + chunk_size - 1) / (chunk_size as int),
            m == (len + chunk_size - 1) % (chunk_size as int),
    ;
    if count == 0 {
        assert(len == 0);
        assert(q == 0) by (nonlinear_arith)
            requires
                q * chunk_size + m == chunk_size - 1,
                0 <= m < chunk_size,
                chunk_size > 0,
        ;
    } else {
        assert(count == q) by (nonlinear_arith)
            requires
                count * chunk_size >= len,
                (count - 1) * chunk_size < len,
                q * chunk_size + m == len + chunk_size - 1,
                0 <= m < chunk_size,
                chunk_size > 0,
                count > 0,
        ;
    }
}

/// The nodes after a restore of `n`: it replaces the node of the same
/// identifier, or goes last.
pub open spec fn restore_step(ns: Seq<NodeView>, n: NodeView) -> Seq<NodeView> {
    if has_id(ns, n.id) {
        ns.update(pos_of(ns, n.id), n)
    } else {
        ns.push(n)
    }
}

/// The nodes after restoring each of `saved` in turn.
pub open spec fn restored(ns: Seq<NodeView>, saved: Seq<NodeView>) -> Seq<NodeView>
    decreases saved.len(),
{
    if saved.len() == 0 {
        ns
    } else {
        restore_step(restored(ns, saved.drop_last()), saved.last())
    }
}

/// The nodes of the first `k` chunks of `chunk_size` nodes, read back in
/// chunk order and joined.
pub open spec fn joined_chunks(ns: Seq<NodeView>, chunk_size: nat, k: nat) -> Seq<NodeView>
    decreases k,
{
    if k == 0 {
        Seq::empty()
    } else {
        let start = ((k - 1) * chunk_size) as int;
        let end = if k * chunk_size <= ns.len() { (k * chunk_size) as int } else { ns.len() as int };
        joined_chunks(ns, chunk_size, (k - 1) as nat) + ns.subrange(if start <= end { start } else { end }, end)
    }
}

proof fn lemma_joined_chunks(ns: Seq<NodeView>, chunk_size: nat, k: nat)
    requires
        chunk_size > 0,
    ensures
        joined_chunks(ns, chunk_size, k) == ns.take(if k * chunk_size <= ns.len() { (k * chunk_size) as int } else { ns.len() as int }),
    decreases k,
{
    if k > 0 {
        lemma_joined_chunks(ns, chunk_size, (k - 1) as nat);
        assert((k - 1) * chunk_size + chunk_size == k * chunk_size) by (nonlinear_arith);
        assert((k - 1) * chunk_size <= k * chunk_size) by (nonlinear_arith)
            requires chunk_size > 0;
        let prev: int = if (k - 1) * chunk_size <= ns.len() { ((k - 1) * chunk_size) as int } else { ns.len() as int };
        let start = ((k - 1) * chunk_size) as int;
        let end: int = if k * chunk_size <= ns.len() { (k * chunk_size) as int } else { ns.len() as int };
        let lo = if start <= end { start } else { end };
        assert(lo == prev);
        assert(ns.take(prev) + ns.subrange(lo, end) =~= ns.take(end));
        assert(joined_chunks(ns, chunk_size, k) == joined_chunks(ns, chunk_size, (k - 1) as nat) + ns.subrange(lo, end));
    } else {
        assert(ns.take(0) =~= Seq::<NodeView>::empty());
    }
}

/// A save in chunks followed by a load gives the index's nodes back: the
/// chunks that a save of `chunk_size` nodes each writes, read back in
/// order and restored into an empty index, yield exactly the nodes, in
/// their order. (The settings and the entry point come back from the
/// metadata, by the contracts of `HNSWMetadata::from_index` and
/// `HNSWIndex::restore_saved`.)
pub proof fn law_saved_index_round_trip(ns: Seq<NodeView>, chunk_size: nat)
    requires
        nodes_valid(ns),
        chunk_size > 0,
    ensures
        restored(Seq::empty(), joined_chunks(ns, chunk_size, ((ns.len() + chunk_size - 1) / (chunk_size as int)) as nat)) == ns,
{
    let k = ((ns.len() + chunk_size - 1) / (chunk_size as int)) as nat;
    assert(k * chunk_size >= ns.len()) by (nonlinear_arith)
        requires k == (ns.len() + chunk_size - 1) / (chunk_size as int), chunk_size > 0;
    lemma_joined_chunks(ns, chunk_size, k);
    assert(ns.take(ns.len() as int) =~= ns);
    law_restore_gives_back(ns);
}

/// A save followed by a load gives the index back: with `meta` the
/// metadata saved of `idx` (by `HNSWMetadata::from_index`) and `loaded` the
/// index that `HNSWIndex::restore_saved` rebuilds from it and the nodes of
/// the chunks that a save of `chunk_size` nodes each writes, read back in
/// chunk order, `loaded` has the nodes, settings and entry point of `idx`.
pub proof fn law_index_round_trip(idx: HNSWIndex, meta: HNSWMetadata, loaded: HNSWIndex, chunk_size: nat)
    requires
        idx.wf(),
        chunk_size > 0,
        meta.config == idx.config_spec(),
        meta.entry_point == idx.entry_spec(),
        loaded.config_spec() == meta.config,
        loaded.entry_spec() == meta.entry_point,
        loaded.nodes_spec() == restored(Seq::empty(), joined_chunks(idx.nodes_spec(), chunk_size,
            ((idx.nodes_spec().len() + chunk_size - 1) / (chunk_size as int)) as nat)),
    ensures
        loaded.nodes_spec() == idx.nodes_spec(),
        loaded.config_spec() == idx.config_spec(),
        loaded.entry_spec() == idx.entry_spec(),
{
    idx.lemma_wf_nodes_valid();
    law_saved_index_round_trip(idx.nodes_spec(), chunk_size);
}

/// A save followed by a load gives the nodes back: restoring, in turn,
/// the nodes of a valid index (no identifier twice) into an empty index
/// yields exactly those nodes, in their order.
pub proof fn law_restore_gives_back(ns: Seq<NodeView>)
    requires
        nodes_valid(ns),
    ensures
        restored(Seq::empty(), ns) == ns,
    decreases ns.len(),
{
    if ns.len() > 0 {
        let init = ns.drop_last();
        assert(nodes_valid(init)) by {
            assert forall|p: int, q: int| 0 <= p < q < init.len() implies #[trigger] init[p].id != #[trigger] init[q].id by {
                assert(init[p] == ns[p] && init[q] == ns[q]);
            }
            assert forall|p: int| 0 <= p < init.len() implies #[trigger] init[p].neighbors.len() > init[p].level by {
                assert(init[p] == ns[p]);
            }
            assert forall|p: int, l: int| 0 <= p < init.len() && 0 <= l < init[p].neighbors.len() implies no_repeats(#[trigger] init[p].neighbors[l]) by {
                assert(init[p] == ns[p]);
            }
        }
        law_restore_gives_back(init);
        if has_id(init, ns.last().id) {
            let p = choose|p: int| 0 <= p < init.len() && (#[trigger] init[p]).id == ns.last().id;
            assert(ns[p].id != ns[ns.len() - 1].id);
        }
        assert(init.push(ns.last()) =~= ns);
    }
}

/// The elements of a vector in reverse order.
fn reversed<T>(v: Vec<T>) -> (r: Vec<T>)
    ensures
        r@ == v@.reverse(),
{
    let mut v = v;
    let ghost orig = v@;
    let mut r: Vec<T> = Vec::new();
    while v.len() > 0
        invariant
            orig.len() == v@.len() + r@.len(),
            v@ == orig.take(v@.len() as int),
            r@ == orig.skip(v@.len() as int).reverse(),
        decreases v.len(),
    {
        let ghost k = v@.len();
        let x = v.pop().unwrap();
        r.push(x);
        proof {
            assert(v@ =~= orig.take(k - 1));
            assert(r@ =~= orig.skip(k - 1).reverse());
        }
    }
    proof {
        assert(orig.skip(0) =~= orig);
    }
    r
}

impl HNSWIndex {
    /// The index a load rebuilds from saved metadata and the saved nodes:
    /// an index with the saved settings, each node restored in turn, and
    /// the saved entry point.
    pub fn restore_saved(metadata: &HNSWMetadata, nodes: Vec<HNSWNode>) -> (r: HNSWIndex)
        requires
            forall|i: int| 0 <= i < nodes@.len() ==> node_valid(#[trigger] nodes@[i].view_node()),
        ensures
            r.wf(),
            r.config_spec() == metadata.config,
            r.nodes_spec() == restored(Seq::empty(), nodes_view(nodes@)),
            r.entry_spec() == metadata.entry_point,
            r.dimension_spec() == if nodes@.len() == 0 { None } else { Some(nodes@[0].view_node().vector.len() as usize) },
    {
        let ghost saved = nodes_view(nodes@);
        let mut index = HNSWIndex::new(metadata.config);
        let mut rest = reversed(nodes);
        let ghost total = saved.len();
        proof {
            assert(restored(Seq::empty(), saved.take(0)) =~= Seq::<NodeView>::empty());
        }
        while rest.len() > 0
            invariant
                index.wf(),
                index.config_spec() == metadata.config,
                index.entry_spec() is None,
                total == saved.len(),
                rest@.len() <= total,
                forall|i: int| 0 <= i < rest@.len() ==> (#[trigger] rest@[i]).view_node()
                    == saved[total - 1 - i],
                forall|i: int| 0 <= i < total ==> node_valid(#[trigger] saved[i]),
                index.nodes_spec() == restored(Seq::empty(), saved.take(total - rest@.len())),
                index.dimension_spec() == if rest@.len() == total { None } else { Some(saved[0].vector.len() as usize) },
            decreases rest.len(),
        {
            let ghost k = total - rest@.len();
            let node = rest.pop().unwrap();
            proof {
                assert(node.view_node() == saved[k]);
                assert(saved.take(k + 1).drop_last() =~= saved.take(k));
                assert(saved.take(k + 1).last() == saved[k]);
            }
            let _ = index.restore_node(node);
            proof {
                assert(index.nodes_spec() == restored(Seq::empty(), saved.take(k + 1)));
            }
        }
        proof {
            assert(saved.take(total as int) =~= saved);
        }
        match &metadata.entry_point {
            Some(e) => index.set_entry_point(e.clone()),
            None => {},
        }
        index
    }
}

/// Whether a node has an identifier other than `id`.
pub open spec fn other_id(id: VectorId) -> spec_fn(NodeView) -> bool {
    |m: NodeView| m.id != id
}

/// A chunk after an incremental save writes the changed nodes into it, in
/// turn: each replaces the nodes of its identifier and goes last.
pub open spec fn merged(existing: Seq<NodeView>, updates: Seq<NodeView>) -> Seq<NodeView>
    decreases updates.len(),
{
    if updates.len() == 0 {
        existing
    } else {
        merged(existing, updates.drop_last()).filter(other_id(updates.last().id)).push(updates.last())
    }
}

/// The nodes of a chunk without those of an identifier, in order.
fn without_id(nodes: Vec<HNSWNode>, id: &VectorId) -> (r: Vec<HNSWNode>)
    ensures
        nodes_view(r@) == nodes_view(nodes@).filter(other_id(*id)),
{
    let ghost orig = nodes_view(nodes@);
    let mut rest = reversed(nodes);
    let mut r: Vec<HNSWNode> = Vec::new();
    let ghost total = orig.len();
    while rest.len() > 0
        invariant
            total == orig.len(),
            rest@.len() <= total,
            forall|i: int| 0 <= i < rest@.len() ==> (#[trigger] rest@[i]).view_node() == orig[total - 1 - i],
            nodes_view(r@) == orig.take(total - rest@.len()).filter(other_id(*id)),
        decreases rest.len(),
    {
        let ghost k = total - rest@.len();
        let node = rest.pop().unwrap();
        proof {
            reveal(Seq::filter);
            assert(node.view_node() == orig[k]);
            assert(orig.take(k + 1).drop_last() =~= orig.take(k));
            assert(orig.take(k + 1).last() == orig[k]);
        }
        let ghost before = r@;
        let keep = !(*node.id() == *id);
        proof {
            if keep {
                assert(node.view_node().id != *id) by {
                    if node.view_node().id == *id {
                        assert(node.view_node().id.0@ =~= id.0@);
                    }
                }
            } else {
                assert(node.view_node().id.0@ =~= id.0@);
                assert(node.view_node().id.0 =~= id.0);
            }
        }
        if keep {
            r.push(node);
            proof {
                assert(nodes_view(r@) =~= nodes_view(before).push(orig[k]));
            }
        }
    }
    proof {
        assert(orig.take(total as int) =~= orig);
    }
    r
}

/// An incremental save's merge of changed nodes into a saved chunk: each
/// changed node, in turn, replaces the nodes of its identifier and goes
/// last.
pub fn merge_chunk(existing: Vec<HNSWNode>, updates: Vec<HNSWNode>) -> (r: Vec<HNSWNode>)
    ensures
        nodes_view(r@) == merged(nodes_view(existing@), nodes_view(updates@)),
{
    let ghost ex = nodes_view(existing@);
    let ghost up = nodes_view(updates@);
    let mut chunk = existing;
    let mut rest = reversed(updates);
    let ghost total = up.len();
    proof {
        assert(up.take(0) =~= Seq::<NodeView>::empty());
    }
    while rest.len() > 0
        invariant
            total == up.len(),
            rest@.len() <= total,
            forall|i: int| 0 <= i < rest@.len() ==> (#[trigger] rest@[i]).view_node() == up[total - 1 - i],
            nodes_view(chunk@) == merged(ex, up.take(total - rest@.len())),
        decreases rest.len(),
    {
        let ghost k = total - rest@.len();
        let node = rest.pop().unwrap();
        proof {
            assert(node.view_node() == up[k]);
            assert(up.take(k + 1).drop_last() =~= up.take(k));
            assert(up.take(k + 1).last() == up[k]);
        }
        let id = node.id().clone();
        chunk = without_id(chunk, &id);
        let ghost before = chunk@;
        chunk.push(node);
        proof {
            assert(nodes_view(chunk@) =~= nodes_view(before).push(up[k]));
        }
    }
    proof {
        assert(up.take(total as int) =~= up);
    }
    chunk
}

/// The sum of the nodes found in the chunks that could be read.
pub open spec fn found_total(outcomes: Seq<Option<usize>>) -> nat
    decreases outcomes.len(),
{
    if outcomes.len() == 0 {
        0
    } else {
        found_total(outcomes.drop_last()) + match outcomes.last() {
            Some(n) => n as nat,
            None => 0nat,
        }
    }
}

/// The numbers of the chunks that could not be read, in order.
pub open spec fn missing_of(outcomes: Seq<Option<usize>>) -> Seq<usize>
    decreases outcomes.len(),
{
    if outcomes.len() == 0 {
        Seq::empty()
    } else if outcomes.last() is None {
        missing_of(outcomes.drop_last()).push((outcomes.len() - 1) as usize)
    } else {
        missing_of(outcomes.drop_last())
    }
}

/// A prefix finds no more nodes than the whole.
proof fn lemma_found_prefix(s: Seq<Option<usize>>, i: int)
    requires
        0 <= i <= s.len(),
    ensures
        found_total(s.take(i)) <= found_total(s),
    decreases s.len() - i,
{
    if i < s.len() {
        lemma_found_prefix(s, i + 1);
        assert(s.take(i + 1).drop_last() =~= s.take(i));
    } else {
        assert(s.take(i) =~= s);
    }
}

/// What an integrity check reports: the nodes the metadata promises, the
/// nodes found in the chunks that could be read and decoded, and the
/// numbers of the others. `outcomes[i]` holds the node count of chunk `i`,
/// or nothing when it could not be read or decoded.
pub fn recovery_info(node_count: usize, outcomes: &Vec<Option<usize>>) -> (r: RecoveryInfo)
    requires
        found_total(outcomes@) <= usize::MAX,
    ensures
        r.expected_nodes == node_count,
        r.found_nodes == found_total(outcomes@),
        r.missing_chunks@ == missing_of(outcomes@),
{
    let mut found: usize = 0;
    let mut missing: Vec<usize> = Vec::new();
    let mut i: usize = 0;
    while i < outcomes.len()
        invariant
            i <= outcomes@.len(),
            found_total(outcomes@) <= usize::MAX,
            found == found_total(outcomes@.take(i as int)),
            missing@ == missing_of(outcomes@.take(i as int)),
        decreases outcomes.len() - i,
    {
        proof {
            assert(outcomes@.take(i + 1).drop_last() =~= outcomes@.take(i as int));
            assert(outcomes@.take(i + 1).last() == outcomes@[i as int]);
            lemma_found_prefix(outcomes@, i + 1);
        }
        match outcomes[i] {
            Some(n) => {
                found = found + n;
            },
            None => {
                missing.push(i);
            },
        }
        i = i + 1;
    }
    proof {
        assert(outcomes@.take(outcomes@.len() as int) =~= outcomes@);
    }
    RecoveryInfo { expected_nodes: node_count, found_nodes: found, missing_chunks: missing }
}

/// The metadata saved with a hybrid index; `timestamp` is the time of the
/// save in nanoseconds since the Unix epoch.
pub struct HybridMetadata {
    pub version: u32,
    pub config: HybridConfig,
    pub recent_count: usize,
    pub historical_count: usize,
    pub total_vectors: usize,
    pub timestamp: i128,
}

impl HybridMetadata {
    /// The metadata of an index's bookkeeping, saved at `now`.
    pub fn from_index(config: HybridConfig, tracker: &HybridTracker, now: i128) -> (r: Self)
        requires
            tracker.wf(),
            tracker.recent_spec() + tracker.historical_spec() <= usize::MAX,
        ensures
            r.version == FORMAT_VERSION,
            r.config == config,
            r.recent_count == tracker.recent_spec(),
            r.historical_count == tracker.historical_spec(),
            r.total_vectors == tracker.recent_spec() + tracker.historical_spec(),
            r.timestamp == now,
    {
        HybridMetadata {
            version: FORMAT_VERSION,
            config,
            recent_count: tracker.recent_count(),
            historical_count: tracker.historical_count(),
            total_vectors: tracker.total_vectors(),
            timestamp: now,
        }
    }

    /// Metadata of a later version than this library's is refused.
    pub fn check_version(&self) -> (r: Result<(), HybridPersistenceError>)
        ensures
            self.version <= FORMAT_VERSION ==> r is Ok,
            self.version > FORMAT_VERSION ==> (r matches Err(HybridPersistenceError::IncompatibleVersion { expected, found })
                && expected == FORMAT_VERSION && found == self.version),
    {
        if self.version > FORMAT_VERSION {
            return Err(HybridPersistenceError::IncompatibleVersion { expected: FORMAT_VERSION, found: self.version });
        }
        Ok(())
    }
}


/// A save followed by a load gives a hybrid index's bookkeeping back: with
/// `meta` what `HybridMetadata::from_index` saves of `config` and `tracker`,
/// and `loaded` what `HybridTracker::from_parts` rebuilds from it, the
/// loaded tracker is initialized, with the saved settings' threshold and
/// the same recent, historical and total counts.
pub proof fn law_hybrid_round_trip(config: HybridConfig, tracker: HybridTracker, meta: HybridMetadata,
    loaded: HybridTracker)
    requires
        meta.config == config,
        meta.recent_count == tracker.recent_spec(),
        meta.historical_count == tracker.historical_spec(),
        meta.total_vectors == tracker.recent_spec() + tracker.historical_spec(),
        loaded.threshold_spec() == crate::time::duration_nanos(meta.config.recent_threshold),
        loaded.initialized_spec(),
        loaded.recent_spec() == meta.recent_count,
        loaded.historical_spec() == meta.historical_count,
    ensures
        loaded.initialized_spec(),
        loaded.threshold_spec() == crate::time::duration_nanos(config.recent_threshold),
        loaded.recent_spec() == tracker.recent_spec(),
        loaded.historical_spec() == tracker.historical_spec(),
        loaded.recent_spec() + loaded.historical_spec() == meta.total_vectors,
{
}

/// Where the inverted list of a cluster of an IVF index saved under `path`
/// goes.
pub open spec fn cluster_path_spec(path: Seq<char>, cluster: nat) -> Seq<char> {
    path + "/inverted_lists/cluster_"@ + zero_padded(decimal(cluster), 6) + ".cbor"@
}

/// The number of inverted lists per saved chunk under which each list is
/// saved in a file of its own.
pub const DEFAULT_LIST_CHUNK_SIZE: usize = 1000;

/// Where a chunk of inverted lists of an index saved under `path` goes.
pub open spec fn list_chunk_path_spec(path: Seq<char>, chunk: nat) -> Seq<char> {
    path + "/inverted_lists/chunk_"@ + zero_padded(decimal(chunk), 4) + ".cbor"@
}

/// Where a chunk of inverted lists goes: its number has at least four
/// digits.
pub fn list_chunk_path(path: &str, chunk: usize) -> (r: String)
    ensures
        r@ == list_chunk_path_spec(path@, chunk as nat),
{
    let mut r = String::from_str(path);
    r.append("/inverted_lists/chunk_");
    push_padded(&mut r, chunk, 4);
    r.append(".cbor");
    proof {
        assert(r@ =~= list_chunk_path_spec(path@, chunk as nat));
    }
    r
}

/// Whether a save writes each inverted list to a file of its own (with the
/// default chunk size) rather than chunks of lists.
pub fn lists_in_own_files(chunk_size: usize) -> (r: bool)
    ensures
        r == (chunk_size == DEFAULT_LIST_CHUNK_SIZE),
{
    chunk_size == DEFAULT_LIST_CHUNK_SIZE
}

/// Where the inverted list of a cluster goes: its number has at least six
/// digits.
pub fn cluster_path(path: &str, cluster: ClusterId) -> (r: String)
    ensures
        r@ == cluster_path_spec(path@, cluster.0 as nat),
{
    let mut r = String::from_str(path);
    r.append("/inverted_lists/cluster_");
    push_padded(&mut r, cluster.0, 6);
    r.append(".cbor");
    proof {
        assert(r@ =~= cluster_path_spec(path@, cluster.0 as nat));
    }
    r
}

/// The metadata saved with an IVF index; `timestamp` is the time of the
/// save in nanoseconds since the Unix epoch.
pub struct IVFMetadata {
    pub version: u32,
    pub config: IVFConfig,
    pub dimension: usize,
    pub n_vectors: usize,
    pub centroids_count: usize,
    pub timestamp: i128,
}

impl IVFMetadata {
    /// The metadata of an index saved at `now`; an untrained index has
    /// dimension zero.
    pub fn from_index(index: &IVFIndex, now: i128) -> (r: Self)
        ensures
            r.version == FORMAT_VERSION,
            r.config == index.config_spec(),
            r.dimension == match index.dimension_spec() { Some(d) => d, None => 0 },
            r.n_vectors == index.total_spec(),
            r.centroids_count == index.centroids_spec().len(),
            r.timestamp == now,
    {
        IVFMetadata {
            version: FORMAT_VERSION,
            config: *index.config(),
            dimension: match index.dimension() {
                Some(d) => d,
                None => 0,
            },
            n_vectors: index.total_vectors(),
            centroids_count: index.centroids().len(),
            timestamp: now,
        }
    }

    /// Metadata of a later version than this library's is refused.
    pub fn check_version(&self) -> (r: Result<(), IVFPersistenceError>)
        ensures
            self.version <= FORMAT_VERSION ==> r is Ok,
            self.version > FORMAT_VERSION ==> (r matches Err(IVFPersistenceError::IncompatibleVersion { expected, found })
                && expected == FORMAT_VERSION && found == self.version),
    {
        if self.version > FORMAT_VERSION {
            return Err(IVFPersistenceError::IncompatibleVersion { expected: FORMAT_VERSION, found: self.version });
        }
        Ok(())
    }

    /// A load must find as many vectors as were saved.
    pub fn check_complete(&self, found: usize) -> (r: Result<(), IVFPersistenceError>)
        ensures
            found == self.n_vectors ==> r is Ok,
            found != self.n_vectors ==> (r matches Err(IVFPersistenceError::IncompleteSave { expected, found: f })
                && expected == self.n_vectors && f == found),
    {
        if found != self.n_vectors {
            return Err(IVFPersistenceError::IncompleteSave { expected: self.n_vectors, found });
        }
        Ok(())
    }

    /// What an integrity check of a saved IVF index reports: the vectors
    /// promised and found, whether the centroids are there, the clusters
    /// whose lists could not be read, and whether nothing is missing.
    /// `outcomes[c]` holds the size of cluster `c`'s list, or nothing when
    /// it could not be read.
    pub fn integrity(&self, has_centroids: bool, outcomes: &Vec<Option<usize>>) -> (r: IntegrityCheckResult)
        requires
            found_total(outcomes@) <= usize::MAX,
        ensures
            r.expected_vectors == self.n_vectors,
            r.found_vectors == found_total(outcomes@),
            r.has_metadata,
            r.has_centroids == has_centroids,
            r.missing_clusters@ == missing_of(outcomes@).map_values(|c: usize| ClusterId(c)),
            r.is_complete == (found_total(outcomes@) == self.n_vectors && missing_of(outcomes@).len() == 0),
    {
        let info = recovery_info(self.n_vectors, outcomes);
        let mut missing: Vec<ClusterId> = Vec::new();
        let mut i: usize = 0;
        while i < info.missing_chunks.len()
            invariant
                i <= info.missing_chunks@.len(),
                missing@ == info.missing_chunks@.take(i as int).map_values(|c: usize| ClusterId(c)),
            decreases info.missing_chunks.len() - i,
        {
            missing.push(ClusterId(info.missing_chunks[i]));
            proof {
                assert(info.missing_chunks@.take(i + 1) =~= info.missing_chunks@.take(i as int).push(info.missing_chunks@[i as int]));
                assert(missing@ =~= info.missing_chunks@.take(i + 1).map_values(|c: usize| ClusterId(c)));
            }
            i = i + 1;
        }
        proof {
            assert(info.missing_chunks@.take(info.missing_chunks@.len() as int) =~= info.missing_chunks@);
        }
        let is_complete = info.found_nodes == self.n_vectors && info.missing_chunks.len() == 0;
        IntegrityCheckResult {
            expected_vectors: self.n_vectors,
            found_vectors: info.found_nodes,
            has_metadata: true,
            has_centroids,
            missing_clusters: missing,
            is_complete,
        }
    }
}

} // verus!
