//! The S5 node client's addresses and upload retry schedule, and the
//! node-backed store's bookkeeping: which content identifier holds each
//! key, and what was recorded when it was stored.
use vstd::prelude::*;
use crate::chunk_loader::doubling;
use crate::s5::StorageMetadata;
use crate::str_map::StrMap;
use crate::text::{concat, starts_with};

verus! {

/// The characters of the prefix of a content identifier.
pub open spec fn cid_prefix() -> Seq<char> {
    seq!['s', '5', ':', '/', '/']
}

/// A content identifier without its `s5://` prefix, where it has one.
pub open spec fn cid_part_spec(cid: Seq<char>) -> Seq<char> {
    if cid_prefix().is_prefix_of(cid) {
        cid.subrange(5, cid.len() as int)
    } else {
        cid
    }
}

/// Whether a content identifier has the `s5://` prefix.
pub fn is_s5_cid(cid: &str) -> (r: bool)
    ensures
        r == cid_prefix().is_prefix_of(cid@),
{
    let p = "s5://";
    proof {
        reveal_strlit("s5://");
        assert(p@ =~= cid_prefix());
    }
    starts_with(cid, p)
}

/// The content identifier without its `s5://` prefix, where it has one.
pub fn cid_part(cid: &str) -> (r: String)
    ensures
        r@ == cid_part_spec(cid@),
{
    if is_s5_cid(cid) {
        let n = cid.unicode_len();
        String::from_str(cid.substring_char(5, n))
    } else {
        String::from_str(cid)
    }
}

/// The node's health address.
pub fn health_url(base: &str) -> (r: String)
    ensures
        r@ == base@ + "/health"@,
{
    concat(base, "/health")
}

/// The node's upload address.
pub fn upload_url(base: &str) -> (r: String)
    ensures
        r@ == base@ + "/s5/upload"@,
{
    concat(base, "/s5/upload")
}

/// The address that downloads a content identifier.
pub fn download_url(base: &str, cid: &str) -> (r: String)
    ensures
        r@ == base@ + "/s5/download/"@ + cid_part_spec(cid@),
{
    let mut r = concat(base, "/s5/download/");
    let c = cid_part(cid);
    r.append(c.as_str());
    r
}

/// The address of the node's metadata of a content identifier.
pub fn metadata_url(base: &str, cid: &str) -> (r: String)
    ensures
        r@ == base@ + "/s5/metadata/"@ + cid_part_spec(cid@),
{
    let mut r = concat(base, "/s5/metadata/");
    let c = cid_part(cid);
    r.append(c.as_str());
    r
}

/// The address of a path of the node's file system.
pub fn fs_url(base: &str, path: &str) -> (r: String)
    ensures
        r@ == base@ + "/s5/fs/"@ + path@,
{
    let mut r = concat(base, "/s5/fs/");
    r.append(path);
    r
}

/// The address that lists a directory: the root for an empty path, else
/// the path with a closing slash.
pub fn list_url(base: &str, path: &str) -> (r: String)
    ensures
        path@.len() == 0 ==> r@ == base@ + "/s5/fs/"@,
        path@.len() > 0 ==> r@ == base@ + "/s5/fs/"@ + path@ + "/"@,
{
    let mut r = concat(base, "/s5/fs/");
    if path.unicode_len() > 0 {
        r.append(path);
        r.append("/");
    }
    r
}

/// The wait before trying an upload again after `failures` earlier failed
/// attempts and one more: 200 ms, then 400 ms; after the third failure
/// the upload gives up.
pub fn upload_retry_delay_ms(failures: u32) -> (r: Option<u64>)
    ensures
        failures < 2 ==> r == Some((100 * doubling(failures as nat + 1)) as u64),
        failures >= 2 ==> r is None,
{
    proof {
        reveal_with_fuel(doubling, 3);
    }
    if failures == 0 {
        Some(200)
    } else if failures == 1 {
        Some(400)
    } else {
        None
    }
}

/// The keys, in order, that begin with the prefix.
pub open spec fn keys_with(entries: Seq<(Seq<char>, StorageMetadata)>, prefix: Seq<char>) -> Seq<Seq<char>>
    decreases entries.len(),
{
    if entries.len() == 0 {
        Seq::empty()
    } else if prefix.is_prefix_of(entries.last().0) {
        keys_with(entries.drop_last(), prefix).push(entries.last().0)
    } else {
        keys_with(entries.drop_last(), prefix)
    }
}

/// Which content identifier holds each key of the node-backed store, with
/// what was recorded when the key was stored.
pub struct S5KeyIndex {
    records: StrMap<StorageMetadata>,
}

impl S5KeyIndex {
    /// The records by key, in the order the keys were first stored.
    pub closed spec fn entries(&self) -> Seq<(Seq<char>, StorageMetadata)> {
        self.records.entries()
    }

    /// The record of each key.
    pub closed spec fn map(&self) -> Map<Seq<char>, StorageMetadata> {
        self.records.map()
    }

    /// Keys do not repeat.
    pub closed spec fn wf(&self) -> bool {
        self.records.wf()
    }

    /// An empty index.
    pub fn new() -> (r: Self)
        ensures
            r.wf(),
            r.map() == Map::<Seq<char>, StorageMetadata>::empty(),
            r.entries().len() == 0,
    {
        S5KeyIndex { records: StrMap::new() }
    }

    /// Records where a key was stored; a later record of the key replaces
    /// the earlier one.
    pub fn record(&mut self, meta: StorageMetadata)
        requires
            old(self).wf(),
        ensures
            final(self).wf(),
            final(self).map() == old(self).map().insert(meta.key@, meta),
    {
        let key = meta.key.clone();
        let _ = self.records.insert(key, meta);
    }

    /// The record of a key.
    pub fn metadata(&self, key: &str) -> (r: Option<&StorageMetadata>)
        requires
            self.wf(),
        ensures
            match r {
                Some(m) => self.map().contains_key(key@) && self.map()[key@] == *m,
                None => !self.map().contains_key(key@),
            },
    {
        self.records.get(key)
    }

    /// The content identifier that holds a key.
    pub fn cid_of(&self, key: &str) -> (r: Option<String>)
        requires
            self.wf(),
        ensures
            match r {
                Some(c) => self.map().contains_key(key@) && c@ == self.map()[key@].cid@,
                None => !self.map().contains_key(key@),
            },
    {
        match self.records.get(key) {
            Some(m) => Some(m.cid.clone()),
            None => None,
        }
    }

    /// Whether a key is stored.
    pub fn has_key(&self, key: &str) -> (r: bool)
        requires
            self.wf(),
        ensures
            r == self.map().contains_key(key@),
    {
        self.records.contains_key(key)
    }

    /// Whether a key was stored compressed.
    pub fn is_compressed(&self, key: &str) -> (r: bool)
        requires
            self.wf(),
        ensures
            r == (self.map().contains_key(key@) && self.map()[key@].compressed),
    {
        match self.records.get(key) {
            Some(m) => m.compressed,
            None => false,
        }
    }

    /// Forgets a key.
    pub fn forget(&mut self, key: &str)
        requires
            old(self).wf(),
        ensures
            final(self).wf(),
            final(self).map() == old(self).map().remove(key@),
    {
        let _ = self.records.remove(key);
    }

    /// The stored keys that begin with the prefix, in the order they were
    /// first stored.
    pub fn keys_with_prefix(&self, prefix: &str) -> (r: Vec<String>)
        requires
            self.wf(),
        ensures
            r@.map_values(|k: String| k@) == keys_with(self.entries(), prefix@),
    {
        let keys = self.records.keys();
        let ghost es = self.entries();
        let mut r: Vec<String> = Vec::new();
        let mut i: usize = 0;
        while i < keys.len()
            invariant
                es == self.entries(),
                keys@.len() == es.len(),
                forall|j: int| 0 <= j < keys@.len() ==> #[trigger] keys@[j]@ == es[j].0,
                i <= keys@.len(),
                r@.map_values(|k: String| k@) == keys_with(es.take(i as int), prefix@),
            decreases keys.len() - i,
        {
            proof {
                assert(es.take(i + 1).drop_last() =~= es.take(i as int));
                assert(es.take(i + 1).last() == es[i as int]);
            }
            let ghost before = r@;
            if starts_with(keys[i].as_str(), prefix) {
                r.push(keys[i].clone());
                proof {
                    assert(r@.map_values(|k: String| k@) =~= before.map_values(|k: String| k@).push(es[i as int].0));
                }
            }
            i = i + 1;
        }
        proof {
            assert(es.take(es.len() as int) =~= es);
        }
        r
    }

    /// The first stored key, in the order keys were first stored, whose
    /// record names the content identifier.
    pub fn key_of_cid(&self, cid: &str) -> (r: Option<String>)
        requires
            self.wf(),
        ensures
            match r {
                Some(k) => exists|i: int| 0 <= i < self.entries().len() && self.entries()[i].0 == k@
                    && self.entries()[i].1.cid@ == cid@
                    && forall|j: int| 0 <= j < i ==> self.entries()[j].1.cid@ != cid@,
                None => forall|i: int| 0 <= i < self.entries().len() ==> self.entries()[i].1.cid@ != cid@,
            },
    {
        let keys = self.records.keys();
        let ghost es = self.entries();
        proof {
            self.records.lemma_entries();
            assert forall|j: int| 0 <= j < es.len() implies #[trigger] self.map().contains_key(es[j].0) by {
                assert(self.records.entries()[j].0 == es[j].0);
            }
        }
        let mut i: usize = 0;
        while i < keys.len()
            invariant
                self.wf(),
                es == self.entries(),
                keys@.len() == es.len(),
                forall|j: int| 0 <= j < keys@.len() ==> #[trigger] keys@[j]@ == es[j].0,
                forall|j: int| 0 <= j < es.len() ==> #[trigger] self.map()[es[j].0] == es[j].1,
                forall|j: int| 0 <= j < es.len() ==> #[trigger] self.map().contains_key(es[j].0),
                i <= keys@.len(),
                forall|j: int| 0 <= j < i ==> es[j].1.cid@ != cid@,
            decreases keys.len() - i,
        {
            proof {
                assert(keys@[i as int]@ == es[i as int].0);
                assert(self.map().contains_key(es[i as int].0));
                assert(self.map()[es[i as int].0] == es[i as int].1);
            }
            match self.records.get(keys[i].as_str()) {
                Some(m) => {
                    if str_equal(m.cid.as_str(), cid) {
                        return Some(keys[i].clone());
                    }
                },
                None => {},
            }
            i = i + 1;
        }
        None
    }
}

/// Whether two strings have the same characters.
pub fn str_equal(a: &str, b: &str) -> (r: bool)
    ensures
        r == (a@ == b@),
{
    let n = a.unicode_len();
    if n != b.unicode_len() {
        return false;
    }
    let mut i: usize = 0;
    while i < n
        invariant
            n == a@.len(),
            n == b@.len(),
            i <= n,
            forall|j: int| 0 <= j < i ==> a@[j] == b@[j],
        decreases n - i,
    {
        if a.get_char(i) != b.get_char(i) {
            return false;
        }
        i = i + 1;
    }
    proof {
        assert(a@ =~= b@);
    }
    true
}

/// A read of a key after storing it finds the content identifier and the
/// compression that were recorded; after forgetting it, the key is gone and
/// every other key keeps its record.
pub proof fn law_key_index_read_after_record(m: Map<Seq<char>, StorageMetadata>, meta: StorageMetadata, other: Seq<char>)
    requires
        other != meta.key@,
    ensures
        m.insert(meta.key@, meta).contains_key(meta.key@),
        m.insert(meta.key@, meta)[meta.key@].cid == meta.cid,
        m.insert(meta.key@, meta)[meta.key@].compressed == meta.compressed,
        !m.insert(meta.key@, meta).remove(meta.key@).contains_key(meta.key@),
        m.insert(meta.key@, meta).contains_key(other) == m.contains_key(other),
        m.contains_key(other) ==> m.insert(meta.key@, meta)[other] == m[other],
{
}

} // verus!
