//! Correction-side tables: the frozen read table, the neighbor index
//! (buckets keyed by orientation-normalized token windows), the out-of-band
//! correction result map, and the provenance map.

use vstd::prelude::*;
use crate::align;
use crate::kmer;
use crate::read::Read;

verus! {

/// Growing the index keeps every registration.
proof fn lemma_bucket_mono(b1: Buckets, b2: Buckets)
    requires
        b1.keys@.is_prefix_of(b2.keys@),
        b1.pairs@.is_prefix_of(b2.pairs@),
    ensures
        forall|k: Seq<u64>| #[trigger] b1.spec_has_key(k) ==> b2.spec_has_key(k),
        forall|k: Seq<u64>, id: Seq<char>| #[trigger] b1.spec_has_pair(k, id) ==> b2.spec_has_pair(
            k,
            id,
        ),
{
    assert forall|k: Seq<u64>| #[trigger] b1.spec_has_key(k) implies b2.spec_has_key(k) by {
        let t = choose|t: int| 0 <= t < b1.keys@.len() && b1.keys@[t]@ == k;
        assert(b2.keys@[t]@ == k);
    }
    assert forall|k: Seq<u64>, id: Seq<char>| #[trigger] b1.spec_has_pair(k, id) implies b2
        .spec_has_pair(k, id) by {
        let t = choose|t: int|
            0 <= t < b1.pairs@.len() && #[trigger] b1.pairs@[t].0@ == k && b1.pairs@[t].1@ == id;
        assert(b2.pairs@[t].0@ == k && b2.pairs@[t].1@ == id);
    }
}

/// One read's window is registered in the index: its orientation-normalized
/// key exists, and the read's id stands under it.
pub open spec fn window_registered(b: Buckets, rd: Read, i: int, n: usize) -> bool {
    let key = kmer::spec_canon(rd.transformed@.subrange(i, i + n)).0;
    b.spec_has_key(key) && b.spec_has_pair(key, rd.id@)
}

/// Compare two token vectors.
pub fn tokens_eq(a: &[u64], b: &[u64]) -> (r: bool)
    ensures
        r == (a@ == b@),
{
    if a.len() != b.len() {
        proof {
            assert(a@.len() != b@.len());
        }
        return false;
    }
    let n = a.len();
    let mut i: usize = 0;
    while i < n
        invariant
            n == a@.len() == b@.len(),
            i <= n,
            forall|j: int| 0 <= j < i ==> a@[j] == b@[j],
        decreases n - i,
    {
        if a[i] != b[i] {
            return false;
        }
        i += 1;
    }
    proof {
        assert(a@ =~= b@);
    }
    true
}

/// The frozen table of all reads, complete before correction starts.
pub struct ReadTable {
    /// The reads, in insertion order.
    pub reads: Vec<Read>,
}

/// First-match lookup of a read id among `reads`.
pub open spec fn spec_read_lookup(reads: Seq<Read>, id: Seq<char>) -> Option<Read>
    decreases reads.len(),
{
    if reads.len() == 0 {
        None
    } else if reads[0].id@ == id {
        Some(reads[0])
    } else {
        spec_read_lookup(reads.drop_first(), id)
    }
}

impl ReadTable {
    /// An empty table.
    pub fn new() -> (r: ReadTable)
        ensures
            r.reads@.len() == 0,
    {
        ReadTable { reads: Vec::new() }
    }

    /// Add a read.
    pub fn push(&mut self, r: Read)
        ensures
            final(self).reads@ == old(self).reads@.push(r),
    {
        self.reads.push(r);
    }

    /// The slot of the read registered under `id`, if any.
    pub fn index_of(&self, id: &String) -> (r: Option<usize>)
        ensures
            match r {
                Some(ix) => ix < self.reads@.len() && self.reads@[ix as int].id@ == id@
                    && spec_read_lookup(self.reads@, id@) == Some(self.reads@[ix as int]),
                None => spec_read_lookup(self.reads@, id@) is None,
            },
    {
        let n = self.reads.len();
        let mut i: usize = 0;
        proof {
            assert(self.reads@.skip(0) =~= self.reads@);
        }
        while i < n
            invariant
                n == self.reads@.len(),
                i <= n,
                spec_read_lookup(self.reads@, id@) == spec_read_lookup(
                    self.reads@.skip(i as int),
                    id@,
                ),
            decreases n - i,
        {
            proof {
                assert(self.reads@.skip(i as int)[0] == self.reads@[i as int]);
                assert(self.reads@.skip(i as int).drop_first() =~= self.reads@.skip(i + 1));
            }
            if self.reads[i].id.eq(id) {
                return Some(i);
            }
            i += 1;
        }
        proof {
            assert(self.reads@.skip(n as int).len() == 0);
        }
        None
    }

    /// The read registered under `id`, if any.
    pub fn get(&self, id: &String) -> (r: Option<&Read>)
        ensures
            match r {
                Some(rd) => spec_read_lookup(self.reads@, id@) == Some(*rd),
                None => spec_read_lookup(self.reads@, id@) is None,
            },
    {
        let n = self.reads.len();
        let mut i: usize = 0;
        proof {
            assert(self.reads@.skip(0) =~= self.reads@);
        }
        while i < n
            invariant
                n == self.reads@.len(),
                i <= n,
                spec_read_lookup(self.reads@, id@) == spec_read_lookup(
                    self.reads@.skip(i as int),
                    id@,
                ),
            decreases n - i,
        {
            proof {
                assert(self.reads@.skip(i as int)[0] == self.reads@[i as int]);
                assert(self.reads@.skip(i as int).drop_first() =~= self.reads@.skip(i + 1));
            }
            if self.reads[i].id.eq(id) {
                return Some(&self.reads[i]);
            }
            i += 1;
        }
        proof {
            assert(self.reads@.skip(n as int).len() == 0);
        }
        None
    }
}

/// The neighbor index: registered window keys, and (key, read id) pairs.
/// A key may be registered with no pairs; querying an unregistered key is
/// an index contract violation.
pub struct Buckets {
    /// Every key registered at build time.
    pub keys: Vec<Vec<u64>>,
    /// One pair per (window key, read holding that window).
    pub pairs: Vec<(Vec<u64>, String)>,
}

impl Buckets {
    /// Key `key` was registered.
    pub open spec fn spec_has_key(&self, key: Seq<u64>) -> bool {
        exists|t: int| 0 <= t < self.keys@.len() && self.keys@[t]@ == key
    }

    /// Read `id` was registered under `key`.
    pub open spec fn spec_has_pair(&self, key: Seq<u64>, id: Seq<char>) -> bool {
        exists|t: int|
            0 <= t < self.pairs@.len() && #[trigger] self.pairs@[t].0@ == key
                && self.pairs@[t].1@ == id
    }

    /// An empty index.
    pub fn new() -> (r: Buckets)
        ensures
            r.keys@.len() == 0,
            r.pairs@.len() == 0,
    {
        Buckets { keys: Vec::new(), pairs: Vec::new() }
    }

    /// Register a key (possibly with no reads).
    pub fn register_key(&mut self, key: Vec<u64>)
        ensures
            final(self).keys@ == old(self).keys@.push(key),
            final(self).pairs@ == old(self).pairs@,
    {
        self.keys.push(key);
    }

    /// Register a read id under a key.
    pub fn add(&mut self, key: Vec<u64>, id: String)
        ensures
            final(self).pairs@ == old(self).pairs@.push((key, id)),
            final(self).keys@ == old(self).keys@,
    {
        self.pairs.push((key, id));
    }

    /// Build the neighbor index from the frozen read table: for every read
    /// and every n-token window of it, register the orientation-normalized
    /// key and the read's id under it.
    #[verifier::loop_isolation(false)]
    pub fn build(reads_by_id: &ReadTable, n: usize) -> (r: Buckets)
        requires
            n >= 1,
        ensures
            forall|u: int, i: int|
                #![trigger reads_by_id.reads@[u].transformed@.subrange(i, i + n)]
                0 <= u < reads_by_id.reads@.len() && 0 <= i && i + n
                    <= reads_by_id.reads@[u].transformed@.len() ==> window_registered(
                    r,
                    reads_by_id.reads@[u],
                    i,
                    n,
                ),
    {
        let mut b = Buckets::new();
        let rcount = reads_by_id.reads.len();
        let mut u: usize = 0;
        while u < rcount
            invariant
                u <= rcount,
                forall|u2: int, i2: int|
                    #![trigger reads_by_id.reads@[u2].transformed@.subrange(i2, i2 + n)]
                    0 <= u2 < u && 0 <= i2 && i2 + n
                        <= reads_by_id.reads@[u2].transformed@.len() ==> window_registered(
                        b,
                        reads_by_id.reads@[u2],
                        i2,
                        n,
                    ),
            decreases rcount - u,
        {
            let rd = &reads_by_id.reads[u];
            let m = rd.transformed.len();
            if m >= n {
                let wn = m - n + 1;
                let mut i: usize = 0;
                while i < wn
                    invariant
                        i <= wn,
                        forall|u2: int, i2: int|
                            #![trigger reads_by_id.reads@[u2].transformed@.subrange(i2, i2 + n)]
                            0 <= u2 < u && 0 <= i2 && i2 + n
                                <= reads_by_id.reads@[u2].transformed@.len() ==> window_registered(
                                b,
                                reads_by_id.reads@[u2],
                                i2,
                                n,
                            ),
                        forall|i2: int|
                            0 <= i2 < i ==> window_registered(
                                b,
                                reads_by_id.reads@[u as int],
                                i2,
                                n,
                            ),
                    decreases wn - i,
                {
                    let ghost b_before = b;
                    let win = align::subvec_u64(&rd.transformed, i, i + n);
                    let key = kmer::normalize_vec(&win);
                    let key2 = align::subvec_u64(&key, 0, key.len());
                    b.register_key(key2);
                    b.add(key, rd.id.clone());
                    proof {
                        assert(b_before.keys@.is_prefix_of(b.keys@));
                        assert(b_before.pairs@.is_prefix_of(b.pairs@));
                        lemma_bucket_mono(b_before, b);
                        let k = kmer::spec_canon(
                            reads_by_id.reads@[u as int].transformed@.subrange(
                                i as int,
                                i + n,
                            ),
                        ).0;
                        assert(b.keys@[b.keys@.len() - 1]@ == k);
                        assert(b.pairs@[b.pairs@.len() - 1].0@ == k);
                        assert(b.pairs@[b.pairs@.len() - 1].1@ == reads_by_id.reads@[u as int].id@);
                        assert(window_registered(b, reads_by_id.reads@[u as int], i as int, n));
                        assert forall|i2: int|
                            0 <= i2 < i + 1 implies window_registered(
                            b,
                            reads_by_id.reads@[u as int],
                            i2,
                            n,
                        ) by {
                            if i2 < i {
                                assert(window_registered(b_before, reads_by_id.reads@[u as int], i2, n));
                                assert(b_before.spec_has_key(
                                    kmer::spec_canon(
                                        reads_by_id.reads@[u as int].transformed@.subrange(
                                            i2,
                                            i2 + n,
                                        ),
                                    ).0,
                                ));
                            }
                        }
                    }
                    i += 1;
                }
            }
            u += 1;
        }
        b
    }

    /// Whether `key` was registered.
    pub fn has_key(&self, key: &Vec<u64>) -> (r: bool)
        ensures
            r == self.spec_has_key(key@),
    {
        let n = self.keys.len();
        let mut i: usize = 0;
        while i < n
            invariant
                n == self.keys@.len(),
                i <= n,
                forall|t: int| 0 <= t < i ==> #[trigger] self.keys@[t]@ != key@,
            decreases n - i,
        {
            if tokens_eq(self.keys[i].as_slice(), key.as_slice()) {
                return true;
            }
            i += 1;
        }
        false
    }

    /// All read ids registered under `key`, in registration order.
    pub fn ids_for(&self, key: &Vec<u64>) -> (r: Vec<String>)
        ensures
            forall|t: int|
                0 <= t < r@.len() ==> self.spec_has_pair(key@, #[trigger] r@[t]@),
            forall|id: Seq<char>| self.spec_has_pair(key@, id) ==> exists|t: int|
                0 <= t < r@.len() && #[trigger] r@[t]@ == id,
    {
        let n = self.pairs.len();
        let mut out: Vec<String> = Vec::new();
        let mut i: usize = 0;
        while i < n
            invariant
                n == self.pairs@.len(),
                i <= n,
                forall|t: int|
                    0 <= t < out@.len() ==> self.spec_has_pair(key@, #[trigger] out@[t]@),
                forall|u: int|
                    0 <= u < i && #[trigger] self.pairs@[u].0@ == key@ ==> exists|t: int|
                        0 <= t < out@.len() && #[trigger] out@[t]@ == self.pairs@[u].1@,
            decreases n - i,
        {
            if tokens_eq(self.pairs[i].0.as_slice(), key.as_slice()) {
                let ghost old_out = out@;
                out.push(self.pairs[i].1.clone());
                proof {
                    assert(out@[out@.len() - 1]@ == self.pairs@[i as int].1@);
                    assert forall|u: int|
                        0 <= u < i + 1 && #[trigger] self.pairs@[u].0@ == key@ implies exists|t: int|
                        0 <= t < out@.len() && #[trigger] out@[t]@ == self.pairs@[u].1@ by {
                        if u < i {
                            let t = choose|t: int|
                                0 <= t < old_out.len() && #[trigger] old_out[t]@
                                    == self.pairs@[u].1@;
                            assert(out@[t]@ == self.pairs@[u].1@);
                        } else {
                            assert(out@[out@.len() - 1]@ == self.pairs@[u].1@);
                        }
                    }
                }
            }
            i += 1;
        }
        proof {
            assert forall|id: Seq<char>| self.spec_has_pair(key@, id) implies exists|t: int|
                0 <= t < out@.len() && #[trigger] out@[t]@ == id by {
                let u = choose|u: int|
                    0 <= u < self.pairs@.len() && #[trigger] self.pairs@[u].0@ == key@
                        && self.pairs@[u].1@ == id;
                let t = choose|t: int|
                    0 <= t < out@.len() && #[trigger] out@[t]@ == self.pairs@[u].1@;
                assert(out@[t]@ == id);
            }
        }
        out
    }
}

/// One out-of-band correction record: the corrected sequence, minimizer
/// texts, positions and token ids for one read.
pub struct CorrEntry {
    /// Corrected sequence.
    pub seq: Vec<u8>,
    /// Corrected minimizer texts.
    pub minimizers: Vec<Vec<u8>>,
    /// Corrected minimizer positions.
    pub minimizers_pos: Vec<usize>,
    /// Corrected token ids.
    pub transformed: Vec<u64>,
}

/// The out-of-band correction result map, keyed by read id; a later record
/// for the same id wins.
pub struct CorrMap {
    /// (read id, record) in insertion order.
    pub entries: Vec<(String, CorrEntry)>,
}

impl CorrMap {
    /// An empty result map.
    pub fn new() -> (r: CorrMap)
        ensures
            r.entries@.len() == 0,
    {
        CorrMap { entries: Vec::new() }
    }

    /// Record `e` for read `id`; an existing record for `id` is superseded.
    pub fn insert(&mut self, id: String, e: CorrEntry)
        ensures
            final(self).entries@ == old(self).entries@.push((id, e)),
    {
        self.entries.push((id, e));
    }
}

/// The provenance map: for each corrected template, the ids of the
/// neighbors that contributed to its consensus.
pub struct PoaMap {
    /// (template id, contributing neighbor ids) in insertion order.
    pub entries: Vec<(String, Vec<String>)>,
}

impl PoaMap {
    /// An empty provenance map.
    pub fn new() -> (r: PoaMap)
        ensures
            r.entries@.len() == 0,
    {
        PoaMap { entries: Vec::new() }
    }

    /// Record the contributors of one template.
    pub fn insert(&mut self, id: String, ids: Vec<String>)
        ensures
            final(self).entries@ == old(self).entries@.push((id, ids)),
    {
        self.entries.push((id, ids));
    }
}

impl Read {
    /// Record a correction for this read in the out-of-band result map,
    /// never by direct mutation of the read itself.
    pub fn label(
        &self,
        read_seq: Vec<u8>,
        read_minimizers: Vec<Vec<u8>>,
        read_minimizers_pos: Vec<usize>,
        read_transformed: Vec<u64>,
        corrected_map: &mut CorrMap,
    )
        ensures
            final(corrected_map).entries@.len() == old(corrected_map).entries@.len() + 1,
            final(corrected_map).entries@.last().0@ == self.id@,
            final(corrected_map).entries@.last().1.seq == read_seq,
            final(corrected_map).entries@.last().1.minimizers == read_minimizers,
            final(corrected_map).entries@.last().1.minimizers_pos == read_minimizers_pos,
            final(corrected_map).entries@.last().1.transformed == read_transformed,
            forall|t: int|
                0 <= t < old(corrected_map).entries@.len() ==> final(corrected_map).entries@[t]
                    == old(corrected_map).entries@[t],
    {
        corrected_map.insert(
            self.id.clone(),
            CorrEntry {
                seq: read_seq,
                minimizers: read_minimizers,
                minimizers_pos: read_minimizers_pos,
                transformed: read_transformed,
            },
        );
    }
}

} // verus!
