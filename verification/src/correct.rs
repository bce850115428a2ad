//! Consensus correction of a template read against its recruited
//! neighbors, with out-of-band propagation of the result.

use vstd::prelude::*;
use crate::align::{self, Aligner, Scoring, MAX_SEQ, MAX_TOKENS};
use crate::dist;
use crate::kmer;
use crate::params::Params;
use crate::read::Read;
use crate::table::{Buckets, CorrEntry, CorrMap, PoaMap, ReadTable};
use crate::table;
use crate::vocab::{self, VocabInv};

verus! {

/// The acceptance floor for the better of the two orientation scores: the
/// minimum representable score, an inert safeguard by default.
pub const POA_GLOBAL_MIN_SCORE: i64 = i64::MIN;

/// Correction failure.
#[derive(Debug, PartialEq, Eq, Structural)]
pub enum CorrError {
    /// A queried neighbor-index key was never registered: the builder and
    /// the consumer broke their contract. Never locally recovered.
    IndexContractViolation,
}

/// The read fits the engine's caps.
pub open spec fn read_sized(r: Read) -> bool {
    r.transformed@.len() <= MAX_TOKENS && r.seq@.len() <= MAX_SEQ
}

/// Every read of the table is well-formed for `l` and within caps.
pub open spec fn table_wf(tbl: ReadTable, l: usize) -> bool {
    forall|t: int|
        0 <= t < tbl.reads@.len() ==> (#[trigger] tbl.reads@[t]).wf(l) && read_sized(
            tbl.reads@[t],
        )
}

/// Token `id` has vocabulary text of length `l`.
pub open spec fn text_ok(iv: VocabInv, id: u64, l: usize) -> bool {
    match vocab::spec_text_of(iv.pairs@, id) {
        Some(t) => t.len() == l,
        None => false,
    }
}

/// The inverse vocabulary covers every token of `r` and of every table
/// read, each with text of length `l`.
pub open spec fn vocab_covers(iv: VocabInv, r: Read, tbl: ReadTable, l: usize) -> bool {
    &&& forall|t: int|
        0 <= t < r.transformed@.len() ==> text_ok(iv, #[trigger] r.transformed@[t], l)
    &&& forall|u: int, t: int|
        #![trigger tbl.reads@[u].transformed@[t]]
        0 <= u < tbl.reads@.len() && 0 <= t < tbl.reads@[u].transformed@.len() ==> text_ok(
            iv,
            tbl.reads@[u].transformed@[t],
            l,
        )
}

/// Some window of the template's first `upto` windows has no registered
/// key: the index contract is broken.
pub open spec fn some_key_missing(b: Buckets, tokens: Seq<u64>, n: usize, upto: int) -> bool {
    exists|i: int|
        0 <= i < upto && !b.spec_has_key(
            kmer::spec_canon(#[trigger] tokens.subrange(i, i + n)).0,
        )
}

/// The result-map entry `e` names a read of the table that was not yet
/// corrected when it was labeled.
pub open spec fn labeled_for_uncorrected(tbl: ReadTable, e: (String, CorrEntry)) -> bool {
    exists|u: int|
        0 <= u < tbl.reads@.len() && (#[trigger] tbl.reads@[u]).id@ == e.0@
            && !tbl.reads@[u].corrected
}

/// Some entry of `v` reads `id`.
pub open spec fn contains_id(v: Seq<String>, id: Seq<char>) -> bool {
    exists|t: int| 0 <= t < v.len() && (#[trigger] v[t])@ == id
}

/// Whether `v` holds a string with the view of `id`.
fn ids_contains(v: &Vec<String>, id: &String) -> (r: bool)
    ensures
        r == exists|t: int| 0 <= t < v@.len() && (#[trigger] v@[t])@ == id@,
{
    let n = v.len();
    let mut i: usize = 0;
    while i < n
        invariant
            n == v@.len(),
            i <= n,
            forall|t: int| 0 <= t < i ==> (#[trigger] v@[t])@ != id@,
        decreases n - i,
    {
        if v[i].eq(id) {
            proof {
                assert(v@[i as int]@ == id@);
            }
            return true;
        }
        i += 1;
    }
    false
}

/// Reflect minimizer positions onto the reverse-complemented sequence:
/// position `p` becomes `slen - l - p`, and the order is reversed.
fn reflect_positions(pos: &Vec<usize>, slen: usize, l: usize) -> (r: Vec<usize>)
    requires
        forall|i: int| 0 <= i < pos@.len() - 1 ==> #[trigger] pos@[i] < pos@[i + 1],
        forall|i: int| 0 <= i < pos@.len() ==> #[trigger] pos@[i] + l <= slen,
    ensures
        r@.len() == pos@.len(),
        forall|t: int|
            0 <= t < r@.len() ==> #[trigger] r@[t] + l <= slen && r@[t] == slen - l - pos@[
                pos@.len() - 1 - t],
        forall|i: int| 0 <= i < r@.len() - 1 ==> #[trigger] r@[i] < r@[i + 1],
{
    let n = pos.len();
    let mut out: Vec<usize> = Vec::new();
    let mut i: usize = 0;
    while i < n
        invariant
            n == pos@.len(),
            i <= n,
            out@.len() == i,
            forall|i2: int| 0 <= i2 < pos@.len() - 1 ==> #[trigger] pos@[i2] < pos@[i2 + 1],
            forall|i2: int| 0 <= i2 < pos@.len() ==> #[trigger] pos@[i2] + l <= slen,
            forall|t: int|
                0 <= t < i ==> #[trigger] out@[t] + l <= slen && out@[t] == slen - l - pos@[n - 1
                    - t],
        decreases n - i,
    {
        let p = pos[n - 1 - i];
        out.push(slen - (l + p));
        i += 1;
    }
    proof {
        assert forall|t: int| 0 <= t < out@.len() - 1 implies #[trigger] out@[t] < out@[t + 1] by {
            assert(pos@[n - 1 - t - 1] < pos@[n - 1 - t - 1 + 1]);
        }
    }
    out
}

/// Copy a list of byte strings.
fn copy_seq_list(v: &Vec<Vec<u8>>) -> (r: Vec<Vec<u8>>)
    ensures
        r@.len() == v@.len(),
        forall|t: int| 0 <= t < r@.len() ==> (#[trigger] r@[t])@ == v@[t]@,
{
    let n = v.len();
    let mut out: Vec<Vec<u8>> = Vec::new();
    let mut i: usize = 0;
    while i < n
        invariant
            n == v@.len(),
            i <= n,
            out@.len() == i,
            forall|t: int| 0 <= t < i ==> (#[trigger] out@[t])@ == v@[t]@,
        decreases n - i,
    {
        out.push(align::subvec(&v[i], 0, v[i].len()));
        i += 1;
    }
    out
}

impl Read {
    /// Consult the neighbor index: for every n-token window of this read,
    /// fetch the candidates registered under its orientation-normalized
    /// key, and return their deduplicated union, this read excluded.
    /// A window whose key was never registered is a fatal index-contract
    /// violation.
    #[verifier::loop_isolation(false)]
    #[verifier::rlimit(100)]
    #[verifier::spinoff_prover]
    pub fn recruit_neighbors(&self, buckets: &Buckets, n: usize) -> (res: Result<
        Vec<String>,
        CorrError,
    >)
        requires
            1 <= n <= self.transformed@.len(),
        ensures
            res is Err ==> res == Err::<Vec<String>, CorrError>(CorrError::IndexContractViolation)
                && some_key_missing(
                *buckets,
                self.transformed@,
                n,
                self.transformed@.len() - n + 1,
            ),
            res is Ok ==> !some_key_missing(
                *buckets,
                self.transformed@,
                n,
                self.transformed@.len() - n + 1,
            ),
            res is Ok ==> forall|t: int|
                0 <= t < res->Ok_0@.len() ==> (#[trigger] res->Ok_0@[t])@ != self.id@ && exists|
                    i: int,
                |
                    0 <= i < self.transformed@.len() - n + 1 && buckets.spec_has_pair(
                        kmer::spec_canon(#[trigger] self.transformed@.subrange(i, i + n)).0,
                        res->Ok_0@[t]@,
                    ),
            res is Ok ==> forall|id: Seq<char>, i: int|
                0 <= i < self.transformed@.len() - n + 1 && #[trigger] buckets.spec_has_pair(
                    kmer::spec_canon(self.transformed@.subrange(i, i + n)).0,
                    id,
                ) && id != self.id@ ==> contains_id(res->Ok_0@, id),
            res is Ok ==> forall|t1: int, t2: int|
                0 <= t1 < t2 < res->Ok_0@.len() ==> (#[trigger] res->Ok_0@[t1])@ != (
                #[trigger] res->Ok_0@[t2])@,
    {
        let m = self.transformed.len();
        let wn = m - n + 1;
        let mut out: Vec<String> = Vec::new();
        let mut i: usize = 0;
        while i < wn
            invariant
                i <= wn,
                !some_key_missing(*buckets, self.transformed@, n, i as int),
                forall|t: int|
                    0 <= t < out@.len() ==> (#[trigger] out@[t])@ != self.id@ && exists|i2: int|
                        0 <= i2 < i && buckets.spec_has_pair(
                            kmer::spec_canon(#[trigger] self.transformed@.subrange(i2, i2 + n)).0,
                            out@[t]@,
                        ),
                forall|id: Seq<char>, i2: int|
                    0 <= i2 < i && #[trigger] buckets.spec_has_pair(
                        kmer::spec_canon(self.transformed@.subrange(i2, i2 + n)).0,
                        id,
                    ) && id != self.id@ ==> contains_id(out@, id),
                forall|t1: int, t2: int|
                    0 <= t1 < t2 < out@.len() ==> (#[trigger] out@[t1])@ != (#[trigger] out@[t2])@,
            decreases wn - i,
        {
            let win = align::subvec_u64(&self.transformed, i, i + n);
            let key = kmer::normalize_vec(&win);
            if !buckets.has_key(&key) {
                proof {
                    assert(!buckets.spec_has_key(
                        kmer::spec_canon(self.transformed@.subrange(i as int, i + n)).0,
                    ));
                }
                return Err(CorrError::IndexContractViolation);
            }
            let ids = buckets.ids_for(&key);
            let ghost out_before_win = out@;
            let mut t: usize = 0;
            while t < ids.len()
                invariant
                    t <= ids@.len(),
                    forall|t2: int|
                        0 <= t2 < out@.len() ==> (#[trigger] out@[t2])@ != self.id@ && exists|
                            i2: int,
                        |
                            0 <= i2 < i + 1 && buckets.spec_has_pair(
                                kmer::spec_canon(
                                    #[trigger] self.transformed@.subrange(i2, i2 + n),
                                ).0,
                                out@[t2]@,
                            ),
                    forall|id: Seq<char>, i2: int|
                        0 <= i2 < i && #[trigger] buckets.spec_has_pair(
                            kmer::spec_canon(self.transformed@.subrange(i2, i2 + n)).0,
                            id,
                        ) && id != self.id@ ==> contains_id(out@, id),
                    forall|t2: int|
                        0 <= t2 < t && (#[trigger] ids@[t2])@ != self.id@ ==> exists|t3: int|
                            0 <= t3 < out@.len() && (#[trigger] out@[t3])@ == ids@[t2]@,
                    forall|t1: int, t2: int|
                        0 <= t1 < t2 < out@.len() ==> (#[trigger] out@[t1])@ != (
                        #[trigger] out@[t2])@,
                decreases ids@.len() - t,
            {
                let cand = &ids[t];
                if !cand.eq(&self.id) && !ids_contains(&out, cand) {
                    let ghost old_out2 = out@;
                    out.push(cand.clone());
                    proof {
                        assert(out@[out@.len() - 1]@ == ids@[t as int]@);
                        assert(buckets.spec_has_pair(
                            kmer::spec_canon(
                                self.transformed@.subrange(i as int, i + n),
                            ).0,
                            ids@[t as int]@,
                        ));
                        assert forall|id: Seq<char>, i2: int|
                            0 <= i2 < i && #[trigger] buckets.spec_has_pair(
                                kmer::spec_canon(self.transformed@.subrange(i2, i2 + n)).0,
                                id,
                            ) && id != self.id@ implies contains_id(out@, id) by {
                            assert(contains_id(old_out2, id));
                            let t2 = choose|t2: int|
                                0 <= t2 < old_out2.len() && (#[trigger] old_out2[t2])@ == id;
                            assert(out@[t2]@ == id);
                        }
                        assert forall|t2: int|
                            0 <= t2 < t + 1 && (#[trigger] ids@[t2])@ != self.id@ implies exists|
                            t3: int,
                        |
                            0 <= t3 < out@.len() && (#[trigger] out@[t3])@ == ids@[t2]@ by {
                            if t2 < t {
                                let t3 = choose|t3: int|
                                    0 <= t3 < old_out2.len() && (#[trigger] old_out2[t3])@
                                        == ids@[t2]@;
                                assert(out@[t3]@ == ids@[t2]@);
                            } else {
                                assert(out@[out@.len() - 1]@ == ids@[t2]@);
                            }
                        }
                    }
                }
                t += 1;
            }
            proof {
                assert forall|id: Seq<char>, i2: int|
                    0 <= i2 < i + 1 && #[trigger] buckets.spec_has_pair(
                        kmer::spec_canon(self.transformed@.subrange(i2, i2 + n)).0,
                        id,
                    ) && id != self.id@ implies contains_id(out@, id) by {
                    if i2 == i {
                        let t2 = choose|t2: int|
                            0 <= t2 < ids@.len() && (#[trigger] ids@[t2])@ == id;
                        assert(exists|t3: int|
                            0 <= t3 < out@.len() && (#[trigger] out@[t3])@ == ids@[t2]@);
                        let t3 = choose|t3: int|
                            0 <= t3 < out@.len() && (#[trigger] out@[t3])@ == ids@[t2]@;
                        assert(out@[t3]@ == id);
                    }
                }
            }
            i += 1;
        }
        proof {
            let wn2 = self.transformed@.len() - n + 1;
            assert(!some_key_missing(*buckets, self.transformed@, n, wn2 as int));
            assert forall|t: int|
                0 <= t < out@.len() implies (#[trigger] out@[t])@ != self.id@ && exists|i2: int|
                    0 <= i2 < wn2 && buckets.spec_has_pair(
                        kmer::spec_canon(#[trigger] self.transformed@.subrange(i2, i2 + n)).0,
                        out@[t]@,
                    ) by {
                assert((out@[t])@ != self.id@);
                let i3 = choose|i3: int|
                    0 <= i3 < i && buckets.spec_has_pair(
                        kmer::spec_canon(#[trigger] self.transformed@.subrange(i3, i3 + n)).0,
                        out@[t]@,
                    );
                assert(0 <= i3 < wn2 && buckets.spec_has_pair(
                    kmer::spec_canon(self.transformed@.subrange(i3, i3 + n)).0,
                    out@[t]@,
                ));
            }
            assert(forall|id: Seq<char>, i2: int|
                0 <= i2 < wn2 && #[trigger] buckets.spec_has_pair(
                    kmer::spec_canon(self.transformed@.subrange(i2, i2 + n)).0,
                    id,
                ) && id != self.id@ ==> contains_id(out@, id));
            assert(forall|t1: int, t2: int|
                0 <= t1 < t2 < out@.len() ==> (#[trigger] out@[t1])@ != (#[trigger] out@[t2])@);
        }
        Ok(out)
    }
}

/// One ranked or recruited candidate entry: a table slot holding the id's
/// read, with the exact distance rational from the template.
pub open spec fn spec_cand_entry(e: (usize, usize, usize), tmpl: Read, tbl: ReadTable) -> bool {
    &&& e.0 < tbl.reads@.len()
    &&& e.1 as int == dist::spec_dist_pair(
        tmpl.transformed@,
        tbl.reads@[e.0 as int].transformed@,
    ).0
    &&& e.2 as int == dist::spec_dist_pair(
        tmpl.transformed@,
        tbl.reads@[e.0 as int].transformed@,
    ).1
    &&& e.2 >= 1
}

/// A ranked (retained) table slot entry: an exact candidate entry whose
/// read lies below the distance threshold, differs from the template, and
/// was recruited under one of the template's windows.
pub open spec fn retained_slot_ok(
    e: (usize, usize, usize),
    tmpl: Read,
    tbl: ReadTable,
    b: Buckets,
    n: usize,
    tn: int,
    td: int,
) -> bool {
    &&& spec_cand_entry(e, tmpl, tbl)
    &&& dist::spec_below_threshold(e.1 as int, e.2 as int, tn, td)
    &&& tbl.reads@[e.0 as int].id@ != tmpl.id@
    &&& exists|i: int|
        0 <= i < tmpl.transformed@.len() - n + 1 && b.spec_has_pair(
            kmer::spec_canon(#[trigger] tmpl.transformed@.subrange(i, i + n)).0,
            tbl.reads@[e.0 as int].id@,
        )
}

/// The id resolves in the table to a read distinct from the template,
/// recruited under one of the template's windows, at distance strictly
/// below the retention bound.
#[verifier::opaque]
pub open spec fn recruited_below(
    id: Seq<char>,
    tmpl: Read,
    tbl: ReadTable,
    b: Buckets,
    n: usize,
    tn: int,
    td: int,
) -> bool {
    match table::spec_read_lookup(tbl.reads@, id) {
        Some(rd) => {
            &&& id != tmpl.id@
            &&& dist::spec_below_threshold(
                dist::spec_dist_pair(tmpl.transformed@, rd.transformed@).0,
                dist::spec_dist_pair(tmpl.transformed@, rd.transformed@).1,
                tn,
                td,
            )
            &&& exists|i2: int|
                0 <= i2 < tmpl.transformed@.len() - n + 1 && b.spec_has_pair(
                    kmer::spec_canon(#[trigger] tmpl.transformed@.subrange(i2, i2 + n)).0,
                    id,
                )
        },
        None => false,
    }
}

/// Some recruited neighbor lies below the distance threshold.
pub open spec fn spec_retained_exists(
    tmpl: Read,
    tbl: ReadTable,
    b: Buckets,
    n: usize,
    tn: int,
    td: int,
) -> bool {
    exists|u: int|
        {
            &&& 0 <= u < tbl.reads@.len()
            &&& (#[trigger] tbl.reads@[u]).id@ != tmpl.id@
            &&& dist::spec_below_threshold(
                dist::spec_dist_pair(tmpl.transformed@, tbl.reads@[u].transformed@).0,
                dist::spec_dist_pair(tmpl.transformed@, tbl.reads@[u].transformed@).1,
                tn,
                td,
            )
            &&& exists|i: int|
                0 <= i < tmpl.transformed@.len() - n + 1 && b.spec_has_pair(
                    kmer::spec_canon(#[trigger] tmpl.transformed@.subrange(i, i + n)).0,
                    tbl.reads@[u].id@,
                )
        }
}

/// The corrected template content dictated by a reconciled consensus
/// `ctoks` with edge substrings `cedges`: the consensus is non-empty,
/// anchored to the old template's first and last token; the read's tokens
/// are the consensus, its minimizer texts the vocabulary texts, its
/// sequence the edge concatenation closed by the last token's text, and
/// its positions the prefix sums of the edge lengths, from zero.
#[verifier::opaque]
pub open spec fn spec_corrected_content(
    rd: Read,
    old_tokens: Seq<u64>,
    iv: VocabInv,
    ctoks: Seq<u64>,
    cedges: Seq<Vec<u8>>,
) -> bool {
    &&& ctoks.len() >= 1
    &&& cedges.len() == ctoks.len() - 1
    &&& forall|t: int| 0 <= t < cedges.len() ==> (#[trigger] cedges[t])@.len() >= 1
    &&& ctoks[0] == old_tokens[0]
    &&& ctoks[ctoks.len() - 1] == old_tokens[old_tokens.len() - 1]
    &&& rd.transformed@ == ctoks
    &&& rd.minimizers@.len() == ctoks.len()
    &&& forall|t: int|
        0 <= t < ctoks.len() ==> vocab::spec_text_of(iv.pairs@, #[trigger] ctoks[t]) == Some(
            (#[trigger] rd.minimizers@[t])@,
        )
    &&& rd.minimizers_pos@.len() == ctoks.len()
    &&& rd.minimizers_pos@[0] == 0
    &&& forall|t: int|
        0 <= t < ctoks.len() - 1 ==> (#[trigger] rd.minimizers_pos@[t + 1]) as int
            == rd.minimizers_pos@[t] + cedges[t]@.len()
    &&& match vocab::spec_text_of(iv.pairs@, ctoks[ctoks.len() - 1]) {
        Some(txt) => rd.seq@ == spec_concat_texts(cedges) + txt,
        None => false,
    }
}

/// A provenance entry lists, in ranked order, the retained neighbors:
/// `slots` gives each id's table slot, every slot retained, and distances
/// run ascending.
#[verifier::opaque]
pub open spec fn spec_ranked_provenance(
    ids: Seq<String>,
    slots: Seq<int>,
    tmpl: Read,
    tbl: ReadTable,
    b: Buckets,
    n: usize,
    tn: int,
    td: int,
) -> bool {
    &&& ids.len() == slots.len()
    &&& ids.len() <= dist::MAX_POA_READS
    &&& forall|t: int|
        0 <= t < slots.len() ==> {
            let u = #[trigger] slots[t];
            &&& 0 <= u < tbl.reads@.len()
            &&& (#[trigger] ids[t])@ == tbl.reads@[u].id@
            &&& tbl.reads@[u].id@ != tmpl.id@
            &&& dist::spec_below_threshold(
                dist::spec_dist_pair(tmpl.transformed@, tbl.reads@[u].transformed@).0,
                dist::spec_dist_pair(tmpl.transformed@, tbl.reads@[u].transformed@).1,
                tn,
                td,
            )
            &&& exists|i: int|
                0 <= i < tmpl.transformed@.len() - n + 1 && b.spec_has_pair(
                    kmer::spec_canon(#[trigger] tmpl.transformed@.subrange(i, i + n)).0,
                    tbl.reads@[u].id@,
                )
        }
    &&& forall|t: int|
        0 <= t < slots.len() - 1 ==> dist::spec_dist_le(
            dist::spec_dist_pair(tmpl.transformed@, tbl.reads@[#[trigger] slots[t]].transformed@).0,
            dist::spec_dist_pair(tmpl.transformed@, tbl.reads@[slots[t]].transformed@).1,
            dist::spec_dist_pair(tmpl.transformed@, tbl.reads@[slots[t + 1]].transformed@).0,
            dist::spec_dist_pair(tmpl.transformed@, tbl.reads@[slots[t + 1]].transformed@).1,
        )
    // completeness: every recruited neighbor below the bound is listed,
    // unless the cap was reached and it lies at or beyond every listed one
    &&& forall|id: Seq<char>|
        #[trigger] recruited_below(id, tmpl, tbl, b, n, tn, td) ==> contains_id(ids, id) || (
        ids.len() == dist::MAX_POA_READS && forall|t: int|
            0 <= t < slots.len() ==> dist::spec_dist_le(
                dist::spec_dist_pair(
                    tmpl.transformed@,
                    tbl.reads@[#[trigger] slots[t]].transformed@,
                ).0,
                dist::spec_dist_pair(tmpl.transformed@, tbl.reads@[slots[t]].transformed@).1,
                dist::spec_dist_pair(
                    tmpl.transformed@,
                    table::spec_read_lookup(tbl.reads@, id).unwrap().transformed@,
                ).0,
                dist::spec_dist_pair(
                    tmpl.transformed@,
                    table::spec_read_lookup(tbl.reads@, id).unwrap().transformed@,
                ).1,
            ))
}

/// Package the corrected-content facts into the certificate.
proof fn lemma_corrected_content_ok(
    rd: Read,
    old_tokens: Seq<u64>,
    iv: VocabInv,
    ctoks: Seq<u64>,
    cedges: Seq<Vec<u8>>,
)
    requires
        ctoks.len() >= 1,
        cedges.len() == ctoks.len() - 1,
        forall|t: int| 0 <= t < cedges.len() ==> (#[trigger] cedges[t])@.len() >= 1,
        ctoks[0] == old_tokens[0],
        ctoks[ctoks.len() - 1] == old_tokens[old_tokens.len() - 1],
        rd.transformed@ == ctoks,
        rd.minimizers@.len() == ctoks.len(),
        forall|t: int|
            0 <= t < ctoks.len() ==> vocab::spec_text_of(iv.pairs@, #[trigger] ctoks[t]) == Some(
                (#[trigger] rd.minimizers@[t])@,
            ),
        rd.minimizers_pos@.len() == ctoks.len(),
        rd.minimizers_pos@[0] == 0,
        forall|t: int|
            0 <= t < ctoks.len() - 1 ==> (#[trigger] rd.minimizers_pos@[t + 1]) as int
                == rd.minimizers_pos@[t] + cedges[t]@.len(),
        match vocab::spec_text_of(iv.pairs@, ctoks[ctoks.len() - 1]) {
            Some(txt) => rd.seq@ == spec_concat_texts(cedges) + txt,
            None => false,
        },
    ensures
        spec_corrected_content(rd, old_tokens, iv, ctoks, cedges),
{
    reveal(spec_corrected_content);
}

/// Package the ranked-provenance facts into the certificate, including
/// completeness: the candidate list holds every recruited id, the ranking
/// kept every below-bound candidate up to the cap, and beyond the cap it
/// kept only lowest-distance ones.
proof fn lemma_ranked_provenance_ok(
    tmpl: Read,
    tbl: ReadTable,
    b: Buckets,
    n: usize,
    tn: int,
    td: int,
    cand_ids: Seq<String>,
    cands: Seq<(usize, usize, usize)>,
    ranked: Seq<(usize, usize, usize)>,
    ids: Seq<String>,
    slots: Seq<int>,
)
    requires
        forall|t: int|
            0 <= t < ranked.len() ==> retained_slot_ok(#[trigger] ranked[t], tmpl, tbl, b, n, tn, td),
        forall|t: int|
            0 <= t < ranked.len() - 1 ==> dist::spec_dist_le(
                (#[trigger] ranked[t]).1 as int,
                ranked[t].2 as int,
                ranked[t + 1].1 as int,
                ranked[t + 1].2 as int,
            ),
        ids.len() == ranked.len(),
        ranked.len() <= dist::MAX_POA_READS,
        forall|t: int|
            0 <= t < ranked.len() ==> (#[trigger] ids[t])@ == tbl.reads@[ranked[t].0 as int].id@,
        slots == Seq::new(ranked.len() as nat, |t: int| ranked[t].0 as int),
        // candidate entries and their id linkage
        cands.len() == cand_ids.len(),
        forall|t: int|
            0 <= t < cands.len() ==> spec_cand_entry(#[trigger] cands[t], tmpl, tbl)
                && tbl.reads@[cands[t].0 as int].id@ == cand_ids[t]@ && table::spec_read_lookup(
                tbl.reads@,
                cand_ids[t]@,
            ) == Some(tbl.reads@[cands[t].0 as int]),
        // consultation completeness over the candidate ids
        forall|id: Seq<char>, i: int|
            0 <= i < tmpl.transformed@.len() - n + 1 && #[trigger] b.spec_has_pair(
                kmer::spec_canon(tmpl.transformed@.subrange(i, i + n)).0,
                id,
            ) && id != tmpl.id@ ==> contains_id(cand_ids, id),
        // ranking facts
        ranked.len() == (if dist::spec_count_below(cands, tn, td) <= dist::MAX_POA_READS as int {
            dist::spec_count_below(cands, tn, td)
        } else {
            dist::MAX_POA_READS as int
        }),
        dist::spec_count_below(cands, tn, td) <= dist::MAX_POA_READS as int ==> forall|
            x: (usize, usize, usize),
        |
            #[trigger] dist::count_entry(ranked, x) == (if dist::spec_below(x, tn, td) {
                dist::count_entry(cands, x)
            } else {
                0int
            }),
        forall|x: (usize, usize, usize), t: int|
            #![trigger dist::count_entry(ranked, x), ranked[t]]
            dist::spec_below(x, tn, td) && dist::count_entry(ranked, x) < dist::count_entry(
                cands,
                x,
            ) && 0 <= t < ranked.len() ==> dist::spec_dist_le(
                ranked[t].1 as int,
                ranked[t].2 as int,
                x.1 as int,
                x.2 as int,
            ),
    ensures
        spec_ranked_provenance(ids, slots, tmpl, tbl, b, n, tn, td),
{
    reveal(spec_ranked_provenance);
    assert forall|id: Seq<char>|
        #[trigger] recruited_below(id, tmpl, tbl, b, n, tn, td) implies (contains_id(ids, id) || (
    ids.len() == dist::MAX_POA_READS && forall|t: int|
        0 <= t < slots.len() ==> dist::spec_dist_le(
            dist::spec_dist_pair(
                tmpl.transformed@,
                tbl.reads@[#[trigger] slots[t]].transformed@,
            ).0,
            dist::spec_dist_pair(tmpl.transformed@, tbl.reads@[slots[t]].transformed@).1,
            dist::spec_dist_pair(
                tmpl.transformed@,
                table::spec_read_lookup(tbl.reads@, id).unwrap().transformed@,
            ).0,
            dist::spec_dist_pair(
                tmpl.transformed@,
                table::spec_read_lookup(tbl.reads@, id).unwrap().transformed@,
            ).1,
        ))) by {
        reveal(recruited_below);
        assert(contains_id(cand_ids, id));
        let t3 = choose|t3: int| 0 <= t3 < cand_ids.len() && (#[trigger] cand_ids[t3])@ == id;
        let e = cands[t3];
        assert(spec_cand_entry(e, tmpl, tbl));
        assert(tbl.reads@[e.0 as int].id@ == id);
        assert(table::spec_read_lookup(tbl.reads@, id) == Some(tbl.reads@[e.0 as int]));
        assert(dist::spec_below(e, tn, td));
        dist::lemma_contains_count(cands, t3);
        if dist::count_entry(ranked, e) >= 1 {
            dist::lemma_count_pos_contains(ranked, e);
            let t4 = choose|t4: int| 0 <= t4 < ranked.len() && ranked[t4] == e;
            assert(ids[t4]@ == tbl.reads@[ranked[t4].0 as int].id@);
            assert(ids[t4]@ == id);
            assert(contains_id(ids, id));
        } else {
            assert(dist::count_entry(ranked, e) < dist::count_entry(cands, e));
            if dist::spec_count_below(cands, tn, td) <= dist::MAX_POA_READS as int {
                assert(dist::count_entry(ranked, e) == dist::count_entry(cands, e));
                assert(false);
            }
            assert(ids.len() == dist::MAX_POA_READS);
            assert forall|t: int|
                0 <= t < slots.len() implies dist::spec_dist_le(
                dist::spec_dist_pair(
                    tmpl.transformed@,
                    tbl.reads@[#[trigger] slots[t]].transformed@,
                ).0,
                dist::spec_dist_pair(tmpl.transformed@, tbl.reads@[slots[t]].transformed@).1,
                dist::spec_dist_pair(
                    tmpl.transformed@,
                    table::spec_read_lookup(tbl.reads@, id).unwrap().transformed@,
                ).0,
                dist::spec_dist_pair(
                    tmpl.transformed@,
                    table::spec_read_lookup(tbl.reads@, id).unwrap().transformed@,
                ).1,
            ) by {
                assert(dist::spec_dist_le(
                    ranked[t].1 as int,
                    ranked[t].2 as int,
                    e.1 as int,
                    e.2 as int,
                ));
                assert(retained_slot_ok(ranked[t], tmpl, tbl, b, n, tn, td));
            }
        }
    }
    assert forall|t: int|
        0 <= t < slots.len() implies {
        let u = #[trigger] slots[t];
        &&& 0 <= u < tbl.reads@.len()
        &&& (#[trigger] ids[t])@ == tbl.reads@[u].id@
        &&& tbl.reads@[u].id@ != tmpl.id@
        &&& dist::spec_below_threshold(
            dist::spec_dist_pair(tmpl.transformed@, tbl.reads@[u].transformed@).0,
            dist::spec_dist_pair(tmpl.transformed@, tbl.reads@[u].transformed@).1,
            tn,
            td,
        )
        &&& exists|i2: int|
            0 <= i2 < tmpl.transformed@.len() - n + 1 && b.spec_has_pair(
                kmer::spec_canon(#[trigger] tmpl.transformed@.subrange(i2, i2 + n)).0,
                tbl.reads@[u].id@,
            )
    } by {
        assert(retained_slot_ok(ranked[t], tmpl, tbl, b, n, tn, td));
    }
    assert forall|t: int|
        0 <= t < slots.len() - 1 implies dist::spec_dist_le(
        dist::spec_dist_pair(tmpl.transformed@, tbl.reads@[#[trigger] slots[t]].transformed@).0,
        dist::spec_dist_pair(tmpl.transformed@, tbl.reads@[slots[t]].transformed@).1,
        dist::spec_dist_pair(tmpl.transformed@, tbl.reads@[slots[t + 1]].transformed@).0,
        dist::spec_dist_pair(tmpl.transformed@, tbl.reads@[slots[t + 1]].transformed@).1,
    ) by {
        assert(retained_slot_ok(ranked[t], tmpl, tbl, b, n, tn, td));
        assert(retained_slot_ok(ranked[t + 1], tmpl, tbl, b, n, tn, td));
        assert(dist::spec_dist_le(
            ranked[t].1 as int,
            ranked[t].2 as int,
            ranked[t + 1].1 as int,
            ranked[t + 1].2 as int,
        ));
    }
}

/// Every ranked entry is a retained slot: it came from the candidate list
/// below the threshold.
proof fn lemma_ranked_retained(
    tmpl: Read,
    tbl: ReadTable,
    b: Buckets,
    n: usize,
    tn: int,
    td: int,
    cand_ids: Seq<String>,
    cands: Seq<(usize, usize, usize)>,
    ranked: Seq<(usize, usize, usize)>,
)
    requires
        cands.len() == cand_ids.len(),
        forall|t: int|
            0 <= t < cands.len() ==> spec_cand_entry(#[trigger] cands[t], tmpl, tbl)
                && tbl.reads@[cands[t].0 as int].id@ == cand_ids[t]@,
        forall|t: int|
            0 <= t < cand_ids.len() ==> (#[trigger] cand_ids[t])@ != tmpl.id@ && exists|i: int|
                0 <= i < tmpl.transformed@.len() - n + 1 && b.spec_has_pair(
                    kmer::spec_canon(#[trigger] tmpl.transformed@.subrange(i, i + n)).0,
                    cand_ids[t]@,
                ),
        forall|t: int|
            0 <= t < ranked.len() ==> dist::spec_below_threshold(
                (#[trigger] ranked[t]).1 as int,
                ranked[t].2 as int,
                tn,
                td,
            ) && cands.contains(ranked[t]),
    ensures
        forall|t: int|
            0 <= t < ranked.len() ==> retained_slot_ok(#[trigger] ranked[t], tmpl, tbl, b, n, tn, td),
{
    assert forall|t: int|
        0 <= t < ranked.len() implies retained_slot_ok(
        #[trigger] ranked[t],
        tmpl,
        tbl,
        b,
        n,
        tn,
        td,
    ) by {
        assert(cands.contains(ranked[t]));
        let u = choose|u: int| 0 <= u < cands.len() && cands[u] == ranked[t];
        assert(spec_cand_entry(cands[u], tmpl, tbl));
    }
}

/// Look each candidate id up and pair its table slot with its distance
/// from the template, in candidate order.
fn candidate_distances(template: &Read, ids: &Vec<String>, tbl: &ReadTable) -> (r: Vec<
    (usize, usize, usize),
>)
    requires
        template.transformed@.len() <= MAX_TOKENS,
        forall|u: int|
            0 <= u < tbl.reads@.len() ==> (#[trigger] tbl.reads@[u]).transformed@.len()
                <= MAX_TOKENS,
        forall|t: int|
            0 <= t < ids@.len() ==> table::spec_read_lookup(tbl.reads@, (#[trigger] ids@[t])@)
                is Some,
    ensures
        r@.len() == ids@.len(),
        forall|t: int|
            0 <= t < r@.len() ==> spec_cand_entry(#[trigger] r@[t], *template, *tbl)
                && tbl.reads@[r@[t].0 as int].id@ == ids@[t]@ && table::spec_read_lookup(
                tbl.reads@,
                ids@[t]@,
            ) == Some(tbl.reads@[r@[t].0 as int]),
{
    let n = ids.len();
    let mut out: Vec<(usize, usize, usize)> = Vec::new();
    let mut i: usize = 0;
    while i < n
        invariant
            n == ids@.len(),
            i <= n,
            out@.len() == i,
            forall|u: int|
                0 <= u < tbl.reads@.len() ==> (#[trigger] tbl.reads@[u]).transformed@.len()
                    <= MAX_TOKENS,
            template.transformed@.len() <= MAX_TOKENS,
            forall|t: int|
                0 <= t < ids@.len() ==> table::spec_read_lookup(tbl.reads@, (#[trigger] ids@[t])@)
                    is Some,
            forall|t: int|
                0 <= t < out@.len() ==> spec_cand_entry(#[trigger] out@[t], *template, *tbl)
                    && tbl.reads@[out@[t].0 as int].id@ == ids@[t]@ && table::spec_read_lookup(
                    tbl.reads@,
                    ids@[t]@,
                ) == Some(tbl.reads@[out@[t].0 as int]),
        decreases n - i,
    {
        match tbl.index_of(&ids[i]) {
            Some(ix) => {
                let d = dist::dist_pair(&template.transformed, &tbl.reads[ix].transformed);
                out.push((ix, d.0, d.1));
            },
            None => {
                proof {
                    assert(table::spec_read_lookup(tbl.reads@, ids@[i as int]@) is Some);
                    assert(false);
                }
            },
        }
        i += 1;
    }
    out
}

/// The concatenation of a list of byte strings.
pub open spec fn spec_concat_texts(s: Seq<Vec<u8>>) -> Seq<u8>
    decreases s.len(),
{
    if s.len() == 0 {
        Seq::empty()
    } else {
        spec_concat_texts(s.drop_last()) + s.last()@
    }
}

/// Assemble the corrected read content from the reconciled consensus:
/// concatenate the edge substrings, append the last token's literal text,
/// and take the edge-length prefix sums, starting at zero, as the new
/// positions.
#[verifier::loop_isolation(false)]
#[verifier::rlimit(60)]
fn assemble_consensus(consensus: &Vec<u64>, edges: &Vec<Vec<u8>>, iv: &VocabInv, l: usize) -> (r: (
    Vec<u8>,
    Vec<Vec<u8>>,
    Vec<usize>,
))
    requires
        1 <= consensus@.len(),
        edges@.len() == consensus@.len() - 1,
        forall|t: int| 0 <= t < edges@.len() ==> 1 <= (#[trigger] edges@[t])@.len(),
        forall|t: int| 0 <= t < consensus@.len() ==> text_ok(*iv, #[trigger] consensus@[t], l),
        l >= 1,
    ensures
        r.2@.len() == consensus@.len(),
        r.1@.len() == consensus@.len(),
        r.2@[0] == 0,
        forall|t: int|
            0 <= t < r.2@.len() - 1 ==> (#[trigger] r.2@[t + 1]) as int == r.2@[t]
                + edges@[t]@.len(),
        forall|t: int| 0 <= t < r.2@.len() - 1 ==> #[trigger] r.2@[t] < r.2@[t + 1],
        forall|t: int| 0 <= t < r.2@.len() ==> #[trigger] r.2@[t] + l <= r.0@.len(),
        forall|t: int|
            0 <= t < consensus@.len() ==> vocab::spec_text_of(iv.pairs@, #[trigger] consensus@[t])
                == Some((#[trigger] r.1@[t])@),
        match vocab::spec_text_of(iv.pairs@, consensus@[consensus@.len() - 1]) {
            Some(txt) => r.0@ == spec_concat_texts(edges@) + txt,
            None => false,
        },
{
    let clen = consensus.len();
    let mut cstr: Vec<u8> = Vec::new();
    let mut cpos: Vec<usize> = Vec::new();
    let mut t: usize = 0;
    proof {
        assert(edges@.take(0) =~= Seq::<Vec<u8>>::empty());
        assert(cstr@ =~= spec_concat_texts(edges@.take(0)));
    }
    while t < clen - 1
        invariant
            t <= clen - 1,
            cpos@.len() == t,
            cstr@ == spec_concat_texts(edges@.take(t as int)),
            forall|t2: int| 0 <= t2 < t ==> #[trigger] cpos@[t2] < cstr@.len(),
            forall|t2: int|
                0 <= t2 < t - 1 ==> (#[trigger] cpos@[t2 + 1]) as int == cpos@[t2]
                    + edges@[t2]@.len(),
            t >= 1 ==> cpos@[0] == 0,
            t >= 1 ==> cpos@[t - 1] as int + edges@[t - 1]@.len() == cstr@.len(),
            t == 0 ==> cstr@.len() == 0,
        decreases clen - 1 - t,
    {
        let cur = cstr.len();
        cpos.push(cur);
        let elen = edges[t].len();
        let mut edge = align::subvec(&edges[t], 0, elen);
        cstr.append(&mut edge);
        proof {
            assert(edges@.take(t + 1).drop_last() =~= edges@.take(t as int));
            assert(edges@.take(t + 1).last() == edges@[t as int]);
            assert(cstr@ =~= spec_concat_texts(edges@.take(t + 1)));
        }
        t += 1;
    }
    proof {
        assert(edges@.take(clen - 1) =~= edges@);
    }
    let cur = cstr.len();
    cpos.push(cur);
    let last_txt = match iv.get(consensus[clen - 1]) {
        Some(txt) => align::subvec(txt, 0, txt.len()),
        None => {
            proof {
                assert(text_ok(*iv, consensus@[clen - 1], l));
                assert(false);
            }
            Vec::new()
        },
    };
    proof {
        assert(text_ok(*iv, consensus@[clen - 1], l));
        assert(last_txt@.len() == l);
        assert(vocab::spec_text_of(iv.pairs@, consensus@[clen - 1]) == Some(last_txt@));
    }
    let mut tail = last_txt;
    cstr.append(&mut tail);
    let mut cmin: Vec<Vec<u8>> = Vec::new();
    let mut t2: usize = 0;
    while t2 < clen
        invariant
            t2 <= clen,
            cmin@.len() == t2,
            forall|t3: int|
                0 <= t3 < t2 ==> vocab::spec_text_of(iv.pairs@, #[trigger] consensus@[t3]) == Some(
                    (#[trigger] cmin@[t3])@,
                ),
        decreases clen - t2,
    {
        match iv.get(consensus[t2]) {
            Some(txt) => {
                cmin.push(align::subvec(txt, 0, txt.len()));
            },
            None => {
                proof {
                    assert(text_ok(*iv, consensus@[t2 as int], l));
                    assert(false);
                }
            },
        }
        t2 += 1;
    }
    (cstr, cmin, cpos)
}

/// The ids that propagation labels, walking `slots` in ranked order: the
/// previously-uncorrected reads, up to `th` of them.
pub open spec fn spec_slot_labels(slots: Seq<int>, tbl: ReadTable, th: int) -> Seq<Seq<char>>
    decreases slots.len(),
{
    if slots.len() == 0 || th <= 0 {
        Seq::empty()
    } else if 0 <= slots[0] < tbl.reads@.len() && !tbl.reads@[slots[0]].corrected {
        seq![tbl.reads@[slots[0]].id@] + spec_slot_labels(slots.drop_first(), tbl, th - 1)
    } else {
        spec_slot_labels(slots.drop_first(), tbl, th)
    }
}

/// Extending the walked slots by one extends the labels by that slot's id
/// exactly when budget remains and its read is not yet corrected.
proof fn lemma_slot_labels_push(slots: Seq<int>, e: int, tbl: ReadTable, th: int)
    ensures
        spec_slot_labels(slots.push(e), tbl, th) == (if spec_slot_labels(slots, tbl, th).len() < th
            && 0 <= e < tbl.reads@.len() && !tbl.reads@[e].corrected {
            spec_slot_labels(slots, tbl, th).push(tbl.reads@[e].id@)
        } else {
            spec_slot_labels(slots, tbl, th)
        }),
        spec_slot_labels(slots, tbl, th).len() <= th || th <= 0,
    decreases slots.len(),
{
    if slots.len() == 0 {
        assert(slots.push(e)[0] == e);
        assert(slots.push(e).drop_first() =~= Seq::<int>::empty());
        assert(spec_slot_labels(Seq::<int>::empty(), tbl, th) =~= Seq::<Seq<char>>::empty());
        assert(spec_slot_labels(Seq::<int>::empty(), tbl, th - 1) =~= Seq::<Seq<char>>::empty());
        if th >= 1 && 0 <= e < tbl.reads@.len() && !tbl.reads@[e].corrected {
            assert(spec_slot_labels(slots.push(e), tbl, th) =~= seq![tbl.reads@[e].id@]);
            assert(spec_slot_labels(slots, tbl, th).push(tbl.reads@[e].id@) =~= seq![
                tbl.reads@[e].id@,
            ]);
        }
    } else if th <= 0 {
        lemma_slot_labels_push(slots.drop_first(), e, tbl, th);
        assert(slots.push(e)[0] == slots[0]);
        assert(spec_slot_labels(slots.push(e), tbl, th) =~= Seq::<Seq<char>>::empty());
    } else {
        assert(slots.push(e)[0] == slots[0]);
        assert(slots.push(e).drop_first() =~= slots.drop_first().push(e));
        if 0 <= slots[0] < tbl.reads@.len() && !tbl.reads@[slots[0]].corrected {
            lemma_slot_labels_push(slots.drop_first(), e, tbl, th - 1);
            if spec_slot_labels(slots.drop_first(), tbl, th - 1).len() < th - 1
                && 0 <= e < tbl.reads@.len() && !tbl.reads@[e].corrected {
                assert(spec_slot_labels(slots.push(e), tbl, th) =~= spec_slot_labels(
                    slots,
                    tbl,
                    th,
                ).push(tbl.reads@[e].id@));
            }
        } else {
            lemma_slot_labels_push(slots.drop_first(), e, tbl, th);
        }
    }
}

/// Result-map entry `e` carries exactly the consensus record: the rebuilt
/// sequence, minimizer texts, positions and token ids.
pub open spec fn entry_is_record(
    e: (String, CorrEntry),
    cstr: Seq<u8>,
    cmin: Seq<Vec<u8>>,
    cpos: Seq<usize>,
    ctoks: Seq<u64>,
) -> bool {
    &&& e.1.seq@ == cstr
    &&& e.1.minimizers_pos@ == cpos
    &&& e.1.transformed@ == ctoks
    &&& e.1.minimizers@.len() == cmin.len()
    &&& forall|t: int| 0 <= t < cmin.len() ==> (#[trigger] e.1.minimizers@[t])@ == cmin[t]@
}

/// Label up to `threshold` previously-uncorrected retained neighbors with
/// the consensus record, in ranked order, through the out-of-band map.
#[verifier::loop_isolation(false)]
#[verifier::rlimit(60)]
fn propagate(
    ranked: &Vec<(usize, usize, usize)>,
    tbl: &ReadTable,
    threshold: usize,
    cstr: &Vec<u8>,
    cmin: &Vec<Vec<u8>>,
    cpos: &Vec<usize>,
    ctoks: &Vec<u64>,
    cm: &mut CorrMap,
)
    requires
        forall|t: int| 0 <= t < ranked@.len() ==> (#[trigger] ranked@[t]).0 < tbl.reads@.len(),
    ensures
        old(cm).entries@.len() <= final(cm).entries@.len() <= old(cm).entries@.len() + threshold,
        forall|t: int|
            0 <= t < old(cm).entries@.len() ==> #[trigger] final(cm).entries@[t] == old(cm).entries@[t],
        forall|t: int|
            old(cm).entries@.len() <= t < final(cm).entries@.len() ==> labeled_for_uncorrected(
                *tbl,
                #[trigger] final(cm).entries@[t],
            ),
        forall|t: int|
            old(cm).entries@.len() <= t < final(cm).entries@.len() ==> entry_is_record(
                #[trigger] final(cm).entries@[t],
                cstr@,
                cmin@,
                cpos@,
                ctoks@,
            ),
        // the labeled ids are exactly the first budget-many
        // previously-uncorrected entries of the ranked list, in order
        ({
            let labs = spec_slot_labels(
                Seq::new(ranked@.len() as nat, |t: int| ranked@[t].0 as int),
                *tbl,
                threshold as int,
            );
            &&& final(cm).entries@.len() == old(cm).entries@.len() + labs.len()
            &&& forall|t: int|
                0 <= t < labs.len() ==> (#[trigger] final(cm).entries@[old(cm).entries@.len()
                    + t]).0@ == labs[t]
        }),
{
    let n = ranked.len();
    let mut count: usize = 0;
    let mut i: usize = 0;
    let ghost base = cm.entries@;
    let ghost slotseq = Seq::new(ranked@.len() as nat, |t: int| ranked@[t].0 as int);
    let ghost mut wit: Seq<int> = Seq::empty();
    proof {
        assert(slotseq.take(0) =~= Seq::<int>::empty());
        assert(spec_slot_labels(slotseq.take(0), *tbl, threshold as int) =~= Seq::<
            Seq<char>,
        >::empty());
    }
    while i < n
        invariant
            i <= n,
            count <= threshold,
            cm.entries@.len() == base.len() + count,
            count as int == spec_slot_labels(slotseq.take(i as int), *tbl, threshold as int).len(),
            forall|t: int|
                0 <= t < count ==> (#[trigger] cm.entries@[base.len() + t]).0@ == spec_slot_labels(
                    slotseq.take(i as int),
                    *tbl,
                    threshold as int,
                )[t],
            base == old(cm).entries@,
            forall|t: int| 0 <= t < base.len() ==> #[trigger] cm.entries@[t] == base[t],
            wit.len() == count,
            forall|t: int|
                0 <= t < wit.len() ==> 0 <= #[trigger] wit[t] < tbl.reads@.len()
                    && tbl.reads@[wit[t]].id@ == cm.entries@[base.len() + t].0@
                    && !tbl.reads@[wit[t]].corrected,
            forall|t: int|
                base.len() <= t < cm.entries@.len() ==> entry_is_record(
                    #[trigger] cm.entries@[t],
                    cstr@,
                    cmin@,
                    cpos@,
                    ctoks@,
                ),
        decreases n - i,
    {
        if count < threshold {
            let ix = ranked[i].0;
            if !tbl.reads[ix].corrected {
                let ghost old_entries = cm.entries@;
                tbl.reads[ix].label(
                    align::subvec(cstr, 0, cstr.len()),
                    copy_seq_list(cmin),
                    align::subvec_usize(cpos, 0, cpos.len()),
                    align::subvec_u64(ctoks, 0, ctoks.len()),
                    cm,
                );
                count += 1;
                proof {
                    wit = wit.push(ix as int);
                    assert(cm.entries@.len() == old_entries.len() + 1);
                    assert(cm.entries@.last().0@ == tbl.reads@[ix as int].id@);
                    assert(cstr@.subrange(0, cstr@.len() as int) =~= cstr@);
                    assert(cpos@.subrange(0, cpos@.len() as int) =~= cpos@);
                    assert(ctoks@.subrange(0, ctoks@.len() as int) =~= ctoks@);
                    assert(entry_is_record(cm.entries@.last(), cstr@, cmin@, cpos@, ctoks@));
                    assert forall|t: int|
                        base.len() <= t < cm.entries@.len() implies entry_is_record(
                        #[trigger] cm.entries@[t],
                        cstr@,
                        cmin@,
                        cpos@,
                        ctoks@,
                    ) by {
                        if t < cm.entries@.len() - 1 {
                            assert(cm.entries@[t] == old_entries[t]);
                        } else {
                            assert(cm.entries@[t] == cm.entries@.last());
                        }
                    }
                    assert forall|t: int|
                        0 <= t < wit.len() implies 0 <= #[trigger] wit[t] < tbl.reads@.len()
                        && tbl.reads@[wit[t]].id@ == cm.entries@[base.len() + t].0@
                        && !tbl.reads@[wit[t]].corrected by {
                        if t < wit.len() - 1 {
                            assert(wit[t] == wit.drop_last()[t]);
                            assert(cm.entries@[base.len() + t] == old_entries[base.len() + t]);
                        } else {
                            assert(wit[t] == ix as int);
                            assert(cm.entries@[base.len() + t] == cm.entries@.last());
                        }
                    }
                }
            }
        }
        proof {
            assert(slotseq.take(i + 1) =~= slotseq.take(i as int).push(slotseq[i as int]));
            assert(slotseq[i as int] == ranked@[i as int].0 as int);
            lemma_slot_labels_push(slotseq.take(i as int), slotseq[i as int], *tbl, threshold as int);
        }
        i += 1;
    }
    proof {
        assert(slotseq.take(n as int) =~= slotseq);
        assert forall|t: int|
            old(cm).entries@.len() <= t < cm.entries@.len() implies labeled_for_uncorrected(
            *tbl,
            #[trigger] cm.entries@[t],
        ) by {
            let w = wit[t - base.len()];
            assert(tbl.reads@[w].id@ == cm.entries@[t].0@ && !tbl.reads@[w].corrected);
        }
    }
}

impl Read {
    /// Correct this read against the already-recruited candidate ids:
    /// rank them by distance, align and commit, reconcile the consensus,
    /// and apply and propagate the result.
    #[verifier::loop_isolation(false)]
    #[verifier::rlimit(100)]
    #[verifier::spinoff_prover]
    fn correct_retained(
        &mut self,
        int_to_minimizer: &VocabInv,
        poa_map: &mut PoaMap,
        buckets: &Buckets,
        params: &Params,
        corrected_map: &mut CorrMap,
        reads_by_id: &ReadTable,
        cand_ids: Vec<String>,
    )
        requires
            old(self).wf(params.l),
            read_sized(*old(self)),
            1 <= params.n <= old(self).transformed@.len(),
            params.l >= 1,
            table_wf(*reads_by_id, params.l),
            vocab_covers(*int_to_minimizer, *old(self), *reads_by_id, params.l),
            forall|key: Seq<u64>, id: Seq<char>| #[trigger] buckets.spec_has_pair(key, id)
                ==> table::spec_read_lookup(reads_by_id.reads@, id) is Some,
            // the candidate ids are the recruited neighbors
            forall|t: int|
                0 <= t < cand_ids@.len() ==> (#[trigger] cand_ids@[t])@ != old(self).id@ && exists|
                    i: int,
                |
                    0 <= i < old(self).transformed@.len() - params.n + 1 && buckets.spec_has_pair(
                        kmer::spec_canon(#[trigger] old(self).transformed@.subrange(i, i + params.n)).0,
                        cand_ids@[t]@,
                    ),
            forall|id: Seq<char>, i: int|
                0 <= i < old(self).transformed@.len() - params.n + 1 && #[trigger] buckets.spec_has_pair(
                    kmer::spec_canon(old(self).transformed@.subrange(i, i + params.n)).0,
                    id,
                ) && id != old(self).id@ ==> contains_id(cand_ids@, id),
        ensures
            old(corrected_map).entries@.len() <= final(corrected_map).entries@.len() <= old(
                corrected_map,
            ).entries@.len() + params.correction_threshold,
            forall|t: int|
                0 <= t < old(corrected_map).entries@.len() ==> #[trigger] final(corrected_map).entries@[t] == old(corrected_map).entries@[t],
            forall|t: int|
                old(corrected_map).entries@.len() <= t < final(corrected_map).entries@.len()
                    ==> labeled_for_uncorrected(
                    *reads_by_id,
                    #[trigger] final(corrected_map).entries@[t],
                ),
            forall|t: int|
                old(corrected_map).entries@.len() <= t < final(corrected_map).entries@.len()
                    ==> entry_is_record(
                    #[trigger] final(corrected_map).entries@[t],
                    final(self).seq@,
                    final(self).minimizers@,
                    final(self).minimizers_pos@,
                    final(self).transformed@,
                ),
            ((*final(self) == *old(self) && final(corrected_map).entries@ == old(corrected_map).entries@ && final(poa_map).entries@ == old(poa_map).entries@
                && spec_retained_exists(
                *old(self),
                *reads_by_id,
                *buckets,
                params.n,
                params.dist_threshold.0 as int,
                params.dist_threshold.1 as int,
            )) || (
            final(self).corrected && final(self).wf(params.l) && final(self).id@ == old(self).id@
                && final(self).minimizers@.len() == final(self).transformed@.len() && final(poa_map).entries@.len() == old(poa_map).entries@.len() + 1 && final(poa_map).entries@.last().0@ == old(self).id@ && (forall|t: int|
                0 <= t < old(poa_map).entries@.len() ==> #[trigger] final(poa_map).entries@[t]
                    == old(poa_map).entries@[t])
                && (exists|ctoks: Seq<u64>, cedges: Seq<Vec<u8>>|
                #[trigger] spec_corrected_content(
                    *final(self),
                    old(self).transformed@,
                    *int_to_minimizer,
                    ctoks,
                    cedges,
                ))
                && (exists|slots: Seq<int>|
                #[trigger] spec_ranked_provenance(
                    final(poa_map).entries@.last().1@,
                    slots,
                    *old(self),
                    *reads_by_id,
                    *buckets,
                    params.n,
                    params.dist_threshold.0 as int,
                    params.dist_threshold.1 as int,
                ) && ({
                    let labs = spec_slot_labels(
                        slots,
                        *reads_by_id,
                        params.correction_threshold as int,
                    );
                    &&& final(corrected_map).entries@.len() == old(corrected_map).entries@.len()
                        + labs.len()
                    &&& forall|t: int|
                        0 <= t < labs.len() ==> (#[trigger] final(corrected_map).entries@[old(
                            corrected_map,
                        ).entries@.len() + t]).0@ == labs[t]
                })))),
            !spec_retained_exists(
                *old(self),
                *reads_by_id,
                *buckets,
                params.n,
                params.dist_threshold.0 as int,
                params.dist_threshold.1 as int,
            ) ==> final(self).corrected && final(self).transformed@ == old(self).transformed@
                && final(corrected_map).entries@ == old(corrected_map).entries@,
    {
        let l = params.l;
        let n = params.n;
        // distances, retention, ranking
        proof {
            assert forall|t: int|
                0 <= t < cand_ids@.len() implies table::spec_read_lookup(
                reads_by_id.reads@,
                (#[trigger] cand_ids@[t])@,
            ) is Some by {
                let i2 = choose|i2: int|
                    0 <= i2 < old(self).transformed@.len() - n + 1 && buckets.spec_has_pair(
                        kmer::spec_canon(
                            #[trigger] old(self).transformed@.subrange(i2, i2 + n),
                        ).0,
                        cand_ids@[t]@,
                    );
            }
        }
        let cands = candidate_distances(self, &cand_ids, reads_by_id);
        proof {
            // every candidate entry that is below the threshold witnesses a
            // retained neighbor
            assert forall|t: int|
                0 <= t < cands@.len() implies spec_cand_entry(#[trigger] cands@[t], *old(self), *reads_by_id)
                    && reads_by_id.reads@[cands@[t].0 as int].id@ != old(self).id@
                    && (exists|i2: int|
                    0 <= i2 < old(self).transformed@.len() - n + 1 && buckets.spec_has_pair(
                        kmer::spec_canon(
                            #[trigger] old(self).transformed@.subrange(i2, i2 + n),
                        ).0,
                        reads_by_id.reads@[cands@[t].0 as int].id@,
                    )) by {
                assert(reads_by_id.reads@[cands@[t].0 as int].id@ == cand_ids@[t]@);
            }
        }
        let tn = params.dist_threshold.0;
        let td = params.dist_threshold.1;
        let ranked = dist::filter_rank(&cands, tn, td);
        proof {
            lemma_ranked_retained(
                *old(self),
                *reads_by_id,
                *buckets,
                n,
                tn as int,
                td as int,
                cand_ids@,
                cands@,
                ranked@,
            );
        }
        // seed the engine with the template
        let scoring = Scoring::new(-1, -1, 1, -1);
        let mut aligner = Aligner::new(
            scoring,
            align::subvec_u64(&self.transformed, 0, self.transformed.len()),
            align::subvec(&self.seq, 0, self.seq.len()),
            align::subvec_usize(&self.minimizers_pos, 0, self.minimizers_pos.len()),
            l,
        );
        // align each retained neighbor both ways, in ascending distance
        // order, and commit the better orientation
        let mut poa_ids: Vec<String> = Vec::new();
        let mut nb_aln_forward: usize = 0;
        let mut nb_aln_backward: usize = 0;
        let mut t: usize = 0;
        while t < ranked.len()
            invariant
                t <= ranked@.len(),
                nb_aln_forward <= t,
                nb_aln_backward <= t,
                poa_ids@.len() == t,
                forall|t2: int|
                    0 <= t2 < t ==> (#[trigger] poa_ids@[t2])@ == reads_by_id.reads@[ranked@[t2].0 as int].id@,
                aligner.committed@.len() <= t,
                aligner.wf(),
                aligner.l == l,
                aligner.tokens@ == old(self).transformed@,
                aligner.seq@ == old(self).seq@,
                aligner.pos@ == old(self).minimizers_pos@,
                forall|c: int, q: int|
                    #![trigger aligner.committed@[c].tokens@[q]]
                    0 <= c < aligner.committed@.len() && 0 <= q
                        < aligner.committed@[c].tokens@.len() ==> text_ok(
                        *int_to_minimizer,
                        aligner.committed@[c].tokens@[q],
                        l,
                    ),
            decreases ranked@.len() - t,
        {
            let ix = ranked[t].0;
            let read = &reads_by_id.reads[ix];
            poa_ids.push(read.id.clone());
            aligner.semiglobal(&read.transformed, &read.seq, &read.minimizers_pos);
            let fwd_score = aligner.alignment_score();
            let rev_tokens = kmer::reverse_tokens(&read.transformed);
            let rev_seq = kmer::revcomp(&read.seq);
            let rev_pos = reflect_positions(&read.minimizers_pos, read.seq.len(), l);
            aligner.semiglobal(&rev_tokens, &rev_seq, &rev_pos);
            let bwd_score = aligner.alignment_score();
            let best = if fwd_score > bwd_score {
                fwd_score
            } else {
                bwd_score
            };
            if best >= POA_GLOBAL_MIN_SCORE {
                let ghost committed_before = aligner.committed@;
                if fwd_score > bwd_score {
                    aligner.semiglobal(&read.transformed, &read.seq, &read.minimizers_pos);
                    nb_aln_forward += 1;
                } else {
                    aligner.semiglobal(&rev_tokens, &rev_seq, &rev_pos);
                    nb_aln_backward += 1;
                }
                aligner.add_to_graph();
                proof {
                    assert forall|c: int, q: int|
                        #![trigger aligner.committed@[c].tokens@[q]]
                        0 <= c < aligner.committed@.len() && 0 <= q
                            < aligner.committed@[c].tokens@.len() implies text_ok(
                        *int_to_minimizer,
                        aligner.committed@[c].tokens@[q],
                        l,
                    ) by {
                        if c < committed_before.len() {
                            assert(aligner.committed@[c] == committed_before[c]);
                            assert(text_ok(*int_to_minimizer, committed_before[c].tokens@[q], l));
                        } else {
                            let row = aligner.committed@[c];
                            assert(row.tokens@ == read.transformed@ || row.tokens@
                                == read.transformed@.reverse());
                            if row.tokens@ == read.transformed@.reverse() {
                                assert(row.tokens@[q] == read.transformed@[read.transformed@.len()
                                    - 1 - q]);
                            }
                            assert(text_ok(*int_to_minimizer, row.tokens@[q], l));
                        }
                    }
                }
            }
            t += 1;
        }
        // consensus and boundary reconciliation
        let cons_pair = aligner.consensus();
        let pre_tokens = cons_pair.0;
        let pre_edges = cons_pair.1;
        let bd = aligner.consensus_boundary(&pre_tokens, &pre_edges, &self.transformed);
        let consensus = bd.0;
        let consensus_edge_seqs = bd.1;
        if consensus.len() == 0 {
            proof {
                if ranked@.len() == 0 {
                    // with nothing committed, the consensus is the template
                    // itself and reconciliation keeps it whole: the empty
                    // outcome is impossible
                    assert(aligner.committed@.len() == 0);
                    assert(pre_tokens@ == old(self).transformed@);
                    let m0 = pre_tokens@.len() as int;
                    let t0 = self.transformed@[0];
                    let tl = self.transformed@[self.transformed@.len() - 1];
                    assert(pre_tokens@[0] == t0);
                    assert(pre_tokens@[m0 - 1] == tl);
                    assert(exists|s2: int, e2: int|
                        #![trigger pre_tokens@[s2], pre_tokens@[e2]]
                        0 <= s2 <= e2 < pre_tokens@.len() && pre_tokens@[s2] == t0
                            && pre_tokens@[e2] == tl);
                    assert(false);
                }
                assert(retained_slot_ok(
                    ranked@[0],
                    *old(self),
                    *reads_by_id,
                    *buckets,
                    n,
                    tn as int,
                    td as int,
                ));
                assert(spec_retained_exists(
                    *old(self),
                    *reads_by_id,
                    *buckets,
                    n,
                    tn as int,
                    td as int,
                ));
            }
            return;
        }
        let ghost bnd = choose|s2: int, e2: int|
            #![trigger pre_tokens@[s2], pre_tokens@[e2]]
            {
                &&& 0 <= s2 <= e2 < pre_tokens@.len()
                &&& pre_tokens@[s2] == self.transformed@[0]
                &&& pre_tokens@[e2] == self.transformed@[self.transformed@.len() - 1]
                &&& (forall|u: int| 0 <= u < s2 ==> pre_tokens@[u] != self.transformed@[0])
                &&& (forall|u: int|
                    e2 < u < pre_tokens@.len() ==> pre_tokens@[u]
                        != self.transformed@[self.transformed@.len() - 1])
                &&& consensus@ == pre_tokens@.subrange(s2, e2 + 1)
                &&& consensus_edge_seqs@.len() == e2 - s2
                &&& align::edges_match(consensus_edge_seqs@, pre_edges@, s2)
            };
        proof {
            let s2 = bnd.0;
            let e2 = bnd.1;
            assert forall|t2: int| 0 <= t2 < consensus@.len() implies text_ok(
                *int_to_minimizer,
                #[trigger] consensus@[t2],
                l,
            ) by {
                assert(consensus@[t2] == pre_tokens@[s2 + t2]);
                assert(aligner.token_from(pre_tokens@[s2 + t2], s2 + t2));
            }
            assert forall|t2: int|
                0 <= t2 < consensus_edge_seqs@.len() implies 1 <= (
            #[trigger] consensus_edge_seqs@[t2])@.len() <= MAX_SEQ by {
                assert(consensus_edge_seqs@[t2]@ == pre_edges@[s2 + t2]@);
            }
            assert(consensus@.len() <= MAX_TOKENS);
            assert(consensus@[0] == self.transformed@[0]);
            assert(consensus@[consensus@.len() - 1] == self.transformed@[self.transformed@.len()
                - 1]);
        }
        // rebuild the corrected content from the reconciled consensus
        let rebuilt = assemble_consensus(&consensus, &consensus_edge_seqs, int_to_minimizer, l);
        let consensus_str = rebuilt.0;
        let consensus_read = rebuilt.1;
        let consensus_pos = rebuilt.2;
        // out-of-band propagation under the budget
        propagate(
            &ranked,
            reads_by_id,
            params.correction_threshold,
            &consensus_str,
            &consensus_read,
            &consensus_pos,
            &consensus,
            corrected_map,
        );
        // provenance, then overwrite the template in place
        let ghost ctoks_g = consensus@;
        let ghost cedges_g = consensus_edge_seqs@;
        let ghost ids_g = poa_ids@;
        let ghost slots_g = Seq::new(ranked@.len() as nat, |t: int| ranked@[t].0 as int);
        poa_map.insert(self.id.clone(), poa_ids);
        self.seq = consensus_str;
        self.minimizers = consensus_read;
        self.minimizers_pos = consensus_pos;
        self.transformed = consensus;
        self.corrected = true;
        proof {
            assert(poa_map.entries@.last().1@ == ids_g);
            lemma_corrected_content_ok(
                *self,
                old(self).transformed@,
                *int_to_minimizer,
                ctoks_g,
                cedges_g,
            );
            lemma_ranked_provenance_ok(
                *old(self),
                *reads_by_id,
                *buckets,
                n,
                tn as int,
                td as int,
                cand_ids@,
                cands@,
                ranked@,
                ids_g,
                slots_g,
            );
            assert(slots_g =~= Seq::new(ranked@.len() as nat, |t: int| ranked@[t].0 as int));
            if !spec_retained_exists(
                *old(self),
                *reads_by_id,
                *buckets,
                n,
                tn as int,
                td as int,
            ) {
                // every below-threshold candidate would witness a retained
                // neighbor, so none is: nothing was ranked, the consensus
                // was the template, and reconciliation kept it whole
                assert forall|t2: int|
                    0 <= t2 < cands@.len() implies !dist::spec_below(
                    #[trigger] cands@[t2],
                    tn as int,
                    td as int,
                ) by {
                    if dist::spec_below(cands@[t2], tn as int, td as int) {
                        assert(spec_cand_entry(cands@[t2], *old(self), *reads_by_id));
                        assert(spec_retained_exists(
                            *old(self),
                            *reads_by_id,
                            *buckets,
                            n,
                            tn as int,
                            td as int,
                        ));
                    }
                }
                dist::lemma_count_below_zero(cands@, tn as int, td as int);
                assert(ranked@.len() == 0);
                assert(aligner.committed@.len() == 0);
                assert(pre_tokens@ == old(self).transformed@);
                let s2 = bnd.0;
                let e2 = bnd.1;
                assert(s2 == 0);
                assert(e2 == pre_tokens@.len() - 1);
                assert(ctoks_g =~= old(self).transformed@);
                assert(slots_g.len() == 0);
                assert(spec_slot_labels(slots_g, *reads_by_id, params.correction_threshold as int)
                    =~= Seq::<Seq<char>>::empty());
                assert(corrected_map.entries@ =~= old(corrected_map).entries@);
            }
        }
    }

    /// Correct this read by consensus over its recruited neighbors.
    ///
    /// Recruit candidates from the frozen neighbor index (a missing key is
    /// a fatal index-contract violation), retain and rank them by
    /// distance, align each retained neighbor in both orientations and
    /// commit the better one, extract and reconcile the consensus, and on
    /// a non-empty result overwrite this read in place and label up to
    /// `correction_threshold` previously-uncorrected neighbors through the
    /// out-of-band result map. An empty reconciled consensus aborts the
    /// correction for this template alone.
    #[verifier::loop_isolation(false)]
    #[verifier::rlimit(100)]
    #[verifier::spinoff_prover]
    pub fn poa_correct(
        &mut self,
        int_to_minimizer: &VocabInv,
        poa_map: &mut PoaMap,
        buckets: &Buckets,
        params: &Params,
        corrected_map: &mut CorrMap,
        reads_by_id: &ReadTable,
    ) -> (res: Result<(), CorrError>)
        requires
            old(self).wf(params.l),
            read_sized(*old(self)),
            1 <= params.n <= old(self).transformed@.len(),
            params.l >= 1,
            table_wf(*reads_by_id, params.l),
            vocab_covers(*int_to_minimizer, *old(self), *reads_by_id, params.l),
            forall|key: Seq<u64>, id: Seq<char>| #[trigger] buckets.spec_has_pair(key, id)
                ==> table::spec_read_lookup(reads_by_id.reads@, id) is Some,
        ensures
            res is Err ==> res == Err::<(), CorrError>(CorrError::IndexContractViolation)
                && some_key_missing(
                *buckets,
                old(self).transformed@,
                params.n,
                old(self).transformed@.len() - params.n + 1,
            ) && *final(self) == *old(self) && final(corrected_map).entries@ == old(corrected_map).entries@ && final(poa_map).entries@ == old(poa_map).entries@,
            res is Ok ==> !some_key_missing(
                *buckets,
                old(self).transformed@,
                params.n,
                old(self).transformed@.len() - params.n + 1,
            ),
            // propagation budget: in every outcome the result map keeps
            // what it had and gains at most the budget
            old(corrected_map).entries@.len() <= final(corrected_map).entries@.len() <= old(
                corrected_map,
            ).entries@.len() + params.correction_threshold,
            forall|t: int|
                0 <= t < old(corrected_map).entries@.len() ==> #[trigger] final(corrected_map).entries@[t] == old(corrected_map).entries@[t],
            forall|t: int|
                old(corrected_map).entries@.len() <= t < final(corrected_map).entries@.len()
                    ==> labeled_for_uncorrected(
                    *reads_by_id,
                    #[trigger] final(corrected_map).entries@[t],
                ),
            // every new result-map entry carries exactly the corrected
            // read's own record
            forall|t: int|
                old(corrected_map).entries@.len() <= t < final(corrected_map).entries@.len()
                    ==> entry_is_record(
                    #[trigger] final(corrected_map).entries@[t],
                    final(self).seq@,
                    final(self).minimizers@,
                    final(self).minimizers_pos@,
                    final(self).transformed@,
                ),
            // the unchanged outcome is the empty-reconciliation abort; it
            // can only happen when some neighbor was actually retained
            res is Ok ==> ((*final(self) == *old(self) && final(corrected_map).entries@ == old(corrected_map).entries@ && final(poa_map).entries@ == old(poa_map).entries@
                && spec_retained_exists(
                *old(self),
                *reads_by_id,
                *buckets,
                params.n,
                params.dist_threshold.0 as int,
                params.dist_threshold.1 as int,
            )) || (
            final(self).corrected && final(self).wf(params.l) && final(self).id@ == old(self).id@
                && final(self).minimizers@.len() == final(self).transformed@.len() && final(poa_map).entries@.len() == old(poa_map).entries@.len() + 1 && final(poa_map).entries@.last().0@ == old(self).id@ && (forall|t: int|
                0 <= t < old(poa_map).entries@.len() ==> #[trigger] final(poa_map).entries@[t]
                    == old(poa_map).entries@[t])
                && (exists|ctoks: Seq<u64>, cedges: Seq<Vec<u8>>|
                #[trigger] spec_corrected_content(
                    *final(self),
                    old(self).transformed@,
                    *int_to_minimizer,
                    ctoks,
                    cedges,
                ))
                && (exists|slots: Seq<int>|
                #[trigger] spec_ranked_provenance(
                    final(poa_map).entries@.last().1@,
                    slots,
                    *old(self),
                    *reads_by_id,
                    *buckets,
                    params.n,
                    params.dist_threshold.0 as int,
                    params.dist_threshold.1 as int,
                ) && ({
                    let labs = spec_slot_labels(
                        slots,
                        *reads_by_id,
                        params.correction_threshold as int,
                    );
                    &&& final(corrected_map).entries@.len() == old(corrected_map).entries@.len()
                        + labs.len()
                    &&& forall|t: int|
                        0 <= t < labs.len() ==> (#[trigger] final(corrected_map).entries@[old(
                            corrected_map,
                        ).entries@.len() + t]).0@ == labs[t]
                })))),
            // with no retained neighbor, the template-only consensus
            // survives reconciliation: the read is corrected and its
            // tokens stay its own
            res is Ok && !spec_retained_exists(
                *old(self),
                *reads_by_id,
                *buckets,
                params.n,
                params.dist_threshold.0 as int,
                params.dist_threshold.1 as int,
            ) ==> final(self).corrected && final(self).transformed@ == old(self).transformed@
                && final(corrected_map).entries@ == old(corrected_map).entries@,
    {
        let n = params.n;
        // recruit candidate neighbors; a missing key is fatal
        let cand_ids = match self.recruit_neighbors(buckets, n) {
            Ok(ids) => ids,
            Err(e) => {
                return Err(e);
            },
        };
        self.correct_retained(
            int_to_minimizer,
            poa_map,
            buckets,
            params,
            corrected_map,
            reads_by_id,
            cand_ids,
        );
        Ok(())
    }
}

/// Bucket completeness: when the index was built over the full table, two
/// distinct reads sharing an n-token window in either orientation each
/// appear among the candidates that consultation returns for the other.
pub proof fn lemma_bucket_completeness(
    b: Buckets,
    tbl: ReadTable,
    a: int,
    c: int,
    i: int,
    j: int,
    n: usize,
    out: Seq<String>,
)
    requires
        // the index registers every window of every table read
        forall|u2: int, i2: int|
            #![trigger tbl.reads@[u2].transformed@.subrange(i2, i2 + n)]
            0 <= u2 < tbl.reads@.len() && 0 <= i2 && i2 + n
                <= tbl.reads@[u2].transformed@.len() ==> table::window_registered(
                b,
                tbl.reads@[u2],
                i2,
                n,
            ),
        0 <= a < tbl.reads@.len(),
        0 <= c < tbl.reads@.len(),
        n >= 1,
        0 <= i,
        i + n <= tbl.reads@[a].transformed@.len(),
        0 <= j,
        j + n <= tbl.reads@[c].transformed@.len(),
        // the two reads share the window up to orientation
        kmer::spec_canon(tbl.reads@[a].transformed@.subrange(i, i + n)).0 == kmer::spec_canon(
            tbl.reads@[c].transformed@.subrange(j, j + n),
        ).0,
        tbl.reads@[c].id@ != tbl.reads@[a].id@,
        // `out` is what consultation returned for read `a`
        forall|id: Seq<char>, i2: int|
            0 <= i2 < tbl.reads@[a].transformed@.len() - n + 1 && #[trigger] b.spec_has_pair(
                kmer::spec_canon(tbl.reads@[a].transformed@.subrange(i2, i2 + n)).0,
                id,
            ) && id != tbl.reads@[a].id@ ==> contains_id(out, id),
    ensures
        contains_id(out, tbl.reads@[c].id@),
{
    assert(table::window_registered(b, tbl.reads@[c], j, n));
    let key = kmer::spec_canon(tbl.reads@[a].transformed@.subrange(i, i + n)).0;
    assert(b.spec_has_pair(key, tbl.reads@[c].id@));
}

} // verus!
