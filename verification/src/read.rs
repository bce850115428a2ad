//! The `Read` entity: a sequencing read together with its minimizer-space
//! representation.

use vstd::prelude::*;
use crate::hashes;
use crate::hpc;
use crate::kmer::{spec_canon, Kmer, REVCOMP_AWARE};
use crate::params::Params;
use crate::sketch;
use crate::vocab::{TokenSet, Vocab};

verus! {

/// One k-mer window of a read: the canonical window, the literal substring
/// it spans, the orientation flag, an origin tag, and the shift pair (gap
/// after the first and before the last minimizer, swapped under reversal).
pub type Repr = Vec<(Kmer, Vec<u8>, bool, String, (usize, usize))>;

/// How many windows of `l` consecutive bases a sequence of `len` bases has.
pub open spec fn spec_win_count(len: nat, l: usize) -> int {
    if l <= len {
        len - l + 1
    } else {
        0
    }
}

/// The contract shared by the three extraction strategies.
///
/// The sketched sequence is the input itself when it is already
/// homopolymer-compressed, else its compression; selected window offsets
/// are translated back to raw coordinates through the run-start list.
/// `set0` and `set1` are the shared token set before and after the call.
pub open spec fn spec_extraction(
    r: Read,
    id: Seq<char>,
    raw: Seq<u8>,
    p: Params,
    vb: Seq<(Vec<u8>, u64)>,
    filtered: bool,
    ncheck: bool,
    set0: Set<u64>,
    set1: Set<u64>,
) -> bool {
    let redirect = crate::params::spec_redirect(&p);
    &&& r.id@ == id
    &&& r.seq@ == raw
    &&& r.minimizers@.len() == 0
    &&& r.corrected == false
    &&& if p.use_hpc {
        let s = sketch::spec_sketch(
            raw,
            p.l,
            p.density,
            redirect,
            vb,
            filtered,
            ncheck,
            set0,
            spec_win_count(raw.len(), p.l),
        );
        &&& r.minimizers_pos@ == s.0
        &&& r.transformed@ == s.1
        &&& set1 == s.2
    } else {
        exists|comp: Seq<u8>, cpos: Seq<usize>|
            {
                &&& #[trigger] hpc::hpc_encodes(raw, comp, cpos)
                &&& {
                    let s = sketch::spec_sketch(
                        comp,
                        p.l,
                        p.density,
                        redirect,
                        vb,
                        filtered,
                        ncheck,
                        set0,
                        spec_win_count(comp.len(), p.l),
                    );
                    &&& r.transformed@ == s.1
                    &&& r.minimizers_pos@.len() == s.0.len()
                    &&& forall|t: int|
                        0 <= t < s.0.len() ==> r.minimizers_pos@[t] == cpos[#[trigger] s.0[t] as int]
                    &&& set1 == s.2
                }
            }
    }
}

/// One assembled k-mer window entry: canonical window and orientation at
/// offset `i`, the literal substring from the first minimizer's start to
/// the last minimizer's end, and the shift pair in canonical direction.
pub open spec fn spec_kmer_entry(
    tokens: Seq<u64>,
    pos: Seq<usize>,
    seq: Seq<u8>,
    l: usize,
    k: usize,
    e: (Kmer, Vec<u8>, bool, String, (usize, usize)),
    i: int,
) -> bool {
    let w = tokens.subrange(i, i + k);
    &&& e.0.tokens@ == spec_canon(w).0
    &&& e.2 == spec_canon(w).1
    &&& e.1@ == seq.subrange(pos[i] as int, pos[i + k - 1] + l)
    &&& e.3@ == "*"@
    &&& e.4.0 as int == (if e.2 {
        pos[i + k - 1] - pos[i + k - 2]
    } else {
        pos[i + 1] - pos[i]
    })
    &&& e.4.1 as int == (if e.2 {
        pos[i + 1] - pos[i]
    } else {
        pos[i + k - 1] - pos[i + k - 2]
    })
}

/// Density bounds of the plain density strategy on an already-compressed
/// input without vocabulary redirection: density one selects every valid
/// window, density zero selects none.
pub proof fn lemma_density_bounds(r: Read, id: Seq<char>, raw: Seq<u8>, p: Params, vb: Seq<(Vec<u8>, u64)>)
    requires
        spec_extraction(r, id, raw, p, vb, false, false, Set::<u64>::empty(), Set::<u64>::empty()),
        p.use_hpc,
        p.l >= 1,
        !crate::params::spec_redirect(&p),
        raw.len() <= usize::MAX,
    ensures
        p.density == crate::params::DENSITY_ONE ==> r.minimizers_pos@.len() == spec_win_count(
            raw.len(),
            p.l,
        ) && (forall|t: int| 0 <= t < r.minimizers_pos@.len() ==> #[trigger] r.minimizers_pos@[t] == t),
        p.density == crate::params::DENSITY_NONE ==> r.minimizers_pos@.len() == 0,
{
    if p.density == crate::params::DENSITY_ONE {
        sketch::lemma_density_one_selects_all(
            raw,
            p.l,
            vb,
            Set::<u64>::empty(),
            spec_win_count(raw.len(), p.l),
        );
    }
    if p.density == crate::params::DENSITY_NONE {
        sketch::lemma_density_zero_selects_none(
            raw,
            p.l,
            false,
            vb,
            false,
            false,
            Set::<u64>::empty(),
            spec_win_count(raw.len(), p.l),
        );
    }
}

/// Map each selected compressed-coordinate offset back to its raw offset.
fn translate_positions(cpositions: &Vec<usize>, posmap: &Vec<usize>) -> (r: Vec<usize>)
    requires
        forall|t: int| 0 <= t < cpositions@.len() ==> #[trigger] cpositions@[t] < posmap@.len(),
    ensures
        r@.len() == cpositions@.len(),
        forall|t: int| 0 <= t < r@.len() ==> r@[t] == posmap@[#[trigger] cpositions@[t] as int],
{
    let n = cpositions.len();
    let mut out: Vec<usize> = Vec::new();
    let mut i: usize = 0;
    while i < n
        invariant
            n == cpositions@.len(),
            i <= n,
            out@.len() == i,
            forall|t: int| 0 <= t < cpositions@.len() ==> #[trigger] cpositions@[t] < posmap@.len(),
            forall|t: int| 0 <= t < i ==> out@[t] == posmap@[#[trigger] cpositions@[t] as int],
        decreases n - i,
    {
        out.push(posmap[cpositions[i]]);
        i += 1;
    }
    out
}

/// A sequencing read and its sparse minimizer-space representation.
///
/// `minimizers_pos` holds the offset in `seq` of each selected minimizer,
/// `transformed` the 64-bit token id of each; both run in the same order.
pub struct Read {
    /// Unique identifier.
    pub id: String,
    /// Literal text of each selected minimizer (filled by correction).
    pub minimizers: Vec<Vec<u8>>,
    /// Start offset in `seq` of each selected minimizer, strictly increasing.
    pub minimizers_pos: Vec<usize>,
    /// Token id of each selected minimizer.
    pub transformed: Vec<u64>,
    /// Nucleotide sequence.
    pub seq: Vec<u8>,
    /// Whether this read has been overwritten by its own consensus.
    pub corrected: bool,
}

/// One candidate minimizer: a window offset and its hash.
pub struct Lmer {
    /// Window start offset.
    pub pos: usize,
    /// Window hash.
    pub hash: u64,
}

impl Read {
    /// Well-formedness for minimizer length `l`: positions and token ids run
    /// in lockstep, positions strictly increase, and every minimizer window
    /// of `l` bases lies inside the sequence.
    pub open spec fn wf(&self, l: usize) -> bool {
        &&& self.minimizers_pos@.len() == self.transformed@.len()
        &&& forall|i: int|
            0 <= i < self.minimizers_pos@.len() - 1
                ==> #[trigger] self.minimizers_pos@[i] < self.minimizers_pos@[i + 1]
        &&& forall|i: int|
            0 <= i < self.minimizers_pos@.len()
                ==> #[trigger] self.minimizers_pos@[i] + l <= self.seq@.len()
    }

    /// Extract a read with the strategy the configuration selects:
    /// universe-hitting-set, longest-common-prefix, or plain density.
    pub fn extract(
        inp_id: &str,
        inp_seq: Vec<u8>,
        params: &Params,
        minimizer_to_int: &Vocab,
        uhs_bloom: &mut TokenSet,
        lcp_bloom: &mut TokenSet,
    ) -> (r: Read)
        requires
            params.l >= 1,
            hashes::all_nt_bases(inp_seq@),
        ensures
            r.wf(params.l),
            params.uhs ==> spec_extraction(
                r,
                inp_id@,
                inp_seq@,
                *params,
                minimizer_to_int.pairs@,
                true,
                false,
                old(uhs_bloom)@,
                final(uhs_bloom)@,
            ) && final(lcp_bloom)@ == old(lcp_bloom)@,
            !params.uhs && params.lcp ==> spec_extraction(
                r,
                inp_id@,
                inp_seq@,
                *params,
                minimizer_to_int.pairs@,
                true,
                true,
                old(lcp_bloom)@,
                final(lcp_bloom)@,
            ) && final(uhs_bloom)@ == old(uhs_bloom)@,
            !params.uhs && !params.lcp ==> spec_extraction(
                r,
                inp_id@,
                inp_seq@,
                *params,
                minimizer_to_int.pairs@,
                false,
                false,
                Set::<u64>::empty(),
                Set::<u64>::empty(),
            ) && final(uhs_bloom)@ == old(uhs_bloom)@ && final(lcp_bloom)@ == old(lcp_bloom)@,
    {
        if params.uhs {
            Read::extract_uhs(inp_id, inp_seq, params, minimizer_to_int, uhs_bloom)
        } else if params.lcp {
            Read::extract_lcp(inp_id, inp_seq, params, minimizer_to_int, lcp_bloom)
        } else {
            Read::extract_density(inp_id, inp_seq, params, minimizer_to_int)
        }
    }

    /// Extract with the longest-common-prefix strategy: candidates passing
    /// the density prefilter are dropped when their window holds an
    /// ambiguous base, and otherwise kept on first occurrence in
    /// `lcp_bloom`.
    pub fn extract_lcp(
        inp_id: &str,
        inp_seq_raw: Vec<u8>,
        params: &Params,
        minimizer_to_int: &Vocab,
        lcp_bloom: &mut TokenSet,
    ) -> (r: Read)
        requires
            params.l >= 1,
            hashes::all_nt_bases(inp_seq_raw@),
        ensures
            r.wf(params.l),
            spec_extraction(
                r,
                inp_id@,
                inp_seq_raw@,
                *params,
                minimizer_to_int.pairs@,
                true,
                true,
                old(lcp_bloom)@,
                final(lcp_bloom)@,
            ),
    {
        Read::extract_with(inp_id, inp_seq_raw, params, minimizer_to_int, lcp_bloom, true, true)
    }

    /// Extract with the universe-hitting-set strategy: candidates passing
    /// the density prefilter are kept on first occurrence in `uhs_bloom`.
    pub fn extract_uhs(
        inp_id: &str,
        inp_seq_raw: Vec<u8>,
        params: &Params,
        minimizer_to_int: &Vocab,
        uhs_bloom: &mut TokenSet,
    ) -> (r: Read)
        requires
            params.l >= 1,
            hashes::all_nt_bases(inp_seq_raw@),
        ensures
            r.wf(params.l),
            spec_extraction(
                r,
                inp_id@,
                inp_seq_raw@,
                *params,
                minimizer_to_int.pairs@,
                true,
                false,
                old(uhs_bloom)@,
                final(uhs_bloom)@,
            ),
    {
        Read::extract_with(inp_id, inp_seq_raw, params, minimizer_to_int, uhs_bloom, true, false)
    }

    /// Extract with the plain density strategy: every candidate passing the
    /// density prefilter is kept.
    pub fn extract_density(
        inp_id: &str,
        inp_seq_raw: Vec<u8>,
        params: &Params,
        minimizer_to_int: &Vocab,
    ) -> (r: Read)
        requires
            params.l >= 1,
            hashes::all_nt_bases(inp_seq_raw@),
        ensures
            r.wf(params.l),
            spec_extraction(
                r,
                inp_id@,
                inp_seq_raw@,
                *params,
                minimizer_to_int.pairs@,
                false,
                false,
                Set::<u64>::empty(),
                Set::<u64>::empty(),
            ),
    {
        let mut scratch = TokenSet::new();
        let r = Read::extract_with(
            inp_id,
            inp_seq_raw,
            params,
            minimizer_to_int,
            &mut scratch,
            false,
            false,
        );
        r
    }

    /// The shared extraction body: compress unless the input already is,
    /// sketch every window, and translate offsets back to raw coordinates.
    #[verifier::rlimit(60)]
    fn extract_with(
        inp_id: &str,
        inp_seq_raw: Vec<u8>,
        params: &Params,
        minimizer_to_int: &Vocab,
        set: &mut TokenSet,
        filtered: bool,
        ncheck: bool,
    ) -> (r: Read)
        requires
            params.l >= 1,
            hashes::all_nt_bases(inp_seq_raw@),
        ensures
            r.wf(params.l),
            spec_extraction(
                r,
                inp_id@,
                inp_seq_raw@,
                *params,
                minimizer_to_int.pairs@,
                filtered,
                ncheck,
                old(set)@,
                final(set)@,
            ),
            !filtered ==> final(set)@ == old(set)@,
    {
        let l = params.l;
        let redirect = params.error_correct || params.has_lmer_counts;
        let raw_len = inp_seq_raw.len();
        proof {
            assert(inp_seq_raw@.len() == raw_len);
        }
        if params.use_hpc {
            let (positions, tokens) = sketch::sketch_windows(
                &inp_seq_raw,
                l,
                params.density,
                redirect,
                minimizer_to_int,
                set,
                filtered,
                ncheck,
            );
            proof {
                sketch::lemma_sketch_wf(
                    inp_seq_raw@,
                    l,
                    params.density,
                    redirect,
                    minimizer_to_int.pairs@,
                    filtered,
                    ncheck,
                    old(set)@,
                    spec_win_count(inp_seq_raw@.len(), l),
                );
            }
            Read {
                id: inp_id.to_owned(),
                minimizers: Vec::new(),
                minimizers_pos: positions,
                transformed: tokens,
                seq: inp_seq_raw,
                corrected: false,
            }
        } else {
            let tup = Read::encode_rle(&inp_seq_raw);
            let comp = tup.0;
            let posmap = tup.1;
            let comp_len = comp.len();
            proof {
                assert(comp@.len() == comp_len);
                assert forall|i: int| 0 <= i < comp@.len() implies hashes::is_nt_base(
                    #[trigger] comp@[i],
                ) by {
                    assert(comp@[i] == inp_seq_raw@[posmap@[i] as int]);
                }
            }
            let (cpositions, tokens) = sketch::sketch_windows(
                &comp,
                l,
                params.density,
                redirect,
                minimizer_to_int,
                set,
                filtered,
                ncheck,
            );
            proof {
                sketch::lemma_sketch_wf(
                    comp@,
                    l,
                    params.density,
                    redirect,
                    minimizer_to_int.pairs@,
                    filtered,
                    ncheck,
                    old(set)@,
                    spec_win_count(comp@.len(), l),
                );
            }
            let positions = translate_positions(&cpositions, &posmap);
            proof {
                assert forall|t: int| 0 <= t < positions@.len() - 1 implies
                    #[trigger] positions@[t] < positions@[t + 1] by {
                    hpc::lemma_sorted_between(
                        posmap@,
                        cpositions@[t] as int,
                        cpositions@[t + 1] as int,
                    );
                }
                assert forall|t: int| 0 <= t < positions@.len() implies
                    #[trigger] positions@[t] + l <= inp_seq_raw@.len() by {
                    hpc::lemma_hpc_window_fits(
                        inp_seq_raw@,
                        comp@,
                        posmap@,
                        cpositions@[t] as int,
                        l,
                    );
                }
            }
            let r = Read {
                id: inp_id.to_owned(),
                minimizers: Vec::new(),
                minimizers_pos: positions,
                transformed: tokens,
                seq: inp_seq_raw,
                corrected: false,
            };
            proof {
                assert(hpc::hpc_encodes(r.seq@, comp@, posmap@));
            }
            r
        }
    }

    /// Assemble every window of k consecutive tokens into a canonical
    /// k-mer entry. A read must carry at least k tokens; m tokens yield
    /// exactly m-k+1 windows.
    pub fn read_to_kmers(&self, params: &Params) -> (output: Repr)
        requires
            params.k >= 2,
            self.wf(params.l),
            self.transformed@.len() >= params.k,
        ensures
            output@.len() == self.transformed@.len() - params.k + 1,
            forall|i: int|
                0 <= i < output@.len() ==> spec_kmer_entry(
                    self.transformed@,
                    self.minimizers_pos@,
                    self.seq@,
                    params.l,
                    params.k,
                    #[trigger] output@[i],
                    i,
                ),
    {
        let k = params.k;
        let l = params.l;
        let m = self.transformed.len();
        let slen = self.seq.len();
        let wn = m - k + 1;
        let mut output: Repr = Vec::new();
        let mut i: usize = 0;
        while i < wn
            invariant
                k >= 2,
                m == self.transformed@.len(),
                m == self.minimizers_pos@.len(),
                slen == self.seq@.len(),
                self.wf(l),
                m >= k,
                wn == m - k + 1,
                i <= wn,
                output@.len() == i,
                forall|t: int|
                    0 <= t < i ==> spec_kmer_entry(
                        self.transformed@,
                        self.minimizers_pos@,
                        self.seq@,
                        l,
                        k,
                        #[trigger] output@[t],
                        t,
                    ),
            decreases wn - i,
        {
            let win_slice = vstd::slice::slice_subrange(self.transformed.as_slice(), i, i + k);
            let made = Kmer::make_from(win_slice);
            let mut node = made;
            let mut seq_reversed: bool = false;
            if REVCOMP_AWARE {
                let nr = node.normalize();
                node = nr.0;
                seq_reversed = nr.1;
            }
            proof {
                if i + 1 < i + k - 1 {
                    hpc::lemma_sorted_between(self.minimizers_pos@, i + 1, i + k - 1);
                }
                if i < i + k - 2 {
                    hpc::lemma_sorted_between(self.minimizers_pos@, i as int, i + k - 2);
                }
            }
            let a = self.minimizers_pos[i];
            let b = self.minimizers_pos[i + k - 1];
            let seq_part = vstd::slice::slice_to_vec(
                vstd::slice::slice_subrange(self.seq.as_slice(), a, b + l),
            );
            let origin = "*".to_owned();
            let p_second = self.minimizers_pos[i + 1];
            let p_second_last = self.minimizers_pos[i + k - 2];
            let shift_first: usize = if seq_reversed {
                b - p_second_last
            } else {
                p_second - a
            };
            let shift_last: usize = if seq_reversed {
                p_second - a
            } else {
                b - p_second_last
            };
            output.push((node, seq_part, seq_reversed, origin, (shift_first, shift_last)));
            i += 1;
        }
        output
    }

    /// Homopolymer-compress `inp_seq`: collapse each run of identical
    /// consecutive bases to its first character and record each run's start
    /// offset in the raw sequence.
    pub fn encode_rle(inp_seq: &Vec<u8>) -> (r: (Vec<u8>, Vec<usize>))
        ensures
            hpc::hpc_encodes(inp_seq@, r.0@, r.1@),
    {
        let n = inp_seq.len();
        let mut hpc_seq: Vec<u8> = Vec::new();
        let mut pos_vec: Vec<usize> = Vec::new();
        let mut i: usize = 0;
        while i < n
            invariant
                n == inp_seq@.len(),
                i <= n,
                hpc_seq@.len() == pos_vec@.len(),
                forall|t: int|
                    0 <= t < pos_vec@.len()
                        ==> pos_vec@[t] < i && hpc_seq@[t] == inp_seq@[#[trigger] pos_vec@[t] as int],
                forall|t: int| 0 <= t < pos_vec@.len() - 1 ==> #[trigger] pos_vec@[t] < pos_vec@[t + 1],
                forall|j: int|
                    0 <= j < i ==> (#[trigger] hpc::run_start(inp_seq@, j) <==> hpc::contains_index(
                        pos_vec@,
                        j,
                    )),
                i > 0 ==> pos_vec@.len() > 0,
                pos_vec@.len() > 0 ==> forall|j: int|
                    pos_vec@[pos_vec@.len() - 1] <= j < i
                        ==> #[trigger] inp_seq@[j] == inp_seq@[pos_vec@[pos_vec@.len() - 1] as int],
                forall|t: int, j: int|
                    #![trigger pos_vec@[t], inp_seq@[j]]
                    0 <= t < pos_vec@.len() - 1 && pos_vec@[t] <= j < pos_vec@[t + 1]
                        ==> inp_seq@[j] == inp_seq@[pos_vec@[t] as int],
            decreases n - i,
        {
            let c = inp_seq[i];
            let keep: bool = if i == 0 {
                true
            } else {
                !(c == inp_seq[i - 1] && hpc::base_collapsible(c))
            };
            if keep {
                let ghost old_pos = pos_vec@;
                hpc_seq.push(c);
                pos_vec.push(i);
                proof {
                    assert forall|j: int|
                        0 <= j < i + 1 implies (hpc::run_start(inp_seq@, j)
                            <==> hpc::contains_index(pos_vec@, j)) by {
                        if j < i {
                            if hpc::contains_index(old_pos, j) {
                                let u = choose|u: int| 0 <= u < old_pos.len() && old_pos[u] == j;
                                assert(pos_vec@[u] == j);
                            }
                            if hpc::contains_index(pos_vec@, j) {
                                let u = choose|u: int|
                                    0 <= u < pos_vec@.len() && pos_vec@[u] == j;
                                assert(u < old_pos.len());
                                assert(old_pos[u] == j);
                            }
                        } else {
                            assert(pos_vec@[pos_vec@.len() - 1] == i);
                        }
                    }
                }
            } else {
                proof {
                    assert(hpc::run_start(inp_seq@, 0) && 0 < i);
                    let last = pos_vec@[pos_vec@.len() - 1] as int;
                    assert(inp_seq@[i - 1] == inp_seq@[last]);
                    assert forall|j: int|
                        0 <= j < i + 1 implies (hpc::run_start(inp_seq@, j)
                            <==> hpc::contains_index(pos_vec@, j)) by {
                        if j == i {
                            assert(!hpc::run_start(inp_seq@, j));
                            if hpc::contains_index(pos_vec@, j) {
                                let u = choose|u: int|
                                    0 <= u < pos_vec@.len() && pos_vec@[u] == j;
                                assert(pos_vec@[u] < i);
                            }
                        }
                    }
                }
            }
            i += 1;
        }
        (hpc_seq, pos_vec)
    }
}

} // verus!
