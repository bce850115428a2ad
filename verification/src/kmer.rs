//! Canonical k-mer windows over token ids, and strand utilities.
//!
//! A window of k consecutive token ids is canonicalized against its
//! reversal (the minimizer-space reverse complement): the lexicographically
//! smaller of the two is the canonical form, and the orientation flag
//! records whether reversal was applied.

use vstd::prelude::*;

verus! {

/// Strand-awareness switch: windows are canonicalized against their
/// reversal and the orientation is recorded.
pub const REVCOMP_AWARE: bool = true;

/// Lexicographic order on token sequences; a strict prefix comes first.
pub open spec fn lex_less(a: Seq<u64>, b: Seq<u64>) -> bool
    decreases a.len(),
{
    if a.len() == 0 {
        b.len() > 0
    } else if b.len() == 0 {
        false
    } else if a[0] < b[0] {
        true
    } else if a[0] > b[0] {
        false
    } else {
        lex_less(a.drop_first(), b.drop_first())
    }
}

/// On distinct sequences of one length, exactly one direction of the
/// lexicographic order holds.
pub proof fn lemma_lex_trichotomy(a: Seq<u64>, b: Seq<u64>)
    requires
        a.len() == b.len(),
        a != b,
    ensures
        lex_less(a, b) <==> !lex_less(b, a),
    decreases a.len(),
{
    if a.len() == 0 {
        assert(a =~= b);
    } else if a[0] == b[0] {
        if a.drop_first() == b.drop_first() {
            assert(a =~= b) by {
                assert forall|i: int| 0 <= i < a.len() implies a[i] == b[i] by {
                    if i > 0 {
                        assert(a[i] == a.drop_first()[i - 1]);
                        assert(b[i] == b.drop_first()[i - 1]);
                    }
                }
            }
        } else {
            lemma_lex_trichotomy(a.drop_first(), b.drop_first());
        }
    }
}

/// The canonical form of a window and its orientation flag: the
/// lexicographically smaller of the window and its reversal, with the flag
/// set when the reversal was taken.
pub open spec fn spec_canon(w: Seq<u64>) -> (Seq<u64>, bool) {
    if lex_less(w.reverse(), w) {
        (w.reverse(), true)
    } else {
        (w, false)
    }
}

/// Strand symmetry of canonicalization: a non-palindromic window and its
/// reversal share one canonical form, with opposite orientation flags.
pub proof fn lemma_canon_reverse(w: Seq<u64>)
    requires
        w != w.reverse(),
    ensures
        spec_canon(w.reverse()).0 == spec_canon(w).0,
        spec_canon(w.reverse()).1 == !spec_canon(w).1,
{
    assert(w.reverse().reverse() =~= w);
    lemma_lex_trichotomy(w.reverse(), w);
}

/// Strand symmetry of windowing: the window standing at the mirrored
/// offset of the reversed token stream is the reversal of the original
/// window, so both canonicalize to one form with opposite orientation
/// flags (non-palindromic windows).
pub proof fn lemma_strand_symmetry(tokens: Seq<u64>, k: usize, i: int)
    requires
        2 <= k <= tokens.len(),
        0 <= i <= tokens.len() - k,
        tokens.subrange(i, i + k) != tokens.subrange(i, i + k).reverse(),
    ensures
        ({
            let m = tokens.len() as int;
            let w = tokens.subrange(i, i + k);
            let rw = tokens.reverse().subrange(m - k - i, m - i);
            &&& rw == w.reverse()
            &&& spec_canon(rw).0 == spec_canon(w).0
            &&& spec_canon(rw).1 == !spec_canon(w).1
        }),
{
    let m = tokens.len() as int;
    let w = tokens.subrange(i, i + k);
    let rw = tokens.reverse().subrange(m - k - i, m - i);
    assert(rw =~= w.reverse());
    lemma_canon_reverse(w);
}

/// Reverse a token vector.
pub fn reverse_tokens(v: &Vec<u64>) -> (r: Vec<u64>)
    ensures
        r@ == v@.reverse(),
{
    let n = v.len();
    let mut out: Vec<u64> = Vec::new();
    let mut i: usize = 0;
    while i < n
        invariant
            n == v@.len(),
            i <= n,
            out@.len() == i,
            forall|j: int| 0 <= j < i ==> #[trigger] out@[j] == v@[n - 1 - j],
        decreases n - i,
    {
        out.push(v[n - 1 - i]);
        i += 1;
    }
    proof {
        assert(out@ =~= v@.reverse());
    }
    out
}

/// Decide the lexicographic order on token vectors.
pub fn seq_lex_less(a: &Vec<u64>, b: &Vec<u64>) -> (r: bool)
    ensures
        r == lex_less(a@, b@),
{
    let alen = a.len();
    let blen = b.len();
    let min = if alen < blen {
        alen
    } else {
        blen
    };
    let mut i: usize = 0;
    proof {
        assert(a@.skip(0) =~= a@);
        assert(b@.skip(0) =~= b@);
    }
    while i < min
        invariant
            alen == a@.len(),
            blen == b@.len(),
            min == if alen < blen {
                alen
            } else {
                blen
            },
            i <= min,
            lex_less(a@, b@) == lex_less(a@.skip(i as int), b@.skip(i as int)),
        decreases min - i,
    {
        proof {
            assert(a@.skip(i as int)[0] == a@[i as int]);
            assert(b@.skip(i as int)[0] == b@[i as int]);
            assert(a@.skip(i as int).drop_first() =~= a@.skip(i + 1));
            assert(b@.skip(i as int).drop_first() =~= b@.skip(i + 1));
        }
        if a[i] < b[i] {
            return true;
        }
        if a[i] > b[i] {
            return false;
        }
        i += 1;
    }
    proof {
        if alen < blen {
            assert(a@.skip(min as int).len() == 0);
            assert(b@.skip(min as int).len() > 0);
        } else {
            assert(b@.skip(min as int).len() == 0);
        }
    }
    alen < blen
}

/// An opaque window of k consecutive token ids.
pub struct Kmer {
    /// The window's token ids, in window order.
    pub tokens: Vec<u64>,
}

impl Kmer {
    /// Build a window from a token slice.
    pub fn make_from(t: &[u64]) -> (r: Kmer)
        ensures
            r.tokens@ == t@,
    {
        Kmer { tokens: vstd::slice::slice_to_vec(t) }
    }

    /// Canonicalize: return the lexicographically smaller of the window and
    /// its reversal, and whether reversal was applied.
    pub fn normalize(&self) -> (r: (Kmer, bool))
        ensures
            r.0.tokens@ == spec_canon(self.tokens@).0,
            r.1 == spec_canon(self.tokens@).1,
    {
        let rev = reverse_tokens(&self.tokens);
        if seq_lex_less(&rev, &self.tokens) {
            (Kmer { tokens: rev }, true)
        } else {
            (Kmer { tokens: vstd::slice::slice_to_vec(self.tokens.as_slice()) }, false)
        }
    }
}

/// Orientation-normalized form of a token window, used as the neighbor
/// index key: the lexicographically smaller of the window and its reversal.
pub fn normalize_vec(v: &Vec<u64>) -> (r: Vec<u64>)
    ensures
        r@ == spec_canon(v@).0,
{
    let rev = reverse_tokens(v);
    if seq_lex_less(&rev, v) {
        rev
    } else {
        vstd::slice::slice_to_vec(v.as_slice())
    }
}

/// The Watson-Crick complement of one base; other characters are kept.
pub open spec fn spec_complement(c: u8) -> u8 {
    if c == 65u8 {
        84u8  // A -> T
    } else if c == 84u8 {
        65u8  // T -> A
    } else if c == 67u8 {
        71u8  // C -> G
    } else if c == 71u8 {
        67u8  // G -> C
    } else {
        c
    }
}

/// The reverse complement of a nucleotide sequence.
pub open spec fn spec_revcomp(s: Seq<u8>) -> Seq<u8> {
    Seq::new(s.len(), |i: int| spec_complement(s[s.len() - 1 - i]))
}

/// Compute the reverse complement.
pub fn revcomp(s: &Vec<u8>) -> (r: Vec<u8>)
    ensures
        r@ == spec_revcomp(s@),
{
    let n = s.len();
    let mut out: Vec<u8> = Vec::new();
    let mut i: usize = 0;
    while i < n
        invariant
            n == s@.len(),
            i <= n,
            out@.len() == i,
            forall|j: int| 0 <= j < i ==> #[trigger] out@[j] == spec_complement(s@[n - 1 - j]),
        decreases n - i,
    {
        let c = s[n - 1 - i];
        let comp: u8 = if c == 65u8 {
            84u8
        } else if c == 84u8 {
            65u8
        } else if c == 67u8 {
            71u8
        } else if c == 71u8 {
            67u8
        } else {
            c
        };
        out.push(comp);
        i += 1;
    }
    proof {
        assert(out@ =~= spec_revcomp(s@));
    }
    out
}

} // verus!
