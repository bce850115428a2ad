//! Window hashing through the ntHash rolling-hash crate.

use vstd::prelude::*;

verus! {

/// The canonical ntHash value of one window of bases: a function of the
/// window's bytes alone.
pub uninterp spec fn nt_hash_of(w: Seq<u8>) -> u64;

/// A base that the hash function accepts: upper-case A, C, G, T or N.
pub open spec fn is_nt_base(c: u8) -> bool {
    ||| c == 65u8  // 'A'
    ||| c == 67u8  // 'C'
    ||| c == 71u8  // 'G'
    ||| c == 84u8  // 'T'
    ||| c == 78u8  // 'N'
}

/// Every byte of `s` is a base the hash function accepts.
pub open spec fn all_nt_bases(s: Seq<u8>) -> bool {
    forall|i: int| 0 <= i < s.len() ==> is_nt_base(#[trigger] s[i])
}

/// Relies on nthash::nthash (nthash 0.5.1): one canonical hash per window of
/// `l` consecutive bases of `seq`, in window order; each hash is computed
/// from its window's bytes alone. The function panics on a byte outside
/// A/C/G/T/N and on an empty window; the preconditions exclude both.
#[verifier::external_body]
pub(crate) fn nthash_windows(seq: &Vec<u8>, l: usize) -> (r: Vec<u64>)
    requires
        1 <= l <= seq@.len(),
        all_nt_bases(seq@),
    ensures
        r@.len() == seq@.len() - l + 1,
        forall|i: int| 0 <= i < r@.len() ==> r@[i] == nt_hash_of(seq@.subrange(i, i + l)),
{
    nthash::nthash(seq, l)
}

} // verus!
