//! Threshold sketching: turn a (possibly homopolymer-compressed) sequence
//! into the ordered stream of minimizer positions and token ids that the
//! three extraction strategies select.
//!
//! All strategies share the density prefilter: a window is a candidate iff
//! its hash passes `spec_hash_passes`. The filtered strategies additionally
//! accept a candidate only on first occurrence in a shared token set; the
//! ambiguity check (windows holding an `N`) belongs to the
//! longest-common-prefix strategy alone.

use vstd::prelude::*;
use crate::hashes;
use crate::params;
use crate::vocab;
use crate::vocab::{TokenSet, Vocab};

verus! {

/// The window holds an ambiguous base (`N`).
pub open spec fn has_ambiguous(w: Seq<u8>) -> bool {
    exists|i: int| 0 <= i < w.len() && w[i] == 78u8
}

/// Decide `has_ambiguous`.
pub fn contains_ambiguous(w: &[u8]) -> (r: bool)
    ensures
        r == has_ambiguous(w@),
{
    let n = w.len();
    let mut i: usize = 0;
    while i < n
        invariant
            n == w@.len(),
            i <= n,
            forall|j: int| 0 <= j < i ==> w@[j] != 78u8,
        decreases n - i,
    {
        if w[i] == 78u8 {
            return true;
        }
        i += 1;
    }
    false
}

/// The token a candidate window yields: its hash, or under vocabulary
/// redirection the id registered for its literal text (`None` skips it).
pub open spec fn window_token(w: Seq<u8>, redirect: bool, vb: Seq<(Vec<u8>, u64)>) -> Option<u64> {
    if redirect {
        vocab::spec_lookup(vb, w)
    } else {
        Some(hashes::nt_hash_of(w))
    }
}

/// The selection state after considering the first `i` windows of `comp`:
/// chosen window offsets, chosen token ids, and the token-set contents.
/// `filtered` enables the first-occurrence set filter, `ncheck` the
/// ambiguity rejection; `set0` is the token set handed in.
pub open spec fn spec_sketch(
    comp: Seq<u8>,
    l: usize,
    density: u128,
    redirect: bool,
    vb: Seq<(Vec<u8>, u64)>,
    filtered: bool,
    ncheck: bool,
    set0: Set<u64>,
    i: int,
) -> (Seq<usize>, Seq<u64>, Set<u64>)
    decreases i,
{
    if i <= 0 {
        (Seq::empty(), Seq::empty(), set0)
    } else {
        let prev = spec_sketch(comp, l, density, redirect, vb, filtered, ncheck, set0, i - 1);
        let j = i - 1;
        let w = comp.subrange(j, j + l);
        let h = hashes::nt_hash_of(w);
        if !params::spec_hash_passes(h, density) {
            prev
        } else if ncheck && has_ambiguous(w) {
            prev
        } else {
            match window_token(w, redirect, vb) {
                Option::None => prev,
                Option::Some(tok) => if filtered {
                    if prev.2.contains(tok) {
                        prev
                    } else {
                        (prev.0.push(j as usize), prev.1.push(tok), prev.2.insert(tok))
                    }
                } else {
                    (prev.0.push(j as usize), prev.1.push(tok), prev.2)
                },
            }
        }
    }
}

/// Selected positions and tokens run in lockstep; positions lie below `i`
/// and strictly increase.
pub proof fn lemma_sketch_wf(
    comp: Seq<u8>,
    l: usize,
    density: u128,
    redirect: bool,
    vb: Seq<(Vec<u8>, u64)>,
    filtered: bool,
    ncheck: bool,
    set0: Set<u64>,
    i: int,
)
    requires
        i <= usize::MAX,
    ensures
        ({
            let s = spec_sketch(comp, l, density, redirect, vb, filtered, ncheck, set0, i);
            &&& s.0.len() == s.1.len()
            &&& forall|t: int| 0 <= t < s.0.len() ==> #[trigger] s.0[t] < i
            &&& forall|t: int| 0 <= t < s.0.len() - 1 ==> #[trigger] s.0[t] < s.0[t + 1]
            &&& (!filtered ==> s.2 == set0)
        }),
    decreases i,
{
    if i > 0 {
        lemma_sketch_wf(comp, l, density, redirect, vb, filtered, ncheck, set0, i - 1);
        let prev = spec_sketch(comp, l, density, redirect, vb, filtered, ncheck, set0, i - 1);
        let s = spec_sketch(comp, l, density, redirect, vb, filtered, ncheck, set0, i);
        assert(s.0 == prev.0 || s.0 == prev.0.push((i - 1) as usize));
        if s.0 != prev.0 {
            assert forall|t: int| 0 <= t < s.0.len() - 1 implies #[trigger] s.0[t] < s.0[t + 1] by {
                assert(s.0[t] == prev.0[t]);
                if t + 1 < prev.0.len() {
                    assert(s.0[t + 1] == prev.0[t + 1]);
                } else {
                    assert(s.0[t + 1] == (i - 1) as usize);
                }
            }
        }
    }
}

/// Density one selects every valid window: under the full density bound and
/// without redirection or filtering, the selection is exactly all window
/// offsets in order, each with its window's hash as token.
pub proof fn lemma_density_one_selects_all(
    comp: Seq<u8>,
    l: usize,
    vb: Seq<(Vec<u8>, u64)>,
    set0: Set<u64>,
    i: int,
)
    requires
        0 <= i <= usize::MAX,
    ensures
        ({
            let s = spec_sketch(comp, l, params::DENSITY_ONE, false, vb, false, false, set0, i);
            &&& s.0.len() == i
            &&& s.1.len() == i
            &&& forall|t: int| 0 <= t < i ==> #[trigger] s.0[t] == t
            &&& forall|t: int|
                0 <= t < i ==> #[trigger] s.1[t] == hashes::nt_hash_of(comp.subrange(t, t + l))
        }),
    decreases i,
{
    if i > 0 {
        lemma_density_one_selects_all(comp, l, vb, set0, i - 1);
        let h = hashes::nt_hash_of(comp.subrange(i - 1, i - 1 + l));
        assert(params::spec_hash_passes(h, params::DENSITY_ONE));
    }
}

/// Density zero selects no window, whatever the strategy flags.
pub proof fn lemma_density_zero_selects_none(
    comp: Seq<u8>,
    l: usize,
    redirect: bool,
    vb: Seq<(Vec<u8>, u64)>,
    filtered: bool,
    ncheck: bool,
    set0: Set<u64>,
    i: int,
)
    ensures
        ({
            let s = spec_sketch(comp, l, params::DENSITY_NONE, redirect, vb, filtered, ncheck, set0, i);
            &&& s.0.len() == 0
            &&& s.1.len() == 0
            &&& s.2 == set0
        }),
    decreases i,
{
    if i > 0 {
        lemma_density_zero_selects_none(comp, l, redirect, vb, filtered, ncheck, set0, i - 1);
    }
}

/// Run the shared selection loop over every window of `comp`; when
/// `filtered` is set, a candidate is accepted only when `set` newly admits
/// its token.
///
/// Returns window offsets in `comp` coordinates and token ids, exactly the
/// selection that `spec_sketch` describes over all windows.
pub fn sketch_windows(
    comp: &Vec<u8>,
    l: usize,
    density: u128,
    redirect: bool,
    vb: &Vocab,
    set: &mut TokenSet,
    filtered: bool,
    ncheck: bool,
) -> (r: (Vec<usize>, Vec<u64>))
    requires
        1 <= l,
        hashes::all_nt_bases(comp@),
    ensures
        ({
            let wn = if l <= comp@.len() {
                comp@.len() - l + 1
            } else {
                0
            };
            let s = spec_sketch(
                comp@,
                l,
                density,
                redirect,
                vb.pairs@,
                filtered,
                ncheck,
                old(set)@,
                wn as int,
            );
            &&& r.0@ == s.0
            &&& r.1@ == s.1
            &&& final(set)@ == (if filtered {
                s.2
            } else {
                old(set)@
            })
        }),
{
    let ghost s0 = set@;
    let mut positions: Vec<usize> = Vec::new();
    let mut tokens: Vec<u64> = Vec::new();
    if l > comp.len() {
        return (positions, tokens);
    }
    let hashes_vec = hashes::nthash_windows(comp, l);
    let wn = comp.len() - l + 1;
    let mut j: usize = 0;
    while j < wn
        invariant
            1 <= l <= comp@.len(),
            comp@.len() <= usize::MAX,
            wn == comp@.len() - l + 1,
            j <= wn,
            hashes_vec@.len() == wn,
            forall|t: int|
                0 <= t < wn ==> hashes_vec@[t] == hashes::nt_hash_of(comp@.subrange(t, t + l)),
            ({
                let s = spec_sketch(
                    comp@,
                    l,
                    density,
                    redirect,
                    vb.pairs@,
                    filtered,
                    ncheck,
                    s0,
                    j as int,
                );
                &&& positions@ == s.0
                &&& tokens@ == s.1
                &&& set@ == (if filtered {
                    s.2
                } else {
                    s0
                })
            }),
        decreases wn - j,
    {
        let h = hashes_vec[j];
        let ghost w = comp@.subrange(j as int, j as int + l);
        proof {
            assert(j as int + l as int <= comp@.len());
        }
        if params::hash_passes(h, density) {
            let win = vstd::slice::slice_subrange(comp.as_slice(), j, j + l);
            let ambiguous = if ncheck {
                contains_ambiguous(win)
            } else {
                false
            };
            if !ambiguous {
                let tok_opt: Option<u64> = if redirect {
                    vb.get(win)
                } else {
                    Some(h)
                };
                match tok_opt {
                    Option::Some(tok) => {
                        if filtered {
                            let fresh = set.check_and_add(tok);
                            if fresh {
                                positions.push(j);
                                tokens.push(tok);
                            }
                        } else {
                            positions.push(j);
                            tokens.push(tok);
                        }
                    },
                    Option::None => {},
                }
            }
        }
        j += 1;
    }
    (positions, tokens)
}

} // verus!
