//! Similarity filtering and ranking.
//!
//! The share of minimizer tokens two reads do not hold in common,
//! 1 - |A ∩ B| / (|A| + |B| - |A ∩ B|) over their token sets, is kept as
//! an exact integer rational (numerator, denominator): symmetric, and
//! zero exactly on reads with identical token sets. The mash distance the
//! interface speaks of is a monotone function of this share, so ranking
//! by it ranks by mash distance; its 0.15 retention cutoff is an exact
//! rational bound on the share, supplied by the caller (the translation
//! is floating-point and lives outside the library). Retained candidates
//! are ranked ascending and capped at the 80 closest.

use vstd::prelude::*;

verus! {

/// The retained candidate cap.
pub const MAX_POA_READS: usize = 80;

/// The distance rational of two token sequences: `(numerator, denominator)`
/// with the value `numerator / denominator`; two reads without any token
/// are identical, at distance 0/1.
pub open spec fn spec_dist_pair(a: Seq<u64>, b: Seq<u64>) -> (int, int) {
    let ia = a.to_set().intersect(b.to_set()).len() as int;
    let u = a.to_set().len() + b.to_set().len() - ia;
    if u == 0 {
        (0, 1)
    } else {
        (u - ia, u)
    }
}

/// Rational order on distances: `x <= y` as fractions.
pub open spec fn spec_dist_le(xn: int, xd: int, yn: int, yd: int) -> bool {
    xn * yd <= yn * xd
}

/// The retention test: the distance `n/d` lies strictly below the bound
/// `tn/td`, the caller's exact form of its mash-distance cutoff.
pub open spec fn spec_below_threshold(n: int, d: int, tn: int, td: int) -> bool {
    n * td < tn * d
}

/// Whether `v` holds `x`.
pub fn vec_contains_u64(v: &Vec<u64>, x: u64) -> (r: bool)
    ensures
        r == v@.contains(x),
{
    let n = v.len();
    let mut i: usize = 0;
    while i < n
        invariant
            n == v@.len(),
            i <= n,
            forall|j: int| 0 <= j < i ==> v@[j] != x,
        decreases n - i,
    {
        if v[i] == x {
            return true;
        }
        i += 1;
    }
    false
}

/// The distinct tokens of `v`, in first-occurrence order.
fn dedup_tokens(v: &Vec<u64>) -> (r: Vec<u64>)
    ensures
        r@.to_set() == v@.to_set(),
        r@.no_duplicates(),
        r@.len() == v@.to_set().len(),
{
    let n = v.len();
    let mut out: Vec<u64> = Vec::new();
    let mut i: usize = 0;
    while i < n
        invariant
            n == v@.len(),
            i <= n,
            out@.no_duplicates(),
            forall|x: u64| out@.contains(x) <==> v@.take(i as int).contains(x),
        decreases n - i,
    {
        let ghost old_out = out@;
        if !vec_contains_u64(&out, v[i]) {
            out.push(v[i]);
        }
        proof {
            assert(v@.take(i + 1).drop_last() =~= v@.take(i as int));
            assert(v@.take(i + 1).last() == v@[i as int]);
            assert forall|x: u64| out@.contains(x) <==> v@.take(i + 1).contains(x) by {
                if out@.contains(x) {
                    let t = choose|t: int| 0 <= t < out@.len() && out@[t] == x;
                    if t < old_out.len() {
                        assert(old_out[t] == x);
                        assert(old_out.contains(x));
                        let u = choose|u: int|
                            0 <= u < v@.take(i as int).len() && v@.take(i as int)[u] == x;
                        assert(v@.take(i + 1)[u] == x);
                    } else {
                        assert(x == v@[i as int]);
                        assert(v@.take(i + 1)[i as int] == x);
                    }
                }
                if v@.take(i + 1).contains(x) {
                    let u = choose|u: int|
                        0 <= u < v@.take(i + 1).len() && #[trigger] v@.take(i + 1)[u] == x;
                    if u < i {
                        assert(v@.take(i as int)[u] == x);
                        assert(v@.take(i as int).contains(x));
                        if old_out.contains(x) {
                            let t = choose|t: int| 0 <= t < old_out.len() && old_out[t] == x;
                            assert(out@[t] == x);
                        }
                    } else {
                        assert(x == v@[i as int]);
                        if old_out.contains(x) {
                            let t = choose|t: int| 0 <= t < old_out.len() && old_out[t] == x;
                            assert(out@[t] == x);
                        } else {
                            assert(out@.last() == x);
                        }
                    }
                }
            }
        }
        i += 1;
    }
    proof {
        assert(v@.take(n as int) =~= v@);
        assert forall|x: u64| out@.to_set().contains(x) <==> v@.to_set().contains(x) by {}
        assert(out@.to_set() =~= v@.to_set());
        out@.unique_seq_to_set();
    }
    out
}

/// Compute the distance rational of two token sequences.
pub fn dist_pair(a: &Vec<u64>, b: &Vec<u64>) -> (r: (usize, usize))
    requires
        a@.len() + b@.len() <= usize::MAX,
    ensures
        r.0 as int == spec_dist_pair(a@, b@).0,
        r.1 as int == spec_dist_pair(a@, b@).1,
        r.1 >= 1,
{
    broadcast use vstd::seq_lib::seq_to_set_is_finite;
    broadcast use vstd::set::group_set_axioms;

    let ua = dedup_tokens(a);
    let ub = dedup_tokens(b);
    let n = ua.len();
    let mut inter: usize = 0;
    let ghost bset = b@.to_set();
    let mut i: usize = 0;
    proof {
        assert(ua@.take(0) =~= Seq::<u64>::empty());
        assert(Seq::<u64>::empty().to_set() =~= Set::<u64>::empty());
        assert(Set::<u64>::empty().intersect(bset) =~= Set::<u64>::empty());
    }
    while i < n
        invariant
            n == ua@.len(),
            i <= n,
            ua@.no_duplicates(),
            bset == b@.to_set(),
            inter <= i,
            inter as int == ua@.take(i as int).to_set().intersect(bset).len(),
            forall|x: u64| ua@.contains(x) <==> a@.to_set().contains(x),
        decreases n - i,
    {
        let ghost prefix = ua@.take(i as int);
        proof {
            assert(ua@.take(i + 1).drop_last() =~= prefix);
            assert(ua@.take(i + 1).last() == ua@[i as int]);
        }
        if vec_contains_u64(b, ua[i]) {
            inter = inter + 1;
            proof {
                let x = ua@[i as int];
                assert(!prefix.contains(x)) by {
                    if prefix.contains(x) {
                        let t = choose|t: int| 0 <= t < prefix.len() && prefix[t] == x;
                        assert(ua@[t] == x);
                    }
                }
                assert(ua@.take(i + 1).to_set() =~= prefix.to_set().insert(x));
                assert(bset.contains(x));
                assert(ua@.take(i + 1).to_set().intersect(bset) =~= prefix.to_set().intersect(
                    bset,
                ).insert(x));
                assert(!prefix.to_set().intersect(bset).contains(x));
                vstd::set_lib::lemma_len_intersect(prefix.to_set(), bset);
            }
        } else {
            proof {
                let x = ua@[i as int];
                assert(!bset.contains(x));
                assert(ua@.take(i + 1).to_set() =~= prefix.to_set().insert(x));
                assert(ua@.take(i + 1).to_set().intersect(bset) =~= prefix.to_set().intersect(
                    bset,
                ));
            }
        }
        i += 1;
    }
    proof {
        assert(ua@.take(n as int) =~= ua@);
        assert(ua@.to_set() =~= a@.to_set());
        vstd::set_lib::lemma_len_intersect(a@.to_set(), bset);
        assert(a@.to_set().intersect(bset) =~= bset.intersect(a@.to_set()));
        vstd::set_lib::lemma_len_intersect(bset, a@.to_set());
    }
    let na = ua.len();
    let nb = ub.len();
    proof {
        a@.lemma_cardinality_of_set();
        b@.lemma_cardinality_of_set();
    }
    let union = na + nb - inter;
    if union == 0 {
        (0, 1)
    } else {
        (union - inter, union)
    }
}

/// Decide the rational order on two distance pairs.
pub fn dist_le(xn: usize, xd: usize, yn: usize, yd: usize) -> (r: bool)
    ensures
        r == spec_dist_le(xn as int, xd as int, yn as int, yd as int),
{
    proof {
        vstd::arithmetic::mul::lemma_mul_upper_bound(
            xn as int,
            u64::MAX as int,
            yd as int,
            u64::MAX as int,
        );
        vstd::arithmetic::mul::lemma_mul_upper_bound(
            yn as int,
            u64::MAX as int,
            xd as int,
            u64::MAX as int,
        );
    }
    let left: u128 = (xn as u128) * (yd as u128);
    let right: u128 = (yn as u128) * (xd as u128);
    left <= right
}

/// Decide the retention test.
pub fn below_threshold(n: usize, d: usize, tn: usize, td: usize) -> (r: bool)
    ensures
        r == spec_below_threshold(n as int, d as int, tn as int, td as int),
{
    proof {
        vstd::arithmetic::mul::lemma_mul_upper_bound(
            n as int,
            u64::MAX as int,
            td as int,
            u64::MAX as int,
        );
        vstd::arithmetic::mul::lemma_mul_upper_bound(
            tn as int,
            u64::MAX as int,
            d as int,
            u64::MAX as int,
        );
    }
    (n as u128) * (td as u128) < (tn as u128) * (d as u128)
}

/// Whether candidate `c` lies below the retention bound `tn/td`.
pub open spec fn spec_below(c: (usize, usize, usize), tn: int, td: int) -> bool {
    spec_below_threshold(c.1 as int, c.2 as int, tn, td)
}

/// How often `s` holds candidate `x`.
pub open spec fn count_entry(s: Seq<(usize, usize, usize)>, x: (usize, usize, usize)) -> int
    decreases s.len(),
{
    if s.len() == 0 {
        0int
    } else {
        (if s.last() == x {
            1int
        } else {
            0int
        }) + count_entry(s.drop_last(), x)
    }
}

/// Occurrence counts add over concatenation.
proof fn lemma_count_concat(a: Seq<(usize, usize, usize)>, b: Seq<(usize, usize, usize)>, x: (usize, usize, usize))
    ensures
        count_entry(a + b, x) == count_entry(a, x) + count_entry(b, x),
    decreases b.len(),
{
    if b.len() == 0 {
        assert(a + b =~= a);
    } else {
        assert((a + b).drop_last() =~= a + b.drop_last());
        assert((a + b).last() == b.last());
        lemma_count_concat(a, b.drop_last(), x);
    }
}

/// Inserting one candidate raises exactly its own count by one.
proof fn lemma_count_insert(
    s: Seq<(usize, usize, usize)>,
    pos: int,
    v: (usize, usize, usize),
    x: (usize, usize, usize),
)
    requires
        0 <= pos <= s.len(),
    ensures
        count_entry(s.insert(pos, v), x) == count_entry(s, x) + (if v == x {
            1int
        } else {
            0int
        }),
{
    assert(s.insert(pos, v) =~= s.take(pos) + seq![v] + s.skip(pos));
    assert(s =~= s.take(pos) + s.skip(pos));
    lemma_count_concat(s.take(pos) + seq![v], s.skip(pos), x);
    lemma_count_concat(s.take(pos), seq![v], x);
    lemma_count_concat(s.take(pos), s.skip(pos), x);
    assert(count_entry(seq![v], x) == (if v == x {
        1int
    } else {
        0int
    })) by {
        assert(seq![v].last() == v);
        assert(seq![v].drop_last() =~= Seq::<(usize, usize, usize)>::empty());
        assert(count_entry(Seq::<(usize, usize, usize)>::empty(), x) == 0);
    }
}

/// Occurrence counts are never negative.
proof fn lemma_count_nonneg(s: Seq<(usize, usize, usize)>, x: (usize, usize, usize))
    ensures
        count_entry(s, x) >= 0,
    decreases s.len(),
{
    if s.len() > 0 {
        lemma_count_nonneg(s.drop_last(), x);
    }
}

/// The rational distance order is transitive over positive denominators.
proof fn lemma_dist_le_trans(an: int, ad: int, bn: int, bd: int, cn: int, cd: int)
    requires
        spec_dist_le(an, ad, bn, bd),
        spec_dist_le(bn, bd, cn, cd),
        ad >= 1,
        bd >= 1,
        cd >= 1,
    ensures
        spec_dist_le(an, ad, cn, cd),
{
    assert(an * cd <= cn * ad) by (nonlinear_arith)
        requires
            an * bd <= bn * ad,
            bn * cd <= cn * bd,
            ad >= 1,
            bd >= 1,
            cd >= 1,
    ;
}

/// In a list sorted by adjacent distance order with positive denominators,
/// every entry lies at or below every later one.
proof fn lemma_sorted_le(s: Seq<(usize, usize, usize)>, a: int, b: int)
    requires
        forall|t: int|
            0 <= t < s.len() - 1 ==> spec_dist_le(
                (#[trigger] s[t]).1 as int,
                s[t].2 as int,
                s[t + 1].1 as int,
                s[t + 1].2 as int,
            ),
        forall|t: int| 0 <= t < s.len() ==> (#[trigger] s[t]).2 >= 1,
        0 <= a <= b < s.len(),
    ensures
        spec_dist_le(s[a].1 as int, s[a].2 as int, s[b].1 as int, s[b].2 as int),
    decreases b - a,
{
    if a == b {
    } else if b == a + 1 {
    } else {
        lemma_sorted_le(s, a, b - 1);
        lemma_dist_le_trans(
            s[a].1 as int,
            s[a].2 as int,
            s[b - 1].1 as int,
            s[b - 1].2 as int,
            s[b].1 as int,
            s[b].2 as int,
        );
    }
}

/// How many candidates lie below the retention bound.
pub open spec fn spec_count_below(cands: Seq<(usize, usize, usize)>, tn: int, td: int) -> int
    decreases cands.len(),
{
    if cands.len() == 0 {
        0int
    } else {
        (if spec_below(cands[0], tn, td) {
            1int
        } else {
            0int
        }) + spec_count_below(cands.drop_first(), tn, td)
    }
}

/// A positive count yields an occurrence.
pub proof fn lemma_count_pos_contains(s: Seq<(usize, usize, usize)>, x: (usize, usize, usize))
    requires
        count_entry(s, x) >= 1,
    ensures
        exists|t: int| 0 <= t < s.len() && s[t] == x,
    decreases s.len(),
{
    if s.len() > 0 {
        if s.last() == x {
            assert(s[s.len() - 1] == x);
        } else {
            lemma_count_pos_contains(s.drop_last(), x);
            let t = choose|t: int| 0 <= t < s.drop_last().len() && s.drop_last()[t] == x;
            assert(s[t] == x);
        }
    }
}

/// An occurrence yields a positive count.
pub proof fn lemma_contains_count(s: Seq<(usize, usize, usize)>, t: int)
    requires
        0 <= t < s.len(),
    ensures
        count_entry(s, s[t]) >= 1,
    decreases s.len(),
{
    lemma_count_nonneg(s.drop_last(), s[t]);
    if t == s.len() - 1 {
        assert(s.last() == s[t]);
    } else {
        assert(s.drop_last()[t] == s[t]);
        lemma_contains_count(s.drop_last(), t);
    }
}

/// With no candidate below the threshold, the below-threshold count is
/// zero.
pub proof fn lemma_count_below_zero(cands: Seq<(usize, usize, usize)>, tn: int, td: int)
    requires
        forall|t: int| 0 <= t < cands.len() ==> !spec_below(#[trigger] cands[t], tn, td),
    ensures
        spec_count_below(cands, tn, td) == 0,
    decreases cands.len(),
{
    if cands.len() > 0 {
        assert(!spec_below(cands[0], tn, td));
        assert forall|t: int| 0 <= t < cands.drop_first().len() implies !spec_below(
            #[trigger] cands.drop_first()[t],
            tn,
            td,
        ) by {
            assert(cands.drop_first()[t] == cands[t + 1]);
        }
        lemma_count_below_zero(cands.drop_first(), tn, td);
    }
}

/// Retain the candidates below the distance threshold, rank them by
/// ascending distance, and cap them at the `MAX_POA_READS` closest.
/// A candidate is `(read index, distance numerator, distance denominator)`.
pub fn filter_rank(cands: &Vec<(usize, usize, usize)>, tn: usize, td: usize) -> (r: Vec<(usize, usize, usize)>)
    requires
        forall|t: int| 0 <= t < cands@.len() ==> (#[trigger] cands@[t]).2 >= 1,
    ensures
        r@.len() <= MAX_POA_READS as int,
        r@.len() == (if spec_count_below(cands@, tn as int, td as int) <= MAX_POA_READS as int {
            spec_count_below(cands@, tn as int, td as int)
        } else {
            MAX_POA_READS as int
        }),
        forall|t: int|
            0 <= t < r@.len() ==> spec_below_threshold((#[trigger] r@[t]).1 as int, r@[t].2 as int, tn as int, td as int) && cands@.contains(r@[t]),
        forall|t: int|
            0 <= t < r@.len() - 1 ==> spec_dist_le(
                (#[trigger] r@[t]).1 as int,
                r@[t].2 as int,
                r@[t + 1].1 as int,
                r@[t + 1].2 as int,
            ),
        // no candidate is kept more often than it occurs
        forall|x: (usize, usize, usize)| #[trigger] count_entry(r@, x) <= count_entry(cands@, x),
        // under the cap, the result is a permutation of the below-threshold
        // candidates
        spec_count_below(cands@, tn as int, td as int) <= MAX_POA_READS as int ==> forall|x: (usize, usize, usize)|
            #[trigger] count_entry(r@, x) == (if spec_below(x, tn as int, td as int) {
                count_entry(cands@, x)
            } else {
                0int
            }),
        // a below-threshold candidate not kept with its full multiplicity
        // lies at or beyond every kept entry
        forall|x: (usize, usize, usize), t: int|
            #![trigger count_entry(r@, x), r@[t]]
            spec_below(x, tn as int, td as int) && count_entry(r@, x) < count_entry(cands@, x)
                && 0 <= t < r@.len()
                ==> spec_dist_le(r@[t].1 as int, r@[t].2 as int, x.1 as int, x.2 as int),
{
    let n = cands.len();
    let mut sorted: Vec<(usize, usize, usize)> = Vec::new();
    let mut i: usize = 0;
    proof {
        assert(cands@.skip(0) =~= cands@);
        assert forall|x: (usize, usize, usize)|
            #[trigger] count_entry(sorted@, x) == (if spec_below(x, tn as int, td as int) {
                count_entry(cands@.take(0), x)
            } else {
                0int
            }) by {
            assert(sorted@.len() == 0);
            assert(cands@.take(0).len() == 0);
        }
    }
    while i < n
        invariant
            n == cands@.len(),
            i <= n,
            forall|t: int| 0 <= t < cands@.len() ==> (#[trigger] cands@[t]).2 >= 1,
            sorted@.len() + spec_count_below(cands@.skip(i as int), tn as int, td as int)
                == spec_count_below(cands@, tn as int, td as int),
            forall|t: int|
                0 <= t < sorted@.len() ==> spec_below_threshold((#[trigger] sorted@[t]).1 as int, sorted@[t].2 as int, tn as int, td as int) && cands@.contains(sorted@[t]),
            forall|t: int|
                0 <= t < sorted@.len() - 1 ==> spec_dist_le(
                    (#[trigger] sorted@[t]).1 as int,
                    sorted@[t].2 as int,
                    sorted@[t + 1].1 as int,
                    sorted@[t + 1].2 as int,
                ),
            forall|t: int| 0 <= t < sorted@.len() ==> (#[trigger] sorted@[t]).2 >= 1,
            forall|x: (usize, usize, usize)|
                #[trigger] count_entry(sorted@, x) == (if spec_below(x, tn as int, td as int) {
                    count_entry(cands@.take(i as int), x)
                } else {
                    0int
                }),
        decreases n - i,
    {
        proof {
            assert(cands@.skip(i as int)[0] == cands@[i as int]);
            assert(cands@.skip(i as int).drop_first() =~= cands@.skip(i + 1));
        }
        let c = cands[i];
        if below_threshold(c.1, c.2, tn, td) {
            // find the first slot whose entry is strictly farther than c
            let m = sorted.len();
            let mut pos: usize = 0;
            while pos < m
                invariant_except_break
                    m == sorted@.len(),
                    pos <= m,
                    forall|t: int|
                        0 <= t < pos ==> spec_dist_le(
                            (#[trigger] sorted@[t]).1 as int,
                            sorted@[t].2 as int,
                            c.1 as int,
                            c.2 as int,
                        ),
                ensures
                    m == sorted@.len(),
                    pos <= m,
                    forall|t: int|
                        0 <= t < pos ==> spec_dist_le(
                            (#[trigger] sorted@[t]).1 as int,
                            sorted@[t].2 as int,
                            c.1 as int,
                            c.2 as int,
                        ),
                    pos < m ==> !spec_dist_le(
                        sorted@[pos as int].1 as int,
                        sorted@[pos as int].2 as int,
                        c.1 as int,
                        c.2 as int,
                    ),
                decreases m - pos,
            {
                let s = sorted[pos];
                if !dist_le(s.1, s.2, c.1, c.2) {
                    break ;
                }
                pos += 1;
            }
            let ghost old_sorted = sorted@;
            sorted.insert(pos, c);
            proof {
                assert forall|t: int|
                    0 <= t < sorted@.len() - 1 implies spec_dist_le(
                    (#[trigger] sorted@[t]).1 as int,
                    sorted@[t].2 as int,
                    sorted@[t + 1].1 as int,
                    sorted@[t + 1].2 as int,
                ) by {
                    if t + 1 < pos {
                        assert(sorted@[t] == old_sorted[t]);
                        assert(sorted@[t + 1] == old_sorted[t + 1]);
                    } else if t + 1 == pos {
                        assert(sorted@[t] == old_sorted[t]);
                        assert(sorted@[t + 1] == c);
                    } else if t == pos {
                        assert(sorted@[t] == c);
                        assert(sorted@[t + 1] == old_sorted[t]);
                        if pos < old_sorted.len() {
                            assert(!spec_dist_le(
                                old_sorted[pos as int].1 as int,
                                old_sorted[pos as int].2 as int,
                                c.1 as int,
                                c.2 as int,
                            ));
                        }
                    } else {
                        assert(sorted@[t] == old_sorted[t - 1]);
                        assert(sorted@[t + 1] == old_sorted[t]);
                    }
                }
                assert forall|t: int| 0 <= t < sorted@.len() implies spec_below_threshold((#[trigger] sorted@[t]).1 as int, sorted@[t].2 as int, tn as int, td as int) && cands@.contains(sorted@[t]) && sorted@[t].2 >= 1 by {
                    if t < pos {
                        assert(sorted@[t] == old_sorted[t]);
                    } else if t == pos {
                        assert(sorted@[t] == c);
                        assert(cands@[i as int] == c);
                    } else {
                        assert(sorted@[t] == old_sorted[t - 1]);
                    }
                }
                assert forall|x: (usize, usize, usize)|
                    #[trigger] count_entry(sorted@, x) == (if spec_below(x, tn as int, td as int) {
                        count_entry(cands@.take(i + 1), x)
                    } else {
                        0int
                    }) by {
                    lemma_count_insert(old_sorted, pos as int, c, x);
                    assert(cands@.take(i + 1).drop_last() =~= cands@.take(i as int));
                    assert(cands@.take(i + 1).last() == cands@[i as int]);
                }
            }
        } else {
            proof {
                assert forall|x: (usize, usize, usize)|
                    #[trigger] count_entry(sorted@, x) == (if spec_below(x, tn as int, td as int) {
                        count_entry(cands@.take(i + 1), x)
                    } else {
                        0int
                    }) by {
                    assert(cands@.take(i + 1).drop_last() =~= cands@.take(i as int));
                    assert(cands@.take(i + 1).last() == cands@[i as int]);
                }
            }
        }
        i += 1;
    }
    proof {
        assert(cands@.skip(n as int).len() == 0);
        assert(cands@.take(n as int) =~= cands@);
    }
    while sorted.len() > MAX_POA_READS
        invariant
            forall|t: int|
                0 <= t < sorted@.len() ==> spec_below_threshold((#[trigger] sorted@[t]).1 as int, sorted@[t].2 as int, tn as int, td as int) && cands@.contains(sorted@[t]),
            forall|t: int|
                0 <= t < sorted@.len() - 1 ==> spec_dist_le(
                    (#[trigger] sorted@[t]).1 as int,
                    sorted@[t].2 as int,
                    sorted@[t + 1].1 as int,
                    sorted@[t + 1].2 as int,
                ),
            sorted@.len() >= MAX_POA_READS as int ==> spec_count_below(cands@, tn as int, td as int) >= sorted@.len(),
            sorted@.len() < MAX_POA_READS as int ==> sorted@.len() == spec_count_below(cands@, tn as int, td as int),
            forall|t: int| 0 <= t < sorted@.len() ==> (#[trigger] sorted@[t]).2 >= 1,
            forall|x: (usize, usize, usize)|
                #[trigger] count_entry(sorted@, x) <= (if spec_below(x, tn as int, td as int) {
                    count_entry(cands@, x)
                } else {
                    0int
                }),
            spec_count_below(cands@, tn as int, td as int) <= MAX_POA_READS as int ==> forall|x: (usize, usize, usize)|
                #[trigger] count_entry(sorted@, x) == (if spec_below(x, tn as int, td as int) {
                    count_entry(cands@, x)
                } else {
                    0int
                }),
            forall|x: (usize, usize, usize), t: int|
                #![trigger count_entry(sorted@, x), sorted@[t]]
                spec_below(x, tn as int, td as int) && count_entry(sorted@, x) < count_entry(
                    cands@,
                    x,
                ) && 0 <= t < sorted@.len() ==> spec_dist_le(
                    sorted@[t].1 as int,
                    sorted@[t].2 as int,
                    x.1 as int,
                    x.2 as int,
                ),
        decreases sorted@.len(),
    {
        let ghost old_sorted = sorted@;
        sorted.pop();
        proof {
            assert(sorted@ =~= old_sorted.drop_last());
            assert forall|t: int| 0 <= t < sorted@.len() implies spec_below_threshold((#[trigger] sorted@[t]).1 as int, sorted@[t].2 as int, tn as int, td as int) && cands@.contains(sorted@[t]) && sorted@[t].2 >= 1 by {
                assert(sorted@[t] == old_sorted[t]);
            }
            assert forall|t: int|
                0 <= t < sorted@.len() - 1 implies spec_dist_le(
                (#[trigger] sorted@[t]).1 as int,
                sorted@[t].2 as int,
                sorted@[t + 1].1 as int,
                sorted@[t + 1].2 as int,
            ) by {
                assert(sorted@[t] == old_sorted[t]);
                assert(sorted@[t + 1] == old_sorted[t + 1]);
            }
            assert forall|x: (usize, usize, usize)|
                #[trigger] count_entry(sorted@, x) <= (if spec_below(x, tn as int, td as int) {
                    count_entry(cands@, x)
                } else {
                    0int
                }) by {
                assert(count_entry(old_sorted, x) == (if old_sorted.last() == x {
                    1int
                } else {
                    0int
                }) + count_entry(sorted@, x));
            }
            assert forall|x: (usize, usize, usize), t: int|
                #![trigger count_entry(sorted@, x), sorted@[t]]
                spec_below(x, tn as int, td as int) && count_entry(sorted@, x) < count_entry(
                    cands@,
                    x,
                ) && 0 <= t < sorted@.len() implies spec_dist_le(
                sorted@[t].1 as int,
                sorted@[t].2 as int,
                x.1 as int,
                x.2 as int,
            ) by {
                assert(count_entry(old_sorted, x) == (if old_sorted.last() == x {
                    1int
                } else {
                    0int
                }) + count_entry(sorted@, x));
                assert(sorted@[t] == old_sorted[t]);
                if count_entry(old_sorted, x) < count_entry(cands@, x) {
                    assert(spec_dist_le(
                        old_sorted[t].1 as int,
                        old_sorted[t].2 as int,
                        x.1 as int,
                        x.2 as int,
                    ));
                } else {
                    // newly deficient: the popped entry was x itself, the
                    // largest of the sorted list
                    assert(old_sorted.last() == x);
                    lemma_sorted_le(old_sorted, t, old_sorted.len() - 1);
                }
            }
        }
    }
    proof {
        broadcast use vstd::seq_lib::group_seq_properties;

        assert forall|x: (usize, usize, usize)| #[trigger] count_entry(sorted@, x)
            <= count_entry(cands@, x) by {
            lemma_count_nonneg(cands@, x);
        }
    }
    sorted
}

} // verus!
