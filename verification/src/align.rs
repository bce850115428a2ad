//! The alignment and consensus engine.
//!
//! The template read seeds the engine; each accepted neighbor is aligned to
//! it under semiglobal dynamic programming (free end gaps on the template,
//! linear internal gap costs) and committed as a row of template-column
//! assignments. The consensus token path is the column-wise winner among
//! the template and all committed rows, ties resolving toward the template,
//! and each consensus edge carries a representative literal substring from
//! a row matching the consensus at both ends.

use vstd::prelude::*;

verus! {

/// Longest token stream the engine accepts. The bound keeps every
/// dynamic-programming score below `2 * MAX_TOKENS * 1024`, well inside
/// `i64`, and twice a token count inside the smallest supported address
/// space; it exceeds any sequencing read by orders of magnitude.
pub const MAX_TOKENS: usize = 0x4000_0000;

/// Longest base sequence the engine accepts; far beyond any sequencing
/// read, and small enough that a sequence index always fits the smallest
/// supported address space.
pub const MAX_SEQ: usize = 0x4000_0000;

/// Alignment scoring parameters: linear gap costs, and the token match and
/// mismatch scores.
pub struct Scoring {
    /// Cost of opening a gap (non-positive).
    pub gap_open: i64,
    /// Cost of each gapped position (non-positive); the engine applies
    /// linear gap costs, so this is the whole per-gap cost.
    pub gap_extend: i64,
    /// Score of a matching token pair.
    pub match_score: i64,
    /// Score of a mismatching token pair.
    pub mismatch_score: i64,
}

impl Scoring {
    /// Bounded parameters, so dynamic-programming scores cannot overflow.
    pub open spec fn wf(&self) -> bool {
        &&& -1024 <= self.gap_open <= 0
        &&& -1024 <= self.gap_extend <= 0
        &&& -1024 <= self.match_score <= 1024
        &&& -1024 <= self.mismatch_score <= 1024
    }

    /// Build a scoring scheme.
    pub fn new(gap_open: i64, gap_extend: i64, match_score: i64, mismatch_score: i64) -> (r:
        Scoring)
        requires
            -1024 <= gap_open <= 0,
            -1024 <= gap_extend <= 0,
            -1024 <= match_score <= 1024,
            -1024 <= mismatch_score <= 1024,
        ensures
            r.wf(),
            r.gap_open == gap_open,
            r.gap_extend == gap_extend,
            r.match_score == match_score,
            r.mismatch_score == mismatch_score,
    {
        Scoring { gap_open, gap_extend, match_score, mismatch_score }
    }
}

/// A read-shaped row: tokens, sequence and positions in lockstep, positions
/// strictly increasing, every minimizer window inside the sequence, and
/// both dimensions under the engine's caps.
pub open spec fn row_wf(tokens: Seq<u64>, seq: Seq<u8>, pos: Seq<usize>, l: usize) -> bool {
    &&& pos.len() == tokens.len()
    &&& forall|i: int| 0 <= i < pos.len() - 1 ==> #[trigger] pos[i] < pos[i + 1]
    &&& forall|i: int| 0 <= i < pos.len() ==> #[trigger] pos[i] + l <= seq.len()
    &&& tokens.len() <= MAX_TOKENS
    &&& seq.len() <= MAX_SEQ
}

/// One aligned neighbor: its oriented tokens, sequence, positions, the
/// alignment score, and for each template column the aligned query index.
pub struct AlnRow {
    /// Oriented neighbor tokens.
    pub tokens: Vec<u64>,
    /// Oriented neighbor sequence.
    pub seq: Vec<u8>,
    /// Oriented neighbor minimizer positions.
    pub pos: Vec<usize>,
    /// Semiglobal alignment score against the template.
    pub score: i64,
    /// For each template column, the aligned query token index, if any.
    pub cols: Vec<Option<usize>>,
}

/// A well-formed row against a template of `m` columns: one entry per
/// column, entries in range, and assignments strictly monotone.
pub open spec fn aln_row_wf(row: AlnRow, m: int, l: usize) -> bool {
    &&& row_wf(row.tokens@, row.seq@, row.pos@, l)
    &&& row.cols@.len() == m
    &&& forall|j: int|
        0 <= j < m && (#[trigger] row.cols@[j]) is Some ==> row.cols@[j].unwrap()
            < row.tokens@.len()
    &&& forall|j1: int, j2: int|
        0 <= j1 < j2 < m && (#[trigger] row.cols@[j1]) is Some && (#[trigger] row.cols@[j2])
            is Some ==> row.cols@[j1].unwrap() < row.cols@[j2].unwrap()
}

/// The engine: the template, the committed rows, and the last alignment.
pub struct Aligner {
    /// Scoring parameters.
    pub scoring: Scoring,
    /// Template tokens.
    pub tokens: Vec<u64>,
    /// Template sequence.
    pub seq: Vec<u8>,
    /// Template minimizer positions.
    pub pos: Vec<usize>,
    /// Minimizer length.
    pub l: usize,
    /// Rows committed to the graph.
    pub committed: Vec<AlnRow>,
    /// The alignment computed last.
    pub last: Option<AlnRow>,
}

impl Aligner {
    /// Engine invariant: template well-formed and non-empty; every
    /// committed row and the last alignment well-formed against it.
    pub open spec fn wf(&self) -> bool {
        &&& self.scoring.wf()
        &&& row_wf(self.tokens@, self.seq@, self.pos@, self.l)
        &&& self.tokens@.len() >= 1
        &&& forall|c: int|
            0 <= c < self.committed@.len() ==> aln_row_wf(
                #[trigger] self.committed@[c],
                self.tokens@.len() as int,
                self.l,
            )
        &&& match self.last {
            Some(r) => aln_row_wf(r, self.tokens@.len() as int, self.l),
            None => true,
        }
    }

    /// Seed the engine with the template's tokens, sequence and positions.
    pub fn new(scoring: Scoring, tokens: Vec<u64>, seq: Vec<u8>, pos: Vec<usize>, l: usize) -> (r:
        Aligner)
        requires
            scoring.wf(),
            row_wf(tokens@, seq@, pos@, l),
            tokens@.len() >= 1,
        ensures
            r.wf(),
            r.scoring == scoring,
            r.tokens == tokens,
            r.seq == seq,
            r.pos == pos,
            r.l == l,
            r.committed@.len() == 0,
            r.last is None,
    {
        Aligner { scoring, tokens, seq, pos, l, committed: Vec::new(), last: None }
    }

    /// The score of the alignment computed last.
    pub fn alignment_score(&self) -> (r: i64)
        requires
            self.last is Some,
        ensures
            r == self.last.unwrap().score,
    {
        match &self.last {
            Some(row) => row.score,
            None => 0,
        }
    }

    /// Commit the last alignment into the graph; the engine then awaits a
    /// fresh alignment.
    pub fn add_to_graph(&mut self)
        requires
            old(self).wf(),
            old(self).last is Some,
        ensures
            final(self).wf(),
            final(self).committed@ == old(self).committed@.push(old(self).last.unwrap()),
            final(self).tokens == old(self).tokens,
            final(self).seq == old(self).seq,
            final(self).pos == old(self).pos,
            final(self).l == old(self).l,
            final(self).scoring == old(self).scoring,
            final(self).last is None,
    {
        let row = self.last.take();
        match row {
            Some(r) => {
                self.committed.push(r);
            },
            None => {},
        }
    }
}

/// Strict growth in both components, extended over a gap.
proof fn lemma_pairs_sorted(s: Seq<(usize, usize)>, a: int, b: int)
    requires
        forall|t: int|
            0 <= t < s.len() - 1 ==> (#[trigger] s[t]).0 < s[t + 1].0 && s[t].1 < s[t + 1].1,
        0 <= a < b < s.len(),
    ensures
        s[a].0 < s[b].0,
        s[a].1 < s[b].1,
    decreases b - a,
{
    if b > a + 1 {
        lemma_pairs_sorted(s, a, b - 1);
    }
}

/// The semiglobal score recurrence, declaratively: aligning the first `i`
/// query tokens against the first `j` template columns, a leading template
/// gap is free (row zero is zero), a leading query gap pays `gap` per
/// token, and each inner cell takes the best of a match or mismatch, a
/// query gap, and a template gap.
pub open spec fn spec_dp(
    ttokens: Seq<u64>,
    qtokens: Seq<u64>,
    gap: int,
    ms: int,
    mm: int,
    i: int,
    j: int,
) -> int
    decreases i + j, i, j,
{
    if i <= 0 {
        0int
    } else if j <= 0 {
        i * gap
    } else {
        let sub = if qtokens[i - 1] == ttokens[j - 1] {
            ms
        } else {
            mm
        };
        let diag = spec_dp(ttokens, qtokens, gap, ms, mm, i - 1, j - 1) + sub;
        let up = spec_dp(ttokens, qtokens, gap, ms, mm, i - 1, j) + gap;
        let left = spec_dp(ttokens, qtokens, gap, ms, mm, i, j - 1) + gap;
        if diag >= up && diag >= left {
            diag
        } else if up >= left {
            up
        } else {
            left
        }
    }
}

/// The best semiglobal score: the maximum of the full-query row over the
/// template columns up to `j` (the trailing template gap is free).
pub open spec fn spec_best_score(
    ttokens: Seq<u64>,
    qtokens: Seq<u64>,
    gap: int,
    ms: int,
    mm: int,
    j: int,
) -> int
    decreases j,
{
    let n = qtokens.len() as int;
    if j <= 0 {
        spec_dp(ttokens, qtokens, gap, ms, mm, n, 0)
    } else {
        let prev = spec_best_score(ttokens, qtokens, gap, ms, mm, j - 1);
        let v = spec_dp(ttokens, qtokens, gap, ms, mm, n, j);
        if v > prev {
            v
        } else {
            prev
        }
    }
}

/// How often `s` holds `x`.
pub open spec fn count_occurrences(s: Seq<u64>, x: u64) -> int
    decreases s.len(),
{
    if s.len() == 0 {
        0int
    } else {
        (if s.last() == x {
            1int
        } else {
            0int
        }) + count_occurrences(s.drop_last(), x)
    }
}

/// The tokens the committed rows align to template column `j`, in commit
/// order.
pub open spec fn col_tokens(committed: Seq<AlnRow>, j: int) -> Seq<u64>
    decreases committed.len(),
{
    if committed.len() == 0 {
        Seq::empty()
    } else {
        let prev = col_tokens(committed.drop_last(), j);
        let row = committed.last();
        if 0 <= j < row.cols@.len() && row.cols@[j] is Some {
            prev.push(row.tokens@[row.cols@[j].unwrap() as int])
        } else {
            prev
        }
    }
}

/// A dynamic-programming score entry bounded by its antidiagonal.
pub open spec fn dp_shape(dp: Seq<Vec<i64>>, dir: Seq<Vec<u8>>, n: int, m: int) -> bool {
    &&& dp.len() == n + 1
    &&& dir.len() == n + 1
    &&& forall|r: int| 0 <= r <= n ==> (#[trigger] dp[r])@.len() == m + 1
    &&& forall|r: int| 0 <= r <= n ==> (#[trigger] dir[r])@.len() == m + 1
    &&& forall|r: int, c: int|
        0 <= r <= n && 0 <= c <= m ==> -1024 * (r + c) <= #[trigger] dp[r]@[c] <= 1024 * (r + c)
    &&& forall|r: int, c: int|
        1 <= r <= n && 1 <= c <= m ==> (#[trigger] dir[r]@[c] == 0 || dir[r]@[c] == 1
            || dir[r]@[c] == 2)
}

/// Fill the semiglobal score and direction matrices: a free leading
/// template gap (row zero is zero), linear gap costs elsewhere.
#[verifier::loop_isolation(false)]
fn dp_fill(ttokens: &Vec<u64>, qtokens: &Vec<u64>, gap: i64, ms: i64, mm: i64) -> (r: (
    Vec<Vec<i64>>,
    Vec<Vec<u8>>,
))
    requires
        -1024 <= gap <= 0,
        -1024 <= ms <= 1024,
        -1024 <= mm <= 1024,
        ttokens@.len() <= MAX_TOKENS,
        qtokens@.len() <= MAX_TOKENS,
    ensures
        dp_shape(r.0@, r.1@, qtokens@.len() as int, ttokens@.len() as int),
        forall|i: int, j: int|
            0 <= i <= qtokens@.len() && 0 <= j <= ttokens@.len() ==> #[trigger] r.0@[i]@[j]
                == spec_dp(ttokens@, qtokens@, gap as int, ms as int, mm as int, i, j),
{
    let n = qtokens.len();
    let m = ttokens.len();
    let mut dp: Vec<Vec<i64>> = Vec::new();
    let mut dir: Vec<Vec<u8>> = Vec::new();
    let mut dp0: Vec<i64> = Vec::new();
    let mut dir0: Vec<u8> = Vec::new();
    let mut j: usize = 0;
    while j <= m
        invariant
            j <= m + 1,
            dp0@.len() == j,
            dir0@.len() == j,
            forall|c: int| 0 <= c < j ==> #[trigger] dp0@[c] == 0,
            forall|c: int|
                0 <= c < j ==> #[trigger] dp0@[c] == spec_dp(
                    ttokens@,
                    qtokens@,
                    gap as int,
                    ms as int,
                    mm as int,
                    0,
                    c,
                ),
            forall|c: int| 1 <= c < j ==> #[trigger] dir0@[c] == 2,
        decreases m + 1 - j,
    {
        dp0.push(0);
        dir0.push(
            if j == 0 {
                0u8
            } else {
                2u8
            },
        );
        j += 1;
    }
    dp.push(dp0);
    dir.push(dir0);
    let mut i: usize = 1;
    while i <= n
        invariant
            1 <= i <= n + 1,
            dp@.len() == i,
            dir@.len() == i,
            forall|r: int| 0 <= r < i ==> (#[trigger] dp@[r])@.len() == m + 1,
            forall|r: int| 0 <= r < i ==> (#[trigger] dir@[r])@.len() == m + 1,
            forall|r: int, c: int|
                0 <= r < i && 0 <= c <= m ==> -1024 * (r + c) <= #[trigger] dp@[r]@[c] <= 1024 * (
                r + c),
            forall|r: int, c: int|
                1 <= r < i && 1 <= c <= m ==> (#[trigger] dir@[r]@[c] == 0 || dir@[r]@[c] == 1
                    || dir@[r]@[c] == 2),
            forall|r: int, c: int|
                0 <= r < i && 0 <= c <= m ==> #[trigger] dp@[r]@[c] == spec_dp(
                    ttokens@,
                    qtokens@,
                    gap as int,
                    ms as int,
                    mm as int,
                    r,
                    c,
                ),
        decreases n + 1 - i,
    {
        let mut dprow: Vec<i64> = Vec::new();
        let mut dirrow: Vec<u8> = Vec::new();
        let v0 = dp[i - 1][0] + gap;
        proof {
            assert(dp@[i - 1]@[0] == spec_dp(
                ttokens@,
                qtokens@,
                gap as int,
                ms as int,
                mm as int,
                i - 1,
                0,
            ));
            if i == 1 {
                assert(spec_dp(ttokens@, qtokens@, gap as int, ms as int, mm as int, 0, 0) == 0);
                assert(1int * (gap as int) == gap as int) by (nonlinear_arith);
            } else {
                assert(spec_dp(ttokens@, qtokens@, gap as int, ms as int, mm as int, i - 1, 0) == (
                i - 1) * (gap as int));
                assert((i - 1) * (gap as int) + (gap as int) == i * (gap as int))
                    by (nonlinear_arith);
            }
            assert(v0 == spec_dp(ttokens@, qtokens@, gap as int, ms as int, mm as int, i as int, 0));
        }
        dprow.push(v0);
        dirrow.push(1u8);
        let mut jj: usize = 1;
        while jj <= m
            invariant
                1 <= i <= n,
                1 <= jj <= m + 1,
                dprow@.len() == jj,
                dirrow@.len() == jj,
                forall|c: int|
                    0 <= c < jj ==> -1024 * (i + c) <= #[trigger] dprow@[c] <= 1024 * (i + c),
                forall|c: int|
                    0 <= c < jj ==> (#[trigger] dirrow@[c] == 0 || dirrow@[c] == 1 || dirrow@[c]
                        == 2),
                forall|c: int|
                    0 <= c < jj ==> #[trigger] dprow@[c] == spec_dp(
                        ttokens@,
                        qtokens@,
                        gap as int,
                        ms as int,
                        mm as int,
                        i as int,
                        c,
                    ),
            decreases m + 1 - jj,
        {
            let qa = qtokens[i - 1];
            let tb = ttokens[jj - 1];
            let sub = if qa == tb {
                ms
            } else {
                mm
            };
            let diag = dp[i - 1][jj - 1] + sub;
            let up = dp[i - 1][jj] + gap;
            let left = dprow[jj - 1] + gap;
            let mut best = diag;
            let mut d: u8 = 0;
            if up > best {
                best = up;
                d = 1;
            }
            if left > best {
                best = left;
                d = 2;
            }
            dprow.push(best);
            dirrow.push(d);
            jj += 1;
        }
        dp.push(dprow);
        dir.push(dirrow);
        i += 1;
    }
    (dp, dir)
}

/// Walk the direction matrix back from the best end cell and return, for
/// each template column, the aligned query index: strictly monotone and in
/// range.
#[verifier::loop_isolation(false)]
#[verifier::rlimit(60)]
fn dp_traceback(dir: &Vec<Vec<u8>>, n: usize, m: usize, jmax: usize) -> (cols: Vec<Option<usize>>)
    requires
        dir@.len() == n + 1,
        forall|r: int| 0 <= r <= n ==> (#[trigger] dir@[r])@.len() == m + 1,
        jmax <= m,
    ensures
        cols@.len() == m,
        forall|j: int| 0 <= j < m && (#[trigger] cols@[j]) is Some ==> cols@[j].unwrap() < n,
        forall|j1: int, j2: int|
            0 <= j1 < j2 < m && (#[trigger] cols@[j1]) is Some && (#[trigger] cols@[j2]) is Some
                ==> cols@[j1].unwrap() < cols@[j2].unwrap(),
{
    let mut pairs: Vec<(usize, usize)> = Vec::new();
    let mut ti: usize = n;
    let mut tj: usize = jmax;
    while ti > 0 && tj > 0
        invariant
            ti <= n,
            tj <= m,
            forall|t: int|
                0 <= t < pairs@.len() ==> (#[trigger] pairs@[t]).0 >= tj && pairs@[t].1 >= ti
                    && pairs@[t].0 < m && pairs@[t].1 < n,
            forall|t: int|
                0 <= t < pairs@.len() - 1 ==> (#[trigger] pairs@[t]).0 > pairs@[t + 1].0
                    && pairs@[t].1 > pairs@[t + 1].1,
        decreases ti + tj,
    {
        let d = dir[ti][tj];
        if d == 0 {
            pairs.push((tj - 1, ti - 1));
            ti -= 1;
            tj -= 1;
        } else if d == 1 {
            ti -= 1;
        } else {
            tj -= 1;
        }
    }
    let plen = pairs.len();
    let mut inc: Vec<(usize, usize)> = Vec::new();
    let mut t: usize = 0;
    while t < plen
        invariant
            t <= plen,
            inc@.len() == t,
            forall|u: int| 0 <= u < t ==> #[trigger] inc@[u] == pairs@[plen - 1 - u],
        decreases plen - t,
    {
        inc.push(pairs[plen - 1 - t]);
        t += 1;
    }
    proof {
        assert forall|u: int|
            0 <= u < inc@.len() - 1 implies (#[trigger] inc@[u]).0 < inc@[u + 1].0 && inc@[u].1
            < inc@[u + 1].1 by {
            assert(inc@[u] == pairs@[plen - 1 - u]);
            assert(inc@[u + 1] == pairs@[plen - 2 - u]);
            assert(pairs@[plen - 2 - u].0 > pairs@[plen - 1 - u].0);
        }
        assert forall|u: int| 0 <= u < inc@.len() implies (#[trigger] inc@[u]).0 < m && inc@[u].1
            < n by {
            assert(inc@[u] == pairs@[plen - 1 - u]);
        }
    }
    let mut cols: Vec<Option<usize>> = Vec::new();
    let mut ptr: usize = 0;
    let mut j2: usize = 0;
    while j2 < m
        invariant
            j2 <= m,
            cols@.len() == j2,
            ptr <= inc@.len(),
            forall|u: int|
                0 <= u < inc@.len() - 1 ==> (#[trigger] inc@[u]).0 < inc@[u + 1].0 && inc@[u].1
                    < inc@[u + 1].1,
            forall|u: int| 0 <= u < inc@.len() ==> (#[trigger] inc@[u]).0 < m && inc@[u].1 < n,
            forall|p: int| 0 <= p < ptr ==> (#[trigger] inc@[p]).0 < j2,
            ptr < inc@.len() ==> inc@[ptr as int].0 >= j2,
            forall|c: int|
                0 <= c < j2 && (#[trigger] cols@[c]) is Some ==> exists|p: int|
                    0 <= p < inc@.len() && (#[trigger] inc@[p]).0 == c && cols@[c].unwrap()
                        == inc@[p].1,
        decreases m - j2,
    {
        if ptr < inc.len() {
            let pr = inc[ptr];
            if pr.0 == j2 {
                cols.push(Some(pr.1));
                ptr += 1;
                proof {
                    if ptr < inc@.len() {
                        assert(inc@[ptr - 1].0 < inc@[ptr as int].0);
                    }
                }
            } else {
                cols.push(None);
            }
        } else {
            cols.push(None);
        }
        j2 += 1;
    }
    proof {
        assert forall|j1: int, j2a: int|
            0 <= j1 < j2a < m && (#[trigger] cols@[j1]) is Some && (#[trigger] cols@[j2a]) is Some
            implies cols@[j1].unwrap() < cols@[j2a].unwrap() by {
            let p1 = choose|p: int|
                0 <= p < inc@.len() && (#[trigger] inc@[p]).0 == j1 && cols@[j1].unwrap()
                    == inc@[p].1;
            let p2 = choose|p: int|
                0 <= p < inc@.len() && (#[trigger] inc@[p]).0 == j2a && cols@[j2a].unwrap()
                    == inc@[p].1;
            if p2 < p1 {
                lemma_pairs_sorted(inc@, p2, p1);
            } else if p1 < p2 {
                lemma_pairs_sorted(inc@, p1, p2);
            }
        }
    }
    cols
}

impl Aligner {
    /// Align a neighbor semiglobally against the template and keep it as
    /// the last alignment: free gaps at the template ends, linear internal
    /// gap costs, token match/mismatch scores, and a strictly monotone
    /// assignment of template columns to neighbor tokens.
    #[verifier::loop_isolation(false)]
    pub fn semiglobal(&mut self, qtokens: &Vec<u64>, qseq: &Vec<u8>, qpos: &Vec<usize>)
        requires
            old(self).wf(),
            row_wf(qtokens@, qseq@, qpos@, old(self).l),
        ensures
            final(self).wf(),
            final(self).tokens == old(self).tokens,
            final(self).seq == old(self).seq,
            final(self).pos == old(self).pos,
            final(self).l == old(self).l,
            final(self).scoring == old(self).scoring,
            final(self).committed == old(self).committed,
            final(self).last is Some,
            final(self).last.unwrap().tokens@ == qtokens@,
            final(self).last.unwrap().seq@ == qseq@,
            final(self).last.unwrap().pos@ == qpos@,
            final(self).last.unwrap().score == spec_best_score(
                old(self).tokens@,
                qtokens@,
                old(self).scoring.gap_extend as int,
                old(self).scoring.match_score as int,
                old(self).scoring.mismatch_score as int,
                old(self).tokens@.len() as int,
            ),
    {
        let n = qtokens.len();
        let m = self.tokens.len();
        let md = dp_fill(
            &self.tokens,
            qtokens,
            self.scoring.gap_extend,
            self.scoring.match_score,
            self.scoring.mismatch_score,
        );
        let dp = md.0;
        let dir = md.1;
        let mut jmax: usize = 0;
        let mut sc: i64 = dp[n][0];
        let mut j3: usize = 1;
        while j3 <= m
            invariant
                1 <= j3 <= m + 1,
                jmax <= m,
                sc == spec_best_score(
                    self.tokens@,
                    qtokens@,
                    self.scoring.gap_extend as int,
                    self.scoring.match_score as int,
                    self.scoring.mismatch_score as int,
                    j3 - 1,
                ),
            decreases m + 1 - j3,
        {
            if dp[n][j3] > sc {
                sc = dp[n][j3];
                jmax = j3;
            }
            j3 += 1;
        }
        let cols = dp_traceback(&dir, n, m, jmax);
        let row = AlnRow {
            tokens: subvec_u64(qtokens, 0, n),
            seq: subvec(qseq, 0, qseq.len()),
            pos: subvec_usize(qpos, 0, qpos.len()),
            score: sc,
            cols,
        };
        proof {
            assert(row.tokens@ =~= qtokens@);
            assert(row.seq@ =~= qseq@);
            assert(row.pos@ =~= qpos@);
        }
        self.last = Some(row);
    }
}

/// How often `v` holds `x`.
fn count_token(v: &Vec<u64>, x: u64) -> (r: usize)
    ensures
        r <= v@.len(),
        r as int == count_occurrences(v@, x),
{
    let n = v.len();
    let mut count: usize = 0;
    let mut i: usize = 0;
    proof {
        assert(v@.take(0) =~= Seq::<u64>::empty());
    }
    while i < n
        invariant
            n == v@.len(),
            i <= n,
            count <= i,
            count as int == count_occurrences(v@.take(i as int), x),
        decreases n - i,
    {
        proof {
            assert(v@.take(i + 1).drop_last() =~= v@.take(i as int));
            assert(v@.take(i + 1).last() == v@[i as int]);
        }
        if v[i] == x {
            count += 1;
        }
        i += 1;
    }
    proof {
        assert(v@.take(n as int) =~= v@);
    }
    count
}

/// Trimmed edges match the untrimmed edges from offset `s` on.
pub open spec fn edges_match(out: Seq<Vec<u8>>, edges: Seq<Vec<u8>>, s: int) -> bool {
    forall|t: int| 0 <= t < out.len() ==> (#[trigger] out[t])@ == edges[s + t]@
}

impl Aligner {
    /// Token `tok` can stand at consensus column `j`: it is the template's
    /// token there, or the token a committed row aligns to that column.
    pub open spec fn token_from(&self, tok: u64, j: int) -> bool {
        ||| tok == self.tokens@[j]
        ||| exists|c: int|
            {
                &&& 0 <= c < self.committed@.len()
                &&& (#[trigger] self.committed@[c]).cols@[j] is Some
                &&& tok == self.committed@[c].tokens@[self.committed@[c].cols@[j].unwrap() as int]
            }
    }

    /// Extract the consensus token path and one representative literal
    /// substring per consensus edge.
    ///
    /// Per column, the winner of the vote among the template's token and
    /// the tokens the committed rows align there, ties resolving toward
    /// the template; with no committed row the consensus is the template
    /// itself. Per edge, the substring of a row matching the consensus at
    /// both ends, the template's own edge text when the consensus keeps
    /// its tokens there.
    #[verifier::loop_isolation(false)]
    #[verifier::rlimit(60)]
    pub fn consensus(&self) -> (r: (Vec<u64>, Vec<Vec<u8>>))
        requires
            self.wf(),
        ensures
            r.0@.len() == self.tokens@.len(),
            r.1@.len() == r.0@.len() - 1,
            forall|j: int| 0 <= j < r.1@.len() ==> 1 <= (#[trigger] r.1@[j])@.len() <= MAX_SEQ,
            self.committed@.len() == 0 ==> r.0@ == self.tokens@,
            forall|j: int| 0 <= j < r.0@.len() ==> self.token_from(#[trigger] r.0@[j], j),
            // plurality vote: the winner's count among the template token
            // and the aligned row tokens is maximal, and only a strictly
            // larger count overrules the template
            forall|j: int|
                0 <= j < r.0@.len() ==> {
                    let cands = seq![self.tokens@[j]] + col_tokens(self.committed@, j);
                    &&& (forall|t: int|
                        0 <= t < cands.len() ==> count_occurrences(cands, #[trigger] cands[t])
                            <= count_occurrences(cands, #[trigger] r.0@[j]))
                    &&& (#[trigger] r.0@[j] == self.tokens@[j] || count_occurrences(
                        cands,
                        r.0@[j],
                    ) > count_occurrences(cands, self.tokens@[j]))
                },
    {
        let m = self.tokens.len();
        let ncom = self.committed.len();
        let mut toks: Vec<u64> = Vec::new();
        let mut j: usize = 0;
        while j < m
            invariant
                j <= m,
                toks@.len() == j,
                forall|c: int| 0 <= c < j ==> self.token_from(#[trigger] toks@[c], c),
                ncom == 0 ==> forall|c: int| 0 <= c < j ==> toks@[c] == self.tokens@[c],
                forall|c: int|
                    0 <= c < j ==> {
                        let cands = seq![self.tokens@[c]] + col_tokens(self.committed@, c);
                        &&& (forall|t: int|
                            0 <= t < cands.len() ==> count_occurrences(cands, #[trigger] cands[t])
                                <= count_occurrences(cands, #[trigger] toks@[c]))
                        &&& (toks@[c] == self.tokens@[c] || count_occurrences(cands, toks@[c])
                            > count_occurrences(cands, self.tokens@[c]))
                    },
            decreases m - j,
        {
            let mut cands: Vec<u64> = Vec::new();
            cands.push(self.tokens[j]);
            proof {
                assert(cands@ =~= seq![self.tokens@[j as int]] + col_tokens(
                    self.committed@.take(0),
                    j as int,
                ));
            }
            let mut c: usize = 0;
            while c < ncom
                invariant
                    c <= ncom,
                    cands@.len() >= 1,
                    cands@.len() <= 1 + c,
                    cands@[0] == self.tokens@[j as int],
                    cands@ == seq![self.tokens@[j as int]] + col_tokens(
                        self.committed@.take(c as int),
                        j as int,
                    ),
                    forall|t: int|
                        0 <= t < cands@.len() ==> self.token_from(#[trigger] cands@[t], j as int),
                decreases ncom - c,
            {
                proof {
                    assert(self.committed@.take(c + 1).drop_last() =~= self.committed@.take(
                        c as int,
                    ));
                    assert(self.committed@.take(c + 1).last() == self.committed@[c as int]);
                }
                let cell: Option<usize> = self.committed[c].cols[j];
                match cell {
                    Some(q) => {
                        let tokq = self.committed[c].tokens[q];
                        cands.push(tokq);
                        proof {
                            assert(cands@ =~= seq![self.tokens@[j as int]] + col_tokens(
                                self.committed@.take(c + 1),
                                j as int,
                            ));
                        }
                    },
                    None => {
                        proof {
                            assert(cands@ =~= seq![self.tokens@[j as int]] + col_tokens(
                                self.committed@.take(c + 1),
                                j as int,
                            ));
                        }
                    },
                }
                c += 1;
            }
            proof {
                assert(self.committed@.take(ncom as int) =~= self.committed@);
            }
            let mut best_tok: u64 = cands[0];
            let mut best_count: usize = count_token(&cands, best_tok);
            let mut t: usize = 1;
            while t < cands.len()
                invariant
                    1 <= t <= cands@.len(),
                    self.token_from(best_tok, j as int),
                    ncom == 0 ==> cands@.len() == 1,
                    ncom == 0 ==> best_tok == self.tokens@[j as int],
                    best_count as int == count_occurrences(cands@, best_tok),
                    forall|t2: int|
                        0 <= t2 < t ==> count_occurrences(cands@, #[trigger] cands@[t2])
                            <= best_count as int,
                    best_tok == cands@[0] || count_occurrences(cands@, best_tok)
                        > count_occurrences(cands@, cands@[0]),
                decreases cands@.len() - t,
            {
                let ct = count_token(&cands, cands[t]);
                if ct > best_count {
                    best_count = ct;
                    best_tok = cands[t];
                }
                t += 1;
            }
            toks.push(best_tok);
            j += 1;
        }
        let mut edges: Vec<Vec<u8>> = Vec::new();
        let mut je: usize = 0;
        while je < m - 1
            invariant
                je <= m - 1,
                toks@.len() == m,
                edges@.len() == je,
                forall|t: int| 0 <= t < je ==> 1 <= (#[trigger] edges@[t])@.len() <= MAX_SEQ,
            decreases m - 1 - je,
        {
            let wj = toks[je];
            let wj1 = toks[je + 1];
            let edge: Vec<u8> = if wj == self.tokens[je] && wj1 == self.tokens[je + 1] {
                subvec(&self.seq, self.pos[je], self.pos[je + 1])
            } else {
                let mut found: Option<Vec<u8>> = None;
                let mut c: usize = 0;
                while c < ncom
                    invariant
                        c <= ncom,
                        match found {
                            Some(ref e) => 1 <= e@.len() <= MAX_SEQ,
                            None => true,
                        },
                    decreases ncom - c,
                {
                    if found.is_none() {
                        let cell_a: Option<usize> = self.committed[c].cols[je];
                        let cell_b: Option<usize> = self.committed[c].cols[je + 1];
                        match (cell_a, cell_b) {
                            (Some(a), Some(b)) => {
                                if self.committed[c].tokens[a] == wj && self.committed[c].tokens[b]
                                    == wj1 {
                                    proof {
                                        assert(aln_row_wf(
                                            self.committed@[c as int],
                                            self.tokens@.len() as int,
                                            self.l,
                                        ));
                                        assert(a < b);
                                        if a + 1 < b {
                                            crate::hpc::lemma_sorted_between(
                                                self.committed@[c as int].pos@,
                                                a as int,
                                                b as int,
                                            );
                                        }
                                    }
                                    let pa = self.committed[c].pos[a];
                                    let pb = self.committed[c].pos[b];
                                    found = Some(subvec(&self.committed[c].seq, pa, pb));
                                }
                            },
                            _ => {},
                        }
                    }
                    c += 1;
                }
                match found {
                    Some(e) => e,
                    None => subvec(&self.seq, self.pos[je], self.pos[je + 1]),
                }
            };
            edges.push(edge);
            je += 1;
        }
        proof {
            if ncom == 0 {
                assert(toks@ =~= self.tokens@);
            }
        }
        (toks, edges)
    }

    /// Reconcile the consensus against the template's token extent: keep
    /// the span from the first occurrence of the template's first token to
    /// the last occurrence of its last token. When no such span exists the
    /// result is empty, and the caller abandons correction.
    #[verifier::rlimit(60)]
    pub fn consensus_boundary(
        &self,
        consensus: &Vec<u64>,
        edges: &Vec<Vec<u8>>,
        template: &Vec<u64>,
    ) -> (r: (Vec<u64>, Vec<Vec<u8>>))
        requires
            template@.len() >= 1,
            consensus@.len() >= 1 ==> edges@.len() == consensus@.len() - 1,
            consensus@.len() == 0 ==> edges@.len() == 0,
        ensures
            ({
                let t0 = template@[0];
                let tl = template@[template@.len() - 1];
                if exists|s: int, e: int|
                    #![trigger consensus@[s], consensus@[e]]
                    0 <= s <= e < consensus@.len() && consensus@[s] == t0 && consensus@[e] == tl {
                    exists|s: int, e: int|
                        #![trigger consensus@[s], consensus@[e]]
                        {
                            &&& 0 <= s <= e < consensus@.len()
                            &&& consensus@[s] == t0
                            &&& consensus@[e] == tl
                            &&& (forall|u: int| 0 <= u < s ==> consensus@[u] != t0)
                            &&& (forall|u: int| e < u < consensus@.len() ==> consensus@[u] != tl)
                            &&& r.0@ == consensus@.subrange(s, e + 1)
                            &&& r.1@.len() == e - s
                            &&& edges_match(r.1@, edges@, s)
                        }
                } else {
                    r.0@.len() == 0 && r.1@.len() == 0
                }
            }),
            r.0@.len() >= 1 ==> r.1@.len() == r.0@.len() - 1,
            r.0@.len() == 0 ==> r.1@.len() == 0,
    {
        let clen = consensus.len();
        if clen == 0 {
            return (Vec::new(), Vec::new());
        }
        let t0 = template[0];
        let tl = template[template.len() - 1];
        let mut s: usize = 0;
        while s < clen
            invariant_except_break
                clen == consensus@.len(),
                s <= clen,
                forall|u: int| 0 <= u < s ==> consensus@[u] != t0,
            ensures
                s <= clen,
                forall|u: int| 0 <= u < s ==> consensus@[u] != t0,
                s < clen ==> consensus@[s as int] == t0,
            decreases clen - s,
        {
            if consensus[s] == t0 {
                break ;
            }
            s += 1;
        }
        if s == clen {
            return (Vec::new(), Vec::new());
        }
        let mut t: usize = clen;
        let mut e: usize = clen;
        while t > 0
            invariant_except_break
                clen == consensus@.len(),
                t <= clen,
                e == clen,
                forall|u: int| t <= u < clen ==> consensus@[u] != tl,
            ensures
                (e == clen && forall|u: int| 0 <= u < clen ==> consensus@[u] != tl) || (e < clen
                    && consensus@[e as int] == tl && forall|u: int|
                    e < u < clen ==> consensus@[u] != tl),
            decreases t,
        {
            t -= 1;
            if consensus[t] == tl {
                e = t;
                break ;
            }
        }
        if e == clen || e < s {
            proof {
                if exists|s2: int, e2: int|
                    #![trigger consensus@[s2], consensus@[e2]]
                    0 <= s2 <= e2 < consensus@.len() && consensus@[s2] == t0 && consensus@[e2]
                        == tl {
                    let (s2, e2) = choose|s2: int, e2: int|
                        #![trigger consensus@[s2], consensus@[e2]]
                        0 <= s2 <= e2 < consensus@.len() && consensus@[s2] == t0 && consensus@[e2]
                            == tl;
                    assert(s2 >= s);
                    assert(e2 <= e || e == clen);
                    assert(false);
                }
            }
            return (Vec::new(), Vec::new());
        }
        let out_t = subvec_u64(consensus, s, e + 1);
        let mut out_e: Vec<Vec<u8>> = Vec::new();
        let mut u: usize = s;
        while u < e
            invariant
                clen == consensus@.len(),
                edges@.len() == clen - 1,
                s <= u <= e,
                e < clen,
                out_e@.len() == u - s,
                forall|t2: int| 0 <= t2 < u - s ==> (#[trigger] out_e@[t2])@ == edges@[s + t2]@,
            decreases e - u,
        {
            out_e.push(subvec(&edges[u], 0, edges[u].len()));
            u += 1;
        }
        (out_t, out_e)
    }
}

/// Copy a byte range.
pub fn subvec(s: &Vec<u8>, a: usize, b: usize) -> (r: Vec<u8>)
    requires
        a <= b <= s@.len(),
    ensures
        r@ == s@.subrange(a as int, b as int),
{
    vstd::slice::slice_to_vec(vstd::slice::slice_subrange(s.as_slice(), a, b))
}

/// Copy a token range.
pub fn subvec_u64(s: &Vec<u64>, a: usize, b: usize) -> (r: Vec<u64>)
    requires
        a <= b <= s@.len(),
    ensures
        r@ == s@.subrange(a as int, b as int),
{
    vstd::slice::slice_to_vec(vstd::slice::slice_subrange(s.as_slice(), a, b))
}

/// Copy a position range.
pub fn subvec_usize(s: &Vec<usize>, a: usize, b: usize) -> (r: Vec<usize>)
    requires
        a <= b <= s@.len(),
    ensures
        r@ == s@.subrange(a as int, b as int),
{
    vstd::slice::slice_to_vec(vstd::slice::slice_subrange(s.as_slice(), a, b))
}

} // verus!
