//! Homopolymer compression: runs of identical consecutive bases collapse to
//! their first character, and a position list maps each kept character back
//! to its raw-coordinate run start.

use vstd::prelude::*;

verus! {

/// Bases that take part in homopolymer collapsing (both cases of A/C/T/G/N).
/// Any other character never collapses, whatever its neighbors.
pub open spec fn is_collapsible(c: u8) -> bool {
    ||| c == 65u8  // 'A'
    ||| c == 67u8  // 'C'
    ||| c == 84u8  // 'T'
    ||| c == 71u8  // 'G'
    ||| c == 78u8  // 'N'
    ||| c == 97u8  // 'a'
    ||| c == 99u8  // 'c'
    ||| c == 116u8 // 't'
    ||| c == 103u8 // 'g'
    ||| c == 110u8 // 'n'
}

/// Decide `is_collapsible` for one base.
pub fn base_collapsible(c: u8) -> (r: bool)
    ensures
        r == is_collapsible(c),
{
    c == 65u8 || c == 67u8 || c == 84u8 || c == 71u8 || c == 78u8 || c == 97u8 || c == 99u8
        || c == 116u8 || c == 103u8 || c == 110u8
}

/// Position `j` starts a run of `s`: it is the first position, differs from
/// its predecessor, or holds a character that never collapses.
pub open spec fn run_start(s: Seq<u8>, j: int) -> bool {
    j == 0 || !(s[j] == s[j - 1] && is_collapsible(s[j]))
}

/// Some entry of `pos` equals `j`.
pub open spec fn contains_index(pos: Seq<usize>, j: int) -> bool {
    exists|t: int| 0 <= t < pos.len() && pos[t] == j
}

/// The full contract of homopolymer compression of `s` into `(comp, pos)`:
/// `pos` is exactly the ordered list of run starts of `s`, `comp` the
/// characters standing there, and every raw position of a run carries the
/// run start's character.
pub open spec fn hpc_encodes(s: Seq<u8>, comp: Seq<u8>, pos: Seq<usize>) -> bool {
    &&& comp.len() == pos.len()
    &&& forall|t: int|
        0 <= t < pos.len() ==> pos[t] < s.len() && comp[t] == s[#[trigger] pos[t] as int]
    &&& forall|t: int| 0 <= t < pos.len() - 1 ==> #[trigger] pos[t] < pos[t + 1]
    &&& forall|j: int| 0 <= j < s.len() ==> (#[trigger] run_start(s, j) <==> contains_index(pos, j))
    &&& forall|t: int, j: int|
        #![trigger pos[t], s[j]]
        0 <= t < pos.len() - 1 && pos[t] <= j < pos[t + 1] ==> s[j] == s[pos[t] as int]
}

/// In a sorted list of distinct indices, the entry at `t` is at least `t`.
pub proof fn lemma_sorted_ge_index(pos: Seq<usize>, t: int)
    requires
        forall|a: int| 0 <= a < pos.len() - 1 ==> #[trigger] pos[a] < pos[a + 1],
        0 <= t < pos.len(),
    ensures
        pos[t] >= t,
    decreases t,
{
    if t > 0 {
        lemma_sorted_ge_index(pos, t - 1);
    }
}

/// Homopolymer compression is idempotent: compressing an already-compressed
/// sequence returns it unchanged, with the identity position list.
pub proof fn lemma_hpc_idempotent(s: Seq<u8>, comp: Seq<u8>, pos: Seq<usize>, comp2: Seq<u8>, pos2: Seq<usize>)
    requires
        hpc_encodes(s, comp, pos),
        hpc_encodes(comp, comp2, pos2),
    ensures
        comp2 == comp,
        pos2.len() == comp.len(),
        forall|t: int| 0 <= t < pos2.len() ==> pos2[t] == t,
{
    assert forall|j: int| 0 < j < comp.len() implies run_start(comp, j) by {
        // comp[j] stands at the run start pos[j] of s; the base just before
        // that run start belongs to the previous run, whose character is
        // comp[j - 1].
        assert(contains_index(pos, pos[j] as int));
        assert(run_start(s, pos[j] as int));
        assert(pos[j - 1] <= pos[j] - 1 < pos[j]);
        assert(s[pos[j] - 1] == s[pos[j - 1] as int]);
    }
    assert forall|t: int| 0 <= t < pos2.len() implies pos2[t] == t by {
        lemma_pos2_identity(comp, pos2, t);
    }
    assert(pos2.len() >= comp.len()) by {
        if pos2.len() < comp.len() {
            let j = pos2.len() as int;
            assert(run_start(comp, j));
            assert(contains_index(pos2, j));
            let u = choose|u: int| 0 <= u < pos2.len() && pos2[u] == j;
            assert(pos2[u] == u);
        }
    }
    assert(pos2.len() <= comp.len()) by {
        if pos2.len() > 0 {
            let t = pos2.len() - 1;
            assert(pos2[t] == t);
            assert(pos2[t] < comp.len());
        }
    }
    assert forall|t: int| 0 <= t < comp2.len() implies comp2[t] == comp[t] by {
        assert(pos2[t] == t);
    }
    assert(comp2 =~= comp);
}

/// Entries of a sorted position list that contains every index below each of
/// its entries are the identity.
proof fn lemma_pos2_identity(comp: Seq<u8>, pos2: Seq<usize>, t: int)
    requires
        forall|a: int| 0 <= a < pos2.len() - 1 ==> #[trigger] pos2[a] < pos2[a + 1],
        forall|j: int|
            0 <= j < comp.len() ==> (#[trigger] run_start(comp, j) <==> contains_index(pos2, j)),
        forall|j: int| 0 < j < comp.len() ==> #[trigger] run_start(comp, j),
        forall|a: int| 0 <= a < pos2.len() ==> #[trigger] pos2[a] < comp.len(),
        0 <= t < pos2.len(),
    ensures
        pos2[t] == t,
    decreases t,
{
    if t == 0 {
        if pos2[0] != 0 {
            assert(comp.len() > 0);
            assert(run_start(comp, 0));
            assert(contains_index(pos2, 0));
            let u = choose|u: int| 0 <= u < pos2.len() && pos2[u] == 0;
            lemma_sorted_ge_index(pos2, u);
        }
    } else {
        lemma_pos2_identity(comp, pos2, t - 1);
        // pos2[t - 1] == t - 1; the index t itself is a run start, so it is
        // contained, and sortedness forces it to stand exactly at slot t.
        assert(pos2[t] > t - 1);
        if pos2[t] != t {
            assert(run_start(comp, t));
            assert(contains_index(pos2, t));
            let u = choose|u: int| 0 <= u < pos2.len() && pos2[u] == t;
            if u < t {
                lemma_pos2_identity(comp, pos2, u);
            } else {
                assert(u > t);
                lemma_sorted_between(pos2, t, u);
            }
        }
    }
}

/// Sortedness extended over a gap: strictly increasing entries grow at
/// least as fast as their indices.
pub proof fn lemma_sorted_between(pos: Seq<usize>, a: int, b: int)
    requires
        forall|x: int| 0 <= x < pos.len() - 1 ==> #[trigger] pos[x] < pos[x + 1],
        0 <= a < b < pos.len(),
    ensures
        pos[b] >= pos[a] + (b - a),
    decreases b - a,
{
    if b > a + 1 {
        lemma_sorted_between(pos, a, b - 1);
    }
}

/// A minimizer window that fits inside the compressed sequence also fits
/// inside the raw sequence when its start is translated back through the
/// run-start position list.
pub proof fn lemma_hpc_window_fits(s: Seq<u8>, comp: Seq<u8>, pos: Seq<usize>, t: int, l: usize)
    requires
        hpc_encodes(s, comp, pos),
        0 <= t,
        t + l <= comp.len(),
        l >= 1,
    ensures
        pos[t] + l <= s.len(),
{
    let last = pos.len() - 1;
    if t < last {
        lemma_sorted_between(pos, t, last);
    }
    assert(pos[last] < s.len());
}

} // verus!
