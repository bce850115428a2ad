//! Extraction collaborators: the minimizer vocabulary (literal window text
//! to canonical token id and back) and the shared token set that the
//! universe-hitting-set and longest-common-prefix strategies filter through.

use vstd::prelude::*;

verus! {

/// Compare two byte strings.
pub fn bytes_eq(a: &[u8], b: &[u8]) -> (r: bool)
    ensures
        r == (a@ == b@),
{
    if a.len() != b.len() {
        proof {
            assert(a@.len() != b@.len());
        }
        return false;
    }
    let n = a.len();
    let mut i: usize = 0;
    while i < n
        invariant
            n == a@.len() == b@.len(),
            i <= n,
            forall|j: int| 0 <= j < i ==> a@[j] == b@[j],
        decreases n - i,
    {
        if a[i] != b[i] {
            return false;
        }
        i += 1;
    }
    proof {
        assert(a@ =~= b@);
    }
    true
}

/// First-match lookup of window text `w` among `pairs`.
pub open spec fn spec_lookup(pairs: Seq<(Vec<u8>, u64)>, w: Seq<u8>) -> Option<u64>
    decreases pairs.len(),
{
    if pairs.len() == 0 {
        None
    } else if pairs[0].0@ == w {
        Some(pairs[0].1)
    } else {
        spec_lookup(pairs.drop_first(), w)
    }
}

/// The vocabulary direction used during extraction: literal window text to
/// canonical 64-bit token id.
pub struct Vocab {
    /// Text/id pairs; the first match for a text wins.
    pub pairs: Vec<(Vec<u8>, u64)>,
}

impl Vocab {
    /// An empty vocabulary.
    pub fn new() -> (r: Vocab)
        ensures
            r.pairs@.len() == 0,
    {
        Vocab { pairs: Vec::new() }
    }

    /// The id registered for text `w`, if any.
    pub fn get(&self, w: &[u8]) -> (r: Option<u64>)
        ensures
            r == spec_lookup(self.pairs@, w@),
    {
        let n = self.pairs.len();
        let mut i: usize = 0;
        proof {
            assert(self.pairs@.skip(0) =~= self.pairs@);
        }
        while i < n
            invariant
                n == self.pairs@.len(),
                i <= n,
                spec_lookup(self.pairs@, w@) == spec_lookup(self.pairs@.skip(i as int), w@),
            decreases n - i,
        {
            let hit = bytes_eq(self.pairs[i].0.as_slice(), w);
            proof {
                assert(self.pairs@.skip(i as int)[0] == self.pairs@[i as int]);
                assert(self.pairs@.skip(i as int).drop_first() =~= self.pairs@.skip(i + 1));
            }
            if hit {
                return Some(self.pairs[i].1);
            }
            i += 1;
        }
        proof {
            assert(self.pairs@.skip(n as int).len() == 0);
        }
        None
    }

    /// Register a new text/id pair; the text must be new.
    pub fn insert(&mut self, text: Vec<u8>, id: u64)
        requires
            spec_lookup(old(self).pairs@, text@) is None,
        ensures
            final(self).pairs@ == old(self).pairs@.push((text, id)),
            spec_lookup(final(self).pairs@, text@) == Some(id),
            forall|w: Seq<u8>| w != text@ ==> spec_lookup(final(self).pairs@, w) == spec_lookup(
                old(self).pairs@,
                w,
            ),
    {
        let ghost old_pairs = self.pairs@;
        self.pairs.push((text, id));
        proof {
            assert forall|w: Seq<u8>| true implies spec_lookup(self.pairs@, w) == (
            if spec_lookup(old_pairs, w) is Some {
                spec_lookup(old_pairs, w)
            } else if self.pairs@.last().0@ == w {
                Some(self.pairs@.last().1)
            } else {
                None
            }) by {
                lemma_lookup_push(old_pairs, self.pairs@.last(), w);
            }
        }
    }
}

/// Looking a text up after a push: an earlier match still wins; otherwise
/// only the new pair can answer.
proof fn lemma_lookup_push(pairs: Seq<(Vec<u8>, u64)>, p: (Vec<u8>, u64), w: Seq<u8>)
    ensures
        spec_lookup(pairs.push(p), w) == (if spec_lookup(pairs, w) is Some {
            spec_lookup(pairs, w)
        } else if p.0@ == w {
            Some(p.1)
        } else {
            None
        }),
    decreases pairs.len(),
{
    if pairs.len() == 0 {
        assert(pairs.push(p)[0] == p);
        assert(pairs.push(p).drop_first() =~= Seq::<(Vec<u8>, u64)>::empty());
        assert(spec_lookup(Seq::<(Vec<u8>, u64)>::empty(), w) is None);
        assert(spec_lookup(pairs.push(p), w) == (if p.0@ == w {
            Some(p.1)
        } else {
            None
        }));
    } else {
        assert(pairs.push(p)[0] == pairs[0]);
        assert(pairs.push(p).drop_first() =~= pairs.drop_first().push(p));
        lemma_lookup_push(pairs.drop_first(), p, w);
    }
}

/// First-match lookup of token id `id` among `pairs`.
pub open spec fn spec_text_of(pairs: Seq<(u64, Vec<u8>)>, id: u64) -> Option<Seq<u8>>
    decreases pairs.len(),
{
    if pairs.len() == 0 {
        None
    } else if pairs[0].0 == id {
        Some(pairs[0].1@)
    } else {
        spec_text_of(pairs.drop_first(), id)
    }
}

/// The inverse vocabulary direction used during correction: canonical token
/// id back to literal window text.
pub struct VocabInv {
    /// Id/text pairs; the first match for an id wins.
    pub pairs: Vec<(u64, Vec<u8>)>,
}

impl VocabInv {
    /// An empty inverse vocabulary.
    pub fn new() -> (r: VocabInv)
        ensures
            r.pairs@.len() == 0,
    {
        VocabInv { pairs: Vec::new() }
    }

    /// The text registered for id `id`, if any.
    pub fn get(&self, id: u64) -> (r: Option<&Vec<u8>>)
        ensures
            match r {
                Some(v) => spec_text_of(self.pairs@, id) == Some(v@),
                None => spec_text_of(self.pairs@, id) is None,
            },
    {
        let n = self.pairs.len();
        let mut i: usize = 0;
        proof {
            assert(self.pairs@.skip(0) =~= self.pairs@);
        }
        while i < n
            invariant
                n == self.pairs@.len(),
                i <= n,
                spec_text_of(self.pairs@, id) == spec_text_of(self.pairs@.skip(i as int), id),
            decreases n - i,
        {
            proof {
                assert(self.pairs@.skip(i as int)[0] == self.pairs@[i as int]);
                assert(self.pairs@.skip(i as int).drop_first() =~= self.pairs@.skip(i + 1));
            }
            if self.pairs[i].0 == id {
                return Some(&self.pairs[i].1);
            }
            i += 1;
        }
        proof {
            assert(self.pairs@.skip(n as int).len() == 0);
        }
        None
    }

    /// Register an id/text pair.
    pub fn insert(&mut self, id: u64, text: Vec<u8>)
        ensures
            final(self).pairs@ == old(self).pairs@.push((id, text)),
    {
        self.pairs.push((id, text));
    }
}

/// The shared token set behind the universe-hitting-set and
/// longest-common-prefix strategies. The interface is a probabilistic set
/// with an indivisible check-and-add; this implementation is exact, which
/// the interface permits (false positives are allowed, never required).
pub struct TokenSet {
    items: Vec<u64>,
}

impl TokenSet {
    /// The set of tokens accepted so far.
    pub closed spec fn view(&self) -> Set<u64> {
        Set::new(|x: u64| self.items@.contains(x))
    }

    /// An empty token set.
    pub fn new() -> (r: TokenSet)
        ensures
            r@ == Set::<u64>::empty(),
    {
        let r = TokenSet { items: Vec::new() };
        proof {
            assert(r@ =~= Set::<u64>::empty());
        }
        r
    }

    /// Check-and-add: accept `h` iff it was not yet present, and record it.
    pub fn check_and_add(&mut self, h: u64) -> (r: bool)
        ensures
            r == !old(self)@.contains(h),
            final(self)@ == old(self)@.insert(h),
    {
        let n = self.items.len();
        let mut i: usize = 0;
        while i < n
            invariant
                n == self.items@.len(),
                i <= n,
                forall|j: int| 0 <= j < i ==> self.items@[j] != h,
            decreases n - i,
        {
            if self.items[i] == h {
                proof {
                    assert(self@.contains(h));
                    assert(self@ =~= self@.insert(h));
                }
                return false;
            }
            i += 1;
        }
        proof {
            assert(!self.items@.contains(h));
        }
        let ghost old_items = self.items@;
        self.items.push(h);
        proof {
            assert forall|x: u64| self.items@.contains(x) <==> (old_items.contains(x) || x == h) by {
                if self.items@.contains(x) {
                    let u = choose|u: int| 0 <= u < self.items@.len() && self.items@[u] == x;
                    if u < old_items.len() {
                        assert(old_items[u] == x);
                    }
                }
                if old_items.contains(x) {
                    let u = choose|u: int| 0 <= u < old_items.len() && old_items[u] == x;
                    assert(self.items@[u] == x);
                }
                assert(self.items@[old_items.len() as int] == h);
            }
            assert(self@ =~= old(self)@.insert(h));
        }
        true
    }
}

} // verus!
