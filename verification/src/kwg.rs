//! Packed word graph (a DAWG or a GADDAG).
//!
//! The graph is an immutable array of 32-bit nodes.  A node packs an arc
//! index in its low 22 bits, an `is_end` flag (last sibling of its list), an
//! `accepts` flag (a word ends here), and a tile code in its high 8 bits.
//! Node 0 is the root: its arc index points at the first top-level sibling
//! list.  A word is accepted when seeking each of its tiles in turn, from
//! the root, lands on a node with the `accepts` flag.

use vstd::prelude::*;

verus! {

/// Arc index of a packed node.
pub open spec fn node_arc_index(n: u32) -> int {
    (n & 0x3fffff) as int
}

/// Last sibling of its list.
pub open spec fn node_is_end(n: u32) -> bool {
    n & 0x400000 != 0
}

/// A word ends on this node.
pub open spec fn node_accepts(n: u32) -> bool {
    n & 0x800000 != 0
}

/// Tile of a packed node.
pub open spec fn node_tile(n: u32) -> u8 {
    (n >> 24) as u8
}

/// Walk a sibling list from `p` for the node bearing `t`; negative if absent.
pub open spec fn seek_in_arcs(nodes: Seq<u32>, p: int, t: u8) -> int
    decreases (if p < 0 { 0int } else { nodes.len() - p }),
{
    if p < 0 || p >= nodes.len() {
        -1
    } else if node_tile(nodes[p]) == t {
        p
    } else if node_is_end(nodes[p]) {
        -1
    } else {
        seek_in_arcs(nodes, p + 1, t)
    }
}

/// Child of `p` bearing tile `t`: seek among `p`'s arcs; negative if absent.
pub open spec fn seek_spec(nodes: Seq<u32>, p: int, t: u8) -> int {
    if p < 0 || p >= nodes.len() {
        -1
    } else {
        let c = node_arc_index(nodes[p]);
        if c <= 0 {
            -1
        } else {
            seek_in_arcs(nodes, c, t)
        }
    }
}

/// Node reached by seeking each tile of `w` in turn from `p`.
pub open spec fn chain_seek(nodes: Seq<u32>, p: int, w: Seq<u8>) -> int
    decreases w.len(),
{
    if w.len() == 0 {
        p
    } else {
        chain_seek(nodes, seek_spec(nodes, p, w[0]), w.skip(1))
    }
}

/// `w` is a word of the graph: its seek chain from the root lands on an
/// accepting node.
pub open spec fn word_accepted(nodes: Seq<u32>, w: Seq<u8>) -> bool {
    let q = chain_seek(nodes, 0, w);
    w.len() > 0 && 0 <= q < nodes.len() && node_accepts(nodes[q])
}

/// Total number of tiles a tally holds.
pub open spec fn sum_tally(tally: Seq<u8>) -> int
    decreases tally.len(),
{
    if tally.len() == 0 {
        0int
    } else {
        tally[0] + sum_tally(tally.skip(1))
    }
}

/// Depth-first search for a path that consumes the whole tally, over the
/// sibling list starting at `p`.  `rem` is the number of tiles left; callers
/// pass `rem == sum_tally(tally)`.
pub open spec fn alpha_from(nodes: Seq<u32>, p: int, tally: Seq<u8>, rem: nat) -> bool
    decreases rem, (if p < 0 { 0int } else { nodes.len() - p }),
{
    if p < 0 || p >= nodes.len() {
        false
    } else {
        let t = node_tile(nodes[p]) as int;
        let here = if 0 <= t < tally.len() && tally[t] > 0 && rem > 0 {
            let tally2 = tally.update(t, (tally[t] - 1) as u8);
            if rem == 1 {
                node_accepts(nodes[p])
            } else {
                node_arc_index(nodes[p]) > 0
                    && alpha_from(nodes, node_arc_index(nodes[p]), tally2, (rem - 1) as nat)
            }
        } else {
            false
        };
        here || (!node_is_end(nodes[p]) && alpha_from(nodes, p + 1, tally, rem))
    }
}

/// The tally (one count per letter) spells some word of the graph, letters
/// taken in any order.
pub open spec fn alpha_accepts_spec(nodes: Seq<u32>, tally: Seq<u8>) -> bool {
    &&& nodes.len() > 0
    &&& sum_tally(tally) > 0
    &&& node_arc_index(nodes[0]) > 0
    &&& alpha_from(nodes, node_arc_index(nodes[0]), tally, sum_tally(tally) as nat)
}

/// An immutable packed word graph.
pub struct Kwg {
    pub nodes: Vec<u32>,
}

impl Kwg {
    /// Small enough that every index and arc index fits an `i32`, and every
    /// arc index stays inside the array.
    pub open spec fn wf(&self) -> bool {
        &&& self.nodes@.len() <= 0x3fffff
        &&& forall|i: int|
            0 <= i < self.nodes@.len()
                ==> node_arc_index(#[trigger] self.nodes@[i]) < self.nodes@.len()
    }

    pub fn from_nodes(nodes: Vec<u32>) -> (r: Result<Kwg, ()>)
        ensures
            match r {
                Ok(g) => g.wf() && g.nodes@ == nodes@,
                Err(()) => true,
            },
            r is Ok <==> (nodes@.len() <= 0x3fffff && forall|i: int|
                0 <= i < nodes@.len() ==> node_arc_index(#[trigger] nodes@[i]) < nodes@.len()),
    {
        if nodes.len() > 0x3fffff {
            return Err(());
        }
        let mut i: usize = 0;
        while i < nodes.len()
            invariant
                0 <= i <= nodes@.len(),
                nodes@.len() <= 0x3fffff,
                forall|j: int|
                    0 <= j < i ==> node_arc_index(#[trigger] nodes@[j]) < nodes@.len(),
            decreases nodes@.len() - i,
        {
            if (nodes[i] & 0x3fffff) as usize >= nodes.len() {
                return Err(());
            }
            i += 1;
        }
        Ok(Kwg { nodes })
    }

    pub fn node_count(&self) -> (r: usize)
        ensures
            r == self.nodes@.len(),
    {
        self.nodes.len()
    }

    pub fn tile(&self, p: i32) -> (r: u8)
        requires
            self.wf(),
            0 <= p < self.nodes@.len(),
        ensures
            r == node_tile(self.nodes@[p as int]),
    {
        (self.nodes[p as usize] >> 24) as u8
    }

    pub fn accepts(&self, p: i32) -> (r: bool)
        requires
            self.wf(),
            0 <= p < self.nodes@.len(),
        ensures
            r == node_accepts(self.nodes@[p as int]),
    {
        self.nodes[p as usize] & 0x800000 != 0
    }

    pub fn is_end(&self, p: i32) -> (r: bool)
        requires
            self.wf(),
            0 <= p < self.nodes@.len(),
        ensures
            r == node_is_end(self.nodes@[p as int]),
    {
        self.nodes[p as usize] & 0x400000 != 0
    }

    pub fn arc_index(&self, p: i32) -> (r: i32)
        requires
            self.wf(),
            0 <= p < self.nodes@.len(),
        ensures
            r == node_arc_index(self.nodes@[p as int]),
            0 <= r < self.nodes@.len() || self.nodes@.len() == 0,
    {
        proof {
            let n = self.nodes@[p as int];
            assert(n & 0x3fffff <= 0x3fffff) by (bit_vector);
        }
        (self.nodes[p as usize] & 0x3fffff) as i32
    }

    /// Child of `p` bearing tile `t`, or a negative sentinel.  A negative
    /// `p` stays negative, so seeks can be chained without checking.
    pub fn seek(&self, p: i32, t: u8) -> (r: i32)
        requires
            self.wf(),
            p < self.nodes@.len(),
        ensures
            r == seek_spec(self.nodes@, p as int, t),
            r < self.nodes@.len(),
    {
        if p < 0 {
            return -1;
        }
        let c = self.arc_index(p);
        if c <= 0 {
            return -1;
        }
        let mut q = c;
        assert(seek_spec(self.nodes@, p as int, t) == seek_in_arcs(self.nodes@, c as int, t));
        loop
            invariant
                self.wf(),
                0 < q < self.nodes@.len(),
                seek_spec(self.nodes@, p as int, t) == seek_in_arcs(self.nodes@, q as int, t),
            decreases self.nodes@.len() - q,
        {
            if self.tile(q) == t {
                assert(seek_in_arcs(self.nodes@, q as int, t) == q as int);
                return q;
            }
            if self.is_end(q) {
                assert(seek_in_arcs(self.nodes@, q as int, t) == -1);
                return -1;
            }
            assert(seek_in_arcs(self.nodes@, q as int, t)
                == seek_in_arcs(self.nodes@, q as int + 1, t));
            if q as usize + 1 >= self.nodes.len() {
                assert(seek_in_arcs(self.nodes@, q as int + 1, t) == -1);
                return -1;
            }
            q = q + 1;
        }
    }

    /// Whether the graph accepts `w`, by seeking each tile in turn from the
    /// root.
    pub fn accepts_word(&self, w: &[u8]) -> (r: bool)
        requires
            self.wf(),
        ensures
            r == word_accepted(self.nodes@, w@),
    {
        if w.len() == 0 || self.nodes.len() == 0 {
            return false;
        }
        let mut p: i32 = 0;
        let mut i: usize = 0;
        proof {
            assert(w@.take(0) =~= Seq::<u8>::empty());
        }
        while i < w.len()
            invariant
                self.wf(),
                self.nodes@.len() > 0,
                0 <= i <= w@.len(),
                w@.len() <= usize::MAX,
                p < self.nodes@.len(),
                p as int == chain_seek(self.nodes@, 0, w@.take(i as int)),
            decreases w@.len() - i,
        {
            p = self.seek(p, w[i]);
            proof {
                lemma_chain_seek_snoc(self.nodes@, 0, w@.take(i as int), w@[i as int]);
                assert(w@.take(i as int + 1) =~= w@.take(i as int).push(w@[i as int]));
            }
            i += 1;
        }
        proof {
            assert(w@.take(w@.len() as int) =~= w@);
        }
        if p < 0 {
            false
        } else {
            self.accepts(p)
        }
    }

    /// Whether some ordering of the tally's letters is a word of the graph.
    /// `tally[t]` counts the copies of letter `t`; `rem` must be their sum.
    /// Under the distinct-sibling-tiles invariant the answer is exactly
    /// whether some anagram of the tally is an accepted word.
    pub fn accepts_alpha(&self, tally: &mut Vec<u8>, rem: usize) -> (r: bool)
        requires
            self.wf(),
            rem == sum_tally(old(tally)@),
        ensures
            final(tally)@ == old(tally)@,
            r == alpha_accepts_spec(self.nodes@, old(tally)@),
            (sibling_tiles_distinct(self.nodes@) && old(tally)@.len() <= 256) ==> r == (exists|
                w: Seq<u8>,
            | #[trigger] matches_tally(w, old(tally)@) && word_accepted(self.nodes@, w)),
    {
        proof {
            if sibling_tiles_distinct(self.nodes@) && old(tally)@.len() <= 256 {
                lemma_alpha_is_anagram_acceptance(self.nodes@, old(tally)@);
            }
        }
        if self.nodes.len() == 0 || rem == 0 {
            return false;
        }
        let c = self.arc_index(0);
        if c <= 0 {
            return false;
        }
        self.alpha_step(c, tally, rem)
    }

    /// Whether no sibling list of the graph names a tile twice — the
    /// invariant a well-formed word graph keeps, and the hypothesis the
    /// anagram law needs.
    pub fn check_sibling_tiles_distinct(&self) -> (r: bool)
        requires
            self.wf(),
        ensures
            r == sibling_tiles_distinct(self.nodes@),
    {
        let n = self.node_count();
        let mut p: usize = 0;
        while p < n
            invariant
                self.wf(),
                n == self.nodes@.len(),
                0 <= p <= n,
                forall|a: int, b: int|
                    #[trigger] sibling_run(self.nodes@, a, b) && a < b && a < p
                        ==> node_tile(self.nodes@[a]) != node_tile(self.nodes@[b]),
            decreases n - p,
        {
            let t = self.tile(p as i32);
            let mut q = p;
            while !self.is_end(q as i32) && q + 1 < n
                invariant
                    self.wf(),
                    n == self.nodes@.len(),
                    p <= q < n,
                    t == node_tile(self.nodes@[p as int]),
                    sibling_run(self.nodes@, p as int, q as int),
                    forall|b: int|
                        p < b <= q && #[trigger] sibling_run(self.nodes@, p as int, b)
                            ==> node_tile(self.nodes@[b]) != t,
                decreases n - q,
            {
                q += 1;
                proof {
                    lemma_sibling_run_extend(self.nodes@, p as int, q as int);
                }
                if self.tile(q as i32) == t {
                    proof {
                        assert(!sibling_tiles_distinct(self.nodes@));
                    }
                    return false;
                }
            }
            proof {
                assert forall|b: int|
                    #[trigger] sibling_run(self.nodes@, p as int, b) && (p as int) < b
                    implies node_tile(self.nodes@[b]) != t by {
                    if b > q {
                        if node_is_end(self.nodes@[q as int]) {
                            lemma_sibling_run_stops(self.nodes@, p as int, b, q as int);
                        }
                    }
                }
            }
            p += 1;
        }
        true
    }

    /// Whether every sibling list carries strictly ascending tiles — the
    /// invariant that orders the word enumeration.
    pub fn check_sibling_tiles_sorted(&self) -> (r: bool)
        requires
            self.wf(),
        ensures
            r == sibling_tiles_sorted(self.nodes@),
    {
        let n = self.node_count();
        let mut p: usize = 0;
        while p < n
            invariant
                self.wf(),
                n == self.nodes@.len(),
                0 <= p <= n,
                forall|a: int, b: int|
                    #[trigger] sibling_run(self.nodes@, a, b) && a < b && a < p
                        ==> node_tile(self.nodes@[a]) < node_tile(self.nodes@[b]),
            decreases n - p,
        {
            let t = self.tile(p as i32);
            let mut q = p;
            while !self.is_end(q as i32) && q + 1 < n
                invariant
                    self.wf(),
                    n == self.nodes@.len(),
                    p <= q < n,
                    t == node_tile(self.nodes@[p as int]),
                    sibling_run(self.nodes@, p as int, q as int),
                    forall|b: int|
                        p < b <= q && #[trigger] sibling_run(self.nodes@, p as int, b)
                            ==> node_tile(self.nodes@[b]) > t,
                decreases n - q,
            {
                q += 1;
                proof {
                    lemma_sibling_run_extend(self.nodes@, p as int, q as int);
                }
                if self.tile(q as i32) <= t {
                    proof {
                        assert(!sibling_tiles_sorted(self.nodes@));
                    }
                    return false;
                }
            }
            proof {
                assert forall|b: int|
                    #[trigger] sibling_run(self.nodes@, p as int, b) && (p as int) < b
                    implies node_tile(self.nodes@[b]) > t by {
                    if b > q {
                        if node_is_end(self.nodes@[q as int]) {
                            lemma_sibling_run_stops(self.nodes@, p as int, b, q as int);
                        }
                    }
                }
            }
            p += 1;
        }
        true
    }

    /// One step of the depth-first tally search, mirroring `alpha_from`.
    fn alpha_step(&self, p: i32, tally: &mut Vec<u8>, rem: usize) -> (r: bool)
        requires
            self.wf(),
            rem == sum_tally(old(tally)@),
            p < self.nodes@.len(),
        ensures
            final(tally)@ == old(tally)@,
            r == alpha_from(self.nodes@, p as int, old(tally)@, rem as nat),
        decreases rem, self.nodes@.len() - p,
    {
        if p < 0 {
            return false;
        }
        let ghost tally0 = old(tally)@;
        let ghost nodesv = self.nodes@;
        let t = self.tile(p) as usize;
        let mut here = false;
        if t < tally.len() && tally[t] > 0 && rem > 0 {
            let prev = tally[t];
            tally.set(t, prev - 1);
            let ghost tally2 = tally@;
            proof {
                assert(tally2 =~= tally0.update(t as int, (prev - 1) as u8));
                lemma_sum_tally_update(tally0, t as int, (prev - 1) as u8);
            }
            if rem == 1 {
                here = self.accepts(p);
            } else {
                let c = self.arc_index(p);
                if c > 0 {
                    here = self.alpha_step(c, tally, rem - 1);
                    assert(here == alpha_from(nodesv, c as int, tally2, (rem - 1) as nat));
                }
            }
            tally.set(t, prev);
            proof {
                assert(tally@ =~= tally0);
            }
        }
        proof {
            let tspec = node_tile(nodesv[p as int]) as int;
            assert(tspec == t);
            assert(here == ({
                if 0 <= tspec < tally0.len() && tally0[tspec] > 0 && rem > 0 {
                    let tally2 = tally0.update(tspec, (tally0[tspec] - 1) as u8);
                    if rem as nat == 1 {
                        node_accepts(nodesv[p as int])
                    } else {
                        node_arc_index(nodesv[p as int]) > 0
                            && alpha_from(nodesv, node_arc_index(nodesv[p as int]), tally2,
                                (rem - 1) as nat)
                    }
                } else {
                    false
                }
            }));
        }
        if here {
            true
        } else if !self.is_end(p) {
            if p as usize + 1 >= self.nodes.len() {
                assert(!alpha_from(nodesv, p as int + 1, tally0, rem as nat));
                false
            } else {
                self.alpha_step(p + 1, tally, rem)
            }
        } else {
            false
        }
    }
}

/// Seeking one more tile extends the chain by one seek.
pub proof fn lemma_chain_seek_snoc(nodes: Seq<u32>, p: int, w: Seq<u8>, t: u8)
    ensures
        chain_seek(nodes, p, w.push(t)) == seek_spec(nodes, chain_seek(nodes, p, w), t),
    decreases w.len(),
{
    if w.len() == 0 {
        assert(w.push(t)[0] == t);
        assert(w.push(t).skip(1) =~= Seq::<u8>::empty());
        assert(chain_seek(nodes, p, w.push(t))
            == chain_seek(nodes, seek_spec(nodes, p, t), w.push(t).skip(1)));
        assert(chain_seek(nodes, seek_spec(nodes, p, t), Seq::<u8>::empty())
            == seek_spec(nodes, p, t));
        assert(chain_seek(nodes, p, w) == p);
    } else {
        assert(w.push(t)[0] == w[0]);
        assert(w.push(t).skip(1) =~= w.skip(1).push(t));
        lemma_chain_seek_snoc(nodes, seek_spec(nodes, p, w[0]), w.skip(1), t);
        assert(chain_seek(nodes, p, w.push(t))
            == chain_seek(nodes, seek_spec(nodes, p, w[0]), w.skip(1).push(t)));
        assert(chain_seek(nodes, p, w)
            == chain_seek(nodes, seek_spec(nodes, p, w[0]), w.skip(1)));
    }
}

/// Changing one entry of a tally changes the sum by the difference.
pub proof fn lemma_sum_tally_update(tally: Seq<u8>, i: int, v: u8)
    requires
        0 <= i < tally.len(),
    ensures
        sum_tally(tally.update(i, v)) == sum_tally(tally) - tally[i] + v,
    decreases tally.len(),
{
    if i == 0 {
        assert(tally.update(0, v)[0] == v);
        assert(tally.update(0, v).skip(1) =~= tally.skip(1));
    } else {
        assert(tally.update(i, v)[0] == tally[0]);
        assert(tally.update(i, v).skip(1) =~= tally.skip(1).update(i - 1, v));
        lemma_sum_tally_update(tally.skip(1), i - 1, v);
    }
}

/// A tally of all zeroes sums to zero, and a sum of zero means all zeroes.
pub proof fn lemma_sum_tally_zero(tally: Seq<u8>)
    requires
        sum_tally(tally) == 0,
    ensures
        forall|i: int| 0 <= i < tally.len() ==> tally[i] == 0,
    decreases tally.len(),
{
    if tally.len() > 0 {
        lemma_sum_tally_nonneg(tally.skip(1));
        lemma_sum_tally_zero(tally.skip(1));
        assert(forall|i: int| 1 <= i < tally.len() ==> tally[i] == tally.skip(1)[i - 1]);
    }
}

/// A tally's sum is never negative.
pub proof fn lemma_sum_tally_nonneg(tally: Seq<u8>)
    ensures
        sum_tally(tally) >= 0,
    decreases tally.len(),
{
    if tally.len() > 0 {
        lemma_sum_tally_nonneg(tally.skip(1));
    }
}

impl Kwg {
    /// Walk the whole graph and hand back its words.  Every emitted word
    /// is accepted, and every accepted word no longer than `max_len`
    /// comes out: the seek chain of such a word is itself a path of this
    /// walk.  `max_len` also keeps a malformed graph from walking forever.
    pub fn each_word(&self, max_len: u8) -> (out: Vec<Vec<u8>>)
        requires
            self.wf(),
        ensures
            forall|k: int|
                0 <= k < out@.len() ==> word_accepted(self.nodes@, (#[trigger] out@[k])@),
            forall|w: Seq<u8>|
                #[trigger] word_accepted(self.nodes@, w) && w.len() <= max_len ==> emitted_word(
                    out@, w),
            // under ascending sibling tiles the words come out in strictly
            // increasing order, so each exactly once
            sibling_tiles_sorted(self.nodes@) ==> forall|k1: int, k2: int|
                0 <= k1 < k2 < out@.len() ==> lex_lt((#[trigger] out@[k1])@,
                    (#[trigger] out@[k2])@),
    {
        let mut out: Vec<Vec<u8>> = Vec::new();
        if self.node_count() == 0 {
            return out;
        }
        let c = self.arc_index(0);
        if c > 0 && max_len > 0 {
            let mut buf: Vec<u8> = Vec::new();
            self.words_from(c, &mut buf, &mut out, max_len);
            proof {
                assert forall|w: Seq<u8>|
                    #[trigger] word_accepted(self.nodes@, w) && w.len() <= max_len
                    implies emitted_word(out@, w) by {
                    lemma_chain_is_word_from(self.nodes@, 0, w);
                    assert(Seq::<u8>::empty() + w =~= w);
                }
            }
        } else {
            proof {
                assert forall|w: Seq<u8>|
                    #[trigger] word_accepted(self.nodes@, w) && w.len() <= max_len
                    implies emitted_word(out@, w) by {
                    lemma_chain_is_word_from(self.nodes@, 0, w);
                }
            }
        }
        out
    }

    fn words_from(&self, p: i32, buf: &mut Vec<u8>, out: &mut Vec<Vec<u8>>, fuel: u8)
        requires
            self.wf(),
            0 < p < self.nodes@.len(),
            fuel >= 1,
        ensures
            final(buf)@ == old(buf)@,
            final(out)@.len() >= old(out)@.len(),
            forall|k: int| 0 <= k < old(out)@.len() ==> final(out)@[k] == old(out)@[k],
            forall|k: int|
                old(out)@.len() <= k < final(out)@.len() ==> word_accepted(self.nodes@,
                    (#[trigger] final(out)@[k])@),
            // completeness: every committed path through this list that
            // spells an accepted whole word is emitted
            forall|w: Seq<u8>|
                #[trigger] word_from(self.nodes@, p as int, w) && w.len() <= fuel
                    && word_accepted(self.nodes@, old(buf)@ + w) ==> emitted_word(final(out)@,
                    old(buf)@ + w),
            // under ascending sibling tiles, every new word extends the
            // buffer with a letter from this list on ...
            sibling_tiles_sorted(self.nodes@) ==> forall|k: int|
                old(out)@.len() <= k < final(out)@.len()
                    ==> (#[trigger] final(out)@[k])@.len() > old(buf)@.len()
                    && final(out)@[k]@.take(old(buf)@.len() as int) == old(buf)@
                    && final(out)@[k]@[old(buf)@.len() as int] >= node_tile(
                    self.nodes@[p as int]),
            // ... and the new words are strictly increasing
            sibling_tiles_sorted(self.nodes@) ==> forall|k1: int, k2: int|
                old(out)@.len() <= k1 < k2 < final(out)@.len() ==> lex_lt(
                    (#[trigger] final(out)@[k1])@, (#[trigger] final(out)@[k2])@),
        decreases fuel, self.nodes@.len() - p,
    {
        let ghost buf0 = buf@;
        let ghost out0 = out@;
        let ghost t = node_tile(self.nodes@[p as int]);
        buf.push(self.tile(p));
        if self.accepts(p) {
            // keep it only on the word check's say-so
            if self.accepts_word(buf.as_slice()) {
                let mut copy: Vec<u8> = Vec::new();
                let mut i: usize = 0;
                while i < buf.len()
                    invariant
                        0 <= i <= buf@.len(),
                        copy@ == buf@.take(i as int),
                    decreases buf@.len() - i,
                {
                    copy.push(buf[i]);
                    proof {
                        assert(buf@.take(i as int + 1)
                            =~= buf@.take(i as int).push(buf@[i as int]));
                    }
                    i += 1;
                }
                proof {
                    assert(buf@.take(buf@.len() as int) =~= buf@);
                }
                out.push(copy);
                proof {
                    assert(out@[out@.len() - 1]@ == buf@);
                    assert(emitted_word(out@, buf@));
                }
            }
        }
        let ghost out_a = out@;
        proof {
            assert(node_accepts(self.nodes@[p as int]) && word_accepted(self.nodes@, buf0.push(t))
                ==> emitted_word(out_a, buf0.push(t)));
            assert(out_a.len() <= out0.len() + 1);
            assert(out_a.len() == out0.len() + 1 ==> out_a[out0.len() as int]@ == buf0.push(t));
        }
        let c = self.arc_index(p);
        if c > 0 && fuel > 1 {
            self.words_from(c, buf, out, fuel - 1);
        }
        let ghost out_b = out@;
        buf.pop();
        proof {
            assert(buf@ =~= buf0);
        }
        if !self.is_end(p) {
            if p as usize + 1 < self.node_count() {
                self.words_from(p + 1, buf, out, fuel);
            }
        }
        proof {
            let nodes = self.nodes@;
            assert forall|w: Seq<u8>|
                #[trigger] word_from(nodes, p as int, w) && w.len() <= fuel && word_accepted(
                    nodes, buf0 + w)
                implies emitted_word(out@, buf0 + w) by {
                if node_tile(nodes[p as int]) == w[0] {
                    if w.len() == 1 {
                        assert(buf0 + w =~= buf0.push(t));
                        assert(node_accepts(nodes[p as int]));
                        assert(emitted_word(out_a, buf0 + w));
                        lemma_emitted_monotone(out_a, out_b, buf0 + w);
                        lemma_emitted_monotone(out_b, out@, buf0 + w);
                    } else {
                        // the committed path descends into the child list
                        assert(node_arc_index(nodes[p as int]) > 0);
                        assert(word_from(nodes, node_arc_index(nodes[p as int]), w.skip(1)));
                        assert(buf0.push(t) + w.skip(1) =~= buf0 + w);
                        assert(emitted_word(out_b, buf0 + w));
                        lemma_emitted_monotone(out_b, out@, buf0 + w);
                    }
                } else {
                    // the committed path lies further along this list
                    assert(!node_is_end(nodes[p as int]));
                    assert(word_from(nodes, p as int + 1, w));
                    assert(p as int + 1 < nodes.len());
                }
            }
            if sibling_tiles_sorted(nodes) {
                let m = buf0.len() as int;
                // every new word starts with the buffer and a letter from
                // this sibling list on
                assert forall|k: int| out0.len() <= k < out@.len()
                    implies (#[trigger] out@[k])@.len() > m && out@[k]@.take(m) == buf0
                        && out@[k]@[m] >= t by {
                    if k < out_a.len() {
                        assert(out@[k]@ == buf0.push(t));
                        assert(buf0.push(t).take(m) =~= buf0);
                    } else if k < out_b.len() {
                        let x = out@[k]@;
                        assert(x.take(m + 1) == buf0.push(t));
                        assert(x.take(m) =~= buf0.push(t).take(m));
                        assert(buf0.push(t).take(m) =~= buf0);
                        assert(x[m] == buf0.push(t)[m]);
                    } else {
                        // a word of a later sibling: its first new letter
                        // is strictly larger
                        assert(sibling_run(nodes, p as int + 1, p as int + 1));
                        assert(sibling_run(nodes, p as int, p as int + 1));
                        assert(node_tile(nodes[p as int]) < node_tile(nodes[p as int + 1]));
                    }
                }
                // and the new words are strictly increasing
                assert forall|k1: int, k2: int| out0.len() <= k1 < k2 < out@.len()
                    implies lex_lt((#[trigger] out@[k1])@, (#[trigger] out@[k2])@) by {
                    let a = out@[k1]@;
                    let b = out@[k2]@;
                    if k2 < out_b.len() {
                        if k1 < out_a.len() {
                            // the word at this node precedes its extensions
                            assert(a == buf0.push(t));
                            assert(b.take(m + 1) == buf0.push(t));
                            lemma_lex_prefix(a, b);
                        }
                        // otherwise both lie in the child region: covered
                        // by the child's own ordering
                    } else {
                        // k2 names a later sibling's word, whose letter at
                        // m is strictly larger than this node's
                        assert(sibling_run(nodes, p as int + 1, p as int + 1));
                        assert(sibling_run(nodes, p as int, p as int + 1));
                        assert(node_tile(nodes[p as int]) < node_tile(nodes[p as int + 1]));
                        if k1 < out_b.len() {
                            if k1 < out_a.len() {
                                assert(a == buf0.push(t));
                                assert(a.take(m) =~= buf0);
                            } else {
                                assert(a.take(m + 1) == buf0.push(t));
                                assert(a.take(m) =~= buf0.push(t).take(m));
                                assert(buf0.push(t).take(m) =~= buf0);
                                assert(a[m] == buf0.push(t)[m]);
                            }
                            assert(a[m] == t);
                            assert(b[m] > t);
                            lemma_lex_at(a, b, m);
                        }
                        // otherwise both lie in the sibling region:
                        // covered by the sibling call's own ordering
                    }
                }
            }
        }
    }
}

/// A word among the emitted ones.
pub open spec fn emitted_word(out: Seq<Vec<u8>>, w: Seq<u8>) -> bool {
    exists|k: int| 0 <= k < out.len() && (#[trigger] out[k])@ == w
}

/// What is emitted stays emitted when the list only grows at the end.
proof fn lemma_emitted_monotone(out1: Seq<Vec<u8>>, out2: Seq<Vec<u8>>, w: Seq<u8>)
    requires
        emitted_word(out1, w),
        out2.len() >= out1.len(),
        forall|k: int| 0 <= k < out1.len() ==> out2[k] == out1[k],
    ensures
        emitted_word(out2, w),
{
    let k = choose|k: int| 0 <= k < out1.len() && (#[trigger] out1[k])@ == w;
    assert(out2[k]@ == w);
}

/// Sequential seek from the root is what acceptance means: this unfolds
/// `word_accepted` into the chain of seeks it is defined by.
pub proof fn lemma_word_accepted_is_seek_chain(nodes: Seq<u32>, w: Seq<u8>)
    ensures
        word_accepted(nodes, w) <==> (w.len() > 0 && {
            let q = chain_seek(nodes, 0, w);
            0 <= q < nodes.len() && node_accepts(nodes[q])
        }),
{
}

/// A path spelling `w` from the sibling list at `p`: commit to the first
/// sibling bearing `w`'s first letter, then descend.
pub open spec fn word_from(nodes: Seq<u32>, p: int, w: Seq<u8>) -> bool
    decreases w.len(), (if p < 0 { 0int } else { nodes.len() - p }),
{
    if w.len() == 0 || p < 0 || p >= nodes.len() {
        false
    } else if node_tile(nodes[p]) == w[0] {
        if w.len() == 1 {
            node_accepts(nodes[p])
        } else {
            node_arc_index(nodes[p]) > 0 && word_from(nodes, node_arc_index(nodes[p]),
                w.skip(1))
        }
    } else if node_is_end(nodes[p]) {
        false
    } else {
        word_from(nodes, p + 1, w)
    }
}

/// `w` has exactly the letters the tally counts.
pub open spec fn matches_tally(w: Seq<u8>, tally: Seq<u8>) -> bool {
    &&& w.len() == sum_tally(tally)
    &&& forall|i: int| 0 <= i < w.len() ==> (#[trigger] w[i] as int) < tally.len()
    &&& forall|u: int|
        0 <= u < tally.len() ==> crate::board::count_in(w, u as u8) == #[trigger] tally[u]
}

/// A found sibling is a real node.
proof fn lemma_seek_in_arcs_range(nodes: Seq<u32>, c: int, t: u8)
    ensures
        seek_in_arcs(nodes, c, t) >= 0 ==> seek_in_arcs(nodes, c, t) < nodes.len(),
    decreases (if c < 0 { 0int } else { nodes.len() - c }),
{
    if 0 <= c < nodes.len() && node_tile(nodes[c]) != t && !node_is_end(nodes[c]) {
        lemma_seek_in_arcs_range(nodes, c + 1, t);
    }
}

/// A chain from a negative pointer stays negative.
proof fn lemma_chain_neg(nodes: Seq<u32>, p: int, w: Seq<u8>)
    requires
        p < 0,
    ensures
        chain_seek(nodes, p, w) < 0,
    decreases w.len(),
{
    if w.len() > 0 {
        lemma_chain_neg(nodes, seek_spec(nodes, p, w[0]), w.skip(1));
    }
}

/// Committing along a sibling list is the same as seeking in it.
proof fn lemma_word_from_vs_seek(nodes: Seq<u32>, c: int, w: Seq<u8>)
    requires
        w.len() > 0,
        0 <= c,
    ensures
        word_from(nodes, c, w) <==> ({
            let q = seek_in_arcs(nodes, c, w[0]);
            0 <= q < nodes.len() && (if w.len() == 1 {
                node_accepts(nodes[q])
            } else {
                node_arc_index(nodes[q]) > 0 && word_from(nodes, node_arc_index(nodes[q]),
                    w.skip(1))
            })
        }),
    decreases nodes.len() - c,
{
    if c >= nodes.len() {
    } else if node_tile(nodes[c]) == w[0] {
    } else if node_is_end(nodes[c]) {
    } else {
        lemma_word_from_vs_seek(nodes, c + 1, w);
    }
}

/// A seek chain accepts exactly when a committed path spells the word.
proof fn lemma_chain_is_word_from(nodes: Seq<u32>, p: int, w: Seq<u8>)
    requires
        0 <= p < nodes.len(),
        w.len() > 0,
    ensures
        ({
            let q = chain_seek(nodes, p, w);
            (0 <= q < nodes.len() && node_accepts(nodes[q])) <==> (node_arc_index(nodes[p]) > 0
                && word_from(nodes, node_arc_index(nodes[p]), w))
        }),
    decreases w.len(),
{
    let arc = node_arc_index(nodes[p]);
    let s0 = seek_spec(nodes, p, w[0]);
    lemma_seek_in_arcs_range(nodes, arc, w[0]);
    if w.len() == 1 {
        assert(chain_seek(nodes, p, w) == chain_seek(nodes, s0, w.skip(1)));
        assert(w.skip(1).len() == 0);
        assert(chain_seek(nodes, s0, w.skip(1)) == s0);
        if arc > 0 {
            lemma_word_from_vs_seek(nodes, arc, w);
        }
    } else {
        assert(chain_seek(nodes, p, w) == chain_seek(nodes, s0, w.skip(1)));
        if s0 < 0 {
            lemma_chain_neg(nodes, s0, w.skip(1));
            if arc > 0 {
                lemma_word_from_vs_seek(nodes, arc, w);
            }
        } else {
            assert(arc > 0);
            lemma_chain_is_word_from(nodes, s0, w.skip(1));
            lemma_word_from_vs_seek(nodes, arc, w);
        }
    }
}

/// The first letter leaves; every other count stays.
proof fn lemma_count_in_head(w: Seq<u8>, u: u8)
    requires
        w.len() > 0,
    ensures
        crate::board::count_in(w, u) == (if w[0] == u {
            1int
        } else {
            0int
        }) + crate::board::count_in(w.skip(1), u),
    decreases w.len(),
{
    if w.len() == 1 {
        assert(w.drop_last() =~= Seq::<u8>::empty());
        assert(w.skip(1) =~= Seq::<u8>::empty());
    } else {
        assert(w.drop_last()[0] == w[0]);
        lemma_count_in_head(w.drop_last(), u);
        assert(w.skip(1).drop_last() =~= w.drop_last().skip(1));
        assert(w.skip(1).last() == w.last());
    }
}

/// A word spelled by a committed path feeds the tally search: consuming
/// the word's letters in its own order is one of the searched orders.
proof fn lemma_word_from_feeds_alpha(nodes: Seq<u32>, p: int, tally: Seq<u8>, w: Seq<u8>)
    requires
        matches_tally(w, tally),
        tally.len() <= 256,
        word_from(nodes, p, w),
        0 <= p,
    ensures
        alpha_from(nodes, p, tally, w.len() as nat),
    decreases w.len(), (if p < 0 { 0int } else { nodes.len() - p }),
{
    lemma_sum_tally_nonneg(tally);
    assert(w.len() > 0);
    assert(p < nodes.len());
    let t = node_tile(nodes[p]);
    if t == w[0] {
        assert(0 <= t < tally.len());
        lemma_count_in_head(w, t);
        crate::board::lemma_count_in_bound(w.skip(1), t);
        assert(tally[t as int] > 0);
        let tally2 = tally.update(t as int, (tally[t as int] - 1) as u8);
        lemma_sum_tally_update(tally, t as int, (tally[t as int] - 1) as u8);
        if w.len() == 1 {
            assert(alpha_from(nodes, p, tally, 1nat));
        } else {
            assert(matches_tally(w.skip(1), tally2)) by {
                assert forall|u: int| 0 <= u < tally2.len()
                    implies crate::board::count_in(w.skip(1), u as u8) == #[trigger] tally2[
                    u] by {
                    assert(u as u8 as int == u);
                    lemma_count_in_head(w, u as u8);
                    assert(crate::board::count_in(w, u as u8) == tally[u]);
                }
                assert forall|i: int| 0 <= i < w.skip(1).len()
                    implies (#[trigger] w.skip(1)[i] as int) < tally2.len() by {
                    assert(w.skip(1)[i] == w[i + 1]);
                }
            }
            lemma_word_from_feeds_alpha(nodes, node_arc_index(nodes[p]), tally2, w.skip(1));
            assert(alpha_from(nodes, p, tally, w.len() as nat));
        }
    } else {
        assert(!node_is_end(nodes[p]));
        lemma_word_from_feeds_alpha(nodes, p + 1, tally, w);
        assert(alpha_from(nodes, p, tally, w.len() as nat));
    }
}

/// Any rearrangement of an accepted word is accepted by the tally search:
/// a rack whose tally matches some accepted word passes `accepts_alpha`.
pub proof fn lemma_accepted_word_accepted_alpha(nodes: Seq<u32>, w: Seq<u8>, tally: Seq<u8>)
    requires
        matches_tally(w, tally),
        tally.len() <= 256,
        word_accepted(nodes, w),
    ensures
        alpha_accepts_spec(nodes, tally),
{
    assert(w.len() > 0);
    let q = chain_seek(nodes, 0, w);
    assert(0 <= q < nodes.len());
    assert(nodes.len() > 0);
    lemma_chain_is_word_from(nodes, 0, w);
    assert(node_arc_index(nodes[0]) > 0);
    lemma_word_from_feeds_alpha(nodes, node_arc_index(nodes[0]), tally, w);
}

/// The cells `[p, q]` lie in one sibling list: no list end strictly before
/// `q`.
pub open spec fn sibling_run(nodes: Seq<u32>, p: int, q: int) -> bool
    decreases (if q >= p { q - p } else { 0int }),
{
    &&& 0 <= p <= q < nodes.len()
    &&& (p == q || (!node_is_end(nodes[p]) && sibling_run(nodes, p + 1, q)))
}

/// At most one sibling of any list bears a given tile — the graph
/// invariant a well-formed word graph keeps.
pub open spec fn sibling_tiles_distinct(nodes: Seq<u32>) -> bool {
    forall|p: int, q: int|
        #[trigger] sibling_run(nodes, p, q) && p < q ==> node_tile(nodes[p]) != node_tile(
            nodes[q])
}

/// Every sibling list carries strictly ascending tiles — the stronger
/// form of the invariant, which orders the word enumeration.
pub open spec fn sibling_tiles_sorted(nodes: Seq<u32>) -> bool {
    forall|p: int, q: int|
        #[trigger] sibling_run(nodes, p, q) && p < q ==> node_tile(nodes[p]) < node_tile(
            nodes[q])
}

/// Ascending tiles are in particular distinct.
pub proof fn lemma_sorted_tiles_distinct(nodes: Seq<u32>)
    requires
        sibling_tiles_sorted(nodes),
    ensures
        sibling_tiles_distinct(nodes),
{
}

/// Strict lexicographic order on tile strings; a proper prefix comes
/// before its extensions.
pub open spec fn lex_lt(a: Seq<u8>, b: Seq<u8>) -> bool
    decreases a.len(),
{
    if b.len() == 0 {
        false
    } else if a.len() == 0 {
        true
    } else if a[0] < b[0] {
        true
    } else if a[0] > b[0] {
        false
    } else {
        lex_lt(a.skip(1), b.skip(1))
    }
}

/// A proper prefix precedes its extensions.
pub proof fn lemma_lex_prefix(a: Seq<u8>, b: Seq<u8>)
    requires
        a.len() < b.len(),
        a == b.take(a.len() as int),
    ensures
        lex_lt(a, b),
    decreases a.len(),
{
    if a.len() > 0 {
        assert(a[0] == b.take(a.len() as int)[0]);
        assert(a.skip(1) =~= b.skip(1).take(a.len() - 1));
        lemma_lex_prefix(a.skip(1), b.skip(1));
    }
}

/// Strings that agree up to `m` and differ there order by that letter.
pub proof fn lemma_lex_at(a: Seq<u8>, b: Seq<u8>, m: int)
    requires
        0 <= m < a.len(),
        m < b.len(),
        a.take(m) == b.take(m),
        a[m] < b[m],
    ensures
        lex_lt(a, b),
    decreases m,
{
    if m == 0 {
    } else {
        assert(a[0] == a.take(m)[0]);
        assert(b[0] == b.take(m)[0]);
        assert(a.skip(1).take(m - 1) =~= a.take(m).skip(1));
        assert(b.skip(1).take(m - 1) =~= b.take(m).skip(1));
        assert(a.skip(1)[m - 1] == a[m]);
        assert(b.skip(1)[m - 1] == b[m]);
        lemma_lex_at(a.skip(1), b.skip(1), m - 1);
    }
}

/// A run that walks one more non-end step is still a run.
proof fn lemma_sibling_run_extend(nodes: Seq<u32>, p: int, q: int)
    requires
        0 <= p <= q - 1,
        q < nodes.len(),
        sibling_run(nodes, p, q - 1),
        !node_is_end(nodes[q - 1]),
    ensures
        sibling_run(nodes, p, q),
    decreases q - p,
{
    if p < q - 1 {
        lemma_sibling_run_extend(nodes, p + 1, q);
    } else {
        assert(sibling_run(nodes, q, q));
    }
}

/// No run crosses a list end.
proof fn lemma_sibling_run_stops(nodes: Seq<u32>, p: int, b: int, q: int)
    requires
        sibling_run(nodes, p, b),
        p <= q,
        node_is_end(nodes[q]),
    ensures
        b <= q,
    decreases q - p,
{
    if p < q && b > p {
        lemma_sibling_run_stops(nodes, p + 1, b, q);
    }
}

/// A found sibling lies in the list it was sought in.
proof fn lemma_seek_in_arcs_in_run(nodes: Seq<u32>, c: int, t: u8)
    requires
        0 <= c,
        seek_in_arcs(nodes, c, t) >= 0,
    ensures
        sibling_run(nodes, c, seek_in_arcs(nodes, c, t)),
        node_tile(nodes[seek_in_arcs(nodes, c, t)]) == t,
    decreases nodes.len() - c,
{
    if c < nodes.len() && node_tile(nodes[c]) != t && !node_is_end(nodes[c]) {
        lemma_seek_in_arcs_in_run(nodes, c + 1, t);
    }
}

/// Under distinct sibling tiles, a successful tally search yields a word:
/// some ordering of the tally's letters is a committed path.
proof fn lemma_alpha_yields_word(nodes: Seq<u32>, p: int, tally: Seq<u8>, rem: nat)
    requires
        sibling_tiles_distinct(nodes),
        tally.len() <= 256,
        rem == sum_tally(tally),
        rem > 0,
        0 <= p,
        alpha_from(nodes, p, tally, rem),
    ensures
        exists|w: Seq<u8>| matches_tally(w, tally) && #[trigger] word_from(nodes, p, w),
    decreases rem, (if p < 0 { 0int } else { nodes.len() - p }),
{
    assert(p < nodes.len());
    let t = node_tile(nodes[p]) as int;
    let here = 0 <= t < tally.len() && tally[t] > 0 && ({
        let tally2 = tally.update(t, (tally[t] - 1) as u8);
        if rem == 1 {
            node_accepts(nodes[p])
        } else {
            node_arc_index(nodes[p]) > 0 && alpha_from(nodes, node_arc_index(nodes[p]), tally2,
                (rem - 1) as nat)
        }
    });
    if here {
        let tu = t as u8;
        let tally2 = tally.update(t, (tally[t] - 1) as u8);
        lemma_sum_tally_update(tally, t, (tally[t] - 1) as u8);
        if rem == 1 {
            let w = seq![tu];
            assert(word_from(nodes, p, w));
            assert(matches_tally(w, tally)) by {
                assert(sum_tally(tally2) == 0);
                lemma_sum_tally_zero(tally2);
                crate::board::lemma_sum_tally_entry(tally, t);
                assert(tally[t] == 1);
                assert forall|u: int| 0 <= u < tally.len()
                    implies crate::board::count_in(w, u as u8) == #[trigger] tally[u] by {
                    assert(u as u8 as int == u);
                    assert(w.drop_last() =~= Seq::<u8>::empty());
                    assert(w.last() == tu);
                    assert(crate::board::count_in(Seq::<u8>::empty(), u as u8) == 0);
                    assert(crate::board::count_in(w, u as u8) == (if tu == u as u8 {
                        1int
                    } else {
                        0int
                    }));
                    if u != t {
                        assert(tally2[u] == 0);
                        assert(tally2[u] == tally[u]);
                    }
                }
            }
        } else {
            lemma_alpha_yields_word(nodes, node_arc_index(nodes[p]), tally2, (rem - 1) as nat);
            let w2 = choose|w2: Seq<u8>|
                matches_tally(w2, tally2) && #[trigger] word_from(nodes,
                    node_arc_index(nodes[p]), w2);
            let w = seq![tu] + w2;
            assert(w[0] == tu);
            assert(w.skip(1) =~= w2);
            assert(word_from(nodes, p, w));
            assert(matches_tally(w, tally)) by {
                assert forall|u: int| 0 <= u < tally.len()
                    implies crate::board::count_in(w, u as u8) == #[trigger] tally[u] by {
                    assert(u as u8 as int == u);
                    lemma_count_in_head(w, u as u8);
                    assert(crate::board::count_in(w2, u as u8) == tally2[u]);
                    if u != t {
                        assert(tally2[u] == tally[u]);
                    }
                }
                assert forall|i: int| 0 <= i < w.len()
                    implies (#[trigger] w[i] as int) < tally.len() by {
                    if i > 0 {
                        assert(w[i] == w2[i - 1]);
                    }
                }
            }
        }
    } else {
        assert(!node_is_end(nodes[p]) && alpha_from(nodes, p + 1, tally, rem));
        lemma_alpha_yields_word(nodes, p + 1, tally, rem);
        let w = choose|w: Seq<u8>|
            matches_tally(w, tally) && #[trigger] word_from(nodes, p + 1, w);
        assert(w.len() > 0);
        if node_tile(nodes[p]) == w[0] {
            // the same tile cannot sit twice in one list, so the path
            // found after `p` cannot start with `p`'s own tile
            lemma_word_from_vs_seek(nodes, p + 1, w);
            let q = seek_in_arcs(nodes, p + 1, w[0]);
            lemma_seek_in_arcs_in_run(nodes, p + 1, w[0]);
            assert(sibling_run(nodes, p, q));
            assert(false);
        }
        assert(word_from(nodes, p, w));
    }
}

/// The anagram law: under distinct sibling tiles, the tally search accepts
/// a rack exactly when some ordering of its letters is an accepted word.
pub proof fn lemma_alpha_is_anagram_acceptance(nodes: Seq<u32>, tally: Seq<u8>)
    requires
        sibling_tiles_distinct(nodes),
        tally.len() <= 256,
    ensures
        alpha_accepts_spec(nodes, tally) <==> exists|w: Seq<u8>|
            #[trigger] matches_tally(w, tally) && word_accepted(nodes, w),
{
    lemma_sum_tally_nonneg(tally);
    if alpha_accepts_spec(nodes, tally) {
        let arc0 = node_arc_index(nodes[0]);
        lemma_alpha_yields_word(nodes, arc0, tally, sum_tally(tally) as nat);
        let w = choose|w: Seq<u8>|
            matches_tally(w, tally) && #[trigger] word_from(nodes, arc0, w);
        lemma_chain_is_word_from(nodes, 0, w);
        assert(matches_tally(w, tally) && word_accepted(nodes, w));
    }
    if exists|w: Seq<u8>| #[trigger] matches_tally(w, tally) && word_accepted(nodes, w) {
        let w = choose|w: Seq<u8>| #[trigger] matches_tally(w, tally) && word_accepted(nodes, w);
        lemma_accepted_word_accepted_alpha(nodes, w, tally);
    }
}

} // verus!
