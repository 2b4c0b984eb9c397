//! Leave values: what a rack left behind after a play is worth.
//!
//! A KLV is a word graph whose accepted "words" are sorted racks, a count
//! of accepted words per node, and a parallel array of values.  Looking a
//! rack up walks the graph letter by letter, adding up the counts of the
//! sibling nodes it walks past; the sum is the rack's position among all
//! accepted racks and indexes the value array.  A rack the graph does not
//! accept — in particular any rack, under an empty KLV — is worth zero.

use vstd::prelude::*;

use crate::board::count_in;
use crate::kwg::Kwg;
use crate::kwg::node_accepts;
use crate::kwg::node_arc_index;
use crate::kwg::node_is_end;
use crate::kwg::node_tile;

verus! {

/// The walk: at letter `i` of `w`, on sibling `p`, having passed `idx`
/// accepted words.  The result is the word index of `w`, when accepted.
pub open spec fn klv_walk(
    nodes: Seq<u32>,
    counts: Seq<u32>,
    w: Seq<u8>,
    i: int,
    p: int,
    idx: int,
) -> Option<int>
    decreases w.len() - i, (if p < 0 { 0int } else { nodes.len() - p }),
{
    if i < 0 || i >= w.len() || p < 0 || p >= nodes.len() || counts.len() != nodes.len() {
        None
    } else if node_tile(nodes[p]) == w[i] {
        if i == w.len() - 1 {
            if node_accepts(nodes[p]) {
                Some(idx)
            } else {
                None
            }
        } else {
            let idx2 = idx + (if node_accepts(nodes[p]) {
                1int
            } else {
                0int
            });
            if node_arc_index(nodes[p]) > 0 {
                klv_walk(nodes, counts, w, i + 1, node_arc_index(nodes[p]), idx2)
            } else {
                None
            }
        }
    } else if node_is_end(nodes[p]) {
        None
    } else {
        klv_walk(nodes, counts, w, i, p + 1, idx + counts[p])
    }
}

/// The leave value of the sorted rack `w`: the value at its word index,
/// zero when the graph does not accept it.
pub open spec fn klv_lookup(
    nodes: Seq<u32>,
    counts: Seq<u32>,
    leaves: Seq<i64>,
    w: Seq<u8>,
) -> i64 {
    if w.len() == 0 || nodes.len() == 0 || counts.len() != nodes.len() || node_arc_index(
        nodes[0],
    ) <= 0 {
        0
    } else {
        match klv_walk(nodes, counts, w, 0, node_arc_index(nodes[0]), 0) {
            None => 0,
            Some(f) => if 0 <= f < leaves.len() {
                leaves[f]
            } else {
                0
            },
        }
    }
}

/// Sum of the counts over the sibling list starting at `c`.
pub open spec fn sibling_count_sum(nodes: Seq<u32>, counts: Seq<u32>, c: int) -> int
    decreases (if c < 0 { 0int } else { nodes.len() - c }),
{
    if c <= 0 || c >= nodes.len() || c >= counts.len() {
        0int
    } else if node_is_end(nodes[c]) {
        counts[c] as int
    } else {
        counts[c] + sibling_count_sum(nodes, counts, c + 1)
    }
}

/// The word-count recurrence at node `p`: the node counts one word for
/// itself when it accepts, plus everything under its children.  On an
/// acyclic graph, the unique solution counts the accepted words of each
/// subtree — the meaning the lookup's skip-indexing rests on.
pub open spec fn count_recurrence_at(nodes: Seq<u32>, counts: Seq<u32>, p: int) -> bool {
    counts[p] as int == (if node_accepts(nodes[p]) {
        1int
    } else {
        0int
    }) + sibling_count_sum(nodes, counts, node_arc_index(nodes[p]))
}

/// No partial sum of counts is negative.
proof fn lemma_sibling_count_sum_nonneg(nodes: Seq<u32>, counts: Seq<u32>, c: int)
    ensures
        sibling_count_sum(nodes, counts, c) >= 0,
    decreases (if c < 0 { 0int } else { nodes.len() - c }),
{
    if 0 < c && c < nodes.len() && c < counts.len() && !node_is_end(nodes[c]) {
        lemma_sibling_count_sum_nonneg(nodes, counts, c + 1);
    }
}

/// Whether the counts satisfy the word-count recurrence at every node.
pub fn check_word_counts(kwg: &Kwg, counts: &Vec<u32>) -> (r: bool)
    requires
        kwg.wf(),
    ensures
        r == (counts@.len() == kwg.nodes@.len() && forall|p: int|
            0 <= p < counts@.len() ==> #[trigger] count_recurrence_at(kwg.nodes@, counts@, p)),
{
    let n = kwg.node_count();
    if counts.len() != n {
        return false;
    }
    let mut p: usize = 0;
    while p < n
        invariant
            kwg.wf(),
            n == kwg.nodes@.len(),
            counts@.len() == n,
            0 <= p <= n,
            forall|q: int| 0 <= q < p ==> count_recurrence_at(kwg.nodes@, counts@, q),
        decreases n - p,
    {
        let own: u64 = if kwg.accepts(p as i32) {
            1
        } else {
            0
        };
        let c = kwg.arc_index(p as i32);
        // add the child list up; a sum past the count range can never
        // match a stored count
        let mut acc: u64 = 0;
        let mut q = c;
        let mut complete = true;
        if q > 0 {
            loop
                invariant_except_break
                    complete,
                    sibling_count_sum(kwg.nodes@, counts@, c as int) == acc
                        + sibling_count_sum(kwg.nodes@, counts@, q as int),
                invariant
                    kwg.wf(),
                    n == kwg.nodes@.len(),
                    counts@.len() == n,
                    0 < q < n,
                    acc <= 0xffff_ffff,
                ensures
                    complete ==> acc == sibling_count_sum(kwg.nodes@, counts@, c as int),
                    !complete ==> sibling_count_sum(kwg.nodes@, counts@, c as int)
                        > 0xffff_ffff,
                decreases n - q,
            {
                let step = counts[q as usize] as u64;
                if acc + step > 0xffff_ffff {
                    proof {
                        // the run's sum already exceeds any storable count
                        if node_is_end(kwg.nodes@[q as int]) {
                            assert(sibling_count_sum(kwg.nodes@, counts@, q as int)
                                == counts@[q as int]);
                        } else {
                            lemma_sibling_count_sum_nonneg(kwg.nodes@, counts@, q as int + 1);
                            assert(sibling_count_sum(kwg.nodes@, counts@, q as int)
                                == counts@[q as int] + sibling_count_sum(kwg.nodes@, counts@,
                                q as int + 1));
                        }
                        assert(sibling_count_sum(kwg.nodes@, counts@, c as int)
                            > 0xffff_ffff);
                    }
                    complete = false;
                    break;
                }
                acc = acc + step;
                if kwg.is_end(q) {
                    proof {
                        assert(sibling_count_sum(kwg.nodes@, counts@, q as int)
                            == counts@[q as int]);
                    }
                    break;
                }
                if q as usize + 1 >= n {
                    proof {
                        assert(sibling_count_sum(kwg.nodes@, counts@, q as int + 1) == 0);
                        assert(sibling_count_sum(kwg.nodes@, counts@, q as int)
                            == counts@[q as int] + sibling_count_sum(kwg.nodes@, counts@,
                            q as int + 1));
                    }
                    break;
                }
                proof {
                    assert(sibling_count_sum(kwg.nodes@, counts@, q as int)
                        == counts@[q as int] + sibling_count_sum(kwg.nodes@, counts@,
                        q as int + 1));
                }
                q = q + 1;
            }
        }
        if !complete {
            proof {
                assert(!count_recurrence_at(kwg.nodes@, counts@, p as int));
            }
            return false;
        }
        if counts[p] as u64 != own + acc {
            proof {
                assert(!count_recurrence_at(kwg.nodes@, counts@, p as int));
            }
            return false;
        }
        proof {
            assert(count_recurrence_at(kwg.nodes@, counts@, p as int));
        }
        p += 1;
    }
    true
}

/// A word graph with word counts and leave values.
pub struct Klv {
    pub kwg: Kwg,
    pub counts: Vec<u32>,
    pub leaves: Vec<i64>,
}

impl Klv {
    pub open spec fn wf(&self) -> bool {
        &&& self.kwg.wf()
        &&& self.counts@.len() == self.kwg.nodes@.len()
        &&& self.leaves@.len() <= 0x1000_0000
        &&& forall|i: int|
            0 <= i < self.leaves@.len() ==> -1000000000 <= #[trigger] self.leaves@[i]
                <= 1000000000
    }

    /// The leave value its data assigns to the sorted rack `w`.
    pub open spec fn value_spec(&self, w: Seq<u8>) -> i64 {
        klv_lookup(self.kwg.nodes@, self.counts@, self.leaves@, w)
    }

    /// An empty KLV: worth zero for every rack.
    pub fn empty() -> (r: Klv)
        ensures
            r.wf(),
            forall|w: Seq<u8>| r.value_spec(w) == 0,
    {
        let kwg = Kwg { nodes: Vec::new() };
        Klv { kwg, counts: Vec::new(), leaves: Vec::new() }
    }

    /// Assemble a KLV, checking the sizes that `wf` needs.
    pub fn from_parts(kwg: Kwg, counts: Vec<u32>, leaves: Vec<i64>) -> (r: Result<Klv, ()>)
        requires
            kwg.wf(),
        ensures
            match r {
                Ok(k) => k.wf() && k.kwg == kwg && k.counts@ == counts@ && k.leaves@ == leaves@,
                Err(()) => true,
            },
            r is Ok <==> (counts@.len() == kwg.nodes@.len() && leaves@.len() <= 0x1000_0000
                && forall|i: int|
                0 <= i < leaves@.len() ==> -1000000000 <= #[trigger] leaves@[i] <= 1000000000),
    {
        if counts.len() != kwg.node_count() || leaves.len() > 0x1000_0000 {
            return Err(());
        }
        let mut i: usize = 0;
        while i < leaves.len()
            invariant
                0 <= i <= leaves@.len(),
                forall|j: int|
                    0 <= j < i ==> -1000000000 <= #[trigger] leaves@[j] <= 1000000000,
            decreases leaves@.len() - i,
        {
            if leaves[i] < -1000000000 || leaves[i] > 1000000000 {
                return Err(());
            }
            i += 1;
        }
        Ok(Klv { kwg, counts, leaves })
    }

    /// The walk, with the running index capped at the value count: any
    /// index at or past the count looks up to zero anyway.  `true_idx` is
    /// the uncapped index the specification threads.
    fn walk(&self, w: &[u8], i: usize, p: i32, idx: usize, true_idx: Ghost<int>) -> (r: Option<
        usize,
    >)
        requires
            self.wf(),
            i < w@.len(),
            p < self.kwg.nodes@.len(),
            0 <= true_idx@,
            idx as int == true_idx@ || (true_idx@ >= self.leaves@.len() && idx == self.leaves@.len()),
            idx <= self.leaves@.len(),
        ensures
            ({
                let walk_r = klv_walk(self.kwg.nodes@, self.counts@, w@, i as int, p as int,
                    true_idx@);
                let cap = self.leaves@.len() as int;
                match walk_r {
                    None => r is None,
                    Some(f) => r matches Some(v) && (v as int == f || (f >= cap && v == cap)),
                }
            }),
        decreases w@.len() - i, (if p < 0 { 0int } else { self.kwg.nodes@.len() - p }),
    {
        if p < 0 {
            return None;
        }
        let t = self.kwg.tile(p);
        if t == w[i] {
            if i == w.len() - 1 {
                if self.kwg.accepts(p) {
                    Some(idx)
                } else {
                    None
                }
            } else {
                let bump: usize = if self.kwg.accepts(p) {
                    1
                } else {
                    0
                };
                let idx2 = if bump >= self.leaves.len() - idx {
                    self.leaves.len()
                } else {
                    idx + bump
                };
                let c = self.kwg.arc_index(p);
                if c > 0 {
                    self.walk(w, i + 1, c, idx2, Ghost(true_idx@ + bump))
                } else {
                    None
                }
            }
        } else if self.kwg.is_end(p) {
            None
        } else {
            if p as usize + 1 >= self.kwg.node_count() {
                proof {
                    assert(klv_walk(self.kwg.nodes@, self.counts@, w@, i as int, p as int + 1,
                        true_idx@ + self.counts@[p as int]) is None);
                }
                return None;
            }
            let cnt = self.counts[p as usize] as usize;
            let idx2 = if cnt >= self.leaves.len() - idx {
                self.leaves.len()
            } else {
                idx + cnt
            };
            self.walk(w, i, p + 1, idx2, Ghost(true_idx@ + self.counts@[p as int]))
        }
    }

    /// The leave value of the sorted rack `w`.
    pub fn leave_value(&self, w: &[u8]) -> (r: i64)
        requires
            self.wf(),
        ensures
            r == self.value_spec(w@),
    {
        if w.len() == 0 || self.kwg.node_count() == 0 {
            return 0;
        }
        let c = self.kwg.arc_index(0);
        if c <= 0 {
            return 0;
        }
        match self.walk(w, 0, c, 0, Ghost(0int)) {
            None => 0,
            Some(v) => {
                if v < self.leaves.len() {
                    self.leaves[v]
                } else {
                    0
                }
            },
        }
    }
}

} // verus!
