//! The unseen-tile tally, the bag, and its shuffle.
//!
//! The bag a request sees is never sent over the wire: it is whatever the
//! alphabet's frequencies leave once both racks and the board are taken
//! out.  A negative count means the history is inconsistent.  The bag is
//! filled from that tally and shuffled; shuffling only rearranges, so the
//! conservation law proved at the end holds of the shuffled bag too.

use vstd::prelude::*;

use crate::GameError;
use crate::alphabet::Alphabet;
use crate::board::count_in;
use crate::kwg::sum_tally;
use crate::rng::next_below;

verus! {

/// The letter a board cell holds: a cell with the blank bit is a blank.
pub open spec fn cell_letter(b: u8) -> u8 {
    if b & 0x80 != 0 {
        0
    } else {
        b
    }
}

/// How many cells of the board hold letter `t`.
pub open spec fn board_count(board: Seq<u8>, t: u8) -> int
    decreases board.len(),
{
    if board.len() == 0 {
        0int
    } else {
        (if board.last() != 0 && cell_letter(board.last()) == t {
            1int
        } else {
            0int
        }) + board_count(board.drop_last(), t)
    }
}

proof fn lemma_board_count_push(board: Seq<u8>, b: u8, t: u8)
    ensures
        board_count(board.push(b), t) == board_count(board, t) + (if b != 0 && cell_letter(b) == t {
            1int
        } else {
            0int
        }),
{
    assert(board.push(b).drop_last() =~= board);
}

proof fn lemma_board_count_nonneg(board: Seq<u8>, t: u8)
    ensures
        0 <= board_count(board, t) <= board.len(),
    decreases board.len(),
{
    if board.len() > 0 {
        lemma_board_count_nonneg(board.drop_last(), t);
    }
}

/// A prefix never holds more copies than the whole.
pub proof fn lemma_count_in_take_le(w: Seq<u8>, k: int, t: u8)
    requires
        0 <= k <= w.len(),
    ensures
        count_in(w.take(k), t) <= count_in(w, t),
    decreases w.len(),
{
    if k < w.len() {
        assert(w.take(k) =~= w.drop_last().take(k));
        lemma_count_in_take_le(w.drop_last(), k, t);
    } else {
        assert(w.take(k) =~= w);
    }
}

proof fn lemma_board_count_take_le(w: Seq<u8>, k: int, t: u8)
    requires
        0 <= k <= w.len(),
    ensures
        board_count(w.take(k), t) <= board_count(w, t),
    decreases w.len(),
{
    if k < w.len() {
        assert(w.take(k) =~= w.drop_last().take(k));
        lemma_board_count_take_le(w.drop_last(), k, t);
    } else {
        assert(w.take(k) =~= w);
    }
}

pub proof fn lemma_count_in_push_local(w: Seq<u8>, y: u8, t: u8)
    ensures
        count_in(w.push(y), t) == count_in(w, t) + (if y == t { 1int } else { 0int }),
{
    assert(w.push(y).drop_last() =~= w);
}

/// The unseen tally: the alphabet's frequencies minus both racks and the
/// board.  An excess anywhere is a history fault.
pub fn compute_unseen_tally(
    alpha: &Alphabet,
    board: &Vec<u8>,
    rack0: &Vec<u8>,
    rack1: &Vec<u8>,
) -> (r: Result<Vec<u8>, GameError>)
    requires
        alpha.wf(),
        forall|i: int| 0 <= i < rack0@.len() ==> (#[trigger] rack0@[i] as int) < alpha.len_spec(),
        forall|i: int| 0 <= i < rack1@.len() ==> (#[trigger] rack1@[i] as int) < alpha.len_spec(),
        forall|j: int|
            0 <= j < board@.len() ==> #[trigger] board@[j] == 0 || (cell_letter(board@[j]) as int)
                < alpha.len_spec(),
    ensures
        match r {
            Ok(tally) => tally@.len() == alpha.len_spec() && forall|t: int|
                0 <= t < alpha.len_spec()
                    ==> #[trigger] tally@[t] + count_in(rack0@, t as u8) + count_in(rack1@, t as u8)
                        + board_count(board@, t as u8) == alpha.tiles@[t].freq,
            Err(e) => e == GameError::TooManyOfTile && exists|t: int|
                0 <= t < alpha.len_spec()
                    && #[trigger] count_in(rack0@, t as u8) + count_in(rack1@, t as u8)
                        + board_count(board@, t as u8) > alpha.tiles@[t].freq,
        },
{
    let n = alpha.len();
    let mut tally: Vec<u8> = Vec::new();
    let mut t: usize = 0;
    while t < n as usize
        invariant
            alpha.wf(),
            n as int == alpha.len_spec(),
            0 <= t <= n,
            tally@.len() == t,
            forall|u: int| 0 <= u < t ==> tally@[u] == alpha.tiles@[u].freq,
        decreases n - t,
    {
        tally.push(alpha.freq(t as u8));
        t += 1;
    }

    // take out the first rack
    let mut k: usize = 0;
    while k < rack0.len()
        invariant
            alpha.wf(),
            n as int == alpha.len_spec(),
            tally@.len() == n,
            0 <= k <= rack0@.len(),
            forall|i: int| 0 <= i < rack0@.len() ==> (#[trigger] rack0@[i] as int) < alpha.len_spec(),
            forall|u: int|
                0 <= u < n ==> #[trigger] tally@[u] + count_in(rack0@.take(k as int), u as u8)
                    == alpha.tiles@[u].freq,
        decreases rack0@.len() - k,
    {
        let tile = rack0[k] as usize;
        proof {
            assert(rack0@.take(k as int + 1) =~= rack0@.take(k as int).push(rack0@[k as int]));
            lemma_count_in_push_local(rack0@.take(k as int), rack0@[k as int], tile as u8);
        }
        if tally[tile] == 0 {
            proof {
                lemma_count_in_take_le(rack0@, k as int + 1, tile as u8);
                crate::board::lemma_count_in_bound(rack1@, tile as u8);
                lemma_board_count_nonneg(board@, tile as u8);
            }
            return Err(GameError::TooManyOfTile);
        }
        let prev = tally[tile];
        tally.set(tile, prev - 1);
        proof {
            assert forall|u: int| 0 <= u < n
                implies #[trigger] tally@[u] + count_in(rack0@.take(k as int + 1), u as u8)
                    == alpha.tiles@[u].freq by {
                assert(rack0@.take(k as int + 1)
                    =~= rack0@.take(k as int).push(rack0@[k as int]));
                lemma_count_in_push_local(rack0@.take(k as int), rack0@[k as int], u as u8);
            }
        }
        k += 1;
    }
    proof {
        assert(rack0@.take(rack0@.len() as int) =~= rack0@);
    }

    // take out the second rack
    let mut k: usize = 0;
    while k < rack1.len()
        invariant
            alpha.wf(),
            n as int == alpha.len_spec(),
            tally@.len() == n,
            0 <= k <= rack1@.len(),
            forall|i: int| 0 <= i < rack1@.len() ==> (#[trigger] rack1@[i] as int) < alpha.len_spec(),
            forall|u: int|
                0 <= u < n ==> #[trigger] tally@[u] + count_in(rack0@, u as u8)
                    + count_in(rack1@.take(k as int), u as u8) == alpha.tiles@[u].freq,
        decreases rack1@.len() - k,
    {
        let tile = rack1[k] as usize;
        if tally[tile] == 0 {
            proof {
                assert(rack1@.take(k as int + 1)
                    =~= rack1@.take(k as int).push(rack1@[k as int]));
                lemma_count_in_push_local(rack1@.take(k as int), rack1@[k as int], tile as u8);
                lemma_count_in_take_le(rack1@, k as int + 1, tile as u8);
                lemma_board_count_nonneg(board@, tile as u8);
            }
            return Err(GameError::TooManyOfTile);
        }
        let prev = tally[tile];
        tally.set(tile, prev - 1);
        proof {
            assert forall|u: int| 0 <= u < n
                implies #[trigger] tally@[u] + count_in(rack0@, u as u8)
                    + count_in(rack1@.take(k as int + 1), u as u8) == alpha.tiles@[u].freq by {
                assert(rack1@.take(k as int + 1)
                    =~= rack1@.take(k as int).push(rack1@[k as int]));
                lemma_count_in_push_local(rack1@.take(k as int), rack1@[k as int], u as u8);
            }
        }
        k += 1;
    }
    proof {
        assert(rack1@.take(rack1@.len() as int) =~= rack1@);
    }

    // take out the board
    let mut k: usize = 0;
    while k < board.len()
        invariant
            alpha.wf(),
            n as int == alpha.len_spec(),
            tally@.len() == n,
            0 <= k <= board@.len(),
            forall|j: int|
                0 <= j < board@.len() ==> #[trigger] board@[j] == 0
                    || (cell_letter(board@[j]) as int) < alpha.len_spec(),
            forall|u: int|
                0 <= u < n ==> #[trigger] tally@[u] + count_in(rack0@, u as u8)
                    + count_in(rack1@, u as u8) + board_count(board@.take(k as int), u as u8)
                    == alpha.tiles@[u].freq,
        decreases board@.len() - k,
    {
        let b = board[k];
        if b != 0 {
            let tile = if b & 0x80 != 0 {
                0usize
            } else {
                b as usize
            };
            proof {
                assert(tile as u8 == cell_letter(board@[k as int]));
            }
            if tally[tile] == 0 {
                proof {
                    assert(board@.take(k as int + 1)
                        =~= board@.take(k as int).push(board@[k as int]));
                    lemma_board_count_push(board@.take(k as int), board@[k as int], tile as u8);
                    lemma_board_count_take_le(board@, k as int + 1, tile as u8);
                }
                return Err(GameError::TooManyOfTile);
            }
            let prev = tally[tile];
            tally.set(tile, prev - 1);
        }
        proof {
            assert forall|u: int| 0 <= u < n
                implies #[trigger] tally@[u] + count_in(rack0@, u as u8) + count_in(rack1@, u as u8)
                    + board_count(board@.take(k as int + 1), u as u8) == alpha.tiles@[u].freq by {
                assert(board@.take(k as int + 1)
                    =~= board@.take(k as int).push(board@[k as int]));
                lemma_board_count_push(board@.take(k as int), board@[k as int], u as u8);
            }
        }
        k += 1;
    }
    proof {
        assert(board@.take(board@.len() as int) =~= board@);
    }
    Ok(tally)
}

proof fn lemma_sum_tally_push(s: Seq<u8>, x: u8)
    ensures
        sum_tally(s.push(x)) == sum_tally(s) + x,
    decreases s.len(),
{
    if s.len() == 0 {
        assert(s.push(x)[0] == x);
        assert(s.push(x).skip(1) =~= Seq::<u8>::empty());
        assert(sum_tally(s.push(x).skip(1)) == 0);
    } else {
        assert(s.push(x)[0] == s[0]);
        assert(s.push(x).skip(1) =~= s.skip(1).push(x));
        lemma_sum_tally_push(s.skip(1), x);
    }
}

/// The bag the tally describes: `tally[t]` copies of each tile `t`, in
/// tile order.
pub fn fill_bag(tally: &Vec<u8>) -> (bag: Vec<u8>)
    requires
        tally@.len() <= 0x60,
    ensures
        bag@.len() == sum_tally(tally@),
        forall|t: int|
            0 <= t < tally@.len() ==> count_in(bag@, t as u8) == #[trigger] tally@[t],
        forall|i: int| 0 <= i < bag@.len() ==> (#[trigger] bag@[i] as int) < tally@.len(),
    {
    let mut bag: Vec<u8> = Vec::new();
    let mut t: usize = 0;
    proof {
        assert(tally@.take(0) =~= Seq::<u8>::empty());
    }
    while t < tally.len()
        invariant
            tally@.len() <= 0x60,
            0 <= t <= tally@.len(),
            bag@.len() == sum_tally(tally@.take(t as int)),
            forall|u: int| 0 <= u < t ==> count_in(bag@, u as u8) == #[trigger] tally@[u],
            forall|u: int| t <= u < tally@.len() ==> #[trigger] count_in(bag@, u as u8) == 0,
            forall|i: int| 0 <= i < bag@.len() ==> (#[trigger] bag@[i] as int) < t,
        decreases tally@.len() - t,
    {
        let cnt = tally[t];
        let mut c: u8 = 0;
        while c < cnt
            invariant
                0 <= c <= cnt,
                t < tally@.len() <= 0x60,
                cnt == tally@[t as int],
                bag@.len() == sum_tally(tally@.take(t as int)) + c,
                count_in(bag@, t as u8) == c,
                forall|u: int| 0 <= u < t ==> count_in(bag@, u as u8) == #[trigger] tally@[u],
                forall|u: int|
                    t < u < tally@.len() ==> #[trigger] count_in(bag@, u as u8) == 0,
                forall|i: int| 0 <= i < bag@.len() ==> (#[trigger] bag@[i] as int) <= t,
            decreases cnt - c,
        {
            let ghost bprev = bag@;
            bag.push(t as u8);
            proof {
                assert forall|u: u8| #[trigger] count_in(bag@, u) == count_in(bprev, u) + (
                if u == t as u8 {
                    1int
                } else {
                    0int
                }) by {
                    lemma_count_in_push_local(bprev, t as u8, u);
                }
            }
            c += 1;
        }
        proof {
            assert(tally@.take(t as int + 1) =~= tally@.take(t as int).push(tally@[t as int]));
            lemma_sum_tally_push(tally@.take(t as int), tally@[t as int]);
        }
        t += 1;
    }
    proof {
        assert(tally@.take(tally@.len() as int) =~= tally@);
    }
    bag
}

proof fn lemma_count_in_update(s: Seq<u8>, i: int, x: u8, t: u8)
    requires
        0 <= i < s.len(),
    ensures
        count_in(s.update(i, x), t) == count_in(s, t) - (if s[i] == t { 1int } else { 0int }) + (
        if x == t {
            1int
        } else {
            0int
        }),
    decreases s.len(),
{
    if i == s.len() - 1 {
        assert(s.update(i, x).drop_last() =~= s.drop_last());
        assert(s.update(i, x).last() == x);
    } else {
        assert(s.update(i, x).drop_last() =~= s.drop_last().update(i, x));
        assert(s.update(i, x).last() == s.last());
        lemma_count_in_update(s.drop_last(), i, x, t);
    }
}

/// Swapping two entries rearranges and nothing more.
proof fn lemma_swap_counts(s: Seq<u8>, i: int, j: int, t: u8)
    requires
        0 <= i < s.len(),
        0 <= j < s.len(),
    ensures
        count_in(s.update(i, s[j]).update(j, s[i]), t) == count_in(s, t),
{
    lemma_count_in_update(s, i, s[j], t);
    lemma_count_in_update(s.update(i, s[j]), j, s[i], t);
}

/// Uniformly rearrange the bag in place; the contents are unchanged as a
/// multiset of tiles.
pub fn shuffle(bag: &mut Vec<u8>, rng: &mut rand_chacha::ChaCha20Rng)
    ensures
        final(bag)@.len() == old(bag)@.len(),
        forall|t: u8| count_in(final(bag)@, t) == count_in(old(bag)@, t),
{
    if bag.len() <= 1 {
        return;
    }
    let mut i: usize = bag.len() - 1;
    while i > 0
        invariant
            1 <= bag@.len() <= usize::MAX,
            0 <= i < bag@.len(),
            bag@.len() == old(bag)@.len(),
            forall|t: u8| count_in(bag@, t) == count_in(old(bag)@, t),
        decreases i,
    {
        let j = if i < 0xffffffff {
            next_below(rng, (i + 1) as u32) as usize
        } else {
            0
        };
        assert(j <= i);
        let a = bag[i];
        let b = bag[j];
        let ghost before = bag@;
        bag.set(i, b);
        bag.set(j, a);
        proof {
            assert(bag@ =~= before.update(i as int, before[j as int]).update(j as int,
                before[i as int]));
            assert forall|t: u8| count_in(bag@, t) == count_in(before, t) by {
                lemma_swap_counts(before, i as int, j as int, t);
            }
        }
        i -= 1;
    }
}

/// Tile conservation: the bag filled from the unseen tally, both racks and
/// the board together hold exactly the alphabet's frequency of every tile.
pub proof fn lemma_tile_conservation(
    alpha: &Alphabet,
    board: Seq<u8>,
    rack0: Seq<u8>,
    rack1: Seq<u8>,
    tally: Seq<u8>,
    bag: Seq<u8>,
)
    requires
        tally.len() == alpha.len_spec(),
        forall|t: int|
            0 <= t < alpha.len_spec()
                ==> #[trigger] tally[t] + count_in(rack0, t as u8) + count_in(rack1, t as u8)
                    + board_count(board, t as u8) == alpha.tiles@[t].freq,
        forall|t: int|
            0 <= t < tally.len() ==> count_in(bag, t as u8) == #[trigger] tally[t],
    ensures
        forall|t: int|
            0 <= t < alpha.len_spec()
                ==> #[trigger] count_in(bag, t as u8) + count_in(rack0, t as u8) + count_in(rack1,
                t as u8) + board_count(board, t as u8) == alpha.tiles@[t].freq,
{
    assert forall|t: int| 0 <= t < alpha.len_spec()
        implies #[trigger] count_in(bag, t as u8) + count_in(rack0, t as u8) + count_in(rack1,
        t as u8) + board_count(board, t as u8) == alpha.tiles@[t].freq by {
        assert(tally[t] + count_in(rack0, t as u8) + count_in(rack1, t as u8) + board_count(board,
            t as u8) == alpha.tiles@[t].freq);
        assert(count_in(bag, t as u8) == tally[t]);
    }
}

/// Counting after one entry is overwritten.
pub proof fn lemma_count_in_update_pub(s: Seq<u8>, i: int, x: u8, t: u8)
    requires
        0 <= i < s.len(),
    ensures
        count_in(s.update(i, x), t) == count_in(s, t) - (if s[i] == t { 1int } else { 0int }) + (
        if x == t {
            1int
        } else {
            0int
        }),
{
    lemma_count_in_update(s, i, x, t);
}

} // verus!
