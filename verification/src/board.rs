//! The board and the placement validator.
//!
//! A board is a flat array of tile codes, `0` for an empty cell.  A
//! placement names a lane, a start position and a run of played tiles in
//! which `0` marks play-through of a tile already on the board.  Validation
//! mirrors the shape checks (enough tiles, no prefix or suffix extension,
//! play-through only over filled cells, new tiles only on empty cells) and,
//! when a word graph is supplied, checks the main word and every cross word
//! it forms, under classic (sequential) or jumbled (anagram) rules.

use vstd::prelude::*;

use crate::GameError;
use crate::kwg::Kwg;
use crate::kwg::alpha_accepts_spec;
use crate::kwg::chain_seek;
use crate::kwg::lemma_chain_seek_snoc;
use crate::kwg::lemma_sum_tally_update;
use crate::kwg::node_accepts;
use crate::kwg::seek_spec;
use crate::kwg::sum_tally;
use crate::kwg::word_accepted;
use crate::matrix::Dim;
use crate::matrix::Strider;
use crate::matrix::lemma_at_in_area;
use crate::matrix::lemma_at_injective;

verus! {

/// A board body fits its dimensions.
pub open spec fn board_wf(board: Seq<u8>, dim: Dim) -> bool {
    dim.wf() && board.len() == dim.area()
}

/// Some played tile is not a play-through marker.
pub open spec fn has_new_tile(tiles: Seq<u8>) -> bool {
    exists|i: int| 0 <= i < tiles.len() && tiles[i] != 0
}

/// First shape fault of the cells at `i` and after: play-through over an
/// empty cell, or a new tile over a filled one.
pub open spec fn cells_error_from(
    board: Seq<u8>,
    s: Strider,
    idx: int,
    tiles: Seq<u8>,
    i: int,
) -> Option<GameError>
    decreases tiles.len() - i,
{
    if i < 0 || i >= tiles.len() {
        None
    } else {
        let b = board[s.at_spec(idx + i)];
        if tiles[i] == 0 && b == 0 {
            Some(GameError::PlayThroughVacant)
        } else if tiles[i] != 0 && b != 0 {
            Some(GameError::SquareOccupied)
        } else {
            cells_error_from(board, s, idx, tiles, i + 1)
        }
    }
}

/// The first fault of a placement's shape, or `None` when it fits.
pub open spec fn place_error(
    board: Seq<u8>,
    dim: Dim,
    down: bool,
    lane: u8,
    idx: u8,
    tiles: Seq<u8>,
) -> Option<GameError> {
    let s = Strider { down, lane, dim };
    if !(tiles.len() >= 2 && has_new_tile(tiles)) {
        Some(GameError::NotEnoughTilesPlayed)
    } else if idx > 0 && board[s.at_spec(idx - 1)] != 0 {
        Some(GameError::HasPrefix)
    } else if idx + tiles.len() > s.len_spec() {
        Some(GameError::OutOfBounds)
    } else if idx + tiles.len() < s.len_spec() && board[s.at_spec(idx + tiles.len())] != 0 {
        Some(GameError::HasSuffix)
    } else {
        cells_error_from(board, s, idx as int, tiles, 0)
    }
}

/// The board after writing the new tiles of `tiles[i..]` onto the lane.
pub open spec fn placed_from(
    board: Seq<u8>,
    s: Strider,
    idx: int,
    tiles: Seq<u8>,
    i: int,
) -> Seq<u8>
    decreases tiles.len() - i,
{
    if i < 0 || i >= tiles.len() {
        board
    } else {
        let b1 = if tiles[i] != 0 {
            board.update(s.at_spec(idx + i), tiles[i])
        } else {
            board
        };
        placed_from(b1, s, idx, tiles, i + 1)
    }
}

/// The board after the whole placement.
pub open spec fn placed_board(board: Seq<u8>, s: Strider, idx: int, tiles: Seq<u8>) -> Seq<u8> {
    placed_from(board, s, idx, tiles, 0)
}

/// Writing the tiles changes exactly the named cells.
pub proof fn lemma_placed_from_cells(board: Seq<u8>, s: Strider, idx: int, tiles: Seq<u8>, i: int)
    requires
        s.wf(),
        board.len() == s.dim.area(),
        0 <= idx,
        idx + tiles.len() <= s.len_spec(),
        0 <= i <= tiles.len(),
    ensures
        placed_from(board, s, idx, tiles, i).len() == board.len(),
        forall|k: int|
            i <= k < tiles.len() && tiles[k] != 0
                ==> placed_from(board, s, idx, tiles, i)[s.at_spec(idx + k)] == tiles[k],
        forall|j: int|
            0 <= j < board.len() && (forall|k: int|
                i <= k < tiles.len() && tiles[k] != 0 ==> s.at_spec(idx + k) != j)
                ==> placed_from(board, s, idx, tiles, i)[j] == board[j],
    decreases tiles.len() - i,
{
    if i < tiles.len() {
        let b1 = if tiles[i] != 0 {
            board.update(s.at_spec(idx + i), tiles[i])
        } else {
            board
        };
        lemma_at_in_area(s, idx + i);
        lemma_placed_from_cells(b1, s, idx, tiles, i + 1);
        assert(placed_from(board, s, idx, tiles, i) == placed_from(b1, s, idx, tiles, i + 1));
        if tiles[i] != 0 {
            assert forall|k2: int| i + 1 <= k2 < tiles.len() && tiles[k2] != 0
                implies s.at_spec(idx + k2) != s.at_spec(idx + i) by {
                lemma_at_injective(s, idx + i, idx + k2);
            }
            assert(b1[s.at_spec(idx + i)] == tiles[i]);
            assert(placed_from(b1, s, idx, tiles, i + 1)[s.at_spec(idx + i)]
                == b1[s.at_spec(idx + i)]);
        }
        assert forall|j: int|
            0 <= j < board.len() && (forall|k: int|
                i <= k < tiles.len() && tiles[k] != 0 ==> s.at_spec(idx + k) != j)
            implies placed_from(board, s, idx, tiles, i)[j] == board[j] by {
            assert(forall|k: int|
                i + 1 <= k < tiles.len() && tiles[k] != 0 ==> s.at_spec(idx + k) != j);
            assert(placed_from(b1, s, idx, tiles, i + 1)[j] == b1[j]);
            assert(b1[j] == board[j]);
        }
    }
}

/// Apply a placement's shape checks and, when they pass, its writes.
/// The board is left unchanged on an error.
pub fn place_tiles_on_board(
    board: &mut Vec<u8>,
    dim: Dim,
    down: bool,
    lane: u8,
    idx: u8,
    tiles: &Vec<u8>,
) -> (r: Result<(), GameError>)
    requires
        board_wf(old(board)@, dim),
        down ==> lane < dim.cols,
        !down ==> lane < dim.rows,
        down ==> idx < dim.rows,
        !down ==> idx < dim.cols,
    ensures
        ({
            let s = Strider { down, lane, dim };
            match r {
                Ok(()) => place_error(old(board)@, dim, down, lane, idx, tiles@) is None
                    && final(board)@ == placed_board(old(board)@, s, idx as int, tiles@),
                Err(e) => place_error(old(board)@, dim, down, lane, idx, tiles@) == Some(e)
                    && final(board)@ == old(board)@,
            }
        }),
{
    let s = Strider { down, lane, dim };
    let slen = s.len();

    // enough tiles, with at least one new one
    let mut any_new = false;
    let mut i: usize = 0;
    while i < tiles.len()
        invariant
            0 <= i <= tiles@.len(),
            any_new == exists|k: int| 0 <= k < i && tiles@[k] != 0,
        decreases tiles@.len() - i,
    {
        if tiles[i] != 0 {
            any_new = true;
        }
        i += 1;
    }
    if tiles.len() < 2 || !any_new {
        return Err(GameError::NotEnoughTilesPlayed);
    }

    // no prefix extension
    if idx > 0 && board[s.at(idx - 1)] != 0 {
        return Err(GameError::HasPrefix);
    }

    // inside the lane, and no suffix extension
    if tiles.len() > (slen - idx) as usize {
        return Err(GameError::OutOfBounds);
    }
    let end = idx as usize + tiles.len();
    if end < slen as usize && board[s.at(end as u8)] != 0 {
        return Err(GameError::HasSuffix);
    }

    // play-through only over filled cells, new tiles only on empty cells
    assert(place_error(board@, dim, down, lane, idx, tiles@)
        == cells_error_from(board@, s, idx as int, tiles@, 0));
    let mut i: usize = 0;
    while i < tiles.len()
        invariant
            board_wf(board@, dim),
            s == (Strider { down, lane, dim }),
            s.wf(),
            board@ == old(board)@,
            idx as int + tiles@.len() <= s.len_spec(),
            0 <= i <= tiles@.len(),
            place_error(old(board)@, dim, down, lane, idx, tiles@)
                == cells_error_from(board@, s, idx as int, tiles@, i as int),
        decreases tiles@.len() - i,
    {
        let j = s.at(idx + i as u8);
        if tiles[i] == 0 {
            if board[j] == 0 {
                return Err(GameError::PlayThroughVacant);
            }
        } else if board[j] != 0 {
            return Err(GameError::SquareOccupied);
        }
        i += 1;
    }

    // write the new tiles
    let ghost orig = board@;
    let mut i: usize = 0;
    while i < tiles.len()
        invariant
            board_wf(board@, dim),
            s == (Strider { down, lane, dim }),
            s.wf(),
            orig == old(board)@,
            place_error(old(board)@, dim, down, lane, idx, tiles@) is None,
            idx as int + tiles@.len() <= s.len_spec(),
            0 <= i <= tiles@.len(),
            placed_from(orig, s, idx as int, tiles@, 0)
                == placed_from(board@, s, idx as int, tiles@, i as int),
        decreases tiles@.len() - i,
    {
        let j = s.at(idx + i as u8);
        if tiles[i] != 0 {
            let ghost before = board@;
            board.set(j, tiles[i]);
            proof {
                assert(board@ =~= before.update(s.at_spec(idx as int + i as int), tiles@[i as int]));
            }
        }
        i += 1;
    }
    Ok(())
}

/// Copies of letter `t` in `w`.
pub open spec fn count_in(w: Seq<u8>, t: u8) -> int
    decreases w.len(),
{
    if w.len() == 0 {
        0int
    } else {
        (if w.last() == t { 1int } else { 0int }) + count_in(w.drop_last(), t)
    }
}

/// Letter counts of `w`, one entry per letter below `n`.
pub open spec fn tally_of(w: Seq<u8>, n: int) -> Seq<u8> {
    Seq::new(if n >= 0 { n as nat } else { 0 }, |t: int| count_in(w, t as u8) as u8)
}

/// A word is good under the active rules: sequential acceptance in classic
/// play, acceptance of its letter multiset in jumbled play.
pub open spec fn accept_rules(kwg: Seq<u32>, jumbled: bool, alpha_len: int, w: Seq<u8>) -> bool {
    if jumbled {
        alpha_accepts_spec(kwg, tally_of(w, alpha_len))
    } else {
        word_accepted(kwg, w)
    }
}

/// Letters (blank bit stripped) of the lane cells `[a, b)`.
pub open spec fn lane_word(board: Seq<u8>, s: Strider, a: int, b: int) -> Seq<u8> {
    Seq::new(if b >= a { (b - a) as nat } else { 0 }, |i: int| (board[s.at_spec(a + i)] & 0x7f) as u8)
}

/// Start of the filled run that ends at `pos`.
pub open spec fn cross_start(board: Seq<u8>, s: Strider, pos: int) -> int
    decreases (if pos < 0 { 0int } else { pos }),
{
    if pos <= 0 {
        0
    } else if board[s.at_spec(pos - 1)] != 0 {
        cross_start(board, s, pos - 1)
    } else {
        pos
    }
}

/// First empty cell at or after `pos`.
pub open spec fn cross_end(board: Seq<u8>, s: Strider, pos: int) -> int
    decreases (if pos < 0 { 0int } else { s.len_spec() - pos }),
{
    if pos < 0 || pos >= s.len_spec() || board[s.at_spec(pos)] == 0 {
        pos
    } else {
        cross_end(board, s, pos + 1)
    }
}

/// The cross word through the cell at main-lane position `pos`, cross-lane
/// position `lane`, is either absent or accepted.
pub open spec fn cross_ok_at(
    board: Seq<u8>,
    dim: Dim,
    kwg: Seq<u32>,
    jumbled: bool,
    alpha_len: int,
    down: bool,
    lane: int,
    pos: int,
) -> bool {
    let perp = Strider { down: !down, lane: pos as u8, dim };
    let a = cross_start(board, perp, lane);
    if a < lane || (a + 1 < perp.len_spec() && board[perp.at_spec(a + 1)] != 0) {
        accept_rules(kwg, jumbled, alpha_len, lane_word(board, perp, a, cross_end(board, perp, a)))
    } else {
        true
    }
}

/// The placement's main word and every cross word through a new tile are
/// accepted, on the already-placed board.
pub open spec fn words_ok(
    board: Seq<u8>,
    dim: Dim,
    kwg: Seq<u32>,
    jumbled: bool,
    alpha_len: int,
    down: bool,
    lane: u8,
    idx: int,
    tiles: Seq<u8>,
) -> bool {
    let s = Strider { down, lane, dim };
    &&& accept_rules(kwg, jumbled, alpha_len, lane_word(board, s, idx, idx + tiles.len()))
    &&& forall|i: int|
        0 <= i < tiles.len() && tiles[i] != 0
            ==> cross_ok_at(board, dim, kwg, jumbled, alpha_len, down, lane as int, idx + i)
}

/// Appending a letter raises its count by one and no other.
proof fn lemma_count_in_push(w: Seq<u8>, y: u8, t: u8)
    ensures
        count_in(w.push(y), t) == count_in(w, t) + (if y == t { 1int } else { 0int }),
{
    assert(w.push(y).drop_last() =~= w);
    assert(w.push(y).last() == y);
}

/// A letter count never exceeds the word length.
pub proof fn lemma_count_in_bound(w: Seq<u8>, t: u8)
    ensures
        0 <= count_in(w, t) <= w.len(),
    decreases w.len(),
{
    if w.len() > 0 {
        lemma_count_in_bound(w.drop_last(), t);
    }
}

/// An entry of a tally never exceeds the tally's sum.
pub proof fn lemma_sum_tally_entry(tally: Seq<u8>, t: int)
    requires
        0 <= t < tally.len(),
    ensures
        tally[t] <= sum_tally(tally),
    decreases tally.len(),
{
    crate::kwg::lemma_sum_tally_nonneg(tally.skip(1));
    if t > 0 {
        lemma_sum_tally_entry(tally.skip(1), t - 1);
    }
}

/// How a tally changes when one letter is appended to the word.
proof fn lemma_tally_of_push(w: Seq<u8>, y: u8, n: int)
    requires
        w.len() < 255,
        0 <= n <= 256,
    ensures
        (y as int) < n ==> tally_of(w.push(y), n)
            =~= tally_of(w, n).update(y as int, (tally_of(w, n)[y as int] + 1) as u8),
        (y as int) >= n ==> tally_of(w.push(y), n) =~= tally_of(w, n),
{
    assert forall|t: int| 0 <= t < n implies #[trigger] tally_of(w.push(y), n)[t] == (if t == y {
        (tally_of(w, n)[t] + 1) as u8
    } else {
        tally_of(w, n)[t]
    }) by {
        lemma_count_in_push(w, y, t as u8);
        lemma_count_in_bound(w, t as u8);
        lemma_count_in_bound(w.push(y), t as u8);
        assert(t as u8 as int == t);
    }
}

impl Kwg {
    /// Whether the letters of the lane cells `[a, b)` form an accepted word
    /// under the active rules.
    pub fn lane_word_accepted(
        &self,
        board: &Vec<u8>,
        s: Strider,
        a: u8,
        b: u8,
        jumbled: bool,
        alpha_len: u8,
    ) -> (r: bool)
        requires
            self.wf(),
            s.wf(),
            board_wf(board@, s.dim),
            a <= b,
            b as int <= s.len_spec(),
            alpha_len >= 1,
        ensures
            r == accept_rules(self.nodes@, jumbled, alpha_len as int, lane_word(board@, s, a as int, b as int)),
    {
        let ghost w = lane_word(board@, s, a as int, b as int);
        if jumbled {
            let mut tally: Vec<u8> = Vec::new();
            let mut z: usize = 0;
            while z < alpha_len as usize
                invariant
                    0 <= z <= alpha_len,
                    tally@.len() == z,
                    forall|t: int| 0 <= t < z ==> tally@[t] == 0,
                decreases alpha_len - z,
            {
                tally.push(0);
                z += 1;
            }
            let mut cnt: usize = 0;
            let mut i = a;
            proof {
                assert(w.take(0) =~= Seq::<u8>::empty());
                assert(tally@ =~= tally_of(w.take(0), alpha_len as int));
                assert(sum_tally(tally@) == 0) by {
                    lemma_zero_tally_sum(tally@);
                }
            }
            while i < b
                invariant
                    self.wf(),
                    s.wf(),
                    board_wf(board@, s.dim),
                    a <= i <= b,
                    b as int <= s.len_spec(),
                    alpha_len >= 1,
                    w == lane_word(board@, s, a as int, b as int),
                    tally@.len() == alpha_len,
                    tally@ == tally_of(w.take(i - a), alpha_len as int),
                    cnt == sum_tally(tally@),
                    cnt <= i - a,
                decreases b - i,
            {
                let letter = board[s.at(i)] & 0x7f;
                proof {
                    assert(w[i - a] == letter);
                    assert(w.take(i - a + 1) =~= w.take(i - a).push(letter));
                    lemma_tally_of_push(w.take(i - a), letter, alpha_len as int);
                    if (letter as int) < alpha_len {
                        lemma_count_in_bound(w.take(i - a), letter);
                        lemma_sum_tally_update(tally@, letter as int,
                            (tally@[letter as int] + 1) as u8);
                    }
                }
                if letter < alpha_len {
                    let prev = tally[letter as usize];
                    tally.set(letter as usize, prev + 1);
                    cnt += 1;
                }
                i += 1;
            }
            proof {
                assert(w.take(b - a) =~= w);
            }
            self.accepts_alpha(&mut tally, cnt)
        } else {
            if self.node_count() == 0 {
                return false;
            }
            let mut p: i32 = 0;
            let mut i = a;
            proof {
                assert(w.take(0) =~= Seq::<u8>::empty());
            }
            while i < b
                invariant
                    self.wf(),
                    s.wf(),
                    board_wf(board@, s.dim),
                    a <= i <= b,
                    b as int <= s.len_spec(),
                    w == lane_word(board@, s, a as int, b as int),
                    self.nodes@.len() > 0,
                    p < self.nodes@.len(),
                    p as int == chain_seek(self.nodes@, 0, w.take(i - a)),
                decreases b - i,
            {
                let letter = board[s.at(i)] & 0x7f;
                p = self.seek(p, letter);
                proof {
                    lemma_chain_seek_snoc(self.nodes@, 0, w.take(i - a), letter);
                    assert(w[i - a] == letter);
                    assert(w.take(i - a + 1) =~= w.take(i - a).push(letter));
                }
                i += 1;
            }
            proof {
                assert(w.take(b - a) =~= w);
            }
            if b == a {
                false
            } else if p < 0 {
                false
            } else {
                self.accepts(p)
            }
        }
    }

    /// Whether the cross word (if any) through the cell at main-lane
    /// position `pos` is accepted; `lane` is the cell's position along the
    /// perpendicular lane.
    pub fn cross_word_ok(
        &self,
        board: &Vec<u8>,
        dim: Dim,
        jumbled: bool,
        alpha_len: u8,
        down: bool,
        lane: u8,
        pos: u8,
    ) -> (r: bool)
        requires
            self.wf(),
            board_wf(board@, dim),
            alpha_len >= 1,
            down ==> pos < dim.rows && lane < dim.cols,
            !down ==> pos < dim.cols && lane < dim.rows,
        ensures
            r == cross_ok_at(board@, dim, self.nodes@, jumbled, alpha_len as int, down,
                lane as int, pos as int),
    {
        let perp = dim.lane(!down, pos);
        let plen = perp.len();
        let mut j = lane;
        while j > 0 && board[perp.at(j - 1)] != 0
            invariant
                perp.wf(),
                board_wf(board@, perp.dim),
                0 <= j <= lane,
                (lane as int) < perp.len_spec(),
                cross_start(board@, perp, lane as int) == cross_start(board@, perp, j as int),
            decreases j,
        {
            j -= 1;
        }
        assert(cross_start(board@, perp, j as int) == j as int);
        let a = j;
        if !(a < lane || (a + 1 < plen && board[perp.at(a + 1)] != 0)) {
            return true;
        }
        // find the end of the filled run
        let mut e = a;
        while e < plen && board[perp.at(e)] != 0
            invariant
                perp.wf(),
                board_wf(board@, perp.dim),
                plen as int == perp.len_spec(),
                a <= e <= perp.len_spec(),
                cross_end(board@, perp, a as int) == cross_end(board@, perp, e as int),
            decreases perp.len_spec() - e,
        {
            e += 1;
        }
        assert(cross_end(board@, perp, e as int) == e as int);
        self.lane_word_accepted(board, perp, a, e, jumbled, alpha_len)
    }

    /// Whether the main word and every cross word of a placement are
    /// accepted on the already-placed board.
    pub fn placement_words_ok(
        &self,
        board: &Vec<u8>,
        dim: Dim,
        jumbled: bool,
        alpha_len: u8,
        down: bool,
        lane: u8,
        idx: u8,
        tiles: &Vec<u8>,
    ) -> (r: bool)
        requires
            self.wf(),
            board_wf(board@, dim),
            alpha_len >= 1,
            down ==> lane < dim.cols && idx as int + tiles@.len() <= dim.rows,
            !down ==> lane < dim.rows && idx as int + tiles@.len() <= dim.cols,
        ensures
            r == words_ok(board@, dim, self.nodes@, jumbled, alpha_len as int, down, lane,
                idx as int, tiles@),
    {
        let s = dim.lane(down, lane);
        let end = idx + tiles.len() as u8;
        if !self.lane_word_accepted(board, s, idx, end, jumbled, alpha_len) {
            return false;
        }
        let mut i: usize = 0;
        while i < tiles.len()
            invariant
                self.wf(),
                board_wf(board@, dim),
                alpha_len >= 1,
                0 <= i <= tiles@.len(),
                down ==> lane < dim.cols && idx as int + tiles@.len() <= dim.rows,
                !down ==> lane < dim.rows && idx as int + tiles@.len() <= dim.cols,
                forall|k: int|
                    0 <= k < i && tiles@[k] != 0
                        ==> cross_ok_at(board@, dim, self.nodes@, jumbled, alpha_len as int,
                            down, lane as int, idx + k),
            decreases tiles@.len() - i,
        {
            if tiles[i] != 0 {
                if !self.cross_word_ok(board, dim, jumbled, alpha_len, down, lane,
                    idx + i as u8) {
                    return false;
                }
            }
            i += 1;
        }
        true
    }
}

/// A tally of zeroes sums to zero.
proof fn lemma_zero_tally_sum(tally: Seq<u8>)
    requires
        forall|t: int| 0 <= t < tally.len() ==> tally[t] == 0,
    ensures
        sum_tally(tally) == 0,
    decreases tally.len(),
{
    if tally.len() > 0 {
        assert(forall|t: int| 0 <= t < tally.skip(1).len() ==> tally.skip(1)[t] == 0);
        lemma_zero_tally_sum(tally.skip(1));
    }
}

} // verus!
