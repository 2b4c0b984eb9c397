//! Move generation: every candidate the picker chooses from.
//!
//! A play is a pass, an exchange, or a placement.  A placement is legal
//! when it fits the board (the validator's shape checks), uses only tiles
//! the rack holds, is anchored (covers the star on an empty board, touches
//! the existing tiles otherwise), and forms only accepted words.  Its score
//! follows the premiums: letter multipliers on new tiles, word multipliers
//! of new cells on the main word and on each cross word, and a bonus for
//! using the whole rack.  Candidates carry an equity — a thousand times
//! the score, plus the leave value of what stays on the rack — and come
//! out sorted by it, a pass always among them.

use vstd::prelude::*;

use crate::alphabet::Alphabet;
use crate::board::board_wf;
use crate::board::count_in;
use crate::board::cross_end;
use crate::board::cross_start;
use crate::board::place_error;
use crate::board::place_tiles_on_board;
use crate::board::placed_board;
use crate::board::words_ok;
use crate::game_config::GameConfig;
use crate::klv::Klv;
use crate::kwg::Kwg;
use crate::matrix::Strider;

verus! {

/// One play.
pub enum Play {
    /// Swap these tiles back into the bag; no tiles is a pass.
    Exchange { tiles: Vec<u8> },
    /// Put tiles on a lane; `word` holds `0` where the board already has a
    /// tile, and the blank bit marks a blank.
    Place { down: bool, lane: u8, idx: u8, word: Vec<u8>, score: i32 },
}

/// The ghost image of a play.
pub enum PlayV {
    Exchange { tiles: Seq<u8> },
    Place { down: bool, lane: u8, idx: u8, word: Seq<u8>, score: i32 },
}

impl View for Play {
    type V = PlayV;

    open spec fn view(&self) -> PlayV {
        match self {
            Play::Exchange { tiles } => PlayV::Exchange { tiles: tiles@ },
            Play::Place { down, lane, idx, word, score } => PlayV::Place {
                down: *down,
                lane: *lane,
                idx: *idx,
                word: word@,
                score: *score,
            },
        }
    }
}

/// A play with its equity.
pub struct Candidate {
    pub equity: i64,
    pub play: Play,
}

/// How many rack copies of `t` the played word consumes: a play-through
/// consumes nothing, a blank play consumes a blank.
pub open spec fn used_count(word: Seq<u8>, t: u8) -> int
    decreases word.len(),
{
    if word.len() == 0 {
        0int
    } else {
        let x = word.last();
        (if x == 0 {
            0int
        } else if x & 0x80 != 0 {
            if t == 0 {
                1int
            } else {
                0int
            }
        } else {
            if x == t {
                1int
            } else {
                0int
            }
        }) + used_count(word.drop_last(), t)
    }
}

/// Number of new tiles a word places.
pub open spec fn new_tile_count(word: Seq<u8>) -> int
    decreases word.len(),
{
    if word.len() == 0 {
        0int
    } else {
        (if word.last() != 0 {
            1int
        } else {
            0int
        }) + new_tile_count(word.drop_last())
    }
}

/// Row of the cell at lane position `pos`.
pub open spec fn cell_row(down: bool, lane: int, pos: int) -> int {
    if down {
        pos
    } else {
        lane
    }
}

/// Column of the cell at lane position `pos`.
pub open spec fn cell_col(down: bool, lane: int, pos: int) -> int {
    if down {
        lane
    } else {
        pos
    }
}

/// Some orthogonal neighbour of `(r, c)` holds a tile.
pub open spec fn neighbor_filled(board: Seq<u8>, dim: crate::matrix::Dim, r: int, c: int) -> bool {
    ||| (r > 0 && board[(r - 1) * dim.cols + c] != 0)
    ||| (r + 1 < dim.rows && board[(r + 1) * dim.cols + c] != 0)
    ||| (c > 0 && board[r * dim.cols + c - 1] != 0)
    ||| (c + 1 < dim.cols && board[r * dim.cols + c + 1] != 0)
}

/// No cell of the board holds a tile.
pub open spec fn board_empty(board: Seq<u8>) -> bool {
    forall|j: int| 0 <= j < board.len() ==> board[j] == 0
}

/// The placement hangs together: on an empty board a new tile covers the
/// star; otherwise it plays through an existing tile or puts a new tile
/// next to one.
pub open spec fn anchored(
    board: Seq<u8>,
    cfg: &GameConfig,
    down: bool,
    lane: int,
    idx: int,
    word: Seq<u8>,
) -> bool {
    if board_empty(board) {
        exists|i: int|
            0 <= i < word.len() && word[i] != 0 && cell_row(down, lane, idx + i)
                == cfg.star_row as int && cell_col(down, lane, idx + i) == cfg.star_col as int
    } else {
        ||| exists|i: int| 0 <= i < word.len() && word[i] == 0
        ||| exists|i: int|
            0 <= i < word.len() && word[i] != 0 && neighbor_filled(board, cfg.dim,
                cell_row(down, lane, idx + i), cell_col(down, lane, idx + i))
    }
}

/// Sum of the main word's letter values from position `i` on, letter
/// multipliers applied to new tiles.
pub open spec fn main_sum(
    placed: Seq<u8>,
    s: Strider,
    idx: int,
    word: Seq<u8>,
    alpha: &Alphabet,
    lm: Seq<u8>,
    i: int,
) -> int
    decreases word.len() - i,
{
    if i < 0 || i >= word.len() {
        0int
    } else {
        let j = s.at_spec(idx + i);
        (if word[i] == 0 {
            alpha.score_spec(placed[j]) as int
        } else {
            alpha.score_spec(word[i]) * lm[j]
        }) + main_sum(placed, s, idx, word, alpha, lm, i + 1)
    }
}

/// Product of the word multipliers under the new tiles from `i` on.
pub open spec fn wm_prod(s: Strider, idx: int, word: Seq<u8>, wm: Seq<u8>, i: int) -> int
    decreases word.len() - i,
{
    if i < 0 || i >= word.len() {
        1int
    } else {
        (if word[i] != 0 {
            wm[s.at_spec(idx + i)] as int
        } else {
            1int
        }) * wm_prod(s, idx, word, wm, i + 1)
    }
}

/// Sum of a cross word's letter values over lane cells `[k, b)`; the letter
/// multiplier applies only at `pos`, the newly placed cell.
pub open spec fn cross_sum(
    placed: Seq<u8>,
    perp: Strider,
    alpha: &Alphabet,
    lm: Seq<u8>,
    k: int,
    b: int,
    pos: int,
) -> int
    decreases b - k,
{
    if k < 0 || k >= b {
        0int
    } else {
        let j = perp.at_spec(k);
        (if k == pos {
            alpha.score_spec(placed[j]) * lm[j]
        } else {
            alpha.score_spec(placed[j]) as int
        }) + cross_sum(placed, perp, alpha, lm, k + 1, b, pos)
    }
}

/// Score of the cross word through the new tile at main position `pos`,
/// zero when no cross word forms there.
pub open spec fn cross_score_at(
    placed: Seq<u8>,
    cfg: &GameConfig,
    down: bool,
    lane: int,
    pos: int,
) -> int {
    let perp = Strider { down: !down, lane: pos as u8, dim: cfg.dim };
    let a = cross_start(placed, perp, lane);
    if a < lane || (a + 1 < perp.len_spec() && placed[perp.at_spec(a + 1)] != 0) {
        let b = cross_end(placed, perp, a);
        cross_sum(placed, perp, &cfg.alphabet, cfg.letter_mult@, a, b, lane) * cfg.word_mult@[
            perp.at_spec(lane)] as int
    } else {
        0
    }
}

/// Total of the cross-word scores of the new tiles from `i` on.
pub open spec fn crosses_total(
    placed: Seq<u8>,
    cfg: &GameConfig,
    down: bool,
    lane: int,
    idx: int,
    word: Seq<u8>,
    i: int,
) -> int
    decreases word.len() - i,
{
    if i < 0 || i >= word.len() {
        0int
    } else {
        (if word[i] != 0 {
            cross_score_at(placed, cfg, down, lane, idx + i)
        } else {
            0int
        }) + crosses_total(placed, cfg, down, lane, idx, word, i + 1)
    }
}

/// The score of a placement, on the already-placed board.
pub open spec fn play_score(
    placed: Seq<u8>,
    cfg: &GameConfig,
    down: bool,
    lane: u8,
    idx: int,
    word: Seq<u8>,
) -> int {
    let s = Strider { down, lane, dim: cfg.dim };
    main_sum(placed, s, idx, word, &cfg.alphabet, cfg.letter_mult@, 0) * wm_prod(s, idx, word,
        cfg.word_mult@, 0) + crosses_total(placed, cfg, down, lane as int, idx, word, 0) + (
    if new_tile_count(word) == cfg.rack_size as int {
        cfg.bingo_bonus as int
    } else {
        0int
    })
}

/// A legal placement: in shape, covered by the rack, anchored, all words
/// accepted, and carrying its true score.
pub open spec fn place_legal(
    cfg: &GameConfig,
    kwg: Seq<u32>,
    board: Seq<u8>,
    rack: Seq<u8>,
    down: bool,
    lane: u8,
    idx: u8,
    word: Seq<u8>,
    score: i32,
) -> bool {
    let s = Strider { down, lane, dim: cfg.dim };
    let placed = placed_board(board, s, idx as int, word);
    &&& (if down {
        lane < cfg.dim.cols && idx < cfg.dim.rows
    } else {
        lane < cfg.dim.rows && idx < cfg.dim.cols
    })
    &&& place_error(board, cfg.dim, down, lane, idx, word) is None
    &&& forall|t: int|
        0 <= t < cfg.alphabet.len_spec() ==> #[trigger] used_count(word, t as u8) <= count_in(rack, t as u8)
    &&& forall|i: int|
        0 <= i < word.len() && word[i] != 0 ==> crate::alphabet::valid_play_code(&cfg.alphabet,
            #[trigger] word[i])
    &&& anchored(board, cfg, down, lane as int, idx as int, word)
    &&& words_ok(placed, cfg.dim, kwg, cfg.jumbled, cfg.alphabet.len_spec(), down, lane,
        idx as int, word)
    &&& score as int == play_score(placed, cfg, down, lane, idx as int, word)
}

/// A legal play.
pub open spec fn play_legal(
    cfg: &GameConfig,
    kwg: Seq<u32>,
    board: Seq<u8>,
    rack: Seq<u8>,
    exchange_ok: bool,
    p: PlayV,
) -> bool {
    match p {
        PlayV::Exchange { tiles } => (tiles.len() == 0 || exchange_ok) && forall|t: int|
            0 <= t < cfg.alphabet.len_spec() ==> #[trigger] count_in(tiles, t as u8) <= count_in(
            rack, t as u8),
        PlayV::Place { down, lane, idx, word, score } => place_legal(cfg, kwg, board, rack, down,
            lane, idx, word, score),
    }
}

/// `count` copies of one tile.
pub open spec fn repeat_tile(t: u8, count: nat) -> Seq<u8> {
    Seq::new(count, |i: int| t)
}

/// The canonical (ascending) rack a tally describes, letters below `t`.
pub open spec fn canon_tally(tally: Seq<u8>, t: int) -> Seq<u8>
    decreases t,
{
    if t <= 0 {
        Seq::empty()
    } else {
        canon_tally(tally, t - 1) + repeat_tile((t - 1) as u8, tally[t - 1] as nat)
    }
}

/// What stays on the rack after a placement, as a tally.
pub open spec fn leftover_tally(n: int, rack: Seq<u8>, word: Seq<u8>) -> Seq<u8> {
    Seq::new(if n >= 0 { n as nat } else { 0 }, |t: int| (count_in(rack, t as u8) - used_count(
        word, t as u8)) as u8)
}

/// What stays on the rack after an exchange, as a tally.
pub open spec fn kept_tally(n: int, rack: Seq<u8>, tiles: Seq<u8>) -> Seq<u8> {
    Seq::new(if n >= 0 { n as nat } else { 0 }, |t: int| (count_in(rack, t as u8) - count_in(
        tiles, t as u8)) as u8)
}

/// A leave value weighted by a scale in thousandths, rounded toward zero.
pub open spec fn scaled_leave(leave: int, leave_scale: int) -> int {
    if leave >= 0 {
        (leave * leave_scale) / 1000
    } else {
        -(((-leave) * leave_scale) / 1000)
    }
}

/// The equity of a play for this rack: a thousand times the score plus
/// the leave value of what stays behind, the leave weighted by
/// `leave_scale` thousandths (a tilted bot trusts its leaves less).
pub open spec fn equity_spec(
    cfg: &GameConfig,
    klv: &Klv,
    rack: Seq<u8>,
    leave_scale: u16,
    p: PlayV,
) -> int {
    let n = cfg.alphabet.len_spec();
    match p {
        PlayV::Exchange { tiles } => scaled_leave(klv.value_spec(canon_tally(kept_tally(n, rack,
            tiles), n)) as int, leave_scale as int),
        PlayV::Place { down, lane, idx, word, score } => score * 1000 + scaled_leave(
            klv.value_spec(canon_tally(leftover_tally(n, rack, word), n)) as int,
            leave_scale as int),
    }
}

/// A candidate the generator may emit: a legal play carrying its equity.
pub open spec fn candidate_ok(
    cfg: &GameConfig,
    kwg: Seq<u32>,
    klv: &Klv,
    board: Seq<u8>,
    rack: Seq<u8>,
    exchange_ok: bool,
    leave_scale: u16,
    c: Candidate,
) -> bool {
    &&& play_legal(cfg, kwg, board, rack, exchange_ok, c.play@)
    &&& c.equity as int == equity_spec(cfg, klv, rack, leave_scale, c.play@)
}

/// A pass: an exchange of nothing.
pub open spec fn is_pass(p: PlayV) -> bool {
    p matches PlayV::Exchange { tiles } && tiles.len() == 0
}

proof fn lemma_count_in_push2(w: Seq<u8>, y: u8, t: u8)
    ensures
        count_in(w.push(y), t) == count_in(w, t) + (if y == t { 1int } else { 0int }),
{
    assert(w.push(y).drop_last() =~= w);
}

pub(crate) proof fn lemma_used_count_push(w: Seq<u8>, y: u8, t: u8)
    ensures
        used_count(w.push(y), t) == used_count(w, t) + (if y == 0 {
            0int
        } else if y & 0x80 != 0 {
            if t == 0 {
                1int
            } else {
                0int
            }
        } else {
            if y == t {
                1int
            } else {
                0int
            }
        }),
{
    assert(w.push(y).drop_last() =~= w);
}

proof fn lemma_new_tile_count_push(w: Seq<u8>, y: u8)
    ensures
        new_tile_count(w.push(y)) == new_tile_count(w) + (if y != 0 { 1int } else { 0int }),
{
    assert(w.push(y).drop_last() =~= w);
}

/// A prefix of a word never consumes more rack copies than the whole.
pub(crate) proof fn lemma_used_count_take_le(w: Seq<u8>, k: int, t: u8)
    requires
        0 <= k <= w.len(),
    ensures
        used_count(w.take(k), t) <= used_count(w, t),
    decreases w.len(),
{
    if k < w.len() {
        assert(w.take(k) =~= w.drop_last().take(k));
        lemma_used_count_take_le(w.drop_last(), k, t);
    } else {
        assert(w.take(k) =~= w);
    }
}

/// Copies of `t` in `v`.
fn count_tile(v: &Vec<u8>, t: u8) -> (c: usize)
    ensures
        c as int == count_in(v@, t),
{
    proof {
        assert(v@.take(0) =~= Seq::<u8>::empty());
        crate::board::lemma_count_in_bound(v@, t);
    }
    let mut c: usize = 0;
    let mut i: usize = 0;
    while i < v.len()
        invariant
            0 <= i <= v@.len(),
            c as int == count_in(v@.take(i as int), t),
            c <= i,
        decreases v@.len() - i,
    {
        proof {
            assert(v@.take(i as int + 1) =~= v@.take(i as int).push(v@[i as int]));
            lemma_count_in_push2(v@.take(i as int), v@[i as int], t);
        }
        if v[i] == t {
            c += 1;
        }
        i += 1;
    }
    proof {
        assert(v@.take(v@.len() as int) =~= v@);
    }
    c
}

/// Rack copies of `t` the word consumes.
fn count_used_tile(word: &Vec<u8>, t: u8) -> (c: usize)
    ensures
        c as int == used_count(word@, t),
{
    proof {
        assert(word@.take(0) =~= Seq::<u8>::empty());
    }
    let mut c: usize = 0;
    let mut i: usize = 0;
    while i < word.len()
        invariant
            0 <= i <= word@.len(),
            c as int == used_count(word@.take(i as int), t),
            c <= i,
        decreases word@.len() - i,
    {
        proof {
            assert(word@.take(i as int + 1) =~= word@.take(i as int).push(word@[i as int]));
            lemma_used_count_push(word@.take(i as int), word@[i as int], t);
        }
        let x = word[i];
        if x != 0 {
            if x & 0x80 != 0 {
                if t == 0 {
                    c += 1;
                }
            } else if x == t {
                c += 1;
            }
        }
        i += 1;
    }
    proof {
        assert(word@.take(word@.len() as int) =~= word@);
    }
    c
}

/// New tiles the word places.
fn count_new_tiles(word: &Vec<u8>) -> (c: usize)
    ensures
        c as int == new_tile_count(word@),
{
    proof {
        assert(word@.take(0) =~= Seq::<u8>::empty());
    }
    let mut c: usize = 0;
    let mut i: usize = 0;
    while i < word.len()
        invariant
            0 <= i <= word@.len(),
            c as int == new_tile_count(word@.take(i as int)),
            c <= i,
        decreases word@.len() - i,
    {
        proof {
            assert(word@.take(i as int + 1) =~= word@.take(i as int).push(word@[i as int]));
            lemma_new_tile_count_push(word@.take(i as int), word@[i as int]);
        }
        if word[i] != 0 {
            c += 1;
        }
        i += 1;
    }
    proof {
        assert(word@.take(word@.len() as int) =~= word@);
    }
    c
}

/// A fresh vector with the same bytes.
pub(crate) fn copy_tiles(v: &Vec<u8>) -> (r: Vec<u8>)
    ensures
        r@ == v@,
{
    let mut r: Vec<u8> = Vec::new();
    let mut i: usize = 0;
    while i < v.len()
        invariant
            0 <= i <= v@.len(),
            r@ == v@.take(i as int),
        decreases v@.len() - i,
    {
        r.push(v[i]);
        proof {
            assert(v@.take(i as int + 1) =~= v@.take(i as int).push(v@[i as int]));
        }
        i += 1;
    }
    proof {
        assert(v@.take(v@.len() as int) =~= v@);
    }
    r
}

/// The canonical rack a tally describes.
fn expand_tally(tally: &Vec<u8>) -> (out: Vec<u8>)
    ensures
        out@ == canon_tally(tally@, tally@.len() as int),
{
    let mut out: Vec<u8> = Vec::new();
    let mut t: usize = 0;
    while t < tally.len()
        invariant
            0 <= t <= tally@.len(),
            out@ == canon_tally(tally@, t as int),
        decreases tally@.len() - t,
    {
        let cnt = tally[t];
        let mut c: u8 = 0;
        while c < cnt
            invariant
                0 <= c <= cnt,
                t < tally@.len(),
                cnt == tally@[t as int],
                out@ == canon_tally(tally@, t as int) + repeat_tile(t as u8, c as nat),
            decreases cnt - c,
        {
            out.push(t as u8);
            proof {
                assert(canon_tally(tally@, t as int) + repeat_tile(t as u8, c as nat + 1)
                    =~= (canon_tally(tally@, t as int) + repeat_tile(t as u8, c as nat)).push(
                    t as u8));
            }
            c += 1;
        }
        proof {
            assert(out@ =~= canon_tally(tally@, t as int + 1));
        }
        t += 1;
    }
    out
}

/// What the rack keeps after this placement, as a canonical rack.
fn canon_leftover_place(alpha_len: u8, rack: &Vec<u8>, word: &Vec<u8>) -> (out: Vec<u8>)
    requires
        rack@.len() <= 100,
        forall|t: int|
            0 <= t < alpha_len ==> #[trigger] used_count(word@, t as u8) <= count_in(rack@,
            t as u8),
    ensures
        out@ == canon_tally(leftover_tally(alpha_len as int, rack@, word@), alpha_len as int),
{
    let ghost lt = leftover_tally(alpha_len as int, rack@, word@);
    let mut tally: Vec<u8> = Vec::new();
    let mut t: usize = 0;
    while t < alpha_len as usize
        invariant
            lt == leftover_tally(alpha_len as int, rack@, word@),
            rack@.len() <= 100,
            forall|u: int|
                0 <= u < alpha_len ==> #[trigger] used_count(word@, u as u8) <= count_in(rack@,
                u as u8),
            0 <= t <= alpha_len,
            tally@.len() == t,
            forall|u: int| 0 <= u < t ==> tally@[u] == lt[u],
        decreases alpha_len - t,
    {
        let cr = count_tile(rack, t as u8);
        let cu = count_used_tile(word, t as u8);
        proof {
            crate::board::lemma_count_in_bound(rack@, t as u8);
        }
        tally.push((cr - cu) as u8);
        t += 1;
    }
    proof {
        assert(tally@ =~= lt);
    }
    expand_tally(&tally)
}

/// What the rack keeps after this exchange, as a canonical rack.
fn canon_leftover_exchange(alpha_len: u8, rack: &Vec<u8>, tiles: &Vec<u8>) -> (out: Vec<u8>)
    requires
        rack@.len() <= 100,
        forall|t: int|
            0 <= t < alpha_len ==> #[trigger] count_in(tiles@, t as u8) <= count_in(rack@,
            t as u8),
    ensures
        out@ == canon_tally(kept_tally(alpha_len as int, rack@, tiles@), alpha_len as int),
{
    let ghost lt = kept_tally(alpha_len as int, rack@, tiles@);
    let mut tally: Vec<u8> = Vec::new();
    let mut t: usize = 0;
    while t < alpha_len as usize
        invariant
            lt == kept_tally(alpha_len as int, rack@, tiles@),
            rack@.len() <= 100,
            forall|u: int|
                0 <= u < alpha_len ==> #[trigger] count_in(tiles@, u as u8) <= count_in(rack@,
                u as u8),
            0 <= t <= alpha_len,
            tally@.len() == t,
            forall|u: int| 0 <= u < t ==> tally@[u] == lt[u],
        decreases alpha_len - t,
    {
        let cr = count_tile(rack, t as u8);
        let cu = count_tile(tiles, t as u8);
        proof {
            crate::board::lemma_count_in_bound(rack@, t as u8);
        }
        tally.push((cr - cu) as u8);
        t += 1;
    }
    proof {
        assert(tally@ =~= lt);
    }
    expand_tally(&tally)
}

/// Whether a neighbour of `(r, c)` holds a tile.
fn neighbor_filled_exec(board: &Vec<u8>, dim: crate::matrix::Dim, r: u8, c: u8) -> (res: bool)
    requires
        board_wf(board@, dim),
        r < dim.rows,
        c < dim.cols,
    ensures
        res == neighbor_filled(board@, dim, r as int, c as int),
{
    proof {
        assert forall|rr: int, cc: int| 0 <= rr < dim.rows && 0 <= cc < dim.cols
            implies 0 <= #[trigger] (rr * dim.cols + cc) < dim.area() by {
            crate::matrix::lemma_at_in_area(Strider { down: false, lane: rr as u8, dim },
                cc);
        }
    }
    if r > 0 && board[dim.across(r - 1).at(c)] != 0 {
        return true;
    }
    if r + 1 < dim.rows && board[dim.across(r + 1).at(c)] != 0 {
        return true;
    }
    if c > 0 && board[dim.across(r).at(c - 1)] != 0 {
        return true;
    }
    if c + 1 < dim.cols && board[dim.across(r).at(c + 1)] != 0 {
        return true;
    }
    false
}

/// Whether the placement is anchored.
fn check_anchored(
    board: &Vec<u8>,
    cfg: &GameConfig,
    down: bool,
    lane: u8,
    idx: u8,
    word: &Vec<u8>,
) -> (res: bool)
    requires
        cfg.wf(),
        board_wf(board@, cfg.dim),
        down ==> lane < cfg.dim.cols && idx as int + word@.len() <= cfg.dim.rows,
        !down ==> lane < cfg.dim.rows && idx as int + word@.len() <= cfg.dim.cols,
    ensures
        res == anchored(board@, cfg, down, lane as int, idx as int, word@),
{
    let mut empty = true;
    let mut j: usize = 0;
    while j < board.len()
        invariant
            0 <= j <= board@.len(),
            empty == (forall|k: int| 0 <= k < j ==> board@[k] == 0),
        decreases board@.len() - j,
    {
        if board[j] != 0 {
            empty = false;
        }
        j += 1;
    }
    let mut i: usize = 0;
    if empty {
        while i < word.len()
            invariant
                cfg.wf(),
                board_wf(board@, cfg.dim),
                board_empty(board@),
                down ==> lane < cfg.dim.cols && idx as int + word@.len() <= cfg.dim.rows,
                !down ==> lane < cfg.dim.rows && idx as int + word@.len() <= cfg.dim.cols,
                0 <= i <= word@.len(),
                forall|k: int|
                    0 <= k < i ==> !(#[trigger] word@[k] != 0 && cell_row(down, lane as int,
                        idx + k) == cfg.star_row as int && cell_col(down, lane as int, idx + k)
                        == cfg.star_col as int),
            decreases word@.len() - i,
        {
            if word[i] != 0 {
                let r = if down {
                    idx + i as u8
                } else {
                    lane
                };
                let c = if down {
                    lane
                } else {
                    idx + i as u8
                };
                if r == cfg.star_row && c == cfg.star_col {
                    return true;
                }
            }
            i += 1;
        }
        false
    } else {
        while i < word.len()
            invariant
                cfg.wf(),
                board_wf(board@, cfg.dim),
                !board_empty(board@),
                down ==> lane < cfg.dim.cols && idx as int + word@.len() <= cfg.dim.rows,
                !down ==> lane < cfg.dim.rows && idx as int + word@.len() <= cfg.dim.cols,
                0 <= i <= word@.len(),
                forall|k: int| 0 <= k < i ==> word@[k] != 0,
                forall|k: int|
                    0 <= k < i ==> !#[trigger] neighbor_filled(board@, cfg.dim, cell_row(down,
                        lane as int, idx + k), cell_col(down, lane as int, idx + k)),
            decreases word@.len() - i,
        {
            if word[i] == 0 {
                return true;
            }
            let r = if down {
                idx + i as u8
            } else {
                lane
            };
            let c = if down {
                lane
            } else {
                idx + i as u8
            };
            if neighbor_filled_exec(board, cfg.dim, r, c) {
                return true;
            }
            i += 1;
        }
        false
    }
}

/// The score of a placement on the already-placed board; `None` only when
/// an intermediate value grows out of range.
fn compute_score(
    placed: &Vec<u8>,
    cfg: &GameConfig,
    down: bool,
    lane: u8,
    idx: u8,
    word: &Vec<u8>,
) -> (r: Option<i32>)
    requires
        cfg.wf(),
        board_wf(placed@, cfg.dim),
        down ==> lane < cfg.dim.cols && idx as int + word@.len() <= cfg.dim.rows,
        !down ==> lane < cfg.dim.rows && idx as int + word@.len() <= cfg.dim.cols,
        forall|j: int|
            0 <= j < placed@.len() ==> (#[trigger] placed@[j] & 0x80) != 0 || (placed@[j] as int)
                < cfg.alphabet.len_spec(),
        forall|i: int|
            0 <= i < word@.len() ==> #[trigger] word@[i] == 0 || (word@[i] & 0x80) != 0 || (
            word@[i] as int) < cfg.alphabet.len_spec(),
    ensures
        r matches Some(sc) ==> sc as int == play_score(placed@, cfg, down, lane, idx as int,
            word@),
{
    let s = cfg.dim.lane(down, lane);
    let alpha = &cfg.alphabet;

    // sum of the main word's letters
    let mut acc_sum: i64 = 0;
    let mut i: usize = 0;
    while i < word.len()
        invariant
            cfg.wf(),
            board_wf(placed@, cfg.dim),
            s == (Strider { down, lane, dim: cfg.dim }),
            s.wf(),
            idx as int + word@.len() <= s.len_spec(),
            forall|j: int|
                0 <= j < placed@.len() ==> (#[trigger] placed@[j] & 0x80) != 0 || (
                placed@[j] as int) < cfg.alphabet.len_spec(),
            forall|k: int|
                0 <= k < word@.len() ==> #[trigger] word@[k] == 0 || (word@[k] & 0x80) != 0 || (
                word@[k] as int) < cfg.alphabet.len_spec(),
            0 <= i <= word@.len(),
            0 <= acc_sum <= 400 * i,
            main_sum(placed@, s, idx as int, word@, &cfg.alphabet, cfg.letter_mult@, 0) == acc_sum
                + main_sum(placed@, s, idx as int, word@, &cfg.alphabet, cfg.letter_mult@,
                i as int),
        decreases word@.len() - i,
    {
        let j = s.at(idx + i as u8);
        let cell_val: i64 = if word[i] == 0 {
            cfg.alphabet.score(placed[j]) as i64
        } else {
            let sc = cfg.alphabet.score(word[i]);
            let lmv = cfg.letter_mult[j];
            proof {
                assert(0 <= sc as int * lmv as int <= 400) by (nonlinear_arith)
                    requires
                        0 <= sc <= 100,
                        0 <= lmv <= 4,
                ;
            }
            (sc as i64) * (lmv as i64)
        };
        assert(0 <= cell_val <= 400);
        acc_sum += cell_val;
        i += 1;
    }

    // product of the word multipliers under new tiles
    let mut acc_prod: i64 = 1;
    let mut i: usize = 0;
    while i < word.len()
        invariant
            cfg.wf(),
            board_wf(placed@, cfg.dim),
            s == (Strider { down, lane, dim: cfg.dim }),
            s.wf(),
            idx as int + word@.len() <= s.len_spec(),
            0 <= i <= word@.len(),
            1 <= acc_prod <= 0x400_0000_0000,
            wm_prod(s, idx as int, word@, cfg.word_mult@, 0) == acc_prod * wm_prod(s, idx as int,
                word@, cfg.word_mult@, i as int),
        decreases word@.len() - i,
    {
        if word[i] != 0 {
            if acc_prod > 0x100_0000_0000 {
                return None;
            }
            let j = s.at(idx + i as u8);
            let m = cfg.word_mult[j] as i64;
            proof {
                assert(wm_prod(s, idx as int, word@, cfg.word_mult@, i as int)
                    == (cfg.word_mult@[s.at_spec(idx + i)] as int) * wm_prod(s, idx as int,
                    word@, cfg.word_mult@, i as int + 1));
                assert(acc_prod * ((cfg.word_mult@[s.at_spec(idx + i)] as int) * wm_prod(s,
                    idx as int, word@, cfg.word_mult@, i as int + 1)) == (acc_prod
                    * cfg.word_mult@[s.at_spec(idx + i)]) * wm_prod(s, idx as int, word@,
                    cfg.word_mult@, i as int + 1)) by (nonlinear_arith);
            }
            proof {
                assert(1 <= acc_prod * m <= 0x400_0000_0000) by (nonlinear_arith)
                    requires
                        1 <= acc_prod <= 0x100_0000_0000,
                        1 <= m <= 4,
                ;
            }
            acc_prod = acc_prod * m;
        }
        i += 1;
    }

    if acc_sum > 100000 {
        return None;
    }
    proof {
        assert(acc_sum * acc_prod <= 100000 * 0x400_0000_0000) by (nonlinear_arith)
            requires
                0 <= acc_sum <= 100000,
                1 <= acc_prod <= 0x400_0000_0000,
        ;
        assert(acc_sum * acc_prod >= 0) by (nonlinear_arith)
            requires
                0 <= acc_sum,
                1 <= acc_prod,
        ;
    }
    let main_total: i64 = acc_sum * acc_prod;

    // cross words through the new tiles
    let mut crosses: i64 = 0;
    let mut i: usize = 0;
    while i < word.len()
        invariant
            cfg.wf(),
            board_wf(placed@, cfg.dim),
            s == (Strider { down, lane, dim: cfg.dim }),
            s.wf(),
            idx as int + word@.len() <= s.len_spec(),
            forall|j: int|
                0 <= j < placed@.len() ==> (#[trigger] placed@[j] & 0x80) != 0 || (
                placed@[j] as int) < cfg.alphabet.len_spec(),
            0 <= i <= word@.len(),
            0 <= crosses <= 2000000 * i,
            crosses_total(placed@, cfg, down, lane as int, idx as int, word@, 0) == crosses
                + crosses_total(placed@, cfg, down, lane as int, idx as int, word@, i as int),
        decreases word@.len() - i,
    {
        if word[i] != 0 {
            match cross_score_exec(placed, cfg, down, lane, idx + i as u8) {
                Some(cs) => {
                    crosses += cs as i64;
                },
                None => {
                    return None;
                },
            }
        }
        i += 1;
    }

    let bingo: i64 = if count_new_tiles(word) == cfg.rack_size as usize {
        cfg.bingo_bonus as i64
    } else {
        0
    };
    let total: i64 = main_total + crosses + bingo;
    if total > 0x7fff_ffff {
        return None;
    }
    Some(total as i32)
}

/// The score of the cross word through the new tile at main position
/// `pos`; zero when no cross word forms; `None` only out of range.
fn cross_score_exec(placed: &Vec<u8>, cfg: &GameConfig, down: bool, lane: u8, pos: u8) -> (r:
    Option<i32>)
    requires
        cfg.wf(),
        board_wf(placed@, cfg.dim),
        down ==> pos < cfg.dim.rows && lane < cfg.dim.cols,
        !down ==> pos < cfg.dim.cols && lane < cfg.dim.rows,
        forall|j: int|
            0 <= j < placed@.len() ==> (#[trigger] placed@[j] & 0x80) != 0 || (placed@[j] as int)
                < cfg.alphabet.len_spec(),
    ensures
        r matches Some(sc) ==> sc as int == cross_score_at(placed@, cfg, down, lane as int,
            pos as int),
        r matches Some(sc) ==> 0 <= sc <= 2000000,
{
    let perp = cfg.dim.lane(!down, pos);
    let plen = perp.len();
    let mut j = lane;
    while j > 0 && placed[perp.at(j - 1)] != 0
        invariant
            perp.wf(),
            board_wf(placed@, perp.dim),
            0 <= j <= lane,
            (lane as int) < perp.len_spec(),
            cross_start(placed@, perp, lane as int) == cross_start(placed@, perp, j as int),
        decreases j,
    {
        j -= 1;
    }
    assert(cross_start(placed@, perp, j as int) == j as int);
    let a = j;
    if !(a < lane || (a + 1 < plen && placed[perp.at(a + 1)] != 0)) {
        return Some(0);
    }
    // find the end of the run
    let mut e = a;
    while e < plen && placed[perp.at(e)] != 0
        invariant
            perp.wf(),
            board_wf(placed@, perp.dim),
            plen as int == perp.len_spec(),
            a <= e <= perp.len_spec(),
            cross_end(placed@, perp, a as int) == cross_end(placed@, perp, e as int),
        decreases perp.len_spec() - e,
    {
        e += 1;
    }
    assert(cross_end(placed@, perp, e as int) == e as int);
    let b = e;
    // add the letters up
    let mut acc: i64 = 0;
    let mut k = a;
    while k < b
        invariant
            cfg.wf(),
            perp.wf(),
            perp.dim == cfg.dim,
            board_wf(placed@, perp.dim),
            forall|j2: int|
                0 <= j2 < placed@.len() ==> (#[trigger] placed@[j2] & 0x80) != 0 || (
                placed@[j2] as int) < cfg.alphabet.len_spec(),
            a <= k <= b,
            b as int <= perp.len_spec(),
            0 <= acc <= 400 * k,
            cross_sum(placed@, perp, &cfg.alphabet, cfg.letter_mult@, a as int, b as int,
                lane as int) == acc + cross_sum(placed@, perp, &cfg.alphabet, cfg.letter_mult@,
                k as int, b as int, lane as int),
        decreases b - k,
    {
        let j2 = perp.at(k);
        let v: i64 = if k == lane {
            let sc = cfg.alphabet.score(placed[j2]);
            let lmv = cfg.letter_mult[j2];
            proof {
                assert(0 <= sc as int * lmv as int <= 400) by (nonlinear_arith)
                    requires
                        0 <= sc <= 100,
                        0 <= lmv <= 4,
                ;
            }
            (sc as i64) * (lmv as i64)
        } else {
            cfg.alphabet.score(placed[j2]) as i64
        };
        assert(0 <= v <= 400);
        acc += v;
        k += 1;
    }
    let wmul = cfg.word_mult[perp.at(lane)] as i64;
    proof {
        assert(0 <= acc * wmul <= 2000000) by (nonlinear_arith)
            requires
                0 <= acc <= 400 * 21,
                1 <= wmul <= 4,
        ;
    }
    Some((acc * wmul) as i32)
}

/// The leave value weighted by the scale, in thousandths.
fn scale_leave(leave: i64, leave_scale: u16) -> (r: i64)
    requires
        -1000000000 <= leave <= 1000000000,
        leave_scale <= 1000,
    ensures
        r as int == scaled_leave(leave as int, leave_scale as int),
        -1000000000 <= r <= 1000000000,
{
    let magnitude: i64 = if leave >= 0 {
        leave
    } else {
        -leave
    };
    proof {
        assert(0 <= magnitude * leave_scale <= 1000000000000) by (nonlinear_arith)
            requires
                0 <= magnitude <= 1000000000,
                0 <= leave_scale <= 1000,
        ;
        assert((magnitude * leave_scale) / 1000 <= 1000000000) by (nonlinear_arith)
            requires
                magnitude * leave_scale <= 1000000000000,
        ;
    }
    let scaled: i64 = (magnitude * (leave_scale as i64)) / 1000;
    if leave >= 0 {
        scaled
    } else {
        -scaled
    }
}

/// Whether the word places at least one new tile.
fn any_new(word: &Vec<u8>) -> (r: bool)
    ensures
        r == crate::board::has_new_tile(word@),
{
    let mut i: usize = 0;
    while i < word.len()
        invariant
            0 <= i <= word@.len(),
            forall|k: int| 0 <= k < i ==> word@[k] == 0,
        decreases word@.len() - i,
    {
        if word[i] != 0 {
            return true;
        }
        i += 1;
    }
    false
}

/// Judge one proposed placement: all the legality checks, and the score.
/// `Some` vouches for the play; `None` says nothing.
fn eval_place(
    cfg: &GameConfig,
    g: &Kwg,
    board: &Vec<u8>,
    rack: &Vec<u8>,
    down: bool,
    lane: u8,
    idx: u8,
    word: &Vec<u8>,
) -> (r: Option<i32>)
    requires
        cfg.wf(),
        g.wf(),
        board_wf(board@, cfg.dim),
        rack@.len() <= 100,
        forall|i: int|
            0 <= i < rack@.len() ==> (#[trigger] rack@[i] as int) < cfg.alphabet.len_spec(),
        forall|j: int|
            0 <= j < board@.len() ==> (#[trigger] board@[j] & 0x80) != 0 || (board@[j] as int)
                < cfg.alphabet.len_spec(),
    ensures
        r matches Some(sc) ==> place_legal(cfg, g.nodes@, board@, rack@, down, lane, idx, word@,
            sc),
{
    // the lane and the start must be on the board
    if down {
        if !(lane < cfg.dim.cols && idx < cfg.dim.rows) {
            return None;
        }
    } else {
        if !(lane < cfg.dim.rows && idx < cfg.dim.cols) {
            return None;
        }
    }
    let s = cfg.dim.lane(down, lane);
    let slen = s.len();
    if word.len() > (slen - idx) as usize {
        return None;
    }

    // every written code must be a play code of the alphabet
    let n = cfg.alphabet.len();
    let mut i: usize = 0;
    while i < word.len()
        invariant
            cfg.wf(),
            n as int == cfg.alphabet.len_spec(),
            0 <= i <= word@.len(),
            forall|k: int|
                0 <= k < i ==> crate::alphabet::valid_play_code(&cfg.alphabet,
                    #[trigger] word@[k]),
        decreases word@.len() - i,
    {
        let x = word[i];
        if x == 0 {
        } else if x & 0x80 != 0 {
            let letter = x & 0x7f;
            if !(1 <= letter && letter < n) {
                return None;
            }
        } else {
            if !(1 <= x && x < n) {
                return None;
            }
        }
        i += 1;
    }

    // the rack must cover the consumed tiles
    let mut t: usize = 0;
    while t < n as usize
        invariant
            cfg.wf(),
            n as int == cfg.alphabet.len_spec(),
            0 <= t <= n,
            forall|u: int|
                0 <= u < t ==> #[trigger] used_count(word@, u as u8) <= count_in(rack@, u as u8),
        decreases n - t,
    {
        if count_used_tile(word, t as u8) > count_tile(rack, t as u8) {
            return None;
        }
        t += 1;
    }

    // the placement must hang together
    if !check_anchored(board, cfg, down, lane, idx, word) {
        return None;
    }

    // it must fit the board
    let mut scratch = copy_tiles(board);
    match place_tiles_on_board(&mut scratch, cfg.dim, down, lane, idx, word) {
        Ok(()) => {},
        Err(_) => {
            return None;
        },
    }
    proof {
        crate::board::lemma_placed_from_cells(board@, s, idx as int, word@, 0);
        assert forall|j: int| 0 <= j < scratch@.len()
            implies (#[trigger] scratch@[j] & 0x80) != 0 || (scratch@[j] as int)
                < cfg.alphabet.len_spec() by {
            if exists|k: int|
                0 <= k < word@.len() && word@[k] != 0 && s.at_spec(idx as int + k) == j {
                let k = choose|k: int|
                    0 <= k < word@.len() && word@[k] != 0 && s.at_spec(idx as int + k) == j;
                assert(scratch@[j] == word@[k]);
                assert(crate::alphabet::valid_play_code(&cfg.alphabet, word@[k]));
            } else {
                assert(forall|k: int|
                    0 <= k < word@.len() && word@[k] != 0 ==> s.at_spec(idx as int + k) != j);
                assert(scratch@[j] == board@[j]);
            }
        }
    }

    // every word it forms must be accepted
    if !g.placement_words_ok(&scratch, cfg.dim, cfg.jumbled, n, down, lane, idx, word) {
        return None;
    }

    // and it carries its true score
    compute_score(&scratch, cfg, down, lane, idx, word)
}

/// Grow placements cell by cell from `pos`, trying the rack's tiles (a
/// blank as every letter) on empty cells and playing through filled ones;
/// every complete shape is judged and, when legal, pushed with its equity.
fn extend_play(
    cfg: &GameConfig,
    g: &Kwg,
    klv: &Klv,
    board: &Vec<u8>,
    rack: &Vec<u8>,
    used: &mut Vec<bool>,
    down: bool,
    lane: u8,
    idx: u8,
    pos: u8,
    p: i32,
    leave_scale: u16,
    word: &mut Vec<u8>,
    out: &mut Vec<Candidate>,
) -> (nothing: ())
    requires
        cfg.wf(),
        g.wf(),
        klv.wf(),
        board_wf(board@, cfg.dim),
        rack@.len() <= 100,
        forall|i: int|
            0 <= i < rack@.len() ==> (#[trigger] rack@[i] as int) < cfg.alphabet.len_spec(),
        forall|j: int|
            0 <= j < board@.len() ==> (#[trigger] board@[j] & 0x80) != 0 || (board@[j] as int)
                < cfg.alphabet.len_spec(),
        old(used)@.len() == rack@.len(),
        down ==> lane < cfg.dim.cols && pos <= cfg.dim.rows,
        !down ==> lane < cfg.dim.rows && pos <= cfg.dim.cols,
        idx <= pos,
        leave_scale <= 1000,
        cfg.jumbled || (p < g.nodes@.len()),
    ensures
        final(used)@ == old(used)@,
        final(word)@ == old(word)@,
        final(out)@.len() >= old(out)@.len(),
        forall|k: int| 0 <= k < old(out)@.len() ==> final(out)@[k] == old(out)@[k],
        forall|k: int|
            old(out)@.len() <= k < final(out)@.len() ==> candidate_ok(cfg, g.nodes@, klv, board@,
                rack@, false, leave_scale, #[trigger] final(out)@[k]) && final(out)@[k].play@ is Place,
    decreases
            (if down {
                cfg.dim.rows as int
            } else {
                cfg.dim.cols as int
            }) - pos,
{
    let s = cfg.dim.lane(down, lane);
    let slen = s.len();

    // a complete shape may end here
    if word.len() >= 2 && (pos >= slen || board[s.at(pos)] == 0) {
        if any_new(word) {
            match eval_place(cfg, g, board, rack, down, lane, idx, word) {
                Some(sc) => {
                    proof {
                        assert(place_legal(cfg, g.nodes@, board@, rack@, down, lane, idx, word@,
                            sc));
                    }
                    let left = canon_leftover_place(cfg.alphabet.len(), rack, word);
                    let leave = klv.leave_value(left.as_slice());
                    proof {
                        assert(-1000000000 <= leave <= 1000000000);
                    }
                    let eq: i64 = (sc as i64) * 1000 + scale_leave(leave, leave_scale);
                    let w2 = copy_tiles(word);
                    out.push(Candidate {
                        equity: eq,
                        play: Play::Place { down, lane, idx, word: w2, score: sc },
                    });
                    proof {
                        let c = out@[out@.len() - 1];
                        assert(c.play@ == (PlayV::Place {
                            down,
                            lane,
                            idx,
                            word: word@,
                            score: sc,
                        }));
                        assert(play_legal(cfg, g.nodes@, board@, rack@, false, c.play@));
                        assert(c.equity as int == equity_spec(cfg, klv, rack@, leave_scale, c.play@));
                        assert(candidate_ok(cfg, g.nodes@, klv, board@, rack@, false,
                            leave_scale, c));
                    }
                },
                None => {},
            }
        }
    }
    if pos >= slen {
        return;
    }
    let j = s.at(pos);
    if board[j] != 0 {
        // play through the existing tile
        let np = if cfg.jumbled {
            p
        } else {
            g.seek(p, board[j] & 0x7f)
        };
        if cfg.jumbled || np >= 0 {
            let ghost w0 = word@;
            word.push(0);
            extend_play(cfg, g, klv, board, rack, used, down, lane, idx, pos + 1, np, leave_scale,
                word, out);
            word.pop();
            proof {
                assert(word@ =~= w0);
            }
        }
    } else {
        // try each unused rack tile, each value once per cell
        let ghost used0 = used@;
        let ghost word0 = word@;
        let ghost out_len0 = old(out)@.len();
        let ghost out0 = old(out)@;
        let mut ri: usize = 0;
        while ri < rack.len()
            invariant
                cfg.wf(),
                g.wf(),
                klv.wf(),
                board_wf(board@, cfg.dim),
                rack@.len() <= 100,
                forall|i2: int|
                    0 <= i2 < rack@.len() ==> (#[trigger] rack@[i2] as int)
                        < cfg.alphabet.len_spec(),
                forall|j2: int|
                    0 <= j2 < board@.len() ==> (#[trigger] board@[j2] & 0x80) != 0 || (
                    board@[j2] as int) < cfg.alphabet.len_spec(),
                used@ == used0,
                used@.len() == rack@.len(),
                word@ == word0,
                down ==> lane < cfg.dim.cols && pos < cfg.dim.rows,
                !down ==> lane < cfg.dim.rows && pos < cfg.dim.cols,
                idx <= pos,
                leave_scale <= 1000,
                cfg.jumbled || (p < g.nodes@.len()),
                0 <= ri <= rack@.len(),
                out@.len() >= out_len0,
                forall|k: int| 0 <= k < out_len0 ==> out@[k] == out0[k],
                forall|k: int|
                    out_len0 <= k < out@.len() ==> candidate_ok(cfg, g.nodes@, klv, board@, rack@,
                        false, leave_scale, #[trigger] out@[k]) && out@[k].play@ is Place,
            decreases rack@.len() - ri,
        {
            let mut dup = false;
            let mut rj: usize = 0;
            while rj < ri
                invariant
                    0 <= rj <= ri,
                    ri < rack@.len(),
                    used@.len() == rack@.len(),
                decreases ri - rj,
            {
                if rack[rj] == rack[ri] && !used[rj] {
                    dup = true;
                }
                rj += 1;
            }
            if !used[ri] && !dup {
                used.set(ri, true);
                let t = rack[ri];
                if t == 0 {
                    // a blank stands for any letter
                    let mut letter: u8 = 1;
                    while letter < cfg.alphabet.len()
                        invariant
                            cfg.wf(),
                            g.wf(),
                            klv.wf(),
                            board_wf(board@, cfg.dim),
                            rack@.len() <= 100,
                            forall|i2: int|
                                0 <= i2 < rack@.len() ==> (#[trigger] rack@[i2] as int)
                                    < cfg.alphabet.len_spec(),
                            forall|j2: int|
                                0 <= j2 < board@.len() ==> (#[trigger] board@[j2] & 0x80) != 0
                                    || (board@[j2] as int) < cfg.alphabet.len_spec(),
                            used@ == used0.update(ri as int, true),
                            used@.len() == rack@.len(),
                            ri < rack@.len(),
                            word@ == word0,
                            down ==> lane < cfg.dim.cols && pos < cfg.dim.rows,
                            !down ==> lane < cfg.dim.rows && pos < cfg.dim.cols,
                            idx <= pos,
                            leave_scale <= 1000,
                            cfg.jumbled || (p < g.nodes@.len()),
                            1 <= letter,
                            out@.len() >= out_len0,
                            forall|k: int| 0 <= k < out_len0 ==> out@[k] == out0[k],
                            forall|k: int|
                                out_len0 <= k < out@.len() ==> candidate_ok(cfg, g.nodes@, klv,
                                    board@, rack@, false, leave_scale, #[trigger] out@[k])
                                    && out@[k].play@ is Place,
                        decreases cfg.alphabet.len_spec() - letter,
                    {
                        let np = if cfg.jumbled {
                            p
                        } else {
                            g.seek(p, letter)
                        };
                        if cfg.jumbled || np >= 0 {
                            let ghost w0 = word@;
                            word.push(letter | 0x80u8);
                            extend_play(cfg, g, klv, board, rack, used, down, lane, idx, pos + 1,
                                np, leave_scale, word, out);
                            word.pop();
                            proof {
                                assert(word@ =~= w0);
                            }
                        }
                        letter += 1;
                    }
                } else {
                    let np = if cfg.jumbled {
                        p
                    } else {
                        g.seek(p, t)
                    };
                    if cfg.jumbled || np >= 0 {
                        let ghost w0 = word@;
                        word.push(t);
                        extend_play(cfg, g, klv, board, rack, used, down, lane, idx, pos + 1, np,
                            leave_scale, word, out);
                        word.pop();
                        proof {
                            assert(word@ =~= w0);
                        }
                    }
                }
                used.set(ri, false);
                proof {
                    assert(used@ =~= used0);
                }
            }
            ri += 1;
        }
    }
}

/// Enumerate the exchanges: for each letter from `t` up, give back any
/// number of the rack's copies; each complete non-empty choice is pushed.
fn gen_exchanges(
    cfg: &GameConfig,
    klv: &Klv,
    rack: &Vec<u8>,
    cur: &mut Vec<u8>,
    t: u8,
    leave_scale: u16,
    out: &mut Vec<Candidate>,
) -> (nothing: ())
    requires
        cfg.wf(),
        klv.wf(),
        rack@.len() <= 100,
        forall|i: int|
            0 <= i < rack@.len() ==> (#[trigger] rack@[i] as int) < cfg.alphabet.len_spec(),
        t as int <= cfg.alphabet.len_spec(),
        leave_scale <= 1000,
        forall|u: u8| #[trigger] count_in(old(cur)@, u) <= count_in(rack@, u),
        forall|u: u8| u >= t ==> #[trigger] count_in(old(cur)@, u) == 0,
    ensures
        final(cur)@ == old(cur)@,
        final(out)@.len() >= old(out)@.len(),
        forall|k: int| 0 <= k < old(out)@.len() ==> final(out)@[k] == old(out)@[k],
        forall|k: int|
            old(out)@.len() <= k < final(out)@.len() ==> candidate_ok(cfg, g_irrelevant(), klv,
                board_irrelevant(), rack@, true, leave_scale, #[trigger] final(out)@[k]) && (
            final(out)@[k].play@ matches PlayV::Exchange { tiles } && tiles.len() > 0),
    decreases cfg.alphabet.len_spec() - t,
{
    let n = cfg.alphabet.len();
    if t >= n {
        if cur.len() > 0 {
            let kept = canon_leftover_exchange(n, rack, cur);
            let leave = klv.leave_value(kept.as_slice());
            proof {
                assert(-1000000000 <= leave <= 1000000000);
            }
            let tiles2 = copy_tiles(cur);
            out.push(Candidate {
                equity: scale_leave(leave, leave_scale),
                play: Play::Exchange { tiles: tiles2 },
            });
            proof {
                let c = out@[out@.len() - 1];
                assert(c.play@ == (PlayV::Exchange { tiles: cur@ }));
                assert(play_legal(cfg, g_irrelevant(), board_irrelevant(), rack@, true, c.play@));
                assert(c.equity as int == equity_spec(cfg, klv, rack@, leave_scale, c.play@));
            }
        }
        return;
    }
    let ghost cur0 = cur@;
    let ghost out0 = old(out)@;
    let ghost out_len0 = old(out)@.len();
    // give none of this letter back
    gen_exchanges(cfg, klv, rack, cur, t + 1, leave_scale, out);
    let avail = count_tile(rack, t);
    let mut c: usize = 0;
    while c < avail
        invariant
            cfg.wf(),
            klv.wf(),
            rack@.len() <= 100,
            forall|i: int|
                0 <= i < rack@.len() ==> (#[trigger] rack@[i] as int) < cfg.alphabet.len_spec(),
            (t as int) < cfg.alphabet.len_spec(),
            leave_scale <= 1000,
            avail as int == count_in(rack@, t),
            0 <= c <= avail,
            cur@ == cur0 + repeat_tile(t, c as nat),
            forall|u: u8| #[trigger] count_in(cur0, u) <= count_in(rack@, u),
            forall|u: u8| u >= t ==> #[trigger] count_in(cur0, u) == 0,
            out@.len() >= out_len0,
            forall|k: int| 0 <= k < out_len0 ==> out@[k] == out0[k],
            forall|k: int|
                out_len0 <= k < out@.len() ==> candidate_ok(cfg, g_irrelevant(), klv,
                    board_irrelevant(), rack@, true, leave_scale, #[trigger] out@[k]) && (out@[
                k].play@ matches PlayV::Exchange { tiles } && tiles.len() > 0),
        decreases avail - c,
    {
        cur.push(t);
        proof {
            assert(cur@ =~= cur0 + repeat_tile(t, c as nat + 1));
            lemma_count_repeat(cur0, t, c as nat + 1);
            assert forall|u: u8| #[trigger] count_in(cur@, u) <= count_in(rack@, u) by {
                lemma_count_concat_repeat(cur0, t, c as nat + 1, u);
            }
            assert forall|u: u8| u >= t + 1 implies #[trigger] count_in(cur@, u) == 0 by {
                lemma_count_concat_repeat(cur0, t, c as nat + 1, u);
            }
        }
        gen_exchanges(cfg, klv, rack, cur, t + 1, leave_scale, out);
        c += 1;
    }
    // put the copies back
    let mut m: usize = avail;
    while m > 0
        invariant
            0 <= m <= avail,
            cur@ == cur0 + repeat_tile(t, m as nat),
        decreases m,
    {
        cur.pop();
        proof {
            assert((cur0 + repeat_tile(t, m as nat)).drop_last()
                =~= cur0 + repeat_tile(t, (m - 1) as nat));
        }
        m -= 1;
    }
    proof {
        assert(cur@ =~= cur0);
    }
}

/// A placement-free stand-in: exchange legality reads neither the graph
/// nor the board.
pub open spec fn g_irrelevant() -> Seq<u32> {
    Seq::empty()
}

pub open spec fn board_irrelevant() -> Seq<u8> {
    Seq::empty()
}

/// Copies of `u` in a run of `count` tiles `t`.
proof fn lemma_count_repeat(base: Seq<u8>, t: u8, count: nat)
    ensures
        count_in(repeat_tile(t, count), t) == count,
    decreases count,
{
    if count > 0 {
        assert(repeat_tile(t, count).drop_last() =~= repeat_tile(t, (count - 1) as nat));
        lemma_count_repeat(base, t, (count - 1) as nat);
    }
}

/// Counting over a base plus a run of one tile.
proof fn lemma_count_concat_repeat(base: Seq<u8>, t: u8, count: nat, u: u8)
    ensures
        count_in(base + repeat_tile(t, count), u) == count_in(base, u) + (if u == t {
            count as int
        } else {
            0int
        }),
    decreases count,
{
    if count == 0 {
        assert(base + repeat_tile(t, 0) =~= base);
    } else {
        assert((base + repeat_tile(t, count)).drop_last()
            =~= base + repeat_tile(t, (count - 1) as nat));
        assert((base + repeat_tile(t, count)).last() == t);
        lemma_count_concat_repeat(base, t, (count - 1) as nat, u);
    }
}

/// Sort candidates by equity, largest first, by repeatedly extracting a
/// maximum.  Every output element satisfies the given predicate because
/// every input element did, and the tracked element is not lost.
#[verifier::rlimit(100)]
fn sort_candidates(input: Vec<Candidate>, ok: Ghost<spec_fn(Candidate) -> bool>) -> (out: Vec<
    Candidate,
>)
    requires
        input@.len() >= 1,
        forall|j: int| 0 <= j < input@.len() ==> (ok@)(#[trigger] input@[j]),
        is_pass(input@[0].play@),
    ensures
        out@.len() == input@.len(),
        forall|k1: int, k2: int|
            0 <= k1 < k2 < out@.len() ==> #[trigger] out@[k1].equity >= #[trigger] out@[
            k2].equity,
        forall|k: int| 0 <= k < out@.len() ==> (ok@)(#[trigger] out@[k]),
        exists|k: int| 0 <= k < out@.len() && is_pass(#[trigger] out@[k].play@),
{
    let mut rem = input;
    let mut out: Vec<Candidate> = Vec::new();
    let ghost mut pass_in_out = false;
    let ghost mut pass_pos = 0int;
    while rem.len() > 0
        invariant
            out@.len() + rem@.len() == input@.len(),
            forall|k1: int, k2: int|
                0 <= k1 < k2 < out@.len() ==> #[trigger] out@[k1].equity >= #[trigger] out@[
                k2].equity,
            forall|k: int, j: int|
                0 <= k < out@.len() && 0 <= j < rem@.len() ==> #[trigger] out@[k].equity
                    >= #[trigger] rem@[j].equity,
            forall|k: int| 0 <= k < out@.len() ==> (ok@)(#[trigger] out@[k]),
            forall|j: int| 0 <= j < rem@.len() ==> (ok@)(#[trigger] rem@[j]),
            pass_in_out ==> 0 <= pass_pos < out@.len() && is_pass(out@[pass_pos].play@),
            !pass_in_out ==> 0 <= pass_pos < rem@.len() && is_pass(rem@[pass_pos].play@),
        decreases rem@.len(),
    {
        let mut best: usize = 0;
        let mut bi: usize = 1;
        while bi < rem.len()
            invariant
                rem@.len() > 0,
                0 <= best < rem@.len(),
                1 <= bi <= rem@.len(),
                forall|i: int| 0 <= i < bi ==> rem@[best as int].equity >= #[trigger] rem@[
                    i].equity,
            decreases rem@.len() - bi,
        {
            if rem[bi].equity > rem[best].equity {
                best = bi;
            }
            bi += 1;
        }
        let ghost rem0 = rem@;
        let picked = rem.remove(best);
        out.push(picked);
        proof {
            assert(picked == rem0[best as int]);
            assert(rem@ =~= rem0.remove(best as int));
            assert forall|j: int| 0 <= j < rem@.len() implies (ok@)(#[trigger] rem@[j]) by {
                if j < best {
                    assert(rem@[j] == rem0[j]);
                } else {
                    assert(rem@[j] == rem0[j + 1]);
                }
            }
            assert forall|k: int, j: int|
                0 <= k < out@.len() && 0 <= j < rem@.len()
                implies #[trigger] out@[k].equity >= #[trigger] rem@[j].equity by {
                if j < best {
                    assert(rem@[j] == rem0[j]);
                } else {
                    assert(rem@[j] == rem0[j + 1]);
                }
                assert(picked.equity >= rem@[j].equity);
            }
            if !pass_in_out {
                if pass_pos == best {
                    pass_in_out = true;
                    pass_pos = out@.len() - 1;
                    assert(is_pass(out@[pass_pos].play@));
                } else if pass_pos > best {
                    assert(rem@[pass_pos - 1] == rem0[pass_pos]);
                    pass_pos = pass_pos - 1;
                } else {
                    assert(rem@[pass_pos] == rem0[pass_pos]);
                }
            }
        }
    }
    proof {
        assert(pass_in_out);
    }
    out
}

/// Generate the candidate plays for this rack on this board: the pass,
/// every placement the search finds and judges legal, and — when the bag
/// allows — every exchange.  Candidates come out sorted by equity, each
/// one legal and carrying the equity its play defines.
#[verifier::rlimit(100)]
pub fn gen_moves(
    cfg: &GameConfig,
    g: &Kwg,
    klv: &Klv,
    board: &Vec<u8>,
    rack: &Vec<u8>,
    exchange_ok: bool,
    leave_scale: u16,
) -> (out: Vec<Candidate>)
    requires
        cfg.wf(),
        g.wf(),
        klv.wf(),
        board_wf(board@, cfg.dim),
        rack@.len() <= 21,
        leave_scale <= 1000,
        forall|i: int|
            0 <= i < rack@.len() ==> (#[trigger] rack@[i] as int) < cfg.alphabet.len_spec(),
        forall|j: int|
            0 <= j < board@.len() ==> (#[trigger] board@[j] & 0x80) != 0 || (board@[j] as int)
                < cfg.alphabet.len_spec(),
    ensures
        out@.len() >= 1,
        forall|k: int|
            0 <= k < out@.len() ==> candidate_ok(cfg, g.nodes@, klv, board@, rack@, exchange_ok,
                leave_scale, #[trigger] out@[k]),
        forall|k1: int, k2: int|
            0 <= k1 < k2 < out@.len() ==> #[trigger] out@[k1].equity >= #[trigger] out@[
            k2].equity,
        exists|k: int| 0 <= k < out@.len() && is_pass(#[trigger] out@[k].play@),
{
    let mut cands: Vec<Candidate> = Vec::new();

    // the pass, always
    let none: Vec<u8> = Vec::new();
    proof {
        assert forall|t: int| 0 <= t < cfg.alphabet.len_spec()
            implies #[trigger] count_in(none@, t as u8) <= count_in(rack@, t as u8) by {
            assert(count_in(none@, t as u8) == 0);
            crate::board::lemma_count_in_bound(rack@, t as u8);
        }
    }
    let kept = canon_leftover_exchange(cfg.alphabet.len(), rack, &none);
    let leave = klv.leave_value(kept.as_slice());
    proof {
        assert(-1000000000 <= leave <= 1000000000);
    }
    cands.push(Candidate {
        equity: scale_leave(leave, leave_scale),
        play: Play::Exchange { tiles: Vec::new() },
    });
    proof {
        let c = cands@[0];
        assert(c.play@ matches PlayV::Exchange { tiles } && tiles =~= Seq::<u8>::empty());
        assert(c.play@ matches PlayV::Exchange { tiles } && tiles == none@);
        assert forall|t: int| 0 <= t < cfg.alphabet.len_spec()
            implies #[trigger] count_in(c.play@->Exchange_tiles, t as u8) <= count_in(rack@,
            t as u8) by {
            assert(count_in(c.play@->Exchange_tiles, t as u8) == 0);
            crate::board::lemma_count_in_bound(rack@, t as u8);
        }
        assert(play_legal(cfg, g.nodes@, board@, rack@, exchange_ok, c.play@));
        assert(c.equity as int == equity_spec(cfg, klv, rack@, leave_scale, c.play@));
        assert(candidate_ok(cfg, g.nodes@, klv, board@, rack@, exchange_ok, leave_scale, c));
        assert(is_pass(c.play@));
    }

    // the placements
    if cfg.jumbled || g.node_count() > 0 {
        let mut used: Vec<bool> = Vec::new();
        let mut z: usize = 0;
        while z < rack.len()
            invariant
                0 <= z <= rack@.len(),
                used@.len() == z,
            decreases rack@.len() - z,
        {
            used.push(false);
            z += 1;
        }
        let mut word: Vec<u8> = Vec::new();
        let mut pass_dir: u8 = 0;
        while pass_dir < 2
            invariant
                cfg.wf(),
                g.wf(),
                klv.wf(),
                board_wf(board@, cfg.dim),
                rack@.len() <= 21,
                forall|i: int|
                    0 <= i < rack@.len() ==> (#[trigger] rack@[i] as int)
                        < cfg.alphabet.len_spec(),
                forall|j: int|
                    0 <= j < board@.len() ==> (#[trigger] board@[j] & 0x80) != 0 || (
                    board@[j] as int) < cfg.alphabet.len_spec(),
                cfg.jumbled || g.nodes@.len() > 0,
                used@.len() == rack@.len(),
                word@.len() == 0,
                0 <= pass_dir <= 2,
                cands@.len() >= 1,
                leave_scale <= 1000,
                forall|k: int|
                    0 <= k < cands@.len() ==> candidate_ok(cfg, g.nodes@, klv, board@, rack@,
                        exchange_ok, leave_scale, #[trigger] cands@[k]),
                is_pass(cands@[0].play@),
            decreases 2 - pass_dir,
        {
            let down = pass_dir == 1;
            let lanes = if down {
                cfg.dim.cols
            } else {
                cfg.dim.rows
            };
            let slen = if down {
                cfg.dim.rows
            } else {
                cfg.dim.cols
            };
            let mut lane: u8 = 0;
            while lane < lanes
                invariant
                    cfg.wf(),
                    g.wf(),
                    klv.wf(),
                    board_wf(board@, cfg.dim),
                    rack@.len() <= 21,
                    forall|i: int|
                        0 <= i < rack@.len() ==> (#[trigger] rack@[i] as int)
                            < cfg.alphabet.len_spec(),
                    forall|j: int|
                        0 <= j < board@.len() ==> (#[trigger] board@[j] & 0x80) != 0 || (
                        board@[j] as int) < cfg.alphabet.len_spec(),
                    cfg.jumbled || g.nodes@.len() > 0,
                    used@.len() == rack@.len(),
                    word@.len() == 0,
                    down == (pass_dir == 1),
                    lanes == (if down { cfg.dim.cols } else { cfg.dim.rows }),
                    slen == (if down { cfg.dim.rows } else { cfg.dim.cols }),
                    0 <= lane <= lanes,
                    cands@.len() >= 1,
                    leave_scale <= 1000,
                    forall|k: int|
                        0 <= k < cands@.len() ==> candidate_ok(cfg, g.nodes@, klv, board@, rack@,
                            exchange_ok, leave_scale, #[trigger] cands@[k]),
                    is_pass(cands@[0].play@),
                decreases lanes - lane,
            {
                let mut idx: u8 = 0;
                while idx < slen
                    invariant
                        cfg.wf(),
                        g.wf(),
                        klv.wf(),
                        board_wf(board@, cfg.dim),
                        rack@.len() <= 21,
                        forall|i: int|
                            0 <= i < rack@.len() ==> (#[trigger] rack@[i] as int)
                                < cfg.alphabet.len_spec(),
                        forall|j: int|
                            0 <= j < board@.len() ==> (#[trigger] board@[j] & 0x80) != 0 || (
                            board@[j] as int) < cfg.alphabet.len_spec(),
                        cfg.jumbled || g.nodes@.len() > 0,
                        used@.len() == rack@.len(),
                        word@.len() == 0,
                        down == (pass_dir == 1),
                        lanes == (if down { cfg.dim.cols } else { cfg.dim.rows }),
                        slen == (if down { cfg.dim.rows } else { cfg.dim.cols }),
                        lane < lanes,
                        0 <= idx <= slen,
                        cands@.len() >= 1,
                        leave_scale <= 1000,
                        forall|k: int|
                            0 <= k < cands@.len() ==> candidate_ok(cfg, g.nodes@, klv, board@,
                                rack@, exchange_ok, leave_scale, #[trigger] cands@[k]),
                        is_pass(cands@[0].play@),
                    decreases slen - idx,
                {
                    let ghost before = cands@;
                    extend_play(cfg, g, klv, board, rack, &mut used, down, lane, idx, idx, 0,
                        leave_scale, &mut word, &mut cands);
                    proof {
                        assert forall|k: int| 0 <= k < cands@.len()
                            implies candidate_ok(cfg, g.nodes@, klv, board@, rack@, exchange_ok,
                                leave_scale, #[trigger] cands@[k]) by {
                            if k < before.len() {
                                assert(cands@[k] == before[k]);
                            } else {
                                assert(candidate_ok(cfg, g.nodes@, klv, board@, rack@, false,
                                    leave_scale, cands@[k]));
                                assert(cands@[k].play@ is Place);
                            }
                        }
                        assert(cands@[0] == before[0]);
                    }
                    idx += 1;
                }
                lane += 1;
            }
            pass_dir += 1;
        }
    }

    // the exchanges
    if exchange_ok {
        let mut cur: Vec<u8> = Vec::new();
        let ghost before = cands@;
        proof {
            assert forall|u: u8| #[trigger] count_in(cur@, u) <= count_in(rack@, u) by {
                assert(count_in(cur@, u) == 0);
                crate::board::lemma_count_in_bound(rack@, u);
            }
        }
        gen_exchanges(cfg, klv, rack, &mut cur, 0, leave_scale, &mut cands);
        proof {
            assert forall|k: int| 0 <= k < cands@.len()
                implies candidate_ok(cfg, g.nodes@, klv, board@, rack@, exchange_ok,
                    leave_scale, #[trigger] cands@[k]) by {
                if k < before.len() {
                    assert(cands@[k] == before[k]);
                } else {
                    assert(candidate_ok(cfg, g_irrelevant(), klv, board_irrelevant(), rack@,
                        true, leave_scale, cands@[k]));
                }
            }
            assert(cands@[0] == before[0]);
        }
    }

    // order them
    let ghost okf = |c: Candidate| candidate_ok(cfg, g.nodes@, klv, board@, rack@, exchange_ok,
        leave_scale, c);
    let out = sort_candidates(cands, Ghost(okf));
    out
}

/// The top candidate never falls below the pass: the pass is in the sorted
/// list, so the head's equity is at least the equity of passing.
pub proof fn lemma_top_candidate_at_least_pass(
    cfg: &GameConfig,
    kwg: Seq<u32>,
    klv: &Klv,
    board: Seq<u8>,
    rack: Seq<u8>,
    exchange_ok: bool,
    leave_scale: u16,
    out: Seq<Candidate>,
)
    requires
        out.len() >= 1,
        forall|k: int|
            0 <= k < out.len() ==> candidate_ok(cfg, kwg, klv, board, rack, exchange_ok,
                leave_scale, #[trigger] out[k]),
        forall|k1: int, k2: int|
            0 <= k1 < k2 < out.len() ==> #[trigger] out[k1].equity >= #[trigger] out[k2].equity,
        exists|k: int| 0 <= k < out.len() && is_pass(#[trigger] out[k].play@),
    ensures
        out[0].equity as int >= equity_spec(cfg, klv, rack, leave_scale, PlayV::Exchange {
            tiles: Seq::empty(),
        }),
{
    let k = choose|k: int| 0 <= k < out.len() && is_pass(#[trigger] out[k].play@);
    assert(candidate_ok(cfg, kwg, klv, board, rack, exchange_ok, leave_scale, out[k]));
    let tiles = out[k].play@->Exchange_tiles;
    assert(tiles =~= Seq::<u8>::empty());
    if k > 0 {
        assert(out[0].equity >= out[k].equity);
    }
}

} // verus!
