//! Immutable game configuration: alphabet, board layout, premiums, rack
//! size and rule flavour.
//!
//! The classic board is 15 by 15 with the standard premium pattern, which
//! is symmetric under reflection; the super board is 21 by 21 and repeats
//! the same relative pattern about its centre.  Cells carry a letter
//! multiplier and a word multiplier, both 1 on plain cells.

use vstd::prelude::*;

use crate::alphabet::Alphabet;
use crate::alphabet::TileDef;
use crate::alphabet::Token;
use crate::alphabet::is_prefix_of;
use crate::alphabet::tokens_prefix_free;
use crate::matrix::Dim;

verus! {

/// Everything a game needs to know besides its state.
pub struct GameConfig {
    pub alphabet: Alphabet,
    pub dim: Dim,
    pub rack_size: u8,
    /// Jumbled (anagram) acceptance instead of classic.
    pub jumbled: bool,
    /// Letter multiplier per cell.
    pub letter_mult: Vec<u8>,
    /// Word multiplier per cell.
    pub word_mult: Vec<u8>,
    pub star_row: u8,
    pub star_col: u8,
    /// Bonus for playing the whole rack.
    pub bingo_bonus: i32,
}

impl GameConfig {
    pub open spec fn wf(&self) -> bool {
        &&& self.alphabet.wf()
        &&& alphabet_scores_bounded(&self.alphabet)
        &&& self.dim.wf()
        &&& 1 <= self.rack_size <= 21
        &&& self.letter_mult@.len() == self.dim.area()
        &&& self.word_mult@.len() == self.dim.area()
        &&& forall|j: int|
            0 <= j < self.letter_mult@.len() ==> 1 <= #[trigger] self.letter_mult@[j] <= 4
        &&& forall|j: int|
            0 <= j < self.word_mult@.len() ==> 1 <= #[trigger] self.word_mult@[j] <= 4
        &&& self.star_row < self.dim.rows
        &&& self.star_col < self.dim.cols
        &&& 0 <= self.bingo_bonus <= 1000
    }
}

/// Tile point values small enough for score sums to stay in range.
pub open spec fn alphabet_scores_bounded(alpha: &Alphabet) -> bool {
    forall|i: int|
        0 <= i < alpha.tiles@.len() ==> 0 <= (#[trigger] alpha.tiles@[i]).score <= 100
}

/// Word multiplier of the cell `(r, c)` of an `n`-sided board, by the
/// standard pattern folded into one octant.
pub open spec fn word_mult_at(n: int, r: int, c: int) -> u8 {
    let h = n - 1;
    let a = if r < h - r { r } else { h - r };
    let b = if c < h - c { c } else { h - c };
    let x = if a < b { a } else { b };
    let y = if a < b { b } else { a };
    let m = h / 2;
    if x == m && y == m {
        2
    } else if x == 0 && (y == 0 || y == m) {
        3
    } else if x == y && 1 <= x < m - 2 {
        2
    } else {
        1
    }
}

/// Letter multiplier of the cell `(r, c)`, by the same folded pattern.
pub open spec fn letter_mult_at(n: int, r: int, c: int) -> u8 {
    let h = n - 1;
    let a = if r < h - r { r } else { h - r };
    let b = if c < h - c { c } else { h - c };
    let x = if a < b { a } else { b };
    let y = if a < b { b } else { a };
    let m = h / 2;
    if x == m - 2 && y == m - 2 {
        3
    } else if x == m - 1 && y == m - 1 {
        2
    } else if x == 1 && y == m - 2 {
        3
    } else if x == 0 && y == m - 4 {
        2
    } else if x == 2 && y == m - 1 {
        2
    } else if x == 3 && y == m {
        2
    } else {
        1
    }
}

fn word_mult_cell(n: u8, r: u8, c: u8) -> (w: u8)
    requires
        3 <= n <= 21,
        r < n,
        c < n,
    ensures
        w == word_mult_at(n as int, r as int, c as int),
        1 <= w <= 4,
{
    let h = n - 1;
    let a = if r < h - r { r } else { h - r };
    let b = if c < h - c { c } else { h - c };
    let x = if a < b { a } else { b };
    let y = if a < b { b } else { a };
    let m = h / 2;
    if x == m && y == m {
        2
    } else if x == 0 && (y == 0 || y == m) {
        3
    } else if x == y && 1 <= x && x + 2 < m {
        2
    } else {
        1
    }
}

fn letter_mult_cell(n: u8, r: u8, c: u8) -> (w: u8)
    requires
        3 <= n <= 21,
        r < n,
        c < n,
    ensures
        w == letter_mult_at(n as int, r as int, c as int),
        1 <= w <= 4,
{
    let h = n - 1;
    let a = if r < h - r { r } else { h - r };
    let b = if c < h - c { c } else { h - c };
    let x = if a < b { a } else { b };
    let y = if a < b { b } else { a };
    let m = h / 2;
    if m >= 2 && x == m - 2 && y == m - 2 {
        3
    } else if m >= 1 && x == m - 1 && y == m - 1 {
        2
    } else if m >= 2 && x == 1 && y == m - 2 {
        3
    } else if m >= 4 && x == 0 && y == m - 4 {
        2
    } else if m >= 1 && x == 2 && y == m - 1 {
        2
    } else if x == 3 && y == m {
        2
    } else {
        1
    }
}


/// The standard English bag frequency of each tile.
pub open spec fn english_freq(t: int) -> u8 {
    if t == 0 { 2 }      // blank
    else if t == 1 { 9 }   // A
    else if t == 2 { 2 }   // B
    else if t == 3 { 2 }   // C
    else if t == 4 { 4 }   // D
    else if t == 5 { 12 }  // E
    else if t == 6 { 2 }   // F
    else if t == 7 { 3 }   // G
    else if t == 8 { 2 }   // H
    else if t == 9 { 9 }   // I
    else if t == 10 { 1 }  // J
    else if t == 11 { 1 }  // K
    else if t == 12 { 4 }  // L
    else if t == 13 { 2 }  // M
    else if t == 14 { 6 }  // N
    else if t == 15 { 8 }  // O
    else if t == 16 { 2 }  // P
    else if t == 17 { 1 }  // Q
    else if t == 18 { 6 }  // R
    else if t == 19 { 4 }  // S
    else if t == 20 { 6 }  // T
    else if t == 21 { 4 }  // U
    else if t == 22 { 2 }  // V
    else if t == 23 { 2 }  // W
    else if t == 24 { 1 }  // X
    else if t == 25 { 2 }  // Y
    else if t == 26 { 1 }  // Z
    else { 0 }
}

/// The standard English point value of each tile.
pub open spec fn english_score(t: int) -> i16 {
    if t == 0 { 0 }
    else if t == 1 { 1 }
    else if t == 2 { 3 }
    else if t == 3 { 3 }
    else if t == 4 { 2 }
    else if t == 5 { 1 }
    else if t == 6 { 4 }
    else if t == 7 { 2 }
    else if t == 8 { 4 }
    else if t == 9 { 1 }
    else if t == 10 { 8 }
    else if t == 11 { 5 }
    else if t == 12 { 1 }
    else if t == 13 { 3 }
    else if t == 14 { 1 }
    else if t == 15 { 1 }
    else if t == 16 { 3 }
    else if t == 17 { 10 }
    else if t == 18 { 1 }
    else if t == 19 { 1 }
    else if t == 20 { 1 }
    else if t == 21 { 1 }
    else if t == 22 { 4 }
    else if t == 23 { 4 }
    else if t == 24 { 8 }
    else if t == 25 { 4 }
    else if t == 26 { 10 }
    else { 0 }
}

/// Tile `i` of the English table: `?` for the blank, the letter and its
/// lowercase form otherwise, with the standard frequency and value.
pub open spec fn english_tile_ok(tiles: Seq<TileDef>, i: int) -> bool {
    &&& tiles[i].freq == english_freq(i)
    &&& tiles[i].score == english_score(i)
    &&& tiles[i].rack_label@ == (if i == 0 { seq![63u8] } else { seq![(64 + i) as u8] })
    &&& tiles[i].board_label@ == (if i == 0 { seq![63u8] } else { seq![(64 + i) as u8] })
    &&& tiles[i].blank_label@ == (if i == 0 { seq![63u8] } else { seq![(96 + i) as u8] })
}

/// A table of single-byte labels with pairwise different bytes is
/// prefix-free.
proof fn lemma_single_byte_tokens_prefix_free(toks: Seq<Token>)
    requires
        forall|i: int| 0 <= i < toks.len() ==> (#[trigger] toks[i].1).len() == 1,
        forall|i: int, j: int|
            0 <= i < toks.len() && 0 <= j < toks.len() && i != j ==> (#[trigger] toks[i].1)[0]
                != (#[trigger] toks[j].1)[0],
    ensures
        tokens_prefix_free(toks),
{
    assert forall|i: int, j: int|
        0 <= i < toks.len() && 0 <= j < toks.len() && i != j
        implies !#[trigger] is_prefix_of(toks[i].1, toks[j].1) by {
        if is_prefix_of(toks[i].1, toks[j].1) {
            assert(toks[i].1 == toks[j].1.subrange(0, 1));
            assert(toks[j].1.subrange(0, 1)[0] == toks[j].1[0]);
            assert(false);
        }
    }
}

/// No label of the English table prefixes another, in any of its three
/// readers — so the parse-format round trip holds of the shipped table.
pub proof fn lemma_english_tokens_prefix_free(a: &Alphabet)
    requires
        a.wf(),
        a.len_spec() == 27,
        forall|i: int| 0 <= i < 27 ==> english_tile_ok(a.tiles@, i),
    ensures
        tokens_prefix_free(a.rack_tokens()),
        tokens_prefix_free(a.play_tokens()),
        tokens_prefix_free(a.lowercase_rack_tokens()),
{
    let rt = a.rack_tokens();
    assert forall|i: int| 0 <= i < rt.len()
        implies (#[trigger] rt[i].1).len() == 1 && rt[i].1[0] == (if i == 0 {
            63int
        } else {
            64 + i
        }) by {
        assert(english_tile_ok(a.tiles@, i));
        assert(rt[i].1 == a.tiles@[i].rack_label@);
    }
    lemma_single_byte_tokens_prefix_free(rt);

    let pt = a.play_tokens();
    assert forall|k: int| 0 <= k < pt.len()
        implies (#[trigger] pt[k].1).len() == 1 && pt[k].1[0] == (if k < 26 {
            65 + k
        } else if k < 52 {
            71 + k
        } else {
            46int
        }) by {
        if k < 26 {
            assert(english_tile_ok(a.tiles@, k + 1));
            assert(pt[k].1 == a.tiles@[k + 1].board_label@);
        } else if k < 52 {
            assert(english_tile_ok(a.tiles@, k - 26 + 1));
            assert(pt[k].1 == a.tiles@[k - 26 + 1].blank_label@);
        } else {
            assert(pt[k].1 =~= seq![46u8]);
        }
    }
    lemma_single_byte_tokens_prefix_free(pt);

    let lt = a.lowercase_rack_tokens();
    assert forall|i: int| 0 <= i < lt.len()
        implies (#[trigger] lt[i].1).len() == 1 && lt[i].1[0] == (if i == 0 {
            63int
        } else {
            96 + i
        }) by {
        assert(english_tile_ok(a.tiles@, i));
        if i == 0 {
            assert(lt[i].1 == a.tiles@[0].rack_label@);
        } else {
            assert(lt[i].1 == a.tiles@[i].blank_label@);
        }
    }
    lemma_single_byte_tokens_prefix_free(lt);
}

/// The standard English tile set: `?` twice at no points, then A through Z
/// with their usual frequencies and values.
#[verifier::rlimit(50)]
pub fn make_english_alphabet() -> (a: Alphabet)
    ensures
        a.wf(),
        alphabet_scores_bounded(&a),
        a.len_spec() == 27,
        forall|i: int| 0 <= i < 27 ==> english_tile_ok(a.tiles@, i),
        tokens_prefix_free(a.rack_tokens()),
        tokens_prefix_free(a.play_tokens()),
        tokens_prefix_free(a.lowercase_rack_tokens()),
{
    let mut freqs: Vec<u8> = Vec::new();
    freqs.push(2);  // blank
    freqs.push(9);  // A
    freqs.push(2);  // B
    freqs.push(2);  // C
    freqs.push(4);  // D
    freqs.push(12);  // E
    freqs.push(2);  // F
    freqs.push(3);  // G
    freqs.push(2);  // H
    freqs.push(9);  // I
    freqs.push(1);  // J
    freqs.push(1);  // K
    freqs.push(4);  // L
    freqs.push(2);  // M
    freqs.push(6);  // N
    freqs.push(8);  // O
    freqs.push(2);  // P
    freqs.push(1);  // Q
    freqs.push(6);  // R
    freqs.push(4);  // S
    freqs.push(6);  // T
    freqs.push(4);  // U
    freqs.push(2);  // V
    freqs.push(2);  // W
    freqs.push(1);  // X
    freqs.push(2);  // Y
    freqs.push(1);  // Z
    let mut scores: Vec<i16> = Vec::new();
    scores.push(0);
    scores.push(1);
    scores.push(3);
    scores.push(3);
    scores.push(2);
    scores.push(1);
    scores.push(4);
    scores.push(2);
    scores.push(4);
    scores.push(1);
    scores.push(8);
    scores.push(5);
    scores.push(1);
    scores.push(3);
    scores.push(1);
    scores.push(1);
    scores.push(3);
    scores.push(10);
    scores.push(1);
    scores.push(1);
    scores.push(1);
    scores.push(1);
    scores.push(4);
    scores.push(4);
    scores.push(8);
    scores.push(4);
    scores.push(10);
    proof {
        assert(forall|i: int| 0 <= i < 27 ==> #[trigger] freqs@[i] == english_freq(i));
        assert(forall|i: int| 0 <= i < 27 ==> #[trigger] scores@[i] == english_score(i));
    }
    let mut tiles: Vec<TileDef> = Vec::new();
    let mut t: usize = 0;
    while t < 27
        invariant
            freqs@.len() == 27,
            scores@.len() == 27,
            forall|i: int| 0 <= i < 27 ==> #[trigger] freqs@[i] == english_freq(i),
            forall|i: int| 0 <= i < 27 ==> #[trigger] scores@[i] == english_score(i),
            forall|i: int| 0 <= i < scores@.len() ==> 0 <= #[trigger] scores@[i] <= 10,
            0 <= t <= 27,
            tiles@.len() == t,
            forall|i: int|
                0 <= i < t ==> (#[trigger] tiles@[i]).rack_label@.len() == 1
                    && tiles@[i].board_label@.len() == 1 && tiles@[i].blank_label@.len() == 1
                    && 0 <= tiles@[i].score <= 10,
            forall|i: int| 0 <= i < t ==> english_tile_ok(tiles@, i),
        decreases 27 - t,
    {
        let mut rack_label: Vec<u8> = Vec::new();
        let mut board_label: Vec<u8> = Vec::new();
        let mut blank_label: Vec<u8> = Vec::new();
        if t == 0 {
            rack_label.push(63);  // '?'
            board_label.push(63);
            blank_label.push(63);
        } else {
            rack_label.push(64 + t as u8);  // 'A' + t - 1
            board_label.push(64 + t as u8);
            blank_label.push(96 + t as u8);  // 'a' + t - 1
        }
        proof {
            if t == 0 {
                assert(rack_label@ =~= seq![63u8]);
                assert(board_label@ =~= seq![63u8]);
                assert(blank_label@ =~= seq![63u8]);
            } else {
                assert(rack_label@ =~= seq![(64 + t as int) as u8]);
                assert(board_label@ =~= seq![(64 + t as int) as u8]);
                assert(blank_label@ =~= seq![(96 + t as int) as u8]);
            }
        }
        let ghost prev = tiles@;
        tiles.push(TileDef {
            rack_label,
            board_label,
            blank_label,
            freq: freqs[t],
            score: scores[t],
        });
        proof {
            assert forall|i: int| 0 <= i < t + 1 implies english_tile_ok(tiles@, i) by {
                if i < t {
                    assert(tiles@[i] == prev[i]);
                    assert(english_tile_ok(prev, i));
                } else {
                    assert(english_tile_ok(tiles@, t as int));
                }
            }
        }
        t += 1;
    }
    let a = Alphabet { tiles };
    proof {
        lemma_english_tokens_prefix_free(&a);
    }
    a
}

/// A playable configuration around an alphabet: classic or jumbled, the
/// standard board or the super board.
pub fn make_game_config(alpha: Alphabet, jumbled: bool, super_board: bool) -> (cfg: GameConfig)
    requires
        alpha.wf(),
        alphabet_scores_bounded(&alpha),
    ensures
        cfg.wf(),
        cfg.jumbled == jumbled,
        cfg.alphabet == alpha,
        cfg.dim.rows == (if super_board { 21u8 } else { 15u8 }),
        cfg.dim.cols == cfg.dim.rows,
        cfg.rack_size == (if super_board { 21u8 } else { 7u8 }),
        forall|j: int|
            0 <= j < cfg.dim.area() ==> #[trigger] cfg.word_mult@[j] == word_mult_at(
                cfg.dim.rows as int, j / (cfg.dim.cols as int), j % (cfg.dim.cols as int)),
        forall|j: int|
            0 <= j < cfg.dim.area() ==> #[trigger] cfg.letter_mult@[j] == letter_mult_at(
                cfg.dim.rows as int, j / (cfg.dim.cols as int), j % (cfg.dim.cols as int)),
        cfg.star_row == cfg.dim.rows / 2 && cfg.star_col == cfg.dim.cols / 2,
        cfg.bingo_bonus == 50,
{
    let n: u8 = if super_board {
        21
    } else {
        15
    };
    let dim = Dim { rows: n, cols: n };
    let mut letter_mult: Vec<u8> = Vec::new();
    let mut word_mult: Vec<u8> = Vec::new();
    let mut r: u8 = 0;
    while r < n
        invariant
            3 <= n <= 21,
            0 <= r <= n,
            letter_mult@.len() == r as int * n as int,
            word_mult@.len() == r as int * n as int,
            forall|j: int|
                0 <= j < word_mult@.len() ==> #[trigger] word_mult@[j] == word_mult_at(n as int,
                    j / (n as int), j % (n as int)) && 1 <= word_mult@[j] <= 4,
            forall|j: int|
                0 <= j < letter_mult@.len() ==> #[trigger] letter_mult@[j] == letter_mult_at(
                    n as int, j / (n as int), j % (n as int)) && 1 <= letter_mult@[j] <= 4,
        decreases n - r,
    {
        let mut c: u8 = 0;
        while c < n
            invariant
                3 <= n <= 21,
                r < n,
                0 <= c <= n,
                letter_mult@.len() == r as int * n as int + c as int,
                word_mult@.len() == r as int * n as int + c as int,
                forall|j: int|
                    0 <= j < word_mult@.len() ==> #[trigger] word_mult@[j] == word_mult_at(
                        n as int, j / (n as int), j % (n as int)) && 1 <= word_mult@[j] <= 4,
                forall|j: int|
                    0 <= j < letter_mult@.len() ==> #[trigger] letter_mult@[j] == letter_mult_at(
                        n as int, j / (n as int), j % (n as int)) && 1 <= letter_mult@[j] <= 4,
            decreases n - c,
        {
            proof {
                let j = r as int * n as int + c as int;
                assert(j / (n as int) == r as int && j % (n as int) == c as int)
                    by (nonlinear_arith)
                    requires
                        0 <= r as int,
                        0 <= c as int,
                        (c as int) < (n as int),
                        j == r as int * n as int + c as int,
                ;
            }
            word_mult.push(word_mult_cell(n, r, c));
            letter_mult.push(letter_mult_cell(n, r, c));
            c += 1;
        }
        proof {
            assert(r as int * n as int + n as int == (r as int + 1) * n as int)
                by (nonlinear_arith);
        }
        r += 1;
    }
    proof {
        assert(n as int * n as int == dim.area());
    }
    GameConfig {
        alphabet: alpha,
        dim,
        rack_size: if super_board {
            21
        } else {
            7
        },
        jumbled,
        letter_mult,
        word_mult,
        star_row: n / 2,
        star_col: n / 2,
        bingo_bonus: 50,
    }
}

} // verus!
