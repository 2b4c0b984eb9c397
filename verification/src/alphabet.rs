//! Tile alphabet: maps text to tile codes and back.
//!
//! A tile code is a small unsigned integer: `0` is the blank (on a rack) or
//! the play-through marker (in a played-tiles string), `1..` are the concrete
//! letters.  A tile placed as a blank carries the high bit (`0x80`) and is
//! written with the letter's blank (lowercase) label.
//!
//! Parsing is greedy: at each position the longest label that matches is
//! taken (so a digraph such as `CH` wins over `C`).  Formatting concatenates
//! labels.  When no label is a prefix of another, parsing a formatted string
//! returns exactly the tiles that were formatted; that law is proved here.

use vstd::prelude::*;

use crate::GameError;

verus! {

/// One tile of an alphabet: its labels, bag frequency and point value.
pub struct TileDef {
    /// Text of the tile on a rack (`?` for the blank).
    pub rack_label: Vec<u8>,
    /// Text of the tile when placed normally.
    pub board_label: Vec<u8>,
    /// Text of the tile when placed as a blank.
    pub blank_label: Vec<u8>,
    /// How many copies the full bag holds.
    pub freq: u8,
    /// Point value of the tile.
    pub score: i16,
}

/// An immutable tile table; index 0 is the blank.
pub struct Alphabet {
    pub tiles: Vec<TileDef>,
}

/// `a` is a prefix of `b`.
pub open spec fn is_prefix_of(a: Seq<u8>, b: Seq<u8>) -> bool {
    a.len() <= b.len() && a == b.subrange(0, a.len() as int)
}

/// A token: a tile code paired with the label that spells it.
pub type Token = (u8, Seq<u8>);

/// Longest match (earliest on ties) for a prefix of `s` among the first `k` tokens.
pub open spec fn token_match_upto(toks: Seq<Token>, s: Seq<u8>, k: int) -> Option<(u8, int)>
    decreases k,
{
    if k <= 0 || k > toks.len() {
        None
    } else {
        let prev = token_match_upto(toks, s, k - 1);
        let lab = toks[k - 1].1;
        if is_prefix_of(lab, s) {
            match prev {
                None => Some((toks[k - 1].0, lab.len() as int)),
                Some((t, l)) => if lab.len() as int > l {
                    Some((toks[k - 1].0, lab.len() as int))
                } else {
                    prev
                },
            }
        } else {
            prev
        }
    }
}

/// Longest match (earliest on ties) for a prefix of `s` in the token table.
pub open spec fn token_match(toks: Seq<Token>, s: Seq<u8>) -> Option<(u8, int)> {
    token_match_upto(toks, s, toks.len() as int)
}

/// Greedy tokenization of all of `s`; `None` when some position matches no token.
pub open spec fn parse_tiles(toks: Seq<Token>, s: Seq<u8>) -> Option<Seq<u8>>
    decreases s.len(),
{
    if s.len() == 0 {
        Some(Seq::empty())
    } else {
        match token_match(toks, s) {
            None => None,
            Some((t, l)) => {
                let step = if 1 <= l <= s.len() { l } else { 1int };
                match parse_tiles(toks, s.skip(step)) {
                    None => None,
                    Some(rest) => Some(seq![t] + rest),
                }
            },
        }
    }
}

/// Concatenation of the labels of the tokens at `idxs`.
pub open spec fn fmt_tokens(toks: Seq<Token>, idxs: Seq<int>) -> Seq<u8>
    decreases idxs.len(),
{
    if idxs.len() == 0 {
        Seq::empty()
    } else {
        toks[idxs[0]].1 + fmt_tokens(toks, idxs.skip(1))
    }
}

/// No label of the table is a prefix of another's (nor equal to it).
pub open spec fn tokens_prefix_free(toks: Seq<Token>) -> bool {
    forall|i: int, j: int|
        0 <= i < toks.len() && 0 <= j < toks.len() && i != j
            ==> !#[trigger] is_prefix_of(toks[i].1, toks[j].1)
}

/// Every label of the table is non-empty.
pub open spec fn tokens_nonempty(toks: Seq<Token>) -> bool {
    forall|i: int| 0 <= i < toks.len() ==> (#[trigger] toks[i].1).len() >= 1
}

impl Alphabet {
    /// Number of tiles, the blank included.
    pub open spec fn len_spec(&self) -> int {
        self.tiles@.len() as int
    }

    /// Labels are non-empty and the table is small enough for codes and the
    /// blank bit to coexist in a byte.
    pub open spec fn wf(&self) -> bool {
        &&& 2 <= self.tiles@.len() <= 0x60
        &&& forall|i: int|
            0 <= i < self.tiles@.len() ==> (#[trigger] self.tiles@[i]).rack_label@.len() >= 1
        &&& forall|i: int|
            0 <= i < self.tiles@.len() ==> (#[trigger] self.tiles@[i]).board_label@.len() >= 1
        &&& forall|i: int|
            0 <= i < self.tiles@.len() ==> (#[trigger] self.tiles@[i]).blank_label@.len() >= 1
    }

    /// The tokens a rack string is read with: every tile under its rack label.
    pub open spec fn rack_tokens(&self) -> Seq<Token> {
        Seq::new(self.tiles@.len(), |i: int| (i as u8, self.tiles@[i].rack_label@))
    }

    /// The tokens a played-tiles string is read with: each letter under its
    /// board label, then each letter with the blank bit under its blank
    /// label, then `.` for the play-through marker.
    pub open spec fn play_tokens(&self) -> Seq<Token> {
        let n = self.tiles@.len() - 1;
        Seq::new((2 * n + 1) as nat, |i: int|
            if i < n {
                ((i + 1) as u8, self.tiles@[i + 1].board_label@)
            } else if i < 2 * n {
                (((i - n + 1) as u8) | 0x80u8, self.tiles@[i - n + 1].blank_label@)
            } else {
                (0u8, seq![46u8])
            })
    }

    /// The tokens a lowercase-written rack is read with: the blank under
    /// its rack label, each letter under its blank (lowercase) label.
    pub open spec fn lowercase_rack_tokens(&self) -> Seq<Token> {
        Seq::new(self.tiles@.len(), |i: int|
            if i == 0 {
                (0u8, self.tiles@[0].rack_label@)
            } else {
                (i as u8, self.tiles@[i].blank_label@)
            })
    }

    /// The text of a rack tile written in lowercase: the blank's own label
    /// for the blank, the blank (lowercase) label for a letter; nothing
    /// for a code with the blank bit.
    pub fn lowercase_rack_label(&self, idx: u8) -> (r: Option<Vec<u8>>)
        requires
            self.wf(),
            (idx as int) < self.len_spec(),
        ensures
            match r {
                Some(l) => idx < 0x80 && l@ == self.lowercase_rack_tokens()[idx as int].1,
                None => idx >= 0x80,
            },
    {
        if idx >= 0x80 {
            return None;
        }
        let lab = if idx == 0 {
            &self.tiles[0].rack_label
        } else {
            &self.tiles[idx as usize].blank_label
        };
        let mut out: Vec<u8> = Vec::new();
        let mut i: usize = 0;
        while i < lab.len()
            invariant
                0 <= i <= lab@.len(),
                out@ == lab@.take(i as int),
            decreases lab@.len() - i,
        {
            out.push(lab[i]);
            proof {
                assert(lab@.take(i as int + 1) =~= lab@.take(i as int).push(lab@[i as int]));
            }
            i += 1;
        }
        proof {
            assert(lab@.take(lab@.len() as int) =~= lab@);
        }
        Some(out)
    }

    pub fn len(&self) -> (r: u8)
        requires
            self.wf(),
        ensures
            r as int == self.len_spec(),
    {
        self.tiles.len() as u8
    }

    /// Bag frequency of a tile.
    pub fn freq(&self, tile: u8) -> (r: u8)
        requires
            self.wf(),
            (tile as int) < self.len_spec(),
        ensures
            r == self.tiles@[tile as int].freq,
    {
        self.tiles[tile as usize].freq
    }

    /// Point value of a tile; a tile played as a blank is worth the blank's value.
    pub fn score(&self, tile: u8) -> (r: i16)
        requires
            self.wf(),
            (tile & 0x80) == 0 ==> (tile as int) < self.len_spec(),
        ensures
            r == self.score_spec(tile),
    {
        if tile & 0x80 != 0 {
            self.tiles[0].score
        } else {
            self.tiles[tile as usize].score
        }
    }

    pub open spec fn score_spec(&self, tile: u8) -> i16 {
        if tile & 0x80 != 0 {
            self.tiles@[0].score
        } else {
            self.tiles@[tile as int].score
        }
    }
}

/// True when `lab` occurs in `s` at `ix`.
fn label_matches_at(s: &[u8], ix: usize, lab: &Vec<u8>) -> (r: bool)
    requires
        ix <= s@.len(),
    ensures
        r == is_prefix_of(lab@, s@.skip(ix as int)),
{
    if lab.len() > s.len() - ix {
        assert(!is_prefix_of(lab@, s@.skip(ix as int)));
        return false;
    }
    let mut i: usize = 0;
    while i < lab.len()
        invariant
            0 <= i <= lab@.len(),
            lab@.len() <= s@.len() - ix,
            ix <= s@.len(),
            s@.len() <= usize::MAX,
            forall|j: int| 0 <= j < i ==> lab@[j] == s@.skip(ix as int)[j],
        decreases lab@.len() - i,
    {
        if lab[i] != s[ix + i] {
            assert(s@.skip(ix as int)[i as int] == s@[ix + i]);
            assert(!is_prefix_of(lab@, s@.skip(ix as int)));
            return false;
        }
        assert(s@.skip(ix as int)[i as int] == s@[ix + i]);
        i += 1;
    }
    assert(lab@ =~= s@.skip(ix as int).subrange(0, lab@.len() as int));
    true
}

/// Longest rack-token match at `ix`, as `token_match` over the rack tokens.
fn rack_match_at(alpha: &Alphabet, s: &[u8], ix: usize) -> (r: Option<(u8, usize)>)
    requires
        alpha.wf(),
        ix <= s@.len(),
    ensures
        ({
            let m = token_match(alpha.rack_tokens(), s@.skip(ix as int));
            match r {
                None => m is None,
                Some((t, l)) => m == Some((t, l as int)),
            }
        }),
{
    let n = alpha.tiles.len();
    let mut best: Option<(u8, usize)> = None;
    let mut k: usize = 0;
    while k < n
        invariant
            alpha.wf(),
            ix <= s@.len(),
            n == alpha.tiles@.len(),
            0 <= k <= n,
            ({
                let m = token_match_upto(alpha.rack_tokens(), s@.skip(ix as int), k as int);
                match best {
                    None => m is None,
                    Some((t, l)) => m == Some((t, l as int)),
                }
            }),
        decreases n - k,
    {
        let lab = &alpha.tiles[k].rack_label;
        assert(alpha.rack_tokens()[k as int].1 == lab@);
        assert(alpha.rack_tokens()[k as int].0 == k as u8);
        if label_matches_at(s, ix, lab) {
            match best {
                None => {
                    best = Some((k as u8, lab.len()));
                },
                Some((_t, l)) => {
                    if lab.len() > l {
                        best = Some((k as u8, lab.len()));
                    }
                },
            }
        }
        k += 1;
    }
    best
}

/// Longest play-token match at `ix`, as `token_match` over the play tokens.
fn play_match_at(alpha: &Alphabet, s: &[u8], ix: usize) -> (r: Option<(u8, usize)>)
    requires
        alpha.wf(),
        ix <= s@.len(),
    ensures
        ({
            let m = token_match(alpha.play_tokens(), s@.skip(ix as int));
            match r {
                None => m is None,
                Some((t, l)) => m == Some((t, l as int)),
            }
        }),
{
    let n = alpha.tiles.len() - 1;
    let toks = Ghost(alpha.play_tokens());
    let mut best: Option<(u8, usize)> = None;
    let mut k: usize = 0;
    while k < 2 * n + 1
        invariant
            alpha.wf(),
            ix <= s@.len(),
            n == alpha.tiles@.len() - 1,
            toks@ == alpha.play_tokens(),
            0 <= k <= 2 * n + 1,
            ({
                let m = token_match_upto(toks@, s@.skip(ix as int), k as int);
                match best {
                    None => m is None,
                    Some((t, l)) => m == Some((t, l as int)),
                }
            }),
        decreases 2 * n + 1 - k,
    {
        let (code, matched, lab_len): (u8, bool, usize) = if k < n {
            let lab = &alpha.tiles[k + 1].board_label;
            assert(toks@[k as int].1 == lab@);
            (
                (k + 1) as u8,
                label_matches_at(s, ix, lab),
                lab.len(),
            )
        } else if k < 2 * n {
            let lab = &alpha.tiles[k - n + 1].blank_label;
            assert(toks@[k as int].1 == lab@);
            (
                ((k - n + 1) as u8) | 0x80u8,
                label_matches_at(s, ix, lab),
                lab.len(),
            )
        } else {
            let m = ix < s.len() && s[ix] == 46u8;
            proof {
                assert(toks@[k as int].1 =~= seq![46u8]);
                if ix < s@.len() {
                    assert(s@.skip(ix as int)[0] == s@[ix as int]);
                    if s@[ix as int] == 46u8 {
                        assert(seq![46u8] =~= s@.skip(ix as int).subrange(0, 1));
                    } else {
                        if is_prefix_of(seq![46u8], s@.skip(ix as int)) {
                            assert(seq![46u8] == s@.skip(ix as int).subrange(0, 1));
                            assert(seq![46u8][0] == s@.skip(ix as int).subrange(0, 1)[0]);
                            assert(s@.skip(ix as int).subrange(0, 1)[0] == s@.skip(ix as int)[0]);
                            assert(false);
                        }
                    }
                } else {
                    assert(s@.skip(ix as int).len() == 0);
                }
            }
            (0u8, m, 1usize)
        };
        if matched {
            match best {
                None => {
                    best = Some((code, lab_len));
                },
                Some((_t, l)) => {
                    if lab_len > l {
                        best = Some((code, lab_len));
                    }
                },
            }
        }
        k += 1;
    }
    best
}

/// Every token match under a well-formed table takes at least one byte and
/// no more than the string holds.
proof fn lemma_match_len_bounds(toks: Seq<Token>, s: Seq<u8>, k: int)
    requires
        tokens_nonempty(toks),
    ensures
        match token_match_upto(toks, s, k) {
            None => true,
            Some((_t, l)) => 1 <= l <= s.len(),
        },
    decreases k,
{
    if k <= 0 || k > toks.len() {
    } else {
        lemma_match_len_bounds(toks, s, k - 1);
    }
}

/// Read a rack string (`?` and the letters) into tile codes.
pub fn parse_rack(alpha: &Alphabet, s: &[u8]) -> (r: Result<Vec<u8>, GameError>)
    requires
        alpha.wf(),
    ensures
        match r {
            Ok(v) => parse_tiles(alpha.rack_tokens(), s@) == Some(v@),
            Err(e) => parse_tiles(alpha.rack_tokens(), s@) is None && e == GameError::InvalidTile,
        },
{
    let toks = Ghost(alpha.rack_tokens());
    proof {
        assert forall|i: int| 0 <= i < toks@.len()
            implies (#[trigger] toks@[i].1).len() >= 1 by {
            assert(toks@[i].1 == alpha.tiles@[i].rack_label@);
        }
    }
    let mut v: Vec<u8> = Vec::new();
    let mut ix: usize = 0;
    proof {
        assert(s@.skip(0) =~= s@);
        assert(forall|rest: Seq<u8>| #[trigger] (Seq::<u8>::empty() + rest) =~= rest);
        assert(v@ =~= Seq::<u8>::empty());
    }
    loop
        invariant
            alpha.wf(),
            toks@ == alpha.rack_tokens(),
            tokens_nonempty(toks@),
            0 <= ix <= s@.len(),
            parse_tiles(toks@, s@) == match parse_tiles(toks@, s@.skip(ix as int)) {
                None => None::<Seq<u8>>,
                Some(rest) => Some(v@ + rest),
            },
        decreases s@.len() - ix,
    {
        if ix >= s.len() {
            assert(s@.skip(ix as int).len() == 0);
            assert(v@ + Seq::<u8>::empty() =~= v@);
            return Ok(v);
        }
        let m = rack_match_at(alpha, s, ix);
        proof {
            lemma_match_len_bounds(toks@, s@.skip(ix as int), toks@.len() as int);
        }
        match m {
            None => {
                return Err(GameError::InvalidTile);
            },
            Some((t, l)) => {
                proof {
                    assert(s@.skip(ix as int).skip(l as int) =~= s@.skip(ix as int + l as int));
                }
                v.push(t);
                ix += l;
                proof {
                    assert(forall|rest: Seq<u8>|
                        v@.drop_last() + (seq![t] + rest) =~= #[trigger] (v@ + rest));
                }
            },
        }
    }
}

/// Longest lowercase-rack-token match at `ix`.
fn lowercase_rack_match_at(alpha: &Alphabet, s: &[u8], ix: usize) -> (r: Option<(u8, usize)>)
    requires
        alpha.wf(),
        ix <= s@.len(),
    ensures
        ({
            let m = token_match(alpha.lowercase_rack_tokens(), s@.skip(ix as int));
            match r {
                None => m is None,
                Some((t, l)) => m == Some((t, l as int)),
            }
        }),
{
    let n = alpha.tiles.len();
    let toks = Ghost(alpha.lowercase_rack_tokens());
    let mut best: Option<(u8, usize)> = None;
    let mut k: usize = 0;
    while k < n
        invariant
            alpha.wf(),
            ix <= s@.len(),
            n == alpha.tiles@.len(),
            toks@ == alpha.lowercase_rack_tokens(),
            0 <= k <= n,
            ({
                let m = token_match_upto(toks@, s@.skip(ix as int), k as int);
                match best {
                    None => m is None,
                    Some((t, l)) => m == Some((t, l as int)),
                }
            }),
        decreases n - k,
    {
        let lab = if k == 0 {
            &alpha.tiles[0].rack_label
        } else {
            &alpha.tiles[k].blank_label
        };
        proof {
            assert(toks@[k as int].1 == lab@);
            assert(toks@[k as int].0 == k as u8);
        }
        if label_matches_at(s, ix, lab) {
            match best {
                None => {
                    best = Some((k as u8, lab.len()));
                },
                Some((_t, l)) => {
                    if lab.len() > l {
                        best = Some((k as u8, lab.len()));
                    }
                },
            }
        }
        k += 1;
    }
    best
}

/// Read a rack written in lowercase (`?` and the blank labels) into tile
/// codes, the way the lowercase rack reader of old requests expects.
pub fn parse_lowercase_rack(alpha: &Alphabet, s: &[u8]) -> (r: Result<Vec<u8>, GameError>)
    requires
        alpha.wf(),
    ensures
        match r {
            Ok(v) => parse_tiles(alpha.lowercase_rack_tokens(), s@) == Some(v@),
            Err(e) => parse_tiles(alpha.lowercase_rack_tokens(), s@) is None && e
                == GameError::InvalidTile,
        },
{
    let toks = Ghost(alpha.lowercase_rack_tokens());
    proof {
        assert forall|i: int| 0 <= i < toks@.len()
            implies (#[trigger] toks@[i].1).len() >= 1 by {
            if i == 0 {
                assert(toks@[i].1 == alpha.tiles@[0].rack_label@);
            } else {
                assert(toks@[i].1 == alpha.tiles@[i].blank_label@);
            }
        }
    }
    let mut v: Vec<u8> = Vec::new();
    let mut ix: usize = 0;
    proof {
        assert(s@.skip(0) =~= s@);
        assert(forall|rest: Seq<u8>| #[trigger] (Seq::<u8>::empty() + rest) =~= rest);
        assert(v@ =~= Seq::<u8>::empty());
    }
    loop
        invariant
            alpha.wf(),
            toks@ == alpha.lowercase_rack_tokens(),
            tokens_nonempty(toks@),
            0 <= ix <= s@.len(),
            parse_tiles(toks@, s@) == match parse_tiles(toks@, s@.skip(ix as int)) {
                None => None::<Seq<u8>>,
                Some(rest) => Some(v@ + rest),
            },
        decreases s@.len() - ix,
    {
        if ix >= s.len() {
            assert(s@.skip(ix as int).len() == 0);
            assert(v@ + Seq::<u8>::empty() =~= v@);
            return Ok(v);
        }
        let m = lowercase_rack_match_at(alpha, s, ix);
        proof {
            lemma_match_len_bounds(toks@, s@.skip(ix as int), toks@.len() as int);
        }
        match m {
            None => {
                return Err(GameError::InvalidTile);
            },
            Some((t, l)) => {
                proof {
                    assert(s@.skip(ix as int).skip(l as int) =~= s@.skip(ix as int + l as int));
                }
                v.push(t);
                ix += l;
                proof {
                    assert(forall|rest: Seq<u8>|
                        v@.drop_last() + (seq![t] + rest) =~= #[trigger] (v@ + rest));
                }
            },
        }
    }
}

/// Read a played-tiles string (`.`, the letters, and blank labels) into tile codes.
pub fn parse_played_tiles(alpha: &Alphabet, s: &[u8]) -> (r: Result<Vec<u8>, GameError>)
    requires
        alpha.wf(),
    ensures
        match r {
            Ok(v) => parse_tiles(alpha.play_tokens(), s@) == Some(v@),
            Err(e) => parse_tiles(alpha.play_tokens(), s@) is None && e == GameError::InvalidTile,
        },
{
    let toks = Ghost(alpha.play_tokens());
    proof {
        assert forall|i: int| 0 <= i < toks@.len()
            implies (#[trigger] toks@[i].1).len() >= 1 by {
            let n = alpha.tiles@.len() - 1;
            if i < n {
                assert(toks@[i].1 == alpha.tiles@[i + 1].board_label@);
            } else if i < 2 * n {
                assert(toks@[i].1 == alpha.tiles@[i - n + 1].blank_label@);
            } else {
                assert(toks@[i].1 == seq![46u8]);
            }
        }
    }
    let mut v: Vec<u8> = Vec::new();
    let mut ix: usize = 0;
    proof {
        assert(s@.skip(0) =~= s@);
        assert(forall|rest: Seq<u8>| #[trigger] (Seq::<u8>::empty() + rest) =~= rest);
        assert(v@ =~= Seq::<u8>::empty());
    }
    loop
        invariant
            alpha.wf(),
            toks@ == alpha.play_tokens(),
            tokens_nonempty(toks@),
            0 <= ix <= s@.len(),
            parse_tiles(toks@, s@) == match parse_tiles(toks@, s@.skip(ix as int)) {
                None => None::<Seq<u8>>,
                Some(rest) => Some(v@ + rest),
            },
        decreases s@.len() - ix,
    {
        if ix >= s.len() {
            assert(s@.skip(ix as int).len() == 0);
            assert(v@ + Seq::<u8>::empty() =~= v@);
            return Ok(v);
        }
        let m = play_match_at(alpha, s, ix);
        proof {
            lemma_match_len_bounds(toks@, s@.skip(ix as int), toks@.len() as int);
        }
        match m {
            None => {
                return Err(GameError::InvalidTile);
            },
            Some((t, l)) => {
                proof {
                    assert(s@.skip(ix as int).skip(l as int) =~= s@.skip(ix as int + l as int));
                }
                v.push(t);
                ix += l;
                proof {
                    assert(forall|rest: Seq<u8>|
                        v@.drop_last() + (seq![t] + rest) =~= #[trigger] (v@ + rest));
                }
            },
        }
    }
}

/// A play code as it may appear in a played-tiles string: the play-through
/// marker, a letter, or a letter with the blank bit.
pub open spec fn valid_play_code(alpha: &Alphabet, c: u8) -> bool {
    ||| c == 0
    ||| (c & 0x80) == 0 && 1 <= c < alpha.len_spec()
    ||| (c & 0x80) != 0 && 1 <= (c & 0x7f) < alpha.len_spec()
}

/// Index of the play token that writes code `c`.
pub open spec fn play_idx_of(alpha: &Alphabet, c: u8) -> int {
    let n = alpha.tiles@.len() - 1;
    if c == 0 {
        2 * n
    } else if c & 0x80 == 0 {
        c - 1
    } else {
        n + (c & 0x7f) - 1
    }
}

/// The rack string that spells `tiles`.
pub open spec fn fmt_rack_spec(alpha: &Alphabet, tiles: Seq<u8>) -> Seq<u8> {
    fmt_tokens(alpha.rack_tokens(), tiles.map_values(|t: u8| t as int))
}

/// The played-tiles string that spells `word`, with `.` for play-throughs.
pub open spec fn fmt_play_spec(alpha: &Alphabet, word: Seq<u8>) -> Seq<u8> {
    fmt_tokens(alpha.play_tokens(), word.map_values(|t: u8| play_idx_of(alpha, t)))
}

/// Appending one more token appends its label.
proof fn lemma_fmt_tokens_push(toks: Seq<Token>, idxs: Seq<int>, j: int)
    requires
        0 <= j < toks.len(),
        forall|i: int| 0 <= i < idxs.len() ==> 0 <= #[trigger] idxs[i] < toks.len(),
    ensures
        fmt_tokens(toks, idxs.push(j)) == fmt_tokens(toks, idxs) + toks[j].1,
    decreases idxs.len(),
{
    if idxs.len() == 0 {
        assert(idxs.push(j).skip(1) =~= Seq::<int>::empty());
        assert(idxs.push(j)[0] == j);
        assert(fmt_tokens(toks, idxs.push(j).skip(1)) == Seq::<u8>::empty());
        assert(fmt_tokens(toks, idxs.push(j)) == toks[j].1 + Seq::<u8>::empty());
        assert(toks[j].1 + Seq::<u8>::empty() =~= toks[j].1);
        assert(fmt_tokens(toks, idxs) + toks[j].1 =~= toks[j].1);
    } else {
        assert(idxs.push(j).skip(1) =~= idxs.skip(1).push(j));
        lemma_fmt_tokens_push(toks, idxs.skip(1), j);
        assert(toks[idxs[0]].1 + (fmt_tokens(toks, idxs.skip(1)) + toks[j].1)
            =~= (toks[idxs[0]].1 + fmt_tokens(toks, idxs.skip(1))) + toks[j].1);
    }
}

/// Append the bytes of `lab` to `out`.
fn push_label(out: &mut Vec<u8>, lab: &Vec<u8>)
    ensures
        final(out)@ == old(out)@ + lab@,
{
    let mut i: usize = 0;
    while i < lab.len()
        invariant
            0 <= i <= lab@.len(),
            out@ == old(out)@ + lab@.take(i as int),
        decreases lab@.len() - i,
    {
        out.push(lab[i]);
        proof {
            assert(old(out)@ + lab@.take(i as int + 1)
                =~= (old(out)@ + lab@.take(i as int)).push(lab@[i as int]));
        }
        i += 1;
    }
    proof {
        assert(lab@.take(lab@.len() as int) =~= lab@);
    }
}

/// Write `tiles` as a rack string.
pub fn fmt_rack(alpha: &Alphabet, tiles: &Vec<u8>) -> (r: Vec<u8>)
    requires
        alpha.wf(),
        forall|i: int| 0 <= i < tiles@.len() ==> (#[trigger] tiles@[i] as int) < alpha.len_spec(),
    ensures
        r@ == fmt_rack_spec(alpha, tiles@),
{
    let toks = Ghost(alpha.rack_tokens());
    let idxs = Ghost(tiles@.map_values(|t: u8| t as int));
    let mut out: Vec<u8> = Vec::new();
    let mut i: usize = 0;
    proof {
        assert(idxs@.take(0) =~= Seq::<int>::empty());
    }
    while i < tiles.len()
        invariant
            alpha.wf(),
            toks@ == alpha.rack_tokens(),
            idxs@ == tiles@.map_values(|t: u8| t as int),
            forall|k: int| 0 <= k < tiles@.len() ==> (#[trigger] tiles@[k] as int) < alpha.len_spec(),
            0 <= i <= tiles@.len(),
            out@ == fmt_tokens(toks@, idxs@.take(i as int)),
        decreases tiles@.len() - i,
    {
        let t = tiles[i];
        proof {
            lemma_fmt_tokens_push(toks@, idxs@.take(i as int), t as int);
            assert(idxs@.take(i as int + 1) =~= idxs@.take(i as int).push(t as int));
            assert(toks@[t as int].1 == alpha.tiles@[t as int].rack_label@);
        }
        push_label(&mut out, &alpha.tiles[t as usize].rack_label);
        i += 1;
    }
    proof {
        assert(idxs@.take(tiles@.len() as int) =~= idxs@);
    }
    out
}

/// Write `word` as a played-tiles string, `.` for play-throughs.
pub fn fmt_play_tiles(alpha: &Alphabet, word: &Vec<u8>) -> (r: Vec<u8>)
    requires
        alpha.wf(),
        forall|i: int| 0 <= i < word@.len() ==> valid_play_code(alpha, #[trigger] word@[i]),
    ensures
        r@ == fmt_play_spec(alpha, word@),
{
    let toks = Ghost(alpha.play_tokens());
    let idxs = Ghost(word@.map_values(|t: u8| play_idx_of(alpha, t)));
    let mut out: Vec<u8> = Vec::new();
    let mut i: usize = 0;
    proof {
        assert(idxs@.take(0) =~= Seq::<int>::empty());
    }
    while i < word.len()
        invariant
            alpha.wf(),
            toks@ == alpha.play_tokens(),
            idxs@ == word@.map_values(|t: u8| play_idx_of(alpha, t)),
            forall|k: int| 0 <= k < word@.len() ==> valid_play_code(alpha, #[trigger] word@[k]),
            0 <= i <= word@.len(),
            out@ == fmt_tokens(toks@, idxs@.take(i as int)),
        decreases word@.len() - i,
    {
        let t = word[i];
        proof {
            assert(valid_play_code(alpha, word@[i as int]));
            assert(0 <= play_idx_of(alpha, t) < toks@.len());
            lemma_fmt_tokens_push(toks@, idxs@.take(i as int), play_idx_of(alpha, t));
            assert(idxs@.take(i as int + 1) =~= idxs@.take(i as int).push(play_idx_of(alpha, t)));
        }
        if t == 0 {
            proof {
                assert(toks@[play_idx_of(alpha, t)].1 =~= seq![46u8]);
                assert(out@.push(46u8) =~= out@ + seq![46u8]);
            }
            out.push(46);
        } else if t & 0x80 == 0 {
            proof {
                assert(toks@[play_idx_of(alpha, t)].1 == alpha.tiles@[t - 1 + 1].board_label@);
            }
            push_label(&mut out, &alpha.tiles[t as usize].board_label);
        } else {
            let letter = t & 0x7f;
            proof {
                let n = alpha.tiles@.len() - 1;
                assert(play_idx_of(alpha, t) == n + letter - 1);
                assert(toks@[n + letter - 1].1 == alpha.tiles@[letter as int].blank_label@);
            }
            push_label(&mut out, &alpha.tiles[letter as usize].blank_label);
        }
        i += 1;
    }
    proof {
        assert(idxs@.take(word@.len() as int) =~= idxs@);
    }
    out
}

/// Two prefixes of one string: the shorter is a prefix of the longer.
proof fn lemma_prefix_of_prefix(a: Seq<u8>, b: Seq<u8>, s: Seq<u8>)
    requires
        is_prefix_of(a, s),
        is_prefix_of(b, s),
        a.len() <= b.len(),
    ensures
        is_prefix_of(a, b),
{
    assert(a =~= b.subrange(0, a.len() as int)) by {
        assert(a == s.subrange(0, a.len() as int));
        assert(b == s.subrange(0, b.len() as int));
        assert forall|i: int| 0 <= i < a.len() implies a[i] == b.subrange(0, a.len() as int)[i] by {
            assert(a[i] == s[i]);
            assert(b[i] == s[i]);
        }
    }
}

/// Under a prefix-free table, the token whose label starts `s` is the match.
proof fn lemma_token_match_unique_upto(toks: Seq<Token>, s: Seq<u8>, i0: int, k: int)
    requires
        tokens_prefix_free(toks),
        0 <= i0 < toks.len(),
        is_prefix_of(toks[i0].1, s),
        0 <= k <= toks.len(),
    ensures
        token_match_upto(toks, s, k) == if k > i0 {
            Some((toks[i0].0, toks[i0].1.len() as int))
        } else {
            None::<(u8, int)>
        },
    decreases k,
{
    if k <= 0 {
    } else {
        lemma_token_match_unique_upto(toks, s, i0, k - 1);
        if k - 1 != i0 {
            if is_prefix_of(toks[k - 1].1, s) {
                if toks[k - 1].1.len() <= toks[i0].1.len() {
                    lemma_prefix_of_prefix(toks[k - 1].1, toks[i0].1, s);
                } else {
                    lemma_prefix_of_prefix(toks[i0].1, toks[k - 1].1, s);
                }
                assert(false);
            }
        }
    }
}

/// Greedy parsing inverts formatting: tokenizing a concatenation of labels
/// of a prefix-free table yields exactly the codes that were written.
pub proof fn lemma_parse_tiles_fmt_tokens(toks: Seq<Token>, idxs: Seq<int>)
    requires
        tokens_prefix_free(toks),
        tokens_nonempty(toks),
        forall|i: int| 0 <= i < idxs.len() ==> 0 <= #[trigger] idxs[i] < toks.len(),
    ensures
        parse_tiles(toks, fmt_tokens(toks, idxs))
            == Some(idxs.map_values(|j: int| toks[j].0)),
    decreases idxs.len(),
{
    let s = fmt_tokens(toks, idxs);
    let codes = idxs.map_values(|j: int| toks[j].0);
    if idxs.len() == 0 {
        assert(s.len() == 0);
        assert(codes =~= Seq::<u8>::empty());
    } else {
        let i0 = idxs[0];
        let lab = toks[i0].1;
        let rest = fmt_tokens(toks, idxs.skip(1));
        assert(s == lab + rest);
        assert(is_prefix_of(lab, s)) by {
            assert(lab =~= s.subrange(0, lab.len() as int));
        }
        assert(s.len() > 0);
        lemma_token_match_unique_upto(toks, s, i0, toks.len() as int);
        let l0 = lab.len() as int;
        assert(1 <= l0 <= s.len());
        assert(s.skip(l0) =~= rest);
        lemma_parse_tiles_fmt_tokens(toks, idxs.skip(1));
        assert(idxs.skip(1).map_values(|j: int| toks[j].0) =~= codes.skip(1));
        assert(seq![codes[0]] + codes.skip(1) =~= codes);
    }
}

/// Reading back a formatted rack returns the same tiles.
pub proof fn lemma_rack_round_trip(alpha: &Alphabet, tiles: Seq<u8>)
    requires
        alpha.wf(),
        tokens_prefix_free(alpha.rack_tokens()),
        forall|i: int| 0 <= i < tiles.len() ==> (#[trigger] tiles[i] as int) < alpha.len_spec(),
    ensures
        parse_tiles(alpha.rack_tokens(), fmt_rack_spec(alpha, tiles)) == Some(tiles),
{
    let toks = alpha.rack_tokens();
    let idxs = tiles.map_values(|t: u8| t as int);
    assert(forall|i: int| 0 <= i < idxs.len() ==> 0 <= #[trigger] idxs[i] < toks.len());
    assert(tokens_nonempty(toks)) by {
        assert forall|i: int| 0 <= i < toks.len() implies (#[trigger] toks[i].1).len() >= 1 by {
            assert(toks[i].1 == alpha.tiles@[i].rack_label@);
        }
    }
    lemma_parse_tiles_fmt_tokens(toks, idxs);
    assert(idxs.map_values(|j: int| toks[j].0) =~= tiles);
}

/// Reading back a formatted played-tiles string returns the same codes.
pub proof fn lemma_play_round_trip(alpha: &Alphabet, word: Seq<u8>)
    requires
        alpha.wf(),
        tokens_prefix_free(alpha.play_tokens()),
        forall|i: int| 0 <= i < word.len() ==> valid_play_code(alpha, #[trigger] word[i]),
    ensures
        parse_tiles(alpha.play_tokens(), fmt_play_spec(alpha, word)) == Some(word),
{
    let toks = alpha.play_tokens();
    let idxs = word.map_values(|t: u8| play_idx_of(alpha, t));
    assert forall|i: int| 0 <= i < idxs.len() implies 0 <= #[trigger] idxs[i] < toks.len() by {
        assert(valid_play_code(alpha, word[i]));
    }
    assert(tokens_nonempty(toks)) by {
        assert forall|i: int| 0 <= i < toks.len() implies (#[trigger] toks[i].1).len() >= 1 by {
            let n = alpha.tiles@.len() - 1;
            if i < n {
                assert(toks[i].1 == alpha.tiles@[i + 1].board_label@);
            } else if i < 2 * n {
                assert(toks[i].1 == alpha.tiles@[i - n + 1].blank_label@);
            } else {
                assert(toks[i].1 == seq![46u8]);
            }
        }
    }
    lemma_parse_tiles_fmt_tokens(toks, idxs);
    assert(idxs.map_values(|j: int| toks[j].0) =~= word) by {
        assert forall|i: int| 0 <= i < word.len()
            implies idxs.map_values(|j: int| toks[j].0)[i] == word[i] by {
            assert(valid_play_code(alpha, word[i]));
            let c = word[i];
            let n = alpha.tiles@.len() - 1;
            if c == 0 {
                assert(toks[2 * n].0 == 0u8);
            } else if c & 0x80 == 0 {
                assert(toks[c - 1].0 == c);
            } else {
                let letter = (c & 0x7f) as int;
                assert(toks[n + letter - 1].0 == ((letter as u8) | 0x80u8));
                assert(((c & 0x7f) | 0x80u8) == c) by (bit_vector)
                    requires c & 0x80u8 != 0u8;
            }
        }
    }
}

} // verus!
