//! Per-request decisions: which bot plays, whose turn it is, and how the
//! chosen play becomes a reply event.

use vstd::prelude::*;

use crate::GameError;
use crate::alphabet::fmt_play_spec;
use crate::alphabet::fmt_play_tiles;
use crate::alphabet::fmt_rack;
use crate::alphabet::fmt_rack_spec;
use crate::alphabet::valid_play_code;
use crate::display::fmt_position;
use crate::display::position_spec;
use crate::game::EventV;
use crate::game::GameEvent;
use crate::game::bytes_eq;
use crate::game::player_of;
use crate::game_config::GameConfig;
use crate::matrix::Strider;
use crate::movegen::Play;
use crate::movegen::PlayV;

verus! {

/// The bot named by a request.
#[derive(Clone, Copy, Debug, PartialEq, Eq, Structural)]
pub enum BotCode {
    HastyBot,
    Level1Probabilistic,
    Level2Probabilistic,
    Level3Probabilistic,
    Level4Probabilistic,
    Level5Probabilistic,
    Level1CommonWordBot,
    Level2CommonWordBot,
    Level3CommonWordBot,
    Level4CommonWordBot,
    NoLeaveBot,
    SimmingBot,
    /// Any code this service does not support; it gets no reply.
    Unsupported,
}

/// What the bot code comes down to.
#[derive(Clone, Copy, Debug, PartialEq, Eq, Structural)]
pub enum EffectiveBot {
    Unfiltered,
    Tilt { level: u8 },
    Sim,
    /// A code this service does not play; the request gets no reply.
    Unsupported,
}

/// The whole classification: common-word sublexicon wanted, and how to
/// play.
pub open spec fn classify_spec(code: BotCode) -> (bool, EffectiveBot) {
    match code {
        BotCode::HastyBot => (false, EffectiveBot::Unfiltered),
        BotCode::Level1CommonWordBot => (true, EffectiveBot::Tilt { level: 1 }),
        BotCode::Level2CommonWordBot => (true, EffectiveBot::Tilt { level: 2 }),
        BotCode::Level3CommonWordBot => (true, EffectiveBot::Tilt { level: 3 }),
        BotCode::Level4CommonWordBot => (true, EffectiveBot::Tilt { level: 4 }),
        BotCode::Level1Probabilistic => (false, EffectiveBot::Tilt { level: 1 }),
        BotCode::Level2Probabilistic => (false, EffectiveBot::Tilt { level: 2 }),
        BotCode::Level3Probabilistic => (false, EffectiveBot::Tilt { level: 3 }),
        BotCode::Level4Probabilistic => (false, EffectiveBot::Tilt { level: 4 }),
        BotCode::Level5Probabilistic => (false, EffectiveBot::Tilt { level: 5 }),
        BotCode::NoLeaveBot => (false, EffectiveBot::Unfiltered),
        BotCode::SimmingBot => (false, EffectiveBot::Sim),
        BotCode::Unsupported => (false, EffectiveBot::Unsupported),
    }
}

pub fn classify_bot(code: BotCode) -> (r: (bool, EffectiveBot))
    ensures
        r == classify_spec(code),
{
    match code {
        BotCode::HastyBot => (false, EffectiveBot::Unfiltered),
        BotCode::Level1CommonWordBot => (true, EffectiveBot::Tilt { level: 1 }),
        BotCode::Level2CommonWordBot => (true, EffectiveBot::Tilt { level: 2 }),
        BotCode::Level3CommonWordBot => (true, EffectiveBot::Tilt { level: 3 }),
        BotCode::Level4CommonWordBot => (true, EffectiveBot::Tilt { level: 4 }),
        BotCode::Level1Probabilistic => (false, EffectiveBot::Tilt { level: 1 }),
        BotCode::Level2Probabilistic => (false, EffectiveBot::Tilt { level: 2 }),
        BotCode::Level3Probabilistic => (false, EffectiveBot::Tilt { level: 3 }),
        BotCode::Level4Probabilistic => (false, EffectiveBot::Tilt { level: 4 }),
        BotCode::Level5Probabilistic => (false, EffectiveBot::Tilt { level: 5 }),
        BotCode::NoLeaveBot => (false, EffectiveBot::Unfiltered),
        BotCode::SimmingBot => (false, EffectiveBot::Sim),
        BotCode::Unsupported => (false, EffectiveBot::Unsupported),
    }
}

/// How the request will be answered: with a tilt, with the simmer, after
/// a think-time delay; or — for a combination the rules refuse — not at
/// all.
pub open spec fn plan_spec(
    eff: EffectiveBot,
    has_tilter: bool,
    jumbled: bool,
) -> Option<(bool, u8, bool, bool)> {
    match eff {
        EffectiveBot::Tilt { level } => if has_tilter && !jumbled {
            Some((true, level, false, true))
        } else {
            None
        },
        EffectiveBot::Unfiltered => Some((false, 0u8, false, false)),
        EffectiveBot::Sim => if !jumbled {
            Some((false, 0u8, true, false))
        } else {
            None
        },
        EffectiveBot::Unsupported => None,
    }
}

/// Pick the filter, the picker and the think-time flag, or decline.
pub fn choose_plan(eff: EffectiveBot, has_tilter: bool, jumbled: bool) -> (r: Option<(bool, u8,
    bool, bool)>)
    ensures
        r == plan_spec(eff, has_tilter, jumbled),
{
    match eff {
        EffectiveBot::Tilt { level } => if has_tilter && !jumbled {
            Some((true, level, false, true))
        } else {
            None
        },
        EffectiveBot::Unfiltered => Some((false, 0u8, false, false)),
        EffectiveBot::Sim => if !jumbled {
            Some((false, 0u8, true, false))
        } else {
            None
        },
        EffectiveBot::Unsupported => None,
    }
}

/// An unsupported bot code is never answered, whatever the game.
pub proof fn lemma_unsupported_code_declined(has_tilter: bool, jumbled: bool)
    ensures
        plan_spec(EffectiveBot::Unsupported, has_tilter, jumbled) is None,
{
}

/// The simmer never answers a jumbled game: that combination is declined,
/// whatever else the request says.
pub proof fn lemma_sim_on_jumbled_declined(has_tilter: bool)
    ensures
        plan_spec(EffectiveBot::Sim, has_tilter, true) is None,
{
}

/// Whose turn follows the history: with no events, whoever the deprecated
/// flag says went first; after an event, the other player.
pub open spec fn turn_spec(events: Seq<EventV>, nick0: Seq<u8>, second_went_first: bool) -> int {
    if events.len() == 0 {
        if second_went_first {
            1
        } else {
            0
        }
    } else {
        1 - player_of(events[events.len() - 1], nick0)
    }
}

pub fn turn_after(events: &Vec<GameEvent>, nick0: &Vec<u8>, second_went_first: bool) -> (r: u8)
    ensures
        r as int == turn_spec(events@.map_values(|e: GameEvent| e@), nick0@, second_went_first),
        r < 2,
{
    if events.len() == 0 {
        if second_went_first {
            1
        } else {
            0
        }
    } else {
        let ev = &events[events.len() - 1];
        proof {
            assert(events@.map_values(|e: GameEvent| e@)[events@.len() - 1]
                == events@[events@.len() - 1]@);
        }
        let is_p0 = if ev.nickname.len() == 0 {
            ev.player_index == 0
        } else {
            bytes_eq(&ev.nickname, nick0)
        };
        if is_p0 {
            1
        } else {
            0
        }
    }
}

/// With an empty bag and an empty opposing rack, only a pass (or a
/// challenge) is in order.
pub fn must_pass_or_challenge(bag_len: usize, opp_rack_len: usize) -> (r: bool)
    ensures
        r == (bag_len == 0 && opp_rack_len == 0),
{
    bag_len == 0 && opp_rack_len == 0
}

/// What kind of reply event a play becomes.
#[derive(Clone, Copy, Debug, PartialEq, Eq, Structural)]
pub enum MoveKind {
    Pass,
    Exchange,
    TilePlacement,
}

/// The reply's content, as plain values the transport can encode.
pub struct BotMove {
    pub kind: MoveKind,
    pub down: bool,
    pub row: u8,
    pub column: u8,
    /// `<row><COL>` or `<COL><row>` position text; empty off placements.
    pub position: Vec<u8>,
    /// The full main word, board letters shown; empty off placements.
    pub played: Vec<u8>,
    /// The tiles given back; empty off exchanges.
    pub exchanged: Vec<u8>,
    pub score: i32,
}

/// The main word with play-throughs replaced by what the board shows.
pub open spec fn shown_word(board: Seq<u8>, s: Strider, idx: int, word: Seq<u8>) -> Seq<u8> {
    Seq::new(word.len(), |i: int|
        if word[i] == 0 {
            board[s.at_spec(idx + i)]
        } else {
            word[i]
        })
}

/// A placement the reply can spell out: it lies on the board and every
/// shown cell bears a tile the alphabet can write.
pub open spec fn writable_place(
    cfg: &GameConfig,
    board: Seq<u8>,
    down: bool,
    lane: u8,
    idx: u8,
    word: Seq<u8>,
) -> bool {
    let s = Strider { down, lane, dim: cfg.dim };
    &&& (if down {
        lane < cfg.dim.cols && idx < cfg.dim.rows
    } else {
        lane < cfg.dim.rows && idx < cfg.dim.cols
    })
    &&& idx + word.len() <= s.len_spec()
    &&& forall|i: int|
        0 <= i < word.len() ==> (#[trigger] shown_word(board, s, idx as int, word)[i]) != 0
            && valid_play_code(&cfg.alphabet, shown_word(board, s, idx as int, word)[i])
}

/// Turn the chosen play into the reply event: position text, the shown
/// word or the exchanged tiles, and the score.  The board is the one the
/// play was generated for, already holding any earlier placements but not
/// this one.
pub fn build_move_event(cfg: &GameConfig, board: &Vec<u8>, play: &Play) -> (r: Result<BotMove,
    GameError>)
    requires
        cfg.wf(),
        crate::board::board_wf(board@, cfg.dim),
    ensures
        match r {
            Ok(m) => match play@ {
                PlayV::Exchange { tiles } => (tiles.len() == 0 && m.kind == MoveKind::Pass) || (
                tiles.len() > 0 && m.kind == MoveKind::Exchange && m.exchanged@
                    == fmt_rack_spec(&cfg.alphabet, tiles)),
                PlayV::Place { down, lane, idx, word, score } => m.kind
                    == MoveKind::TilePlacement && m.down == down && m.score == score && (m.row
                    as int) == crate::movegen::cell_row(down, lane as int, idx as int) && (
                m.column as int) == crate::movegen::cell_col(down, lane as int, idx as int)
                    && m.position@ == position_spec(down, lane as int, idx as int) && m.played@
                    == fmt_play_spec(&cfg.alphabet, shown_word(board@, Strider {
                    down,
                    lane,
                    dim: cfg.dim,
                }, idx as int, word)),
            },
            Err(_) => true,
        },
        // success is owed whenever the play can be written out
        match play@ {
            PlayV::Exchange { tiles } => (forall|i: int|
                0 <= i < tiles.len() ==> (#[trigger] tiles[i] as int)
                    < cfg.alphabet.len_spec()) ==> r is Ok,
            PlayV::Place { down, lane, idx, word, .. } => writable_place(cfg, board@, down,
                lane, idx, word) ==> r is Ok,
        },
{
    match play {
        Play::Exchange { tiles } => {
            if tiles.len() == 0 {
                Ok(BotMove {
                    kind: MoveKind::Pass,
                    down: false,
                    row: 0,
                    column: 0,
                    position: Vec::new(),
                    played: Vec::new(),
                    exchanged: Vec::new(),
                    score: 0,
                })
            } else {
                let mut i: usize = 0;
                while i < tiles.len()
                    invariant
                        cfg.wf(),
                        (play@ matches PlayV::Exchange { tiles: t2 } && t2 == tiles@),
                        0 <= i <= tiles@.len(),
                        forall|k: int|
                            0 <= k < i ==> (#[trigger] tiles@[k] as int)
                                < cfg.alphabet.len_spec(),
                    decreases tiles@.len() - i,
                {
                    if tiles[i] >= cfg.alphabet.len() {
                        return Err(GameError::InvalidTile);
                    }
                    i += 1;
                }
                let exchanged = fmt_rack(&cfg.alphabet, tiles);
                Ok(BotMove {
                    kind: MoveKind::Exchange,
                    down: false,
                    row: 0,
                    column: 0,
                    position: Vec::new(),
                    played: Vec::new(),
                    exchanged,
                    score: 0,
                })
            }
        },
        Play::Place { down, lane, idx, word, score } => {
            let down = *down;
            let lane = *lane;
            let idx = *idx;
            if down {
                if !(lane < cfg.dim.cols && idx < cfg.dim.rows) {
                    return Err(GameError::OutOfBounds);
                }
            } else {
                if !(lane < cfg.dim.rows && idx < cfg.dim.cols) {
                    return Err(GameError::OutOfBounds);
                }
            }
            let s = cfg.dim.lane(down, lane);
            let slen = s.len();
            if word.len() > (slen - idx) as usize {
                return Err(GameError::OutOfBounds);
            }
            // substitute the board's letters for the play-throughs
            let ghost shown_spec_word = shown_word(board@, s, idx as int, word@);
            let mut shown: Vec<u8> = Vec::new();
            let mut i: usize = 0;
            while i < word.len()
                invariant
                    cfg.wf(),
                    crate::board::board_wf(board@, cfg.dim),
                    (play@ matches PlayV::Place { down: d2, lane: l2, idx: x2, word: w2, .. }
                        && d2 == down && l2 == lane && x2 == idx && w2 == word@),
                    s == (Strider { down, lane, dim: cfg.dim }),
                    s.wf(),
                    idx as int + word@.len() <= s.len_spec(),
                    shown_spec_word == shown_word(board@, s, idx as int, word@),
                    0 <= i <= word@.len(),
                    shown@ == shown_spec_word.take(i as int),
                    forall|k: int|
                        0 <= k < i ==> valid_play_code(&cfg.alphabet, #[trigger] shown@[k]),
                decreases word@.len() - i,
            {
                let x = word[i];
                let v = if x == 0 {
                    board[s.at(idx + i as u8)]
                } else {
                    x
                };
                proof {
                    assert(v == shown_word(board@, s, idx as int, word@)[i as int]);
                }
                // a letter the alphabet does not know cannot be written out
                if v == 0 {
                    proof {
                        assert(!writable_place(cfg, board@, down, lane, idx, word@));
                    }
                    return Err(GameError::PlayThroughVacant);
                }
                if v & 0x80 != 0 {
                    let letter = v & 0x7f;
                    if !(1 <= letter && letter < cfg.alphabet.len()) {
                        proof {
                            assert(!valid_play_code(&cfg.alphabet, v));
                            assert(!writable_place(cfg, board@, down, lane, idx, word@));
                        }
                        return Err(GameError::InvalidTile);
                    }
                } else {
                    if !(v < cfg.alphabet.len()) {
                        proof {
                            assert(!valid_play_code(&cfg.alphabet, v));
                            assert(!writable_place(cfg, board@, down, lane, idx, word@));
                        }
                        return Err(GameError::InvalidTile);
                    }
                }
                shown.push(v);
                proof {
                    assert(shown_spec_word.take(i as int + 1)
                        =~= shown_spec_word.take(i as int).push(shown_spec_word[i as int]));
                }
                i += 1;
            }
            proof {
                assert(shown_spec_word.take(word@.len() as int) =~= shown_spec_word);
            }
            let played = fmt_play_tiles(&cfg.alphabet, &shown);
            let position = fmt_position(down, lane, idx);
            let (row, column) = if down {
                (idx, lane)
            } else {
                (lane, idx)
            };
            Ok(BotMove {
                kind: MoveKind::TilePlacement,
                down,
                row,
                column,
                position,
                played,
                exchanged: Vec::new(),
                score: *score,
            })
        },
    }
}

} // verus!
