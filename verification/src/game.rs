//! Game state and history replay.
//!
//! A request carries the whole history of a two-player game.  Replay walks
//! the events in order: it records each player's cumulative score, applies
//! every tile placement that a later event confirms, and holds the last
//! placement back until the end, where it is applied and — being the only
//! one still challengeable — checked against the word graph.  A
//! `PhonyTilesReturned` event withdraws the placement pending before it.

use vstd::prelude::*;

use crate::GameError;
use crate::alphabet::Alphabet;
use crate::alphabet::parse_played_tiles;
use crate::alphabet::parse_tiles;
use crate::board::board_wf;
use crate::board::place_error;
use crate::board::place_tiles_on_board;
use crate::board::placed_board;
use crate::board::words_ok;
use crate::kwg::Kwg;
use crate::matrix::Dim;
use crate::matrix::Strider;

verus! {

/// What a history event did.
#[derive(Clone, Copy, Debug, PartialEq, Eq, Structural)]
pub enum EventKind {
    /// Tiles were placed on the board.
    TilePlacement,
    /// The placement before this event was challenged off.
    PhonyTilesReturned,
    /// Anything else: a pass, an exchange, an end-of-game entry.
    Other,
}

/// One entry of a game history, already decoded to plain values.
pub struct GameEvent {
    pub kind: EventKind,
    /// Acting player's nickname; empty means `player_index` is authoritative.
    pub nickname: Vec<u8>,
    pub player_index: u8,
    /// The acting player's score after this event.
    pub cumulative: i32,
    /// Placement direction: down a column instead of across a row.
    pub down: bool,
    pub row: i32,
    pub column: i32,
    /// Placement text, `.` for play-throughs, unparsed.
    pub played_tiles: Vec<u8>,
}

/// The ghost image of an event.
pub struct EventV {
    pub kind: EventKind,
    pub nickname: Seq<u8>,
    pub player_index: u8,
    pub cumulative: i32,
    pub down: bool,
    pub row: i32,
    pub column: i32,
    pub played_tiles: Seq<u8>,
}

impl View for GameEvent {
    type V = EventV;

    open spec fn view(&self) -> EventV {
        EventV {
            kind: self.kind,
            nickname: self.nickname@,
            player_index: self.player_index,
            cumulative: self.cumulative,
            down: self.down,
            row: self.row,
            column: self.column,
            played_tiles: self.played_tiles@,
        }
    }
}

/// Board, bag, both seats (scores and racks side by side) and whose turn
/// it is.
pub struct GameState {
    pub board: Vec<u8>,
    pub bag: Vec<u8>,
    pub scores: Vec<i32>,
    pub racks: Vec<Vec<u8>>,
    pub turn: u8,
}

impl GameState {
    pub open spec fn wf(&self, dim: Dim) -> bool {
        &&& board_wf(self.board@, dim)
        &&& self.scores@.len() == 2
        &&& self.racks@.len() == 2
        &&& self.turn < 2
    }

    /// A fresh state: empty board, empty bag, empty racks, zero scores.
    pub fn new(dim: Dim) -> (r: GameState)
        requires
            dim.wf(),
        ensures
            r.wf(dim),
            r.board@ == empty_board(dim),
            r.bag@.len() == 0,
            r.scores@[0] == 0 && r.racks@[0]@.len() == 0,
            r.scores@[1] == 0 && r.racks@[1]@.len() == 0,
            r.turn == 0,
    {
        proof {
            assert(0 <= dim.rows as int * dim.cols as int <= 441) by (nonlinear_arith)
                requires
                    1 <= dim.rows <= 21,
                    1 <= dim.cols <= 21,
            ;
        }
        let area = (dim.rows as usize) * (dim.cols as usize);
        let mut board: Vec<u8> = Vec::new();
        let mut i: usize = 0;
        while i < area
            invariant
                0 <= i <= area,
                board@.len() == i,
                forall|j: int| 0 <= j < i ==> board@[j] == 0,
            decreases area - i,
        {
            board.push(0);
            i += 1;
        }
        proof {
            assert(board@ =~= empty_board(dim));
        }
        let mut scores: Vec<i32> = Vec::new();
        scores.push(0);
        scores.push(0);
        let mut racks: Vec<Vec<u8>> = Vec::new();
        racks.push(Vec::new());
        racks.push(Vec::new());
        GameState { board, bag: Vec::new(), scores, racks, turn: 0 }
    }
}

/// An all-empty board of the given dimensions.
pub open spec fn empty_board(dim: Dim) -> Seq<u8> {
    Seq::new(dim.area() as nat, |j: int| 0u8)
}

/// The seat an event belongs to: by nickname when one is given, by index
/// otherwise.
pub open spec fn player_of(ev: EventV, nick0: Seq<u8>) -> int {
    if ev.nickname.len() == 0 {
        if ev.player_index == 0 {
            0
        } else {
            1
        }
    } else if ev.nickname == nick0 {
        0
    } else {
        1
    }
}

/// The placement parameters of an event, when its coordinates fit the board
/// and its tiles parse: direction, lane, start, parsed tiles.
pub open spec fn placement_parts(
    dim: Dim,
    alpha: &Alphabet,
    ev: EventV,
) -> Result<(bool, u8, u8, Seq<u8>), GameError> {
    if ev.row < 0 || ev.row >= dim.rows {
        Err(GameError::BadRow)
    } else if ev.column < 0 || ev.column >= dim.cols {
        Err(GameError::BadColumn)
    } else {
        match parse_tiles(alpha.play_tokens(), ev.played_tiles) {
            None => Err(GameError::InvalidTile),
            Some(tiles) => if ev.down {
                Ok((true, ev.column as u8, ev.row as u8, tiles))
            } else {
                Ok((false, ev.row as u8, ev.column as u8, tiles))
            },
        }
    }
}

/// The board after applying one placement event, or its first fault.
pub open spec fn apply_placement(
    dim: Dim,
    alpha: &Alphabet,
    board: Seq<u8>,
    ev: EventV,
) -> Result<Seq<u8>, GameError> {
    match placement_parts(dim, alpha, ev) {
        Err(e) => Err(e),
        Ok((down, lane, idx, tiles)) => match place_error(board, dim, down, lane, idx, tiles) {
            Some(e) => Err(e),
            None => Ok(placed_board(board, Strider { down, lane, dim }, idx as int, tiles)),
        },
    }
}

/// Board, scores and pending placement after the first `i` events.
pub open spec fn replay_upto(
    dim: Dim,
    alpha: &Alphabet,
    events: Seq<EventV>,
    nick0: Seq<u8>,
    i: int,
) -> Result<(Seq<u8>, Seq<i32>, Option<int>), GameError>
    decreases i,
{
    if i <= 0 {
        Ok((empty_board(dim), seq![0i32, 0i32], None))
    } else {
        match replay_upto(dim, alpha, events, nick0, i - 1) {
            Err(e) => Err(e),
            Ok((board, scores, pending)) => {
                let ev = events[i - 1];
                let scores2 = scores.update(player_of(ev, nick0), ev.cumulative);
                match ev.kind {
                    EventKind::PhonyTilesReturned => Ok((board, scores2, None)),
                    EventKind::TilePlacement => match pending {
                        None => Ok((board, scores2, Some(i - 1))),
                        Some(j) => match apply_placement(dim, alpha, board, events[j]) {
                            Err(e) => Err(e),
                            Ok(b2) => Ok((b2, scores2, Some(i - 1))),
                        },
                    },
                    EventKind::Other => Ok((board, scores2, pending)),
                }
            },
        }
    }
}

/// The whole replay: every event applied, the still-pending last placement
/// applied too and, being the one a challenge could still hit, checked
/// against the word graph.  The `bool` is false when that check failed.
pub open spec fn replay_outcome(
    dim: Dim,
    alpha: &Alphabet,
    kwg: Seq<u32>,
    jumbled: bool,
    events: Seq<EventV>,
    nick0: Seq<u8>,
) -> Result<(Seq<u8>, Seq<i32>, bool), GameError> {
    match replay_upto(dim, alpha, events, nick0, events.len() as int) {
        Err(e) => Err(e),
        Ok((board, scores, pending)) => match pending {
            None => Ok((board, scores, true)),
            Some(j) => match apply_placement(dim, alpha, board, events[j]) {
                Err(e) => Err(e),
                Ok(b2) => {
                    let parts = placement_parts(dim, alpha, events[j]);
                    let valid = if j == events.len() - 1 {
                        match parts {
                            Ok((down, lane, idx, tiles)) => words_ok(b2, dim, kwg, jumbled,
                                alpha.len_spec(), down, lane, idx as int, tiles),
                            Err(_) => true,
                        }
                    } else {
                        true
                    };
                    Ok((b2, scores, valid))
                },
            },
        },
    }
}

/// A replay error at step `i` is the replay's error ever after.
proof fn lemma_replay_upto_err(
    dim: Dim,
    alpha: &Alphabet,
    events: Seq<EventV>,
    nick0: Seq<u8>,
    i: int,
    k: int,
)
    requires
        0 <= i <= k,
        replay_upto(dim, alpha, events, nick0, i) is Err,
    ensures
        replay_upto(dim, alpha, events, nick0, k) == replay_upto(dim, alpha, events, nick0, i),
    decreases k - i,
{
    if k > i {
        lemma_replay_upto_err(dim, alpha, events, nick0, i, k - 1);
    }
}

/// Parse and apply one placement event onto the board.
fn apply_placement_exec(
    board: &mut Vec<u8>,
    dim: Dim,
    alpha: &Alphabet,
    ev: &GameEvent,
) -> (r: Result<(), GameError>)
    requires
        board_wf(old(board)@, dim),
        alpha.wf(),
    ensures
        board_wf(final(board)@, dim),
        match r {
            Ok(()) => apply_placement(dim, alpha, old(board)@, ev@) == Ok::<_, GameError>(
                final(board)@),
            Err(e) => apply_placement(dim, alpha, old(board)@, ev@) == Err::<Seq<u8>, _>(e)
                && final(board)@ == old(board)@,
        },
{
    if ev.row < 0 || ev.row >= dim.rows as i32 {
        return Err(GameError::BadRow);
    }
    if ev.column < 0 || ev.column >= dim.cols as i32 {
        return Err(GameError::BadColumn);
    }
    let tiles = match parse_played_tiles(alpha, ev.played_tiles.as_slice()) {
        Ok(t) => t,
        Err(e) => {
            return Err(e);
        },
    };
    let (down, lane, idx) = if ev.down {
        (true, ev.column as u8, ev.row as u8)
    } else {
        (false, ev.row as u8, ev.column as u8)
    };
    let ghost b0 = board@;
    match place_tiles_on_board(board, dim, down, lane, idx, &tiles) {
        Ok(()) => {
            proof {
                crate::board::lemma_placed_from_cells(b0, Strider { down, lane, dim }, idx as int,
                    tiles@, 0);
            }
            Ok(())
        },
        Err(e) => Err(e),
    }
}

/// Replay a history onto a fresh state: scores and board from the events,
/// the last pending placement checked against the word graph.  `Ok(false)`
/// means that check failed and the reply should be a challenge.
pub fn replay_history(
    state: &mut GameState,
    dim: Dim,
    alpha: &Alphabet,
    g: &Kwg,
    jumbled: bool,
    events: &Vec<GameEvent>,
    nick0: &Vec<u8>,
) -> (r: Result<bool, GameError>)
    requires
        old(state).wf(dim),
        alpha.wf(),
        g.wf(),
    ensures
        final(state).wf(dim),
        final(state).turn == old(state).turn,
        final(state).bag@ == old(state).bag@,
        match r {
            Ok(valid) => ({
                let oc = replay_outcome(dim, alpha, g.nodes@, jumbled,
                    events@.map_values(|e: GameEvent| e@), nick0@);
                oc matches Ok((b, sc, v)) && final(state).board@ == b
                    && final(state).scores@[0] == sc[0]
                    && final(state).scores@[1] == sc[1]
                    && valid == v
            }),
            Err(e) => replay_outcome(dim, alpha, g.nodes@, jumbled,
                events@.map_values(|e: GameEvent| e@), nick0@) == Err::<(Seq<u8>, Seq<i32>, bool),
                _>(e),
        },
{
    let ghost evs = events@.map_values(|e: GameEvent| e@);
    // reset the board and the scores
    let fresh = GameState::new(dim);
    let mut score0: i32 = 0;
    let mut score1: i32 = 0;
    state.board = fresh.board;

    let mut pending: usize = events.len();  // events.len() means none
    let mut i: usize = 0;
    proof {
        assert(replay_upto(dim, alpha, evs, nick0@, 0)
            == Ok::<_, GameError>((empty_board(dim), seq![0i32, 0i32], None::<int>)));
    }
    while i < events.len()
        invariant
            state.wf(dim),
            alpha.wf(),
            state.turn == old(state).turn,
            state.bag@ == old(state).bag@,
            evs == events@.map_values(|e: GameEvent| e@),
            0 <= i <= events@.len(),
            pending <= events@.len(),
            replay_upto(dim, alpha, evs, nick0@, i as int) == Ok::<_, GameError>((state.board@,
                seq![score0, score1],
                if pending == events@.len() {
                    None::<int>
                } else {
                    Some(pending as int)
                })),
        decreases events@.len() - i,
    {
        let ev = &events[i];
        proof {
            assert(evs[i as int] == events@[i as int]@);
        }
        // record the acting player's cumulative score
        let is_p0 = if ev.nickname.len() == 0 {
            ev.player_index == 0
        } else {
            bytes_eq(&ev.nickname, nick0)
        };
        let ghost old_scores = seq![score0, score1];
        if is_p0 {
            score0 = ev.cumulative;
        } else {
            score1 = ev.cumulative;
        }
        proof {
            assert(seq![score0, score1]
                =~= old_scores.update(player_of(evs[i as int], nick0@), evs[i as int].cumulative));
        }
        match ev.kind {
            EventKind::PhonyTilesReturned => {
                pending = events.len();
            },
            EventKind::TilePlacement => {
                if pending < events.len() {
                    let pe = &events[pending];
                    proof {
                        assert(evs[pending as int] == events@[pending as int]@);
                    }
                    match apply_placement_exec(&mut state.board, dim, alpha, pe) {
                        Ok(()) => {},
                        Err(e) => {
                            proof {
                                assert(replay_upto(dim, alpha, evs, nick0@, i as int + 1)
                                    == Err::<(Seq<u8>, Seq<i32>, Option<int>), GameError>(e));
                                lemma_replay_upto_err(dim, alpha, evs, nick0@, i as int + 1,
                                    evs.len() as int);
                            }
                            return Err(e);
                        },
                    }
                }
                pending = i;
            },
            EventKind::Other => {},
        }
        i += 1;
    }
    if pending < events.len() {
        let pe = &events[pending];
        proof {
            assert(evs[pending as int] == events@[pending as int]@);
        }
        match apply_placement_exec(&mut state.board, dim, alpha, pe) {
            Ok(()) => {},
            Err(e) => {
                return Err(e);
            },
        }
        let mut valid = true;
        if pending + 1 == events.len() {
            // only the last event is still open to a challenge
            if pe.row >= 0 && pe.row < dim.rows as i32 && pe.column >= 0
                && pe.column < dim.cols as i32 {
                match parse_played_tiles(alpha, pe.played_tiles.as_slice()) {
                    Ok(tiles) => {
                        let (down, lane, idx) = if pe.down {
                            (true, pe.column as u8, pe.row as u8)
                        } else {
                            (false, pe.row as u8, pe.column as u8)
                        };
                        proof {
                            assert(idx as int + tiles@.len()
                                <= (Strider { down, lane, dim }).len_spec());
                        }
                        valid = g.placement_words_ok(&state.board, dim, jumbled, alpha.len(),
                            down, lane, idx, &tiles);
                    },
                    Err(_) => {
                        // placement already applied, so its tiles parse
                        proof {
                            assert(false);
                        }
                    },
                }
            } else {
                proof {
                    assert(false);
                }
            }
        }
        state.scores.set(0, score0);
        state.scores.set(1, score1);
        return Ok(valid);
    }
    state.scores.set(0, score0);
    state.scores.set(1, score1);
    Ok(true)
}

/// Draw from the back of the bag until the rack is full or the bag is
/// empty.  Tiles move, none appear and none vanish.
pub fn draw_tiles(rack: &mut Vec<u8>, bag: &mut Vec<u8>, rack_size: u8)
    ensures
        final(rack)@.len() <= vstd::math::max(rack_size as int, old(rack)@.len() as int),
        forall|t: u8|
            #[trigger] crate::board::count_in(final(rack)@, t) + crate::board::count_in(
                final(bag)@, t) == crate::board::count_in(old(rack)@, t)
                + crate::board::count_in(old(bag)@, t),
        old(rack)@.len() <= rack_size ==> (final(rack)@.len() == rack_size || final(
        bag)@.len() == 0),
{
    while rack.len() < rack_size as usize && bag.len() > 0
        invariant
            rack@.len() <= vstd::math::max(rack_size as int, old(rack)@.len() as int),
            forall|t: u8|
                #[trigger] crate::board::count_in(rack@, t) + crate::board::count_in(bag@, t)
                    == crate::board::count_in(old(rack)@, t) + crate::board::count_in(
                    old(bag)@, t),
        decreases bag@.len(),
    {
        let ghost bag0 = bag@;
        let ghost rack0 = rack@;
        let t = bag.pop().unwrap();
        rack.push(t);
        proof {
            assert(bag@ =~= bag0.drop_last());
            assert(rack@ =~= rack0.push(t));
            assert forall|u: u8|
                #[trigger] crate::board::count_in(rack@, u) + crate::board::count_in(bag@, u)
                    == crate::board::count_in(rack0, u) + crate::board::count_in(bag0, u) by {
                assert(rack@.drop_last() =~= rack0);
            }
        }
    }
}

/// Take one copy of `t` off the rack; says whether one was there.
pub fn remove_rack_tile(rack: &mut Vec<u8>, t: u8) -> (r: bool)
    ensures
        r ==> crate::board::count_in(final(rack)@, t) == crate::board::count_in(old(rack)@, t)
            - 1 && (forall|u: u8|
            u != t ==> #[trigger] crate::board::count_in(final(rack)@, u)
                == crate::board::count_in(old(rack)@, u)) && final(rack)@.len() == old(
            rack)@.len() - 1,
        !r ==> final(rack)@ == old(rack)@ && crate::board::count_in(old(rack)@, t) == 0,
{
    let mut i: usize = 0;
    while i < rack.len()
        invariant
            0 <= i <= rack@.len(),
            rack@ == old(rack)@,
            forall|k: int| 0 <= k < i ==> rack@[k] != t,
        decreases rack@.len() - i,
    {
        if rack[i] == t {
            let ghost r0 = rack@;
            let picked = rack.swap_remove(i);
            proof {
                assert(picked == r0[i as int]);
                assert(rack@ =~= r0.update(i as int, r0[r0.len() - 1]).drop_last());
                assert forall|u: u8| true implies #[trigger] crate::board::count_in(rack@, u)
                    == crate::board::count_in(r0, u) - (if u == t {
                    1int
                } else {
                    0int
                }) by {
                    lemma_count_swap_remove(r0, i as int, u);
                }
            }
            return true;
        }
        i += 1;
    }
    proof {
        lemma_count_absent(rack@, t);
    }
    false
}

/// A sequence without `t` holds no copy of it.
proof fn lemma_count_absent(s: Seq<u8>, t: u8)
    requires
        forall|k: int| 0 <= k < s.len() ==> s[k] != t,
    ensures
        crate::board::count_in(s, t) == 0,
    decreases s.len(),
{
    if s.len() > 0 {
        lemma_count_absent(s.drop_last(), t);
    }
}

/// Counting after a swap-removal.
proof fn lemma_count_swap_remove(s: Seq<u8>, i: int, u: u8)
    requires
        0 <= i < s.len(),
    ensures
        crate::board::count_in(s.update(i, s[s.len() - 1]).drop_last(), u)
            == crate::board::count_in(s, u) - (if s[i] == u {
            1int
        } else {
            0int
        }),
    decreases s.len(),
{
    let last = s[s.len() - 1];
    if i == s.len() - 1 {
        assert(s.update(i, last) =~= s);
    } else {
        let s2 = s.update(i, last);
        assert(s2.drop_last().update(i, s[i]) =~= s.drop_last());
        crate::bag::lemma_count_in_update_pub(s2.drop_last(), i, s[i], u);
        assert(s2.drop_last()[i] == last);
        assert(s2.last() == last);
    }
}

/// Switch whose turn it is.
pub fn next_turn(state: &mut GameState)
    requires
        old(state).turn < 2,
    ensures
        final(state).turn == 1 - old(state).turn,
        final(state).board@ == old(state).board@,
        final(state).bag@ == old(state).bag@,
        final(state).scores@ == old(state).scores@,
        final(state).racks@ == old(state).racks@,
{
    state.turn = 1 - state.turn;
}

/// A fresh vector with the same tiles.
fn clone_tiles(v: &Vec<u8>) -> (r: Vec<u8>)
    ensures
        r@ == v@,
{
    let mut r: Vec<u8> = Vec::new();
    let mut i: usize = 0;
    while i < v.len()
        invariant
            0 <= i <= v@.len(),
            r@ == v@.take(i as int),
        decreases v@.len() - i,
    {
        r.push(v[i]);
        proof {
            assert(v@.take(i as int + 1) =~= v@.take(i as int).push(v@[i as int]));
        }
        i += 1;
    }
    proof {
        assert(v@.take(v@.len() as int) =~= v@);
    }
    r
}

/// The rack holds at least as many of every tile as `tiles` asks for.
pub open spec fn rack_covers(rack: Seq<u8>, tiles: Seq<u8>) -> bool {
    forall|u: u8|
        #[trigger] crate::board::count_in(tiles, u) <= crate::board::count_in(rack, u)
}

/// Sum clamped to an `i32`.
pub open spec fn clamp_add_i32(a: int, b: int) -> int {
    if a + b > 0x7fff_ffff {
        0x7fff_ffff
    } else if a + b < -0x8000_0000 {
        -0x8000_0000
    } else {
        a + b
    }
}

/// Apply a play for the player on turn: write a placement's tiles, pay
/// out its score, give the used tiles up and draw back to a full rack; an
/// exchange swaps with the bag; a pass does nothing.
#[verifier::rlimit(100)]
pub fn apply_play(
    state: &mut GameState,
    cfg: &crate::game_config::GameConfig,
    play: &crate::movegen::Play,
) -> (r: Result<(), GameError>)
    requires
        old(state).wf(cfg.dim),
        cfg.wf(),
    ensures
        final(state).wf(cfg.dim),
        final(state).turn == old(state).turn,
        final(state).racks@[1 - old(state).turn as int]
            == old(state).racks@[1 - old(state).turn as int],
        match r {
            Ok(()) => match play@ {
                crate::movegen::PlayV::Place { down, lane, idx, word, score } => final(state).board@
                    == placed_board(old(state).board@, Strider { down, lane, dim: cfg.dim },
                    idx as int, word) && final(state).scores@[old(state).turn as int] as int
                    == clamp_add_i32(old(state).scores@[old(state).turn as int] as int,
                    score as int) && final(state).scores@[1 - old(state).turn as int] == old(
                    state).scores@[1 - old(state).turn as int],
                crate::movegen::PlayV::Exchange { tiles } => final(state).board@ == old(
                    state).board@ && final(state).scores@ == old(state).scores@,
            },
            Err(_) => true,
        },
        // success is owed to a placement that fits its lane
        (play@ matches crate::movegen::PlayV::Place { down, lane, idx, word, .. }
            && (if down {
            lane < cfg.dim.cols && idx < cfg.dim.rows
        } else {
            lane < cfg.dim.rows && idx < cfg.dim.cols
        }) && place_error(old(state).board@, cfg.dim, down, lane, idx, word) is None) ==> r
            is Ok,
        // an exchange only moves tiles between the rack and the bag
        (play@ matches crate::movegen::PlayV::Exchange { tiles }) ==> forall|u: u8|
            #[trigger] crate::board::count_in(final(state).racks@[old(state).turn as int]@, u)
                + crate::board::count_in(final(state).bag@, u) == crate::board::count_in(
                old(state).racks@[old(state).turn as int]@, u) + crate::board::count_in(
                old(state).bag@, u),
        // and fails exactly when the rack cannot cover the returned tiles
        (play@ is Exchange && r is Err) ==> !rack_covers(
            old(state).racks@[old(state).turn as int]@, play@->Exchange_tiles),
        (play@ is Exchange && rack_covers(old(state).racks@[old(state).turn as int]@,
            play@->Exchange_tiles)) ==> r is Ok,
        // an applied placement takes its tiles off the rack, and the rack
        // and the bag keep the rest between them
        play@ matches crate::movegen::PlayV::Place { word, .. } ==> ((r is Ok && (forall|u: u8|
            #[trigger] crate::movegen::used_count(word, u) <= crate::board::count_in(
                old(state).racks@[old(state).turn as int]@, u))) ==> forall|u: u8|
            #[trigger] crate::board::count_in(final(state).racks@[old(state).turn as int]@, u)
                + crate::board::count_in(final(state).bag@, u) == crate::board::count_in(
                old(state).racks@[old(state).turn as int]@, u) + crate::board::count_in(
                old(state).bag@, u) - crate::movegen::used_count(word, u)),
        // and the rack is refilled while the bag lasts
        (play@ matches crate::movegen::PlayV::Place { .. } && r is Ok
            && old(state).racks@[old(state).turn as int]@.len() <= cfg.rack_size) ==> (final(
        state).racks@[old(state).turn as int]@.len() == cfg.rack_size || final(state).bag@.len()
            == 0),
{
    let me = state.turn as usize;
    match play {
        crate::movegen::Play::Exchange { tiles } => {
            proof {
                assert(play@ == (crate::movegen::PlayV::Exchange { tiles: tiles@ }));
            }
            if tiles.len() == 0 {
                proof {
                    assert(crate::board::count_in(tiles@, 0u8) == 0);
                }
                return Ok(());
            }
            // give the tiles up, draw as many back, return them to the bag
            let ghost rack0 = state.racks@[me as int]@;
            let ghost bag0 = state.bag@;
            let mut given: Vec<u8> = Vec::new();
            let mut rack = clone_tiles(&state.racks[me]);
            let mut i: usize = 0;
            let mut ok = true;
            while i < tiles.len()
                invariant
                    cfg.wf(),
                    *state == *old(state),
                    me == old(state).turn as usize,
                    play@ == (crate::movegen::PlayV::Exchange { tiles: tiles@ }),
                    rack0 == old(state).racks@[me as int]@,
                    0 <= i <= tiles@.len(),
                    forall|u: u8|
                        #[trigger] crate::board::count_in(rack@, u) + crate::board::count_in(
                            given@, u) == crate::board::count_in(rack0, u),
                    ok ==> forall|u: u8|
                        #[trigger] crate::board::count_in(given@, u) == crate::board::count_in(
                            tiles@.take(i as int), u),
                    !ok ==> !rack_covers(rack0, tiles@),
                decreases tiles@.len() - i,
            {
                let t = tiles[i];
                let ghost gprev = given@;
                let ghost rprev = rack@;
                proof {
                    assert(tiles@.take(i as int + 1) =~= tiles@.take(i as int).push(t));
                }
                if remove_rack_tile(&mut rack, t) {
                    given.push(t);
                    proof {
                        assert forall|u: u8|
                            #[trigger] crate::board::count_in(rack@, u)
                                + crate::board::count_in(given@, u) == crate::board::count_in(
                                rack0, u) by {
                            crate::bag::lemma_count_in_push_local(gprev, t, u);
                        }
                        if ok {
                            assert forall|u: u8|
                                #[trigger] crate::board::count_in(given@, u)
                                    == crate::board::count_in(tiles@.take(i as int + 1), u) by {
                                crate::bag::lemma_count_in_push_local(gprev, t, u);
                                crate::bag::lemma_count_in_push_local(tiles@.take(i as int), t,
                                    u);
                            }
                        }
                    }
                } else {
                    proof {
                        if ok {
                            // the rack is out of this tile: the request
                            // overdraws it
                            crate::bag::lemma_count_in_push_local(tiles@.take(i as int), t, t);
                            crate::bag::lemma_count_in_take_le(tiles@, i as int + 1, t);
                            assert(crate::board::count_in(tiles@, t)
                                > crate::board::count_in(rack0, t));
                            assert(!rack_covers(rack0, tiles@));
                        }
                    }
                    ok = false;
                }
                i += 1;
            }
            proof {
                assert(tiles@.take(tiles@.len() as int) =~= tiles@);
            }
            let ghost okg = ok;
            let ghost rack_r = rack@;
            draw_tiles(&mut rack, &mut state.bag, cfg.rack_size);
            let ghost rack_d = rack@;
            let ghost bag_d = state.bag@;
            let mut k: usize = 0;
            while k < given.len()
                invariant
                    cfg.wf(),
                    old(state).wf(cfg.dim),
                    state.board@ == old(state).board@,
                    state.scores@ == old(state).scores@,
                    state.racks@ == old(state).racks@,
                    state.turn == old(state).turn,
                    me == old(state).turn as usize,
                    play@ == (crate::movegen::PlayV::Exchange { tiles: tiles@ }),
                    rack0 == old(state).racks@[me as int]@,
                    rack@ == rack_d,
                    okg == ok,
                    !okg ==> !rack_covers(rack0, tiles@),
                    forall|u: u8|
                        #[trigger] crate::board::count_in(rack_r, u) + crate::board::count_in(
                            given@, u) == crate::board::count_in(rack0, u),
                    forall|u: u8|
                        #[trigger] crate::board::count_in(rack_d, u) + crate::board::count_in(
                            bag_d, u) == crate::board::count_in(rack_r, u)
                            + crate::board::count_in(bag0, u),
                    0 <= k <= given@.len(),
                    forall|u: u8|
                        #[trigger] crate::board::count_in(state.bag@, u)
                            == crate::board::count_in(bag_d, u) + crate::board::count_in(
                            given@.take(k as int), u),
                decreases given@.len() - k,
            {
                let g = given[k];
                let ghost bprev = state.bag@;
                state.bag.push(g);
                proof {
                    assert(given@.take(k as int + 1) =~= given@.take(k as int).push(g));
                    assert forall|u: u8|
                        #[trigger] crate::board::count_in(state.bag@, u)
                            == crate::board::count_in(bag_d, u) + crate::board::count_in(
                            given@.take(k as int + 1), u) by {
                        crate::bag::lemma_count_in_push_local(bprev, g, u);
                        crate::bag::lemma_count_in_push_local(given@.take(k as int), g, u);
                    }
                }
                k += 1;
            }
            proof {
                assert(given@.take(given@.len() as int) =~= given@);
            }
            state.racks.set(me, rack);
            proof {
                assert forall|u: u8|
                    #[trigger] crate::board::count_in(state.racks@[me as int]@, u)
                        + crate::board::count_in(state.bag@, u) == crate::board::count_in(rack0,
                        u) + crate::board::count_in(bag0, u) by {
                    assert(crate::board::count_in(state.bag@, u) == crate::board::count_in(
                        bag_d, u) + crate::board::count_in(given@, u));
                }
            }
            proof {
                assert(play@ == (crate::movegen::PlayV::Exchange { tiles: tiles@ }));
                assert(rack0 == old(state).racks@[old(state).turn as int]@);
            }
            if ok {
                Ok(())
            } else {
                Err(GameError::TooManyOfTile)
            }
        },
        crate::movegen::Play::Place { down, lane, idx, word, score } => {
            let down = *down;
            let lane = *lane;
            let idx = *idx;
            let score = *score;
            if down {
                if !(lane < cfg.dim.cols && idx < cfg.dim.rows) {
                    return Err(GameError::OutOfBounds);
                }
            } else {
                if !(lane < cfg.dim.rows && idx < cfg.dim.cols) {
                    return Err(GameError::OutOfBounds);
                }
            }
            let ghost b0 = state.board@;
            match place_tiles_on_board(&mut state.board, cfg.dim, down, lane, idx, word) {
                Ok(()) => {},
                Err(e) => {
                    return Err(e);
                },
            }
            proof {
                crate::board::lemma_placed_from_cells(b0, Strider { down, lane, dim: cfg.dim },
                    idx as int, word@, 0);
                assert(state.board@.len() == b0.len());
            }
            // pay the score out, clamped
            let old_score = state.scores[me];
            let sum: i64 = old_score as i64 + score as i64;
            let new_score: i32 = if sum > 0x7fff_ffff {
                0x7fff_ffff
            } else if sum < -0x8000_0000 {
                -0x8000_0000i32
            } else {
                sum as i32
            };
            state.scores.set(me, new_score);
            // hand the used tiles in and refill
            let ghost rack0 = state.racks@[me as int]@;
            let ghost bag0 = state.bag@;
            let ghost covers = forall|u: u8|
                #[trigger] crate::movegen::used_count(word@, u) <= crate::board::count_in(rack0,
                    u);
            let mut rack = clone_tiles(&state.racks[me]);
            let ghost snap = *state;
            let mut i: usize = 0;
            while i < word.len()
                invariant
                    cfg.wf(),
                    0 <= i <= word@.len(),
                    *state == snap,
                    me == old(state).turn as usize,
                    play@ == (crate::movegen::PlayV::Place {
                        down,
                        lane,
                        idx,
                        word: word@,
                        score,
                    }),
                    rack0 == old(state).racks@[me as int]@,
                    covers == (forall|u: u8|
                        #[trigger] crate::movegen::used_count(word@, u)
                            <= crate::board::count_in(rack0, u)),
                    rack@.len() <= rack0.len(),
                    covers ==> forall|u: u8|
                        #[trigger] crate::board::count_in(rack@, u) == crate::board::count_in(
                            rack0, u) - crate::movegen::used_count(word@.take(i as int), u),
                decreases word@.len() - i,
            {
                let x = word[i];
                proof {
                    assert(word@.take(i as int + 1) =~= word@.take(i as int).push(x));
                }
                if x != 0 {
                    let consumed = if x & 0x80 != 0 {
                        0u8
                    } else {
                        x
                    };
                    let ghost rprev = rack@;
                    proof {
                        if covers {
                            crate::movegen::lemma_used_count_push(word@.take(i as int), x,
                                consumed);
                            crate::movegen::lemma_used_count_take_le(word@, i as int + 1,
                                consumed);
                            assert(crate::board::count_in(rprev, consumed) >= 1);
                        }
                    }
                    let found = remove_rack_tile(&mut rack, consumed);
                    proof {
                        if covers {
                            assert(found);
                            assert forall|u: u8|
                                #[trigger] crate::board::count_in(rack@, u)
                                    == crate::board::count_in(rack0, u)
                                    - crate::movegen::used_count(word@.take(i as int + 1),
                                    u) by {
                                crate::movegen::lemma_used_count_push(word@.take(i as int), x,
                                    u);
                            }
                        }
                    }
                } else {
                    proof {
                        if covers {
                            assert forall|u: u8|
                                #[trigger] crate::board::count_in(rack@, u)
                                    == crate::board::count_in(rack0, u)
                                    - crate::movegen::used_count(word@.take(i as int + 1),
                                    u) by {
                                crate::movegen::lemma_used_count_push(word@.take(i as int), x,
                                    u);
                            }
                        }
                    }
                }
                i += 1;
            }
            proof {
                assert(word@.take(word@.len() as int) =~= word@);
            }
            let ghost rack_r = rack@;
            draw_tiles(&mut rack, &mut state.bag, cfg.rack_size);
            state.racks.set(me, rack);
            proof {
                if covers {
                    assert forall|u: u8|
                        #[trigger] crate::board::count_in(state.racks@[me as int]@, u)
                            + crate::board::count_in(state.bag@, u) == crate::board::count_in(
                            rack0, u) + crate::board::count_in(bag0, u)
                            - crate::movegen::used_count(word@, u) by {
                        assert(crate::board::count_in(rack_r, u) == crate::board::count_in(
                            rack0, u) - crate::movegen::used_count(word@, u));
                    }
                }
            }
            Ok(())
        },
    }
}

/// Index of the first colon, or the length when there is none.
pub open spec fn colon_at(s: Seq<u8>, i: int) -> int
    decreases s.len() - i,
{
    if i < 0 || i >= s.len() {
        s.len() as int
    } else if s[i] == 58 {
        i
    } else {
        colon_at(s, i + 1)
    }
}

/// What a `coord:tiles` line does to the board: the parsed placement,
/// applied, and — when a graph is given — its words checked.
pub open spec fn placement_text_outcome(
    cfg: &crate::game_config::GameConfig,
    kwg: Option<Seq<u32>>,
    board: Seq<u8>,
    line: Seq<u8>,
) -> Result<(Seq<u8>, bool), GameError> {
    let ci = colon_at(line, 0);
    if ci == line.len() {
        Err(GameError::BadCoordinate)
    } else {
        match crate::display::coord_spec(line.subrange(0, ci), cfg.dim) {
            None => Err(GameError::BadCoordinate),
            Some(coord) => match parse_tiles(cfg.alphabet.play_tokens(),
                line.subrange(ci + 1, line.len() as int)) {
                None => Err(GameError::InvalidTile),
                Some(tiles) => match place_error(board, cfg.dim, coord.down, coord.lane,
                    coord.idx, tiles) {
                    Some(e) => Err(e),
                    None => {
                        let placed = placed_board(board, Strider {
                            down: coord.down,
                            lane: coord.lane,
                            dim: cfg.dim,
                        }, coord.idx as int, tiles);
                        let valid = match kwg {
                            None => true,
                            Some(nodes) => words_ok(placed, cfg.dim, nodes, cfg.jumbled,
                                cfg.alphabet.len_spec(), coord.down, coord.lane,
                                coord.idx as int, tiles),
                        };
                        Ok((placed, valid))
                    },
                },
            },
        }
    }
}

/// Apply one `coord:tiles` line to the board, validating its words when a
/// graph is given; `Ok(false)` asks for a challenge.
pub fn apply_placement_text(
    board: &mut Vec<u8>,
    cfg: &crate::game_config::GameConfig,
    g: Option<&Kwg>,
    line: &[u8],
) -> (r: Result<bool, GameError>)
    requires
        board_wf(old(board)@, cfg.dim),
        cfg.wf(),
        match g {
            Some(k) => k.wf(),
            None => true,
        },
    ensures
        board_wf(final(board)@, cfg.dim),
        ({
            let nodes = match g {
                Some(k) => Some(k.nodes@),
                None => None,
            };
            match r {
                Ok(valid) => placement_text_outcome(cfg, nodes, old(board)@, line@)
                    matches Ok((b, v)) && final(board)@ == b && valid == v,
                Err(e) => placement_text_outcome(cfg, nodes, old(board)@, line@)
                    == Err::<(Seq<u8>, bool), _>(e) && final(board)@ == old(board)@,
            }
        }),
{
    // split at the first colon
    let mut ci: usize = 0;
    while ci < line.len() && line[ci] != 58
        invariant
            0 <= ci <= line@.len(),
            colon_at(line@, 0) == colon_at(line@, ci as int),
        decreases line@.len() - ci,
    {
        ci += 1;
    }
    if ci >= line.len() {
        return Err(GameError::BadCoordinate);
    }
    assert(colon_at(line@, 0) == ci as int);
    let coord = match crate::display::parse_coord_token(
        vstd::slice::slice_subrange(line, 0, ci),
        cfg.dim,
    ) {
        Some(c) => c,
        None => {
            return Err(GameError::BadCoordinate);
        },
    };
    let tiles = match parse_played_tiles(
        &cfg.alphabet,
        vstd::slice::slice_subrange(line, ci + 1, line.len()),
    ) {
        Ok(t) => t,
        Err(e) => {
            return Err(e);
        },
    };
    let ghost b0 = board@;
    match place_tiles_on_board(board, cfg.dim, coord.down, coord.lane, coord.idx, &tiles) {
        Ok(()) => {},
        Err(e) => {
            return Err(e);
        },
    }
    proof {
        crate::board::lemma_placed_from_cells(b0, Strider {
            down: coord.down,
            lane: coord.lane,
            dim: cfg.dim,
        }, coord.idx as int, tiles@, 0);
    }
    let valid = match g {
        Some(k) => {
            proof {
                let s = Strider { down: coord.down, lane: coord.lane, dim: cfg.dim };
                assert(coord.idx as int + tiles@.len() <= s.len_spec());
            }
            k.placement_words_ok(board, cfg.dim, cfg.jumbled, cfg.alphabet.len(), coord.down,
                coord.lane, coord.idx, &tiles)
        },
        None => true,
    };
    Ok(valid)
}

/// A rack may not hold more tiles than the rack size allows.
pub fn validate_rack_len(rack: &Vec<u8>, rack_size: u8) -> (r: Result<(), GameError>)
    ensures
        r is Ok <==> rack@.len() <= rack_size,
        r is Err ==> r == Err::<(), GameError>(GameError::RackTooLong),
{
    if rack.len() > rack_size as usize {
        Err(GameError::RackTooLong)
    } else {
        Ok(())
    }
}

/// Byte-for-byte equality of two byte strings.
pub fn bytes_eq(a: &Vec<u8>, b: &Vec<u8>) -> (r: bool)
    ensures
        r == (a@ == b@),
{
    if a.len() != b.len() {
        assert(a@ != b@);
        return false;
    }
    let mut i: usize = 0;
    while i < a.len()
        invariant
            0 <= i <= a@.len(),
            a@.len() == b@.len(),
            forall|j: int| 0 <= j < i ==> a@[j] == b@[j],
        decreases a@.len() - i,
    {
        if a[i] != b[i] {
            assert(a@ != b@);
            return false;
        }
        i += 1;
    }
    proof {
        assert(a@ =~= b@);
    }
    true
}

} // verus!
