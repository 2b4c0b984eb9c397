//! Picking a play from the candidates.
//!
//! Hasty takes the head of the sorted list.  Simmer plays the leading
//! candidates out: each playout applies the candidate to a copy of the
//! game, lets both sides answer greedily for a few plies, and records the
//! score difference; the candidate with the best total wins.  With no
//! playouts to spend, Simmer is Hasty.

use vstd::prelude::*;

use crate::game::GameState;
use crate::game::apply_play;
use crate::game::draw_tiles;
use crate::game::next_turn;
use crate::game_config::GameConfig;
use crate::klv::Klv;
use crate::kwg::Kwg;
use crate::movegen::Candidate;
use crate::movegen::gen_moves;

verus! {

/// The two picking strategies.
pub enum MovePicker {
    Hasty,
    Simmer { plies: u8, playouts: u16 },
}

/// Every byte is below `n`.
fn tiles_below(v: &Vec<u8>, n: u8) -> (r: bool)
    ensures
        r == forall|i: int| 0 <= i < v@.len() ==> (#[trigger] v@[i] as int) < n,
{
    let mut i: usize = 0;
    while i < v.len()
        invariant
            0 <= i <= v@.len(),
            forall|k: int| 0 <= k < i ==> (#[trigger] v@[k] as int) < n,
        decreases v@.len() - i,
    {
        if v[i] >= n {
            return false;
        }
        i += 1;
    }
    true
}

/// Every cell is empty, a letter below `n`, or blank-marked.
fn board_cells_ok(v: &Vec<u8>, n: u8) -> (r: bool)
    ensures
        r == forall|j: int|
            0 <= j < v@.len() ==> (#[trigger] v@[j] & 0x80) != 0 || (v@[j] as int) < n,
{
    let mut i: usize = 0;
    while i < v.len()
        invariant
            0 <= i <= v@.len(),
            forall|k: int| 0 <= k < i ==> (#[trigger] v@[k] & 0x80) != 0 || (v@[k] as int) < n,
        decreases v@.len() - i,
    {
        if v[i] & 0x80 == 0 && v[i] >= n {
            return false;
        }
        i += 1;
    }
    true
}

/// One playout: apply the candidate to a copy of the game, then let both
/// sides answer greedily for `plies` turns; the value is the mover's final
/// margin.
fn playout(
    cfg: &GameConfig,
    g: &Kwg,
    klv: &Klv,
    state: &GameState,
    chosen: &Candidate,
    plies: u8,
    rng: &mut rand_chacha::ChaCha20Rng,
) -> (margin: i64)
    requires
        cfg.wf(),
        g.wf(),
        klv.wf(),
        state.wf(cfg.dim),
{
    let me = state.turn;
    let mut sim = GameState {
        board: crate::movegen::copy_tiles(&state.board),
        bag: crate::movegen::copy_tiles(&state.bag),
        scores: Vec::new(),
        racks: Vec::new(),
        turn: state.turn,
    };
    sim.scores.push(state.scores[0]);
    sim.scores.push(state.scores[1]);
    sim.racks.push(crate::movegen::copy_tiles(&state.racks[0]));
    sim.racks.push(crate::movegen::copy_tiles(&state.racks[1]));
    crate::bag::shuffle(&mut sim.bag, rng);
    match apply_play(&mut sim, cfg, &chosen.play) {
        Ok(()) => {},
        Err(_) => {
            return 0;
        },
    }
    next_turn(&mut sim);
    let mut ply: u8 = 0;
    while ply < plies
        invariant
            cfg.wf(),
            g.wf(),
            klv.wf(),
            sim.wf(cfg.dim),
        decreases plies - ply,
    {
        // make sure the mover has tiles
        let mut rack = crate::movegen::copy_tiles(&sim.racks[sim.turn as usize]);
        draw_tiles(&mut rack, &mut sim.bag, cfg.rack_size);
        let me2 = sim.turn as usize;
        sim.racks.set(me2, rack);
        // a greedy answer, when the position admits the generator at all
        let rack_ref = &sim.racks[me2];
        if rack_ref.len() <= 21 && tiles_below(rack_ref, cfg.alphabet.len())
            && board_cells_ok(&sim.board, cfg.alphabet.len()) {
            let cands = gen_moves(cfg, g, klv, &sim.board, rack_ref, false, 1000);
            let reply = &cands[0];
            match apply_play(&mut sim, cfg, &reply.play) {
                Ok(()) => {},
                Err(_) => {},
            }
        }
        next_turn(&mut sim);
        ply += 1;
    }
    (sim.scores[me as usize] as i64) - (sim.scores[1 - me as usize] as i64)
}

/// Index of the first maximum of the totals.
pub fn best_total_index(totals: &Vec<i64>) -> (ix: usize)
    requires
        totals@.len() >= 1,
    ensures
        ix < totals@.len(),
        forall|k: int| 0 <= k < totals@.len() ==> totals@[ix as int] >= #[trigger] totals@[k],
        forall|k: int| 0 <= k < ix ==> totals@[ix as int] > #[trigger] totals@[k],
{
    let mut best: usize = 0;
    let mut k: usize = 1;
    while k < totals.len()
        invariant
            totals@.len() >= 1,
            0 <= best < k <= totals@.len(),
            forall|i: int| 0 <= i < k ==> totals@[best as int] >= #[trigger] totals@[i],
            forall|i: int| 0 <= i < best ==> totals@[best as int] > #[trigger] totals@[i],
        decreases totals@.len() - k,
    {
        if totals[k] > totals[best] {
            best = k;
        }
        k += 1;
    }
    best
}

/// Choose a candidate: the head for Hasty, the best playout total for
/// Simmer.  A Simmer with no playouts to spend chooses like Hasty.
pub fn pick_index(
    picker: &MovePicker,
    cfg: &GameConfig,
    g: &Kwg,
    klv: &Klv,
    state: &GameState,
    cands: &Vec<Candidate>,
    rng: &mut rand_chacha::ChaCha20Rng,
) -> (ix: usize)
    requires
        cfg.wf(),
        g.wf(),
        klv.wf(),
        state.wf(cfg.dim),
        cands@.len() >= 1,
    ensures
        ix < cands@.len(),
        picker is Hasty ==> ix == 0,
        (picker matches MovePicker::Simmer { playouts, .. } && playouts == 0) ==> ix == 0,
        (picker matches MovePicker::Simmer { playouts, .. } && playouts > 0) ==> ix < 15,
{
    match picker {
        MovePicker::Hasty => 0,
        MovePicker::Simmer { plies, playouts } => {
            if *playouts == 0 {
                return 0;
            }
            // play the leading candidates out and let the totals decide
            let top = if cands.len() < 15 {
                cands.len()
            } else {
                15
            };
            let mut totals: Vec<i64> = Vec::new();
            let mut k: usize = 0;
            while k < top
                invariant
                    cfg.wf(),
                    g.wf(),
                    klv.wf(),
                    state.wf(cfg.dim),
                    cands@.len() >= 1,
                    top <= cands@.len(),
                    top <= 15,
                    0 <= k <= top,
                    totals@.len() == k,
                decreases top - k,
            {
                let mut total: i64 = 0;
                let mut n: u16 = 0;
                while n < *playouts
                    invariant
                        cfg.wf(),
                        g.wf(),
                        klv.wf(),
                        state.wf(cfg.dim),
                        cands@.len() >= 1,
                        k < cands@.len(),
                        -0x0100_0000_0000_0000 <= total <= 0x0100_0000_0000_0000,
                    decreases *playouts - n,
                {
                    let m = playout(cfg, g, klv, state, &cands[k], *plies, rng);
                    let clamped = if m > 0x7fff_ffff {
                        0x7fff_ffffi64
                    } else if m < -0x7fff_ffff {
                        -0x7fff_ffffi64
                    } else {
                        m
                    };
                    total = total + clamped;
                    if total > 0x0100_0000_0000_0000 {
                        total = 0x0100_0000_0000_0000;
                    }
                    if total < -0x0100_0000_0000_0000 {
                        total = -0x0100_0000_0000_0000;
                    }
                    n += 1;
                }
                totals.push(total);
                k += 1;
            }
            best_total_index(&totals)
        },
    }
}

} // verus!
