//! The "tilt" filter: a weaker bot drops some long words.
//!
//! A tilted bot draws two weights per request: a tilt factor and a leave
//! scale, both in thousandths.  Each placement candidate survives only
//! when a fresh draw clears a threshold that grows with the tilt factor
//! and the word's length; passes and exchanges always survive.  A higher
//! bot level lowers the tilt, so stronger levels keep more words.

use vstd::prelude::*;

use crate::movegen::Candidate;
use crate::movegen::Play;
use crate::movegen::is_pass;
use crate::rng::next_below;

verus! {

/// Pass everything, or drop placements at random under a tilt.
pub enum GenFilter {
    Unfiltered,
    Tilt { tilt_factor: u16, leave_scale: u16, bot_level: u8 },
}

impl GenFilter {
    pub open spec fn wf(&self) -> bool {
        match *self {
            GenFilter::Unfiltered => true,
            GenFilter::Tilt { tilt_factor, leave_scale, bot_level } => tilt_factor <= 1000
                && leave_scale <= 1000,
        }
    }

    /// Draw this request's tilt: a random factor in thousandths, eased by
    /// the bot level; the leave scale is its complement.
    pub fn tilt_by_rng(&mut self, rng: &mut rand_chacha::ChaCha20Rng, bot_level: u8)
        requires
            bot_level <= 10,
        ensures
            final(self).wf(),
            match *final(self) {
                GenFilter::Tilt { tilt_factor, leave_scale, bot_level: recorded } => tilt_factor
                    <= 1000 - bot_level * 100 && leave_scale == 1000 - tilt_factor && recorded
                    == bot_level,
                GenFilter::Unfiltered => false,
            },
    {
        let draw = next_below(rng, 1001) as u16;
        let ease = (bot_level as u16) * 100;
        let tilt_factor = if draw > ease {
            draw - ease
        } else {
            0
        };
        *self = GenFilter::Tilt {
            tilt_factor,
            leave_scale: 1000 - tilt_factor,
            bot_level,
        };
    }
}

/// How much a word of this length matters to the tilt: long words are
/// easier to drop.
pub open spec fn length_importance_spec(len: int) -> u16 {
    if len <= 2 {
        0
    } else if len <= 4 {
        200
    } else if len <= 5 {
        400
    } else if len <= 6 {
        600
    } else if len <= 7 {
        800
    } else {
        1000
    }
}

pub fn length_importance(len: usize) -> (r: u16)
    ensures
        r == length_importance_spec(len as int),
        r <= 1000,
{
    if len <= 2 {
        0
    } else if len <= 4 {
        200
    } else if len <= 5 {
        400
    } else if len <= 6 {
        600
    } else if len <= 7 {
        800
    } else {
        1000
    }
}

/// A tilted bot keeps a placement when the draw clears the threshold its
/// tilt and the word's length set.
pub open spec fn tilt_keep_spec(tilt_factor: u16, word_len: int, draw: u32) -> bool {
    draw >= (tilt_factor * length_importance_spec(word_len)) / 1000
}

/// The keep decision, as a function of the draw.
pub fn tilt_keeps(tilt_factor: u16, word_len: usize, draw: u32) -> (r: bool)
    requires
        tilt_factor <= 1000,
    ensures
        r == tilt_keep_spec(tilt_factor, word_len as int, draw),
{
    let imp = length_importance(word_len);
    proof {
        assert((tilt_factor as int) * (imp as int) <= 1000000) by (nonlinear_arith)
            requires
                tilt_factor <= 1000,
                imp <= 1000,
        ;
    }
    let threshold = ((tilt_factor as u32) * (imp as u32)) / 1000;
    draw >= threshold
}

/// Run the candidates through the filter: placements must clear a random
/// threshold, everything else survives.  Every surviving candidate was a
/// candidate, and the pass survives.
pub fn filter_candidates(
    cands: Vec<Candidate>,
    filt: &GenFilter,
    rng: &mut rand_chacha::ChaCha20Rng,
    ok: Ghost<spec_fn(Candidate) -> bool>,
) -> (out: Vec<Candidate>)
    requires
        filt.wf(),
        forall|j: int| 0 <= j < cands@.len() ==> (ok@)(#[trigger] cands@[j]),
        exists|j: int| 0 <= j < cands@.len() && is_pass(#[trigger] cands@[j].play@),
    ensures
        1 <= out@.len() <= cands@.len(),
        forall|k: int| 0 <= k < out@.len() ==> (ok@)(#[trigger] out@[k]),
        exists|k: int| 0 <= k < out@.len() && is_pass(#[trigger] out@[k].play@),
        (*filt) is Unfiltered ==> out@ == cands@,
{
    let mut out: Vec<Candidate> = Vec::new();
    let mut rest = cands;
    let ghost total = rest@.len();
    let ghost mut passed = false;
    proof {
        assert(out@ + rest@ =~= cands@);
    }
    while rest.len() > 0
        invariant
            filt.wf(),
            out@.len() + rest@.len() <= total,
            total == cands@.len(),
            (*filt) is Unfiltered ==> out@ + rest@ == cands@,
            forall|j: int| 0 <= j < rest@.len() ==> (ok@)(#[trigger] rest@[j]),
            forall|k: int| 0 <= k < out@.len() ==> (ok@)(#[trigger] out@[k]),
            passed ==> exists|k: int| 0 <= k < out@.len() && is_pass(#[trigger] out@[k].play@),
            !passed ==> exists|j: int| 0 <= j < rest@.len() && is_pass(
                #[trigger] rest@[j].play@),
        decreases rest@.len(),
    {
        let ghost rest0 = rest@;
        let ghost outp = out@;
        let c = rest.remove(0);
        proof {
            assert(c == rest0[0]);
            assert(rest@ =~= rest0.skip(1));
            assert forall|j: int| 0 <= j < rest@.len() implies (ok@)(#[trigger] rest@[j]) by {
                assert(rest@[j] == rest0[j + 1]);
            }
        }
        let keep = match (&c.play, filt) {
            (Play::Place { word, .. }, GenFilter::Tilt { tilt_factor, .. }) => {
                let draw = next_below(rng, 1001);
                tilt_keeps(*tilt_factor, word.len(), draw)
            },
            _ => true,
        };
        let ghost out0 = out@;
        if keep {
            out.push(c);
            proof {
                if (*filt) is Unfiltered {
                    assert(out@ + rest@ =~= outp + rest0);
                }
                if passed {
                    let k = choose|k: int| 0 <= k < out0.len() && is_pass(
                        #[trigger] out0[k].play@);
                    assert(out@[k] == out0[k]);
                }
                if !passed && is_pass(c.play@) {
                    passed = true;
                    assert(is_pass(out@[out@.len() - 1].play@));
                }
                if !passed {
                    let j = choose|j: int|
                        0 <= j < rest0.len() && is_pass(#[trigger] rest0[j].play@);
                    assert(j != 0);
                    assert(rest@[j - 1] == rest0[j]);
                }
            }
        } else {
            proof {
                if !passed {
                    let j = choose|j: int|
                        0 <= j < rest0.len() && is_pass(#[trigger] rest0[j].play@);
                    assert(!is_pass(c.play@));
                    assert(j != 0);
                    assert(rest@[j - 1] == rest0[j]);
                }
            }
        }
    }
    proof {
        assert(passed);
        if (*filt) is Unfiltered {
            assert(out@ + rest@ =~= out@);
        }
    }
    out
}

/// The filter with nothing more demanded of the candidates: what outside
/// callers and tests use.
pub fn filter_plays(
    cands: Vec<Candidate>,
    filt: &GenFilter,
    rng: &mut rand_chacha::ChaCha20Rng,
) -> (out: Vec<Candidate>)
    requires
        filt.wf(),
        exists|j: int| 0 <= j < cands@.len() && is_pass(#[trigger] cands@[j].play@),
    ensures
        1 <= out@.len() <= cands@.len(),
        exists|k: int| 0 <= k < out@.len() && is_pass(#[trigger] out@[k].play@),
        (*filt) is Unfiltered ==> out@ == cands@,
{
    let ghost okf = |c: Candidate| true;
    filter_candidates(cands, filt, rng, Ghost(okf))
}

} // verus!
