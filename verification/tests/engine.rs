use crossword_bot::bag::{compute_unseen_tally, fill_bag, shuffle};
use crossword_bot::game::{
    apply_play, replay_history, EventKind, GameEvent, GameState,
};
use crossword_bot::game_config::{make_english_alphabet, make_game_config};
use crossword_bot::klv::Klv;
use crossword_bot::kwg::Kwg;
use crossword_bot::move_filter::GenFilter;
use crossword_bot::move_picker::{pick_index, MovePicker};
use crossword_bot::movegen::{gen_moves, Play};
use crossword_bot::pipeline::{build_move_event, must_pass_or_challenge, MoveKind};
use rand_chacha::rand_core::SeedableRng;

// Build a packed trie from a sorted word list: each sibling block is
// contiguous, accepts marks the end of a word, node 0 is the root.
fn emit_children(words: &[Vec<u8>], lo: usize, hi: usize, depth: usize, nodes: &mut Vec<u32>) -> u32 {
    // group the words (all longer than depth) by their letter at depth
    let mut groups: Vec<(u8, usize, usize, bool)> = Vec::new();
    let mut i = lo;
    while i < hi {
        let t = words[i][depth];
        let gs = i;
        while i < hi && words[i][depth] == t {
            i += 1;
        }
        let accepts = (gs..i).any(|k| words[k].len() == depth + 1);
        groups.push((t, gs, i, accepts));
    }
    if groups.is_empty() {
        return 0;
    }
    let start = nodes.len() as u32;
    for _ in &groups {
        nodes.push(0);
    }
    for (k, &(t, gs, ge, accepts)) in groups.iter().enumerate() {
        // children of this node: the group's words that are longer still
        let longer: Vec<Vec<u8>> = words[gs..ge]
            .iter()
            .filter(|w| w.len() > depth + 1)
            .cloned()
            .collect();
        let arc = if longer.is_empty() {
            0
        } else {
            emit_children(&longer, 0, longer.len(), depth + 1, nodes)
        };
        let is_end = k == groups.len() - 1;
        nodes[start as usize + k] = (arc & 0x3fffff)
            | ((is_end as u32) << 22)
            | ((accepts as u32) << 23)
            | ((t as u32) << 24);
    }
    start
}

fn build_kwg(words: &[&str]) -> Kwg {
    // letters A..Z become tiles 1..26
    let mut ws: Vec<Vec<u8>> = words
        .iter()
        .map(|w| w.bytes().map(|b| b - b'A' + 1).collect())
        .collect();
    ws.sort();
    ws.dedup();
    let mut nodes: Vec<u32> = vec![0];
    let arc = emit_children(&ws, 0, ws.len(), 0, &mut nodes);
    nodes[0] = (arc & 0x3fffff) | (1 << 22);
    Kwg::from_nodes(nodes).expect("trie fits")
}

// The jumbled variant stores each word's letters in sorted order.
fn build_kad(words: &[&str]) -> Kwg {
    let sorted: Vec<String> = words
        .iter()
        .map(|w| {
            let mut b: Vec<u8> = w.bytes().collect();
            b.sort();
            String::from_utf8(b).unwrap()
        })
        .collect();
    let refs: Vec<&str> = sorted.iter().map(|s| s.as_str()).collect();
    build_kwg(&refs)
}

fn tiles_of(s: &str) -> Vec<u8> {
    s.bytes()
        .map(|b| if b == b'?' { 0 } else { b - b'A' + 1 })
        .collect()
}

#[test]
fn word_graph_accepts_its_words() {
    let g = build_kwg(&["CAT", "CATS", "DOG"]);
    assert!(g.accepts_word(&tiles_of("CAT")));
    assert!(g.accepts_word(&tiles_of("CATS")));
    assert!(g.accepts_word(&tiles_of("DOG")));
    assert!(!g.accepts_word(&tiles_of("CA")));
    assert!(!g.accepts_word(&tiles_of("DOGS")));
    assert!(!g.accepts_word(&tiles_of("TAC")));
    assert!(!g.accepts_word(&[]));
}

#[test]
fn alpha_acceptance_matches_anagrams() {
    let kad = build_kad(&["CANTER"]);
    // any permutation's tally is the same multiset
    for word in ["CANTER", "TRANCE", "RECANT", "NECTAR"] {
        let mut tally = vec![0u8; 27];
        let mut total = 0usize;
        for t in tiles_of(word) {
            tally[t as usize] += 1;
            total += 1;
        }
        assert!(kad.accepts_alpha(&mut tally, total), "{word}");
    }
    let mut bad = vec![0u8; 27];
    let mut total = 0usize;
    for t in tiles_of("CANTED") {
        bad[t as usize] += 1;
        total += 1;
    }
    assert!(!kad.accepts_alpha(&mut bad, total));
}

#[test]
fn classic_graph_rejects_anagrams_unless_spelled() {
    // sequential seek accepts only the spelled order; the KAD built from
    // the same lexicon accepts the whole anagram class
    let g = build_kwg(&["CANTER"]);
    let kad = build_kad(&["CANTER"]);
    assert!(g.accepts_word(&tiles_of("CANTER")));
    assert!(!g.accepts_word(&tiles_of("TRANCE")));
    let mut tally = vec![0u8; 27];
    for t in tiles_of("TRANCE") {
        tally[t as usize] += 1;
    }
    assert!(kad.accepts_alpha(&mut tally, 6));
}

#[test]
fn unseen_tally_balances_the_books() {
    let alpha = make_english_alphabet();
    let cfg = make_game_config(alpha, false, false);
    let state = GameState::new(cfg.dim);
    let rack0 = tiles_of("AEINRST");
    let rack1 = tiles_of("??ZQ");
    let tally = compute_unseen_tally(&cfg.alphabet, &state.board, &rack0, &rack1).unwrap();
    // blanks: two minus the two held
    assert_eq!(tally[0], 0);
    // A: nine minus the one held
    assert_eq!(tally[1], 8);
    // Z and Q are gone
    assert_eq!(tally[26], 0);
    assert_eq!(tally[17], 0);
    let bag = fill_bag(&tally);
    let held = rack0.len() + rack1.len();
    let total: usize = (0..27u8)
        .map(|t| cfg.alphabet.tiles[t as usize].freq as usize)
        .sum();
    assert_eq!(bag.len() + held, total);
}

#[test]
fn too_many_tiles_is_an_error() {
    let alpha = make_english_alphabet();
    let cfg = make_game_config(alpha, false, false);
    let state = GameState::new(cfg.dim);
    let rack0 = tiles_of("ZZ"); // only one Z exists
    let rack1 = Vec::new();
    assert!(compute_unseen_tally(&cfg.alphabet, &state.board, &rack0, &rack1).is_err());
}

#[test]
fn shuffling_keeps_the_tiles() {
    let mut bag = tiles_of("AABBBCCCCDEFG");
    let before = {
        let mut s = bag.clone();
        s.sort();
        s
    };
    let mut rng = rand_chacha::ChaCha20Rng::seed_from_u64(7);
    shuffle(&mut bag, &mut rng);
    let mut after = bag.clone();
    after.sort();
    assert_eq!(before, after);
}

#[test]
fn empty_leave_store_values_everything_at_zero() {
    let klv = Klv::empty();
    assert_eq!(klv.leave_value(&tiles_of("AEINRST")), 0);
    assert_eq!(klv.leave_value(&[]), 0);
}

#[test]
fn leave_store_finds_its_rack() {
    // one rack, AB, worth 1234 thousandths
    let kwg = build_kwg(&["AB"]);
    // counts: one accepted rack under each node of the path
    let counts = vec![0u32, 1, 1];
    let klv = Klv::from_parts(kwg, counts, vec![1234]).unwrap();
    assert_eq!(klv.leave_value(&tiles_of("AB")), 1234);
    assert_eq!(klv.leave_value(&tiles_of("BA")), 0);
    assert_eq!(klv.leave_value(&tiles_of("A")), 0);
}

#[test]
fn opening_rack_bingos_across_the_star() {
    let alpha = make_english_alphabet();
    let cfg = make_game_config(alpha, false, false);
    let g = build_kwg(&["RETAINS"]);
    let klv = Klv::empty();
    let state = GameState::new(cfg.dim);
    let rack = tiles_of("AEINRST");
    let cands = gen_moves(&cfg, &g, &klv, &state.board, &rack, false, 1000);
    let top = &cands[0];
    match &top.play {
        Play::Place { down, lane, idx, word, score } => {
            assert_eq!(word.len(), 7);
            // spans the centre star
            let (r0, c0) = if *down { (*idx, *lane) } else { (*lane, *idx) };
            if *down {
                assert_eq!(c0, 7);
                assert!(r0 <= 7 && 7 < r0 + word.len() as u8);
            } else {
                assert_eq!(r0, 7);
                assert!(c0 <= 7 && 7 < c0 + word.len() as u8);
            }
            // seven one-point letters, doubled word, a double letter, and
            // the bingo bonus
            assert_eq!(*score, 66);
        }
        _ => panic!("expected a placement"),
    }
}

#[test]
fn blanks_play_in_lowercase() {
    let alpha = make_english_alphabet();
    let cfg = make_game_config(alpha, false, false);
    let g = build_kwg(&["RETAINS"]);
    let klv = Klv::empty();
    let state = GameState::new(cfg.dim);
    let rack = tiles_of("???????");
    let cands = gen_moves(&cfg, &g, &klv, &state.board, &rack, false, 1000);
    let top = &cands[0];
    match &top.play {
        Play::Place { .. } => {}
        _ => panic!("expected a placement from a rack of blanks"),
    }
    let m = build_move_event(&cfg, &state.board, &top.play).unwrap();
    assert_eq!(m.kind, MoveKind::TilePlacement);
    assert!(m.played.iter().any(|&b| b.is_ascii_lowercase()));
}

#[test]
fn empty_bag_and_empty_opponent_rack_forces_a_pass() {
    let alpha = make_english_alphabet();
    let cfg = make_game_config(alpha, false, false);
    let g = build_kwg(&["CAT"]);
    let klv = Klv::empty();
    let state = GameState::new(cfg.dim);
    assert!(must_pass_or_challenge(0, 0));
    // the picker is handed an empty rack, so only the pass comes out
    let empty_rack: Vec<u8> = Vec::new();
    let cands = gen_moves(&cfg, &g, &klv, &state.board, &empty_rack, false, 1000);
    let mut rng = rand_chacha::ChaCha20Rng::seed_from_u64(1);
    let ix = pick_index(&MovePicker::Hasty, &cfg, &g, &klv, &state, &cands, &mut rng);
    let m = build_move_event(&cfg, &state.board, &cands[ix].play).unwrap();
    assert_eq!(m.kind, MoveKind::Pass);
}

#[test]
fn phony_last_placement_calls_for_a_challenge() {
    let alpha = make_english_alphabet();
    let cfg = make_game_config(alpha, false, false);
    let g = build_kwg(&["CAT"]);
    let mut state = GameState::new(cfg.dim);
    let events = vec![GameEvent {
        kind: EventKind::TilePlacement,
        nickname: b"zelda".to_vec(),
        player_index: 0,
        cumulative: 55,
        down: false,
        row: 7,
        column: 7,
        played_tiles: b"ZZZZZ".to_vec(),
    }];
    let nick0 = b"zelda".to_vec();
    let valid = replay_history(&mut state, cfg.dim, &cfg.alphabet, &g, false, &events, &nick0)
        .unwrap();
    assert!(!valid, "the last placement spells no word and must be challenged");
    assert_eq!(state.scores[0], 55);
}

#[test]
fn accepted_last_placement_passes_replay() {
    let alpha = make_english_alphabet();
    let cfg = make_game_config(alpha, false, false);
    let g = build_kwg(&["CAT"]);
    let mut state = GameState::new(cfg.dim);
    let events = vec![GameEvent {
        kind: EventKind::TilePlacement,
        nickname: Vec::new(),
        player_index: 1,
        cumulative: 10,
        down: true,
        row: 6,
        column: 7,
        played_tiles: b"CAT".to_vec(),
    }];
    let nick0 = b"p0".to_vec();
    let valid = replay_history(&mut state, cfg.dim, &cfg.alphabet, &g, false, &events, &nick0)
        .unwrap();
    assert!(valid);
    assert_eq!(state.scores[1], 10);
    // the tiles are on the board, in the column
    let cols = cfg.dim.cols as usize;
    assert_eq!(state.board[6 * cols + 7], 3); // C
    assert_eq!(state.board[7 * cols + 7], 1); // A
    assert_eq!(state.board[8 * cols + 7], 20); // T
}

#[test]
fn jumbled_rules_accept_an_anagram_placement() {
    let alpha = make_english_alphabet();
    let cfg = make_game_config(alpha, true, false);
    let kad = build_kad(&["CANTER"]);
    let mut state = GameState::new(cfg.dim);
    let events = vec![GameEvent {
        kind: EventKind::TilePlacement,
        nickname: Vec::new(),
        player_index: 0,
        cumulative: 18,
        down: false,
        row: 7,
        column: 4,
        played_tiles: b"TRANCE".to_vec(),
    }];
    let nick0 = b"a".to_vec();
    let valid =
        replay_history(&mut state, cfg.dim, &cfg.alphabet, &kad, true, &events, &nick0).unwrap();
    assert!(valid, "jumbled rules accept any anagram of a lexicon word");
}

#[test]
fn jumbled_rules_still_reject_a_non_anagram() {
    let alpha = make_english_alphabet();
    let cfg = make_game_config(alpha, true, false);
    let kad = build_kad(&["CANTER"]);
    let mut state = GameState::new(cfg.dim);
    let events = vec![GameEvent {
        kind: EventKind::TilePlacement,
        nickname: Vec::new(),
        player_index: 0,
        cumulative: 18,
        down: false,
        row: 7,
        column: 4,
        played_tiles: b"CANTED".to_vec(),
    }];
    let nick0 = b"a".to_vec();
    let valid =
        replay_history(&mut state, cfg.dim, &cfg.alphabet, &kad, true, &events, &nick0).unwrap();
    assert!(!valid);
}

#[test]
fn generated_placements_pass_the_validator() {
    // whatever the generator emits re-validates against the same graph
    let alpha = make_english_alphabet();
    let cfg = make_game_config(alpha, false, false);
    let g = build_kwg(&["CAT", "AT", "TA"]);
    let klv = Klv::empty();
    let state = GameState::new(cfg.dim);
    let rack = tiles_of("CATTA");
    let cands = gen_moves(&cfg, &g, &klv, &state.board, &rack, false, 1000);
    assert!(cands.len() > 1, "some word must be playable");
    for c in &cands {
        if let Play::Place { down, lane, idx, word, .. } = &c.play {
            let mut board = state.board.clone();
            let r = crossword_bot::board::place_tiles_on_board(
                &mut board, cfg.dim, *down, *lane, *idx, word,
            );
            assert!(r.is_ok());
            assert!(g.placement_words_ok(
                &board,
                cfg.dim,
                cfg.jumbled,
                27,
                *down,
                *lane,
                *idx,
                word
            ));
        }
    }
}

#[test]
fn top_candidate_is_at_least_the_pass() {
    let alpha = make_english_alphabet();
    let cfg = make_game_config(alpha, false, false);
    let g = build_kwg(&["CAT"]);
    let klv = Klv::empty();
    let state = GameState::new(cfg.dim);
    let rack = tiles_of("CAT");
    let cands = gen_moves(&cfg, &g, &klv, &state.board, &rack, false, 1000);
    let pass_equity = cands
        .iter()
        .find_map(|c| match &c.play {
            Play::Exchange { tiles } if tiles.is_empty() => Some(c.equity),
            _ => None,
        })
        .expect("a pass is always generated");
    assert!(cands[0].equity >= pass_equity);
    // and here a word is playable, so the top beats the pass outright
    assert!(cands[0].equity > pass_equity);
}

#[test]
fn picks_are_deterministic_under_one_seed() {
    let alpha = make_english_alphabet();
    let cfg = make_game_config(alpha, false, false);
    let g = build_kwg(&["CAT", "AT", "TA", "RAT", "ART", "TAR"]);
    let klv = Klv::empty();
    let state = GameState::new(cfg.dim);
    let rack = tiles_of("CATRA");
    let mut picks = Vec::new();
    for _ in 0..2 {
        let mut rng = rand_chacha::ChaCha20Rng::seed_from_u64(99);
        let cands = gen_moves(&cfg, &g, &klv, &state.board, &rack, false, 1000);
        let ix = pick_index(
            &MovePicker::Simmer { plies: 2, playouts: 2 },
            &cfg,
            &g,
            &klv,
            &state,
            &cands,
            &mut rng,
        );
        let m = build_move_event(&cfg, &state.board, &cands[ix].play).unwrap();
        picks.push((m.kind, m.position.clone(), m.played.clone(), m.score));
    }
    assert_eq!(picks[0], picks[1]);
}

#[test]
fn simmer_without_playouts_picks_like_hasty() {
    let alpha = make_english_alphabet();
    let cfg = make_game_config(alpha, false, false);
    let g = build_kwg(&["CAT"]);
    let klv = Klv::empty();
    let state = GameState::new(cfg.dim);
    let rack = tiles_of("CAT");
    let cands = gen_moves(&cfg, &g, &klv, &state.board, &rack, false, 1000);
    let mut rng = rand_chacha::ChaCha20Rng::seed_from_u64(5);
    let hasty = pick_index(&MovePicker::Hasty, &cfg, &g, &klv, &state, &cands, &mut rng);
    let simmer = pick_index(
        &MovePicker::Simmer { plies: 2, playouts: 0 },
        &cfg,
        &g,
        &klv,
        &state,
        &cands,
        &mut rng,
    );
    assert_eq!(hasty, simmer);
    assert_eq!(hasty, 0);
}

#[test]
fn applying_the_top_play_pays_its_score() {
    let alpha = make_english_alphabet();
    let cfg = make_game_config(alpha, false, false);
    let g = build_kwg(&["CAT"]);
    let klv = Klv::empty();
    let mut state = GameState::new(cfg.dim);
    state.racks[0] = tiles_of("CAT");
    let cands = gen_moves(&cfg, &g, &klv, &state.board, &state.racks[0], false, 1000);
    let score = match &cands[0].play {
        Play::Place { score, .. } => *score,
        _ => panic!("a word is playable"),
    };
    apply_play(&mut state, &cfg, &cands[0].play).unwrap();
    assert_eq!(state.scores[0], score);
    assert!(state.board.iter().any(|&b| b != 0));
}

#[test]
fn tilted_filter_keeps_the_pass() {
    let alpha = make_english_alphabet();
    let cfg = make_game_config(alpha, false, false);
    let g = build_kwg(&["RETAINS", "CAT", "AT"]);
    let klv = Klv::empty();
    let state = GameState::new(cfg.dim);
    let rack = tiles_of("AEINRST");
    let mut rng = rand_chacha::ChaCha20Rng::seed_from_u64(3);
    let mut filt = GenFilter::Unfiltered;
    filt.tilt_by_rng(&mut rng, 1);
    let cands = gen_moves(&cfg, &g, &klv, &state.board, &rack, false, 1000);
    let kept = crossword_bot::move_filter::filter_plays(cands, &filt, &mut rng);
    assert!(kept.iter().any(|c| matches!(&c.play, Play::Exchange { tiles } if tiles.is_empty())));
}

#[test]
fn exchanges_come_from_the_rack() {
    let alpha = make_english_alphabet();
    let cfg = make_game_config(alpha, false, false);
    let g = build_kwg(&["XYZ"]);
    let klv = Klv::empty();
    let state = GameState::new(cfg.dim);
    let rack = tiles_of("AAB");
    let cands = gen_moves(&cfg, &g, &klv, &state.board, &rack, true, 1000);
    let mut seen_exchange = false;
    for c in &cands {
        if let Play::Exchange { tiles } = &c.play {
            if !tiles.is_empty() {
                seen_exchange = true;
                for &t in tiles.iter() {
                    let in_rack = rack.iter().filter(|&&x| x == t).count();
                    let given = tiles.iter().filter(|&&x| x == t).count();
                    assert!(given <= in_rack);
                }
            }
        }
    }
    assert!(seen_exchange);
}

#[test]
fn leave_scale_weights_the_leave() {
    // one playable word, a leave store that rewards keeping AB
    let alpha = make_english_alphabet();
    let cfg = make_game_config(alpha, false, false);
    let g = build_kwg(&["CAT"]);
    let kwg_for_leaves = build_kwg(&["AB"]);
    let klv = Klv::from_parts(kwg_for_leaves, vec![0, 1, 1], vec![500_000]).unwrap();
    let state = GameState::new(cfg.dim);
    let rack = tiles_of("CATAB");
    // full weight: playing CAT keeps AB, worth its full leave
    let full = gen_moves(&cfg, &g, &klv, &state.board, &rack, false, 1000);
    let full_top = full[0].equity;
    // no weight: the same play keeps AB but the leave counts for nothing
    let none = gen_moves(&cfg, &g, &klv, &state.board, &rack, false, 0);
    let none_top = none[0].equity;
    assert_eq!(full_top - none_top, 500_000);
}

#[test]
fn sibling_tile_invariant_is_checkable() {
    let g = build_kwg(&["CAT", "CATS", "DOG"]);
    assert!(g.check_sibling_tiles_distinct());
    // two siblings under the root both bearing A: the invariant fails
    let bad = Kwg::from_nodes(vec![
        1 | (1 << 22),
        (1u32 << 24),
        (1 << 22) | (1 << 23) | (1u32 << 24),
    ])
    .unwrap();
    assert!(!bad.check_sibling_tiles_distinct());
}

#[test]
fn enumeration_is_the_sorted_language() {
    let g = build_kwg(&["DOG", "CAT", "CATS"]);
    assert!(g.check_sibling_tiles_sorted());
    assert!(g.check_sibling_tiles_distinct());
    // complete, in strict tile order, each word once
    let words = g.each_word(21);
    assert_eq!(words, vec![tiles_of("CAT"), tiles_of("CATS"), tiles_of("DOG")]);
    // the length bound prunes longer words and nothing else
    let short = g.each_word(3);
    assert_eq!(short, vec![tiles_of("CAT"), tiles_of("DOG")]);
}

#[test]
fn super_boards_hold_super_racks() {
    let alpha = make_english_alphabet();
    let cfg = make_game_config(alpha, false, true);
    assert_eq!(cfg.dim.rows, 21);
    assert_eq!(cfg.rack_size, 21);
    let classic = make_game_config(make_english_alphabet(), false, false);
    assert_eq!(classic.rack_size, 7);
}

#[test]
fn unfiltered_filter_passes_everything() {
    let alpha = make_english_alphabet();
    let cfg = make_game_config(alpha, false, false);
    let g = build_kwg(&["CAT", "AT", "TA"]);
    let klv = Klv::empty();
    let state = GameState::new(cfg.dim);
    let rack = tiles_of("CATTA");
    let cands = gen_moves(&cfg, &g, &klv, &state.board, &rack, false, 1000);
    let n = cands.len();
    let mut rng = rand_chacha::ChaCha20Rng::seed_from_u64(11);
    let kept = crossword_bot::move_filter::filter_plays(
        cands,
        &crossword_bot::move_filter::GenFilter::Unfiltered,
        &mut rng,
    );
    assert_eq!(kept.len(), n);
}
