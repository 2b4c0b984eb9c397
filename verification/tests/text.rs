use crossword_bot::alphabet::{fmt_play_tiles, fmt_rack, parse_played_tiles, parse_rack};
use crossword_bot::display::{fmt_position, parse_coord_token, Coord};
use crossword_bot::game_config::make_english_alphabet;
use crossword_bot::matrix::Dim;
use crossword_bot::pipeline::{choose_plan, classify_bot, turn_after, BotCode, EffectiveBot};
use crossword_bot::game::GameEvent;
use crossword_bot::game::EventKind;
use crossword_bot::GameError;

#[test]
fn rack_text_round_trips() {
    let alpha = make_english_alphabet();
    for s in ["AEINRST", "?", "??", "QZJXK", "A", "?ABZ"] {
        let tiles = parse_rack(&alpha, s.as_bytes()).unwrap();
        let back = fmt_rack(&alpha, &tiles);
        assert_eq!(back, s.as_bytes());
        let again = parse_rack(&alpha, &back).unwrap();
        assert_eq!(again, tiles);
    }
}

#[test]
fn rack_text_rejects_strange_bytes() {
    let alpha = make_english_alphabet();
    assert_eq!(parse_rack(&alpha, b"AE2"), Err(GameError::InvalidTile));
    assert_eq!(parse_rack(&alpha, b"a"), Err(GameError::InvalidTile));
    assert_eq!(parse_rack(&alpha, b"A B"), Err(GameError::InvalidTile));
}

#[test]
fn played_text_round_trips() {
    let alpha = make_english_alphabet();
    for s in ["SO.UwU", ".....", "CAT", "zZ", "a.b"] {
        let tiles = parse_played_tiles(&alpha, s.as_bytes()).unwrap();
        let back = fmt_play_tiles(&alpha, &tiles);
        assert_eq!(back, s.as_bytes());
    }
}

#[test]
fn played_text_knows_blanks_and_play_throughs() {
    let alpha = make_english_alphabet();
    let tiles = parse_played_tiles(&alpha, b"SO.UwU").unwrap();
    assert_eq!(tiles, vec![19, 15, 0, 21, 0x80 | 23, 21]);
    assert_eq!(parse_played_tiles(&alpha, b"S?"), Err(GameError::InvalidTile));
}

#[test]
fn coordinates_parse_both_ways() {
    let dim = Dim { rows: 15, cols: 15 };
    // row then column: horizontal
    assert_eq!(
        parse_coord_token(b"9I", dim),
        Some(Coord { down: false, lane: 8, idx: 8 })
    );
    assert_eq!(
        parse_coord_token(b"15A", dim),
        Some(Coord { down: false, lane: 14, idx: 0 })
    );
    // column then row: vertical
    assert_eq!(
        parse_coord_token(b"I9", dim),
        Some(Coord { down: true, lane: 8, idx: 8 })
    );
    assert_eq!(
        parse_coord_token(b"a1", dim),
        Some(Coord { down: true, lane: 0, idx: 0 })
    );
}

#[test]
fn coordinates_reject_what_is_off_the_board() {
    let dim = Dim { rows: 15, cols: 15 };
    assert_eq!(parse_coord_token(b"16A", dim), None);
    assert_eq!(parse_coord_token(b"0A", dim), None);
    assert_eq!(parse_coord_token(b"P1", dim), None);
    assert_eq!(parse_coord_token(b"9", dim), None);
    assert_eq!(parse_coord_token(b"", dim), None);
    assert_eq!(parse_coord_token(b"9I9", dim), None);
    assert_eq!(parse_coord_token(b"AA1", dim), None);
}

#[test]
fn positions_format_like_the_wire_expects() {
    assert_eq!(fmt_position(false, 7, 7), b"8H".to_vec());
    assert_eq!(fmt_position(true, 7, 7), b"H8".to_vec());
    assert_eq!(fmt_position(false, 14, 0), b"15A".to_vec());
    assert_eq!(fmt_position(true, 0, 14), b"A15".to_vec());
}

#[test]
fn bot_codes_classify_as_documented() {
    assert_eq!(classify_bot(BotCode::HastyBot), (false, EffectiveBot::Unfiltered));
    assert_eq!(
        classify_bot(BotCode::Level3Probabilistic),
        (false, EffectiveBot::Tilt { level: 3 })
    );
    assert_eq!(
        classify_bot(BotCode::Level2CommonWordBot),
        (true, EffectiveBot::Tilt { level: 2 })
    );
    assert_eq!(classify_bot(BotCode::NoLeaveBot), (false, EffectiveBot::Unfiltered));
    assert_eq!(classify_bot(BotCode::SimmingBot), (false, EffectiveBot::Sim));
    assert_eq!(classify_bot(BotCode::Unsupported), (false, EffectiveBot::Unsupported));
}

#[test]
fn unsupported_codes_get_no_reply() {
    for jumbled in [false, true] {
        for has_tilter in [false, true] {
            assert_eq!(choose_plan(EffectiveBot::Unsupported, has_tilter, jumbled), None);
        }
    }
}

#[test]
fn simmer_on_jumbled_gets_no_reply() {
    // the combination is declined outright
    assert_eq!(choose_plan(EffectiveBot::Sim, true, true), None);
    assert_eq!(choose_plan(EffectiveBot::Sim, false, true), None);
    // and on a classic game it is served
    assert!(choose_plan(EffectiveBot::Sim, false, false).is_some());
}

#[test]
fn tilt_needs_a_tilter_and_a_classic_game() {
    assert_eq!(choose_plan(EffectiveBot::Tilt { level: 2 }, false, false), None);
    assert_eq!(choose_plan(EffectiveBot::Tilt { level: 2 }, true, true), None);
    assert_eq!(
        choose_plan(EffectiveBot::Tilt { level: 2 }, true, false),
        Some((true, 2, false, true))
    );
    assert_eq!(
        choose_plan(EffectiveBot::Unfiltered, false, true),
        Some((false, 0, false, false))
    );
}

#[test]
fn turn_follows_the_last_event() {
    let nick0 = b"alice".to_vec();
    let mk = |nick: &[u8], pi: u8| GameEvent {
        kind: EventKind::Other,
        nickname: nick.to_vec(),
        player_index: pi,
        cumulative: 0,
        down: false,
        row: 0,
        column: 0,
        played_tiles: Vec::new(),
    };
    // nobody moved yet: the deprecated flag decides
    assert_eq!(turn_after(&Vec::new(), &nick0, false), 0);
    assert_eq!(turn_after(&Vec::new(), &nick0, true), 1);
    // after a move it is the other player's turn
    assert_eq!(turn_after(&vec![mk(b"alice", 0)], &nick0, false), 1);
    assert_eq!(turn_after(&vec![mk(b"bob", 0)], &nick0, false), 0);
    // an empty nickname defers to the index
    assert_eq!(turn_after(&vec![mk(b"", 1)], &nick0, false), 0);
}

#[test]
fn lowercase_racks_read_back() {
    let alpha = make_english_alphabet();
    let tiles = crossword_bot::alphabet::parse_lowercase_rack(&alpha, b"?abz").unwrap();
    assert_eq!(tiles, vec![0, 1, 2, 26]);
    // uppercase letters are not lowercase-rack tokens
    assert!(crossword_bot::alphabet::parse_lowercase_rack(&alpha, b"AB").is_err());
    // and each tile writes back as the label the reader knows
    assert_eq!(alpha.lowercase_rack_label(0), Some(b"?".to_vec()));
    assert_eq!(alpha.lowercase_rack_label(1), Some(b"a".to_vec()));
    assert_eq!(alpha.lowercase_rack_label(0x81), None);
}
