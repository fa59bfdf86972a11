use tessera::Player;
use tessera::board::Board;
use tessera::catalog::{standard_catalog, standard_lines, LineCatalog};
use tessera::codec::{decode_move, decode_request, encode_move, encode_request, run_ai};
use tessera::coord::Coord;
use tessera::search::{minimax_policy, negamax};

fn line_cells() -> [u8; 4] {
    // cells (0,0,0,0)..(0,0,0,3): one winning line along the last axis
    [0, 1, 2, 3]
}

#[test]
fn pack_unpack_round_trip_all() {
    for a in 0..4u8 {
        for b in 0..4u8 {
            for c in 0..4u8 {
                for d in 0..4u8 {
                    let coord = Coord::from_indices(a, b, c, d);
                    assert_eq!(coord.unpack(), (a, b, c, d));
                }
            }
        }
    }
}

#[test]
fn pack_exact_value() {
    assert_eq!(Coord::from_indices(1, 2, 3, 0).0, 64 + 32 + 12);
    assert_eq!(Coord::from_indices(3, 3, 3, 3).0, 255);
}

#[test]
fn rotate_zero_is_identity() {
    for x in 0..=255u8 {
        assert_eq!(Coord(x).rotate(0).0, x);
        assert_eq!(Coord(x).rotate(4).0, x);
    }
}

#[test]
fn rotate_composes_mod_four() {
    for x in 0..=255u8 {
        for k1 in 0..6u8 {
            for k2 in 0..6u8 {
                let two = Coord(x).rotate(k1).rotate(k2);
                let one = Coord(x).rotate((k1 + k2) % 4);
                assert_eq!(two.0, one.0);
            }
        }
    }
}

#[test]
fn rotate_moves_fields() {
    let c = Coord::from_indices(0, 1, 2, 3);
    assert_eq!(c.rotate(1).unpack(), (3, 0, 1, 2));
    assert_eq!(c.rotate(2).unpack(), (2, 3, 0, 1));
    assert_eq!(c.rotate(3).unpack(), (1, 2, 3, 0));
}

#[test]
fn catalog_has_the_standard_lines() {
    let lines = standard_lines();
    assert_eq!(lines.len(), 520);
    let cat = standard_catalog();
    assert_eq!(cat.lines.len(), 520);
    assert_eq!(cat.cell_lines.len(), 256);
    // the axis line used throughout these tests really is a line
    assert!(cat.lines.contains(&line_cells()));
}

#[test]
fn catalog_rejects_a_degenerate_line() {
    let mut lines = standard_lines();
    lines.push([7, 7, 8, 9]);
    assert!(LineCatalog::new(lines).is_none());
}

#[test]
fn win_after_fourth_claim_only() {
    let cat = standard_catalog();
    let mut board = Board::new(&cat);
    let cells = line_cells();
    for (i, &c) in cells.iter().enumerate() {
        assert!(board.winner.is_none(), "no winner before claim {}", i);
        board.set(&cat, Coord(c), Player(1));
        if i < 3 {
            assert!(board.winner.is_none(), "no winner after claim {}", i);
        }
    }
    assert_eq!(board.winner, Some(Player(1)));
}

#[test]
fn dead_line_never_wins() {
    let cat = standard_catalog();
    let mut board = Board::new(&cat);
    board.set(&cat, Coord(0), Player(1));
    board.set(&cat, Coord(1), Player(1));
    board.set(&cat, Coord(2), Player(2));
    // the line 0..4 now holds both players; completing it wins nothing
    board.set(&cat, Coord(3), Player(1));
    assert!(board.winner.is_none());
}

#[test]
fn get_and_positions_owned_by() {
    let cat = standard_catalog();
    let mut board = Board::new(&cat);
    board.set(&cat, Coord(5), Player(1));
    board.set(&cat, Coord(9), Player(2));
    assert_eq!(board.get(Coord(5)), Player(1));
    assert_eq!(board.get(Coord(9)), Player(2));
    assert_eq!(board.get(Coord(7)), Player(0));
    assert_eq!(board.positions_owned_by(Player(1)), vec![5]);
    assert_eq!(board.positions_owned_by(Player(2)), vec![9]);
    let empties = board.positions_owned_by(Player(0));
    assert_eq!(empties.len(), 254);
    assert!(!empties.contains(&5));
    assert!(!empties.contains(&9));
}

#[test]
fn line_danger_classifies() {
    // threat against us: the opponent alone holds the line
    assert_eq!(Board::line_danger(Player(1), &[0, 3]), (3, 0));
    // our own threat
    assert_eq!(Board::line_danger(Player(1), &[2, 0]), (0, 2));
    // dead line
    assert_eq!(Board::line_danger(Player(1), &[1, 2]), (0, 0));
    // seen from the other side
    assert_eq!(Board::line_danger(Player(2), &[0, 3]), (0, 3));
}

#[test]
fn board_danger_grows_with_claims() {
    let cat = standard_catalog();
    let mut board = Board::new(&cat);
    assert_eq!(board.board_danger(Player(1)), (0, 0));
    board.set(&cat, Coord(0), Player(1));
    let d1 = board.board_danger(Player(1));
    assert_eq!(d1, (0, 1));
    board.set(&cat, Coord(1), Player(1));
    let d2 = board.board_danger(Player(1));
    assert_eq!(d2, (0, 2));
    assert!(d2.1 >= d1.1);
    // and the threat-against picture seen by the opponent
    assert_eq!(board.board_danger(Player(2)), (2, 0));
}

#[test]
fn good_moves_on_empty_board_is_everything() {
    let cat = standard_catalog();
    let board = Board::new(&cat);
    let gm = board.good_moves(&cat, Player(1));
    let ones: Vec<usize> = gm.ones().collect();
    assert_eq!(ones.len(), 256);
    assert_eq!(ones[0], 0);
    assert_eq!(ones[255], 255);
}

#[test]
fn good_moves_subset_of_empty_cells() {
    let cat = standard_catalog();
    let mut board = Board::new(&cat);
    board.set(&cat, Coord(0), Player(1));
    board.set(&cat, Coord(17), Player(2));
    let gm = board.good_moves(&cat, Player(2));
    for bit in gm.ones() {
        assert_eq!(board.get(Coord(bit as u8)), Player(0));
    }
    assert!(!gm.contains(0));
    assert!(!gm.contains(17));
}

#[test]
fn good_moves_list_is_ascending() {
    let cat = standard_catalog();
    let mut board = Board::new(&cat);
    board.set(&cat, Coord(33), Player(1));
    let list = board.good_moves_list(&cat, Player(2));
    assert!(!list.is_empty());
    for w in list.windows(2) {
        assert!(w[0] < w[1]);
    }
    // defending: every candidate lies on a line through the claimed cell
    for &c in &list {
        assert!(cat.cell_lines[33]
            .iter()
            .any(|&l| cat.lines[l].contains(&c)));
    }
}

#[test]
fn negamax_sees_an_immediate_win() {
    let cat = standard_catalog();
    let mut board = Board::new(&cat);
    for &c in &line_cells() {
        board.set(&cat, Coord(c), Player(1));
    }
    assert_eq!(negamax(&cat, board, 2, -127, 127, Player(1), 1), 64);
}

#[test]
fn negamax_relabeling_symmetry() {
    let cat = standard_catalog();
    let mut board = Board::new(&cat);
    let mut swapped = Board::new(&cat);
    for &(c, p) in &[(0u8, 1u8), (5, 2), (20, 1), (66, 2), (130, 1)] {
        board.set(&cat, Coord(c), Player(p));
        swapped.set(&cat, Coord(c), Player(3 - p));
    }
    for depth in 0..3u8 {
        let a = negamax(&cat, board.duplicate(), depth, -127, 127, Player(2), 1);
        let b = negamax(&cat, swapped.duplicate(), depth, -127, 127, Player(1), 1);
        assert_eq!(a, b);
    }
    // at the horizon, flipping the sign multiplier negates the score
    let h = negamax(&cat, board.duplicate(), 0, -127, 127, Player(2), 1);
    let hn = negamax(&cat, board.duplicate(), 0, -127, 127, Player(2), -1);
    assert_eq!(h, -hn);
}

#[test]
fn policy_takes_the_forced_win() {
    let cat = standard_catalog();
    let mut board = Board::new(&cat);
    board.set(&cat, Coord(0), Player(1));
    board.set(&cat, Coord(1), Player(1));
    board.set(&cat, Coord(2), Player(1));
    assert_eq!(minimax_policy(&cat, &board, Player(1), false), 3);
    assert_eq!(minimax_policy(&cat, &board, Player(1), true), 3);
}

#[test]
fn policy_answers_an_opening() {
    let cat = standard_catalog();
    let mut board = Board::new(&cat);
    board.set(&cat, Coord(37), Player(1));
    let gm = board.good_moves(&cat, Player(2));
    let good: Vec<usize> = gm.ones().collect();
    assert!(!good.is_empty());
    assert!(!good.contains(&37));
    let reply = minimax_policy(&cat, &board, Player(2), false);
    assert!(good.contains(&(reply as usize)));
    assert_eq!(board.get(Coord(reply)), Player(0));
}

#[test]
fn request_codec_round_trips() {
    let cat = standard_catalog();
    let mut board = Board::new(&cat);
    board.set(&cat, Coord(12), Player(1));
    board.set(&cat, Coord(200), Player(2));
    let bytes = encode_request(&board, Player(2), true);
    assert_eq!(bytes.len(), 259);
    let (back, player, smarter) = decode_request(&cat, &bytes).expect("round trip");
    assert_eq!(player, Player(2));
    assert!(smarter);
    assert_eq!(back.winner, board.winner);
    assert_eq!(back.line_occupation, board.line_occupation);
    for c in 0..=255u8 {
        assert_eq!(back.get(Coord(c)), board.get(Coord(c)));
    }
}

#[test]
fn request_codec_round_trips_with_winner() {
    let cat = standard_catalog();
    let mut board = Board::new(&cat);
    for &c in &line_cells() {
        board.set(&cat, Coord(c), Player(2));
    }
    let bytes = encode_request(&board, Player(1), false);
    let (back, player, smarter) = decode_request(&cat, &bytes).expect("round trip");
    assert_eq!(player, Player(1));
    assert!(!smarter);
    assert_eq!(back.winner, Some(Player(2)));
}

#[test]
fn move_codec_round_trips() {
    for m in [0u8, 7, 255] {
        assert_eq!(decode_move(&encode_move(m)), Some(m));
    }
    assert_eq!(decode_move(&Vec::new()), None);
    assert_eq!(decode_move(&vec![1, 2]), None);
}

#[test]
fn decode_rejects_bad_requests() {
    let cat = standard_catalog();
    let board = Board::new(&cat);
    // wrong length
    assert!(decode_request(&cat, &vec![1, 0, 0]).is_none());
    // bad player byte
    let mut bytes = encode_request(&board, Player(1), false);
    bytes[0] = 3;
    assert!(decode_request(&cat, &bytes).is_none());
    // bad flag byte
    let mut bytes = encode_request(&board, Player(1), false);
    bytes[1] = 9;
    assert!(decode_request(&cat, &bytes).is_none());
    // bad cell owner byte
    let mut bytes = encode_request(&board, Player(1), false);
    bytes[100] = 3;
    assert!(decode_request(&cat, &bytes).is_none());
    // winner byte contradicting the cells
    let mut bytes = encode_request(&board, Player(1), false);
    bytes[2] = 1;
    assert!(decode_request(&cat, &bytes).is_none());
}

#[test]
fn run_ai_answers_a_valid_request() {
    let cat = standard_catalog();
    let mut board = Board::new(&cat);
    board.set(&cat, Coord(0), Player(1));
    let request = encode_request(&board, Player(2), false);
    let response = run_ai(&cat, request).expect("valid request");
    let mv = decode_move(&response).expect("one byte");
    assert_eq!(board.get(Coord(mv)), Player(0));
    assert!(run_ai(&cat, vec![9, 9]).is_none());
}
