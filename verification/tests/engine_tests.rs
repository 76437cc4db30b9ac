use chess_engine::attacks::{king_moves, knight_moves, pawn_attacks, pawn_moves};
use chess_engine::bits::bits_to_indices;
use chess_engine::board::Board;
use chess_engine::eval::evaluate_position;
use chess_engine::fen::FenError;
use chess_engine::magic::Tables;
use chess_engine::pieces::PieceType;
use chess_engine::position::{CastlingFlags, CastlingRights, Move, MoveFlags};

const START_FEN: &str = "rnbqkbnr/pppppppp/8/8/8/8/PPPPPPPP/RNBQKBNR w KQkq - 0 1";

#[test]
fn bits_to_indices_lists_set_bits() {
    assert_eq!(bits_to_indices(&0x51u64), vec![0, 4, 6]);
    assert_eq!(bits_to_indices(&0u64), Vec::<i32>::new());
    assert_eq!(bits_to_indices(&(1u64 << 63)), vec![63]);
}

#[test]
fn knight_attack_pattern_corner() {
    // a knight on a1 reaches only b3 and c2
    let moves = knight_moves(&1u64);
    assert_eq!(moves, (1u64 << 17) | (1u64 << 10));
}

#[test]
fn pawn_attack_and_push_patterns() {
    // white pawn on e2 (square 12)
    let one = 1u64 << 12;
    let (attacks, ep, promo) = pawn_attacks(&one, true, None);
    assert_eq!(attacks, (1u64 << 19) | (1u64 << 21));
    assert!(!ep);
    assert!(!promo);
    let (pushes, dpt, promo2) = pawn_moves(&one, &0u64, true);
    assert_eq!(pushes, (1u64 << 20) | (1u64 << 28));
    assert_eq!(dpt, Some(1u64 << 20));
    assert!(!promo2);
    // blocked pawn pushes nowhere
    let (blocked, dpt2, _) = pawn_moves(&one, &(1u64 << 20), true);
    assert_eq!(blocked, 0);
    assert_eq!(dpt2, None);
}

#[test]
fn king_step_pattern_centre() {
    // king on e4 (square 28), no castling
    let (moves, ck, cq) = king_moves(&(1u64 << 28), false, false);
    assert_eq!(ck, None);
    assert_eq!(cq, None);
    let squares = bits_to_indices(&moves);
    assert_eq!(squares, vec![19, 20, 21, 27, 29, 35, 36, 37]);
}

#[test]
fn flags_constructors() {
    let r = CastlingRights::new();
    assert!(r.white_kingside && r.white_queenside && r.black_kingside && r.black_queenside);
    let f = CastlingFlags::new();
    assert!(!f.king_moved && !f.rook_kingside_moved && !f.rook_queenside_moved);
    let mf = MoveFlags::new();
    assert!(!mf.en_passent_capture);
    assert_eq!(mf.double_push_target, None);
    assert_eq!(mf.castle_rook_move, None);
}

#[test]
fn move_equality_ignores_all_but_endpoints_and_promotion() {
    let a = Move::new(3, 5, PieceType::WhitePawn, MoveFlags::new());
    let b = Move::new(3, 5, PieceType::BlackKing, MoveFlags::new());
    let c = Move::new(3, 6, PieceType::WhitePawn, MoveFlags::new());
    assert!(a == b);
    assert!(a != c);
}

#[test]
fn fen_start_position_layout() {
    let tables = Tables::new();
    let board = Board::new(START_FEN, &tables).unwrap();
    let bbs = board.get_bitboards();
    assert_eq!(bbs[0], 0x10); // white king on e1
    assert_eq!(bbs[1], 0x8); // white queen on d1
    assert_eq!(bbs[2], 0x24); // white bishops
    assert_eq!(bbs[3], 0x42); // white knights
    assert_eq!(bbs[4], 0x81); // white rooks
    assert_eq!(bbs[5], 0xFF00); // white pawns on rank 2 (bits 8..15)
    assert_eq!(bbs[6], 0x1000000000000000);
    assert_eq!(bbs[7], 0x0800000000000000);
    assert_eq!(bbs[8], 0x2400000000000000);
    assert_eq!(bbs[9], 0x4200000000000000);
    assert_eq!(bbs[10], 0x8100000000000000);
    assert_eq!(bbs[11], 0x00FF000000000000);
    assert!(board.get_if_white_to_move());
    // 16 pawn moves plus 4 knight moves
    assert_eq!(board.get_all_moves().len(), 20);
    assert!(!board.is_checkmate());
}

#[test]
fn occupancy_bitmaps_stay_disjoint() {
    let tables = Tables::new();
    let mut board = Board::new(START_FEN, &tables).unwrap();
    for _ in 0..6 {
        let moves = board.get_all_moves();
        assert!(!moves.is_empty());
        let m = moves[0];
        board.make_move(m, &tables);
        let bbs = board.get_bitboards();
        for i in 0..12 {
            for j in 0..12 {
                if i != j {
                    assert_eq!(bbs[i] & bbs[j], 0);
                }
            }
        }
    }
}

#[test]
fn pinned_bishop_has_no_moves() {
    // black rook on e8 pins the white bishop on e2 against the king on e1
    let tables = Tables::new();
    let board = Board::new("4r3/8/8/8/8/8/4B3/4K3 w - - 0 1", &tables).unwrap();
    assert_eq!(board.get_moves(12).len(), 0);
    // the king itself still has moves
    assert!(board.get_moves(4).len() > 0);
}

#[test]
fn knight_check_is_resolved_by_capture_or_king_move() {
    // black knight on d3 checks the king on e1; the rook on a3 can take it
    let tables = Tables::new();
    let board = Board::new("k7/8/8/8/8/R2n4/8/4K3 w - - 0 1", &tables).unwrap();
    let moves = board.get_all_moves();
    assert_eq!(moves.len(), 5);
    for m in &moves {
        assert!(m.end_square == 19 || m.start_square == 4);
    }
}

#[test]
fn double_check_forces_king_moves() {
    // rook on e8 and knight on d3 both check the king on e1: intersecting
    // the two resolving sets leaves king moves only
    let tables = Tables::new();
    let board = Board::new("4r3/8/8/8/8/R2n4/8/4K3 w - - 0 1", &tables).unwrap();
    let moves = board.get_all_moves();
    assert_eq!(moves.len(), 3);
    for m in &moves {
        assert_eq!(m.start_square, 4);
    }
}

#[test]
fn stalemate_is_not_checkmate() {
    let tables = Tables::new();
    let board = Board::new("k7/8/8/8/8/8/5q2/7K w - - 0 1", &tables).unwrap();
    assert_eq!(board.get_all_moves().len(), 0);
    assert!(!board.is_checkmate());
}

#[test]
fn fools_mate_is_checkmate() {
    let tables = Tables::new();
    let board = Board::new(
        "rnb1kbnr/pppp1ppp/8/4p3/6Pq/5P2/PPPPP2P/RNBQKBNR w KQkq - 0 3",
        &tables,
    )
    .unwrap();
    assert!(board.is_checkmate());
    assert_eq!(board.get_all_moves().len(), 0);
}

#[test]
fn en_passant_capture_removes_the_passed_pawn() {
    let tables = Tables::new();
    let mut board = Board::new("4k3/8/8/3pP3/8/8/8/4K3 w - d6 0 1", &tables).unwrap();
    let moves = board.get_moves(36).clone();
    let ep = moves.iter().find(|m| m.end_square == 43).expect("en passant capture offered");
    board.make_move(*ep, &tables);
    let bbs = board.get_bitboards();
    assert_eq!(bbs[5], 1u64 << 43); // white pawn arrived on d6
    assert_eq!(bbs[11], 0); // the black pawn on d5 is gone
}

#[test]
fn kingside_castle_moves_king_and_rook() {
    let tables = Tables::new();
    let mut board = Board::new("4k3/8/8/8/8/8/8/4K2R w K - 0 1", &tables).unwrap();
    let moves = board.get_moves(4).clone();
    let castle = moves.iter().find(|m| m.end_square == 6).expect("castle offered");
    board.make_move(*castle, &tables);
    let bbs = board.get_bitboards();
    assert_eq!(bbs[0], 1u64 << 6); // king on g1
    assert_eq!(bbs[4], 1u64 << 5); // rook on f1
}

#[test]
fn start_position_for_black_also_has_twenty_moves() {
    let tables = Tables::new();
    let board = Board::new(
        "rnbqkbnr/pppppppp/8/8/8/8/PPPPPPPP/RNBQKBNR b KQkq - 0 1",
        &tables,
    )
    .unwrap();
    assert!(!board.get_if_white_to_move());
    assert_eq!(board.get_all_moves().len(), 20);
}

#[test]
fn black_queenside_castle_moves_king_and_rook() {
    let tables = Tables::new();
    let mut board = Board::new("r3k3/8/8/8/8/8/8/4K3 b q - 0 1", &tables).unwrap();
    let moves = board.get_moves(60).clone();
    let castle = moves.iter().find(|m| m.end_square == 58).expect("castle offered");
    board.make_move(*castle, &tables);
    let bbs = board.get_bitboards();
    assert_eq!(bbs[6], 1u64 << 58); // black king on c8
    assert_eq!(bbs[10], 1u64 << 59); // black rook on d8
}

#[test]
fn double_push_grants_the_opponent_en_passant() {
    let tables = Tables::new();
    let mut board = Board::new("4k3/8/8/8/3p4/8/4P3/4K3 w - - 0 1", &tables).unwrap();
    let moves = board.get_moves(12).clone();
    let push = moves.iter().find(|m| m.end_square == 28).expect("double push offered");
    board.make_move(*push, &tables);
    // the black pawn on d4 may now capture en passant onto e3
    let replies = board.get_moves(27).clone();
    let ep = replies.iter().find(|m| m.end_square == 20).expect("en passant reply offered");
    board.make_move(*ep, &tables);
    let bbs = board.get_bitboards();
    assert_eq!(bbs[11], 1u64 << 20); // black pawn on e3
    assert_eq!(bbs[5], 0); // the white pawn is gone
}

#[test]
fn promotion_expands_to_four_pieces() {
    let tables = Tables::new();
    let mut board = Board::new("4k3/P7/8/8/8/8/8/4K3 w - - 0 1", &tables).unwrap();
    let moves = board.get_moves(48).clone();
    assert_eq!(moves.len(), 4);
    let queen = moves
        .iter()
        .find(|m| m.promotion_piece == Some(PieceType::WhiteQueen))
        .expect("queen promotion offered");
    board.make_move(*queen, &tables);
    let bbs = board.get_bitboards();
    assert_eq!(bbs[5], 0); // the pawn is gone
    assert_eq!(bbs[1], 1u64 << 56); // a queen stands on a8
}

#[test]
fn evaluation_exact_values() {
    let tables = Tables::new();
    let start = Board::new(START_FEN, &tables).unwrap();
    assert_eq!(evaluate_position(&start, false, 0), 0);
    let pawn = Board::new("4k3/8/8/8/8/8/4P3/4K3 w - - 0 1", &tables).unwrap();
    assert_eq!(evaluate_position(&pawn, false, 0), 100);
    let mate = Board::new(
        "rnb1kbnr/pppp1ppp/8/4p3/6Pq/5P2/PPPPP2P/RNBQKBNR w KQkq - 0 3",
        &tables,
    )
    .unwrap();
    assert_eq!(evaluate_position(&mate, true, 3), -(1_000_000 + 15));
    let black_mated = Board::new("4k3/8/8/8/8/8/8/4K3 b - - 0 1", &tables).unwrap();
    assert_eq!(evaluate_position(&black_mated, true, 2), 1_000_000 + 10);
}

fn parse_err(r: Result<Board, FenError>) -> FenError {
    match r {
        Err(e) => e,
        Ok(_) => panic!("the FEN parsed"),
    }
}

#[test]
fn fen_errors_name_the_failure() {
    let tables = Tables::new();
    assert_eq!(
        parse_err(Board::new("8/8/8/8/8/8/8/8 w - -", &tables)),
        FenError::MissingFields
    );
    assert_eq!(
        parse_err(Board::new("ppppppppp/8/8/8/8/8/8/8 b - - 0 1", &tables)),
        FenError::RankWidth
    );
    assert_eq!(
        parse_err(Board::new("p6/8/8/8/8/8/8/8 w - - 0 1", &tables)),
        FenError::RankWidth
    );
    assert_eq!(
        parse_err(Board::new("8/8/8/8/8/8/8 w - - 0 1", &tables)),
        FenError::RankWidth
    );
    assert_eq!(
        parse_err(Board::new("x7/8/8/8/8/8/8/8 w - - 0 1", &tables)),
        FenError::UnexpectedChar
    );
    assert_eq!(
        parse_err(Board::new("8/8/8/8/8/8/8/8 x - - 0 1", &tables)),
        FenError::SideToMove
    );
    assert_eq!(
        parse_err(Board::new("8/8/8/8/8/8/8/8 w - - ab 1", &tables)),
        FenError::Number
    );
    assert_eq!(
        parse_err(Board::new("8/8/8/8/8/8/8/8 w - zz 0 1", &tables)),
        FenError::Number
    );
}

#[test]
fn piece_type_helpers() {
    let all = PieceType::iter();
    assert_eq!(all.len(), 12);
    assert_eq!(all[0], PieceType::WhiteKing);
    assert_eq!(all[11], PieceType::BlackPawn);
    let white = PieceType::get_colour_types(true);
    assert_eq!(white.len(), 6);
    assert_eq!(white[5], PieceType::WhitePawn);
    let black = PieceType::get_colour_types(false);
    assert_eq!(black[0], PieceType::BlackKing);
}
