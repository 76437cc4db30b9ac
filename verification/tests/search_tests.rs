use chess_engine::board::Board;
use chess_engine::eval::{INFINITY, NEGATIVE_INFINITY};
use chess_engine::magic::Tables;
use chess_engine::search::{minimax, minimax_plain, perft, Bot};

const START_FEN: &str = "rnbqkbnr/pppppppp/8/8/8/8/PPPPPPPP/RNBQKBNR w KQkq - 0 1";

#[test]
fn perft_from_the_start_position() {
    let tables = Tables::new();
    let board = Board::new(START_FEN, &tables).unwrap();
    assert_eq!(perft(&board, &tables, 0), 1);
    assert_eq!(perft(&board, &tables, 1), 20);
    assert_eq!(perft(&board, &tables, 2), 400);
}

#[test]
fn alpha_beta_equals_exhaustive_minimax() {
    let tables = Tables::new();
    let board = Board::new("4k3/8/8/8/8/8/4P3/4K3 w - - 0 1", &tables).unwrap();
    let pruned = minimax(&board, &tables, 3, NEGATIVE_INFINITY, INFINITY);
    let plain = minimax_plain(&board, &tables, 3);
    assert_eq!(pruned.0, plain.0);
    assert_eq!(pruned.1, plain.1);

    let board2 = Board::new("k7/8/8/8/8/R2n4/8/4K3 w - - 0 1", &tables).unwrap();
    let pruned2 = minimax(&board2, &tables, 2, NEGATIVE_INFINITY, INFINITY);
    let plain2 = minimax_plain(&board2, &tables, 2);
    assert_eq!(pruned2.0, plain2.0);
    assert_eq!(pruned2.1, plain2.1);
}

#[test]
fn bot_takes_the_hanging_queen() {
    let tables = Tables::new();
    let board = Board::new("4k3/8/8/8/8/8/4q3/4K3 w - - 0 1", &tables).unwrap();
    let bot = Bot::new(true);
    let best = bot.get_best_move(&board, &tables, 2).expect("a move exists");
    assert_eq!(best.end_square, 12);
}

#[test]
fn black_bot_takes_the_hanging_queen() {
    let tables = Tables::new();
    let board = Board::new("4k3/4Q3/8/8/8/8/8/4K3 b - - 0 1", &tables).unwrap();
    let bot = Bot::new(false);
    let best = bot.get_best_move(&board, &tables, 2).expect("a move exists");
    assert_eq!(best.end_square, 52);
}

#[test]
fn bot_reports_no_move_when_mated() {
    let tables = Tables::new();
    let board = Board::new(
        "rnb1kbnr/pppp1ppp/8/4p3/6Pq/5P2/PPPPP2P/RNBQKBNR w KQkq - 0 3",
        &tables,
    )
    .unwrap();
    let bot = Bot::new(true);
    assert_eq!(bot.get_best_move(&board, &tables, 3), None);
}
