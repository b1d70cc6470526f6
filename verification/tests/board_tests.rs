use queens_board::board::{Board, Entry, Mark, Rgb, Square};
use queens_board::error::Error;
use queens_board::game::Game;

fn two_by_two() -> Board {
    let mut entries = Vec::new();
    entries.push(Entry { x: 0, y: 0, square: Square::new(Rgb(255, 0, 0)) });
    entries.push(Entry { x: 1, y: 0, square: Square::new(Rgb(0, 255, 0)) });
    entries.push(Entry { x: 0, y: 1, square: Square::new(Rgb(0, 0, 255)) });
    entries.push(Entry { x: 1, y: 1, square: Square::new(Rgb(0, 0, 0)) });
    Board::new(entries)
}

#[test]
fn new_square_is_empty() {
    let sq = Square::new(Rgb(10, 20, 30));
    assert_eq!(sq.colour, Rgb(10, 20, 30));
    assert!(matches!(sq.get_mark(), Mark::Empty));
}

#[test]
fn mark_with_keeps_colour() {
    let sq = Square::new(Rgb(1, 2, 3));
    let marked = sq.mark_with(Mark::Queen);
    assert_eq!(marked.colour, Rgb(1, 2, 3));
    assert!(matches!(marked.get_mark(), Mark::Queen));
    assert!(matches!(sq.get_mark(), Mark::Empty));
}

#[test]
fn mark_square_round_trip() {
    let board = two_by_two();
    let marked = board.mark_square(1, 0, Mark::Queen).unwrap();
    let sq = marked.get_square(1, 0).unwrap();
    assert!(matches!(sq.mark, Mark::Queen));
    assert_eq!(sq.colour, Rgb(0, 255, 0));
}

#[test]
fn mark_square_leaves_other_cells() {
    let board = two_by_two();
    let marked = board.mark_square(0, 0, Mark::Crossed).unwrap();
    assert_eq!(marked.get_square(1, 0).unwrap(), board.get_square(1, 0).unwrap());
    assert_eq!(marked.get_square(0, 1).unwrap(), board.get_square(0, 1).unwrap());
    assert_eq!(marked.get_square(1, 1).unwrap(), board.get_square(1, 1).unwrap());
}

#[test]
fn mark_square_is_idempotent() {
    let board = two_by_two();
    let once = board.mark_square(0, 1, Mark::Queen).unwrap();
    let twice = once.mark_square(0, 1, Mark::Queen).unwrap();
    for y in 0..2 {
        for x in 0..2 {
            assert_eq!(once.get_square(x, y).unwrap(), twice.get_square(x, y).unwrap());
        }
    }
}

#[test]
fn mark_square_leaves_original_board() {
    let board = two_by_two();
    let marked = board.mark_square(1, 1, Mark::Queen).unwrap();
    assert!(matches!(board.get_square(1, 1).unwrap().mark, Mark::Empty));
    assert!(matches!(marked.get_square(1, 1).unwrap().mark, Mark::Queen));
}

#[test]
fn mark_square_out_of_bounds() {
    let board = two_by_two();
    assert!(matches!(board.mark_square(2, 0, Mark::Queen), Err(Error::OutOfBounds)));
    assert!(matches!(board.mark_square(0, 5, Mark::Crossed), Err(Error::OutOfBounds)));
}

#[test]
fn check_validity_reports_valid() {
    let board = two_by_two();
    assert!(board.check_validity());
    let marked = board.mark_square(0, 0, Mark::Queen).unwrap();
    assert!(marked.check_validity());
}

#[test]
fn fresh_game_has_one_snapshot() {
    let board = two_by_two();
    let game = Game::new(board);
    assert_eq!(game.history_len(), 1);
    let first = game.board_at(0);
    assert!(matches!(first.get_square(0, 0).unwrap().mark, Mark::Empty));
    assert_eq!(first.get_square(0, 0).unwrap().colour, Rgb(255, 0, 0));
}

#[test]
fn apply_appends_and_keeps_history() {
    let board = two_by_two();
    let game = Game::new(board);
    let next = game.latest().mark_square(0, 0, Mark::Queen).unwrap();
    let game = game.apply(next);
    assert_eq!(game.history_len(), 2);
    assert!(matches!(game.board_at(0).get_square(0, 0).unwrap().mark, Mark::Empty));
    assert!(matches!(game.board_at(1).get_square(0, 0).unwrap().mark, Mark::Queen));
    assert!(matches!(game.latest().get_square(0, 0).unwrap().mark, Mark::Queen));
}
