use minesweeper::generating::{rng_from_seed, AsyncGuessfreeGenerator, GeneratorStatus};
use minesweeper::minefield::{CellKind, CellState, Minefield};
use minesweeper::solver::solve;

#[test]
fn test_generate_places_requested_mines() {
    let mut rng = rng_from_seed(1);
    let board = Minefield::generate(&mut rng, 5, 4, 7);
    assert_eq!(board.width, 5);
    assert_eq!(board.height, 4);
    assert_eq!(board.total_mines(), 7);
    assert!(board.cells.iter().all(|c| c.state == CellState::Hidden));
}

#[test]
fn test_generate_varies_with_seed() {
    let mut rng1 = rng_from_seed(1);
    let mut rng2 = rng_from_seed(1);
    let mut rng3 = rng_from_seed(99);
    let a = Minefield::generate(&mut rng1, 6, 6, 12);
    let b = Minefield::generate(&mut rng2, 6, 6, 12);
    let c = Minefield::generate(&mut rng3, 6, 6, 12);
    assert_eq!(a, b);
    assert!(a != c || a.total_mines() == c.total_mines());
}

#[test]
fn test_random_start_opens_an_empty_cell() {
    let mut rng = rng_from_seed(3);
    for _ in 0..10 {
        let board = Minefield::random_start(&mut rng, 4, 4, 3);
        assert_eq!(board.total_mines(), 3);
        assert!(!board.is_lost());
        assert!(board
            .cells
            .iter()
            .any(|c| c.kind == CellKind::Empty && c.state == CellState::Opened));
    }
}

#[test]
fn test_generator_finds_guess_free_board() {
    // A fixed seed sequence must end with an accepted board: the start
    // cell opened, the right number of mines, and a board the solver can
    // finish from that start without guessing.
    let mut generator = AsyncGuessfreeGenerator::from_seed(0, 4, 4, 3, 42);
    let mut found: Option<Minefield> = None;
    for _ in 0..1000 {
        match generator.run() {
            GeneratorStatus::Found(board) => {
                found = Some(board);
                break;
            },
            GeneratorStatus::StillSolving(_) => {},
        }
    }
    let mut board = found.expect("the generator kept rejecting candidates");
    assert_eq!(board.width, 4);
    assert_eq!(board.height, 4);
    assert_eq!(board.total_mines(), 3);
    assert_eq!(board.cells[0].state, CellState::Opened);
    assert_eq!(board.cells[0].kind, CellKind::Empty);
    assert!(generator.attempts() >= 1);
    solve(&mut board);
    assert!(board.is_solved());
    assert!(!board.is_lost());
}

#[test]
fn test_generator_reports_progress() {
    let mut generator = AsyncGuessfreeGenerator::from_seed(0, 3, 3, 2, 5);
    match generator.run() {
        GeneratorStatus::Found(board) => {
            assert_eq!(board.total_mines(), 2);
        },
        GeneratorStatus::StillSolving(_) => {},
    }
}
