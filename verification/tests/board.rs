use minesweeper::minefield::{Cell, CellKind, CellState, Minefield};

#[test]
fn test_full_and_new() {
    let full = Minefield::full(3, 2);
    assert_eq!(full.width, 3);
    assert_eq!(full.height, 2);
    assert_eq!(full.cells.len(), 6);
    assert!(full.cells.iter().all(|c| c.kind == CellKind::Mine && c.state == CellState::Hidden));
    assert_eq!(full.total_mines(), 6);

    let empty = Minefield::new(3, 2);
    assert!(
        empty.cells.iter().all(|c| c.kind == CellKind::Empty && c.state == CellState::Hidden)
    );
    assert_eq!(empty.total_mines(), 0);
    assert_eq!(empty.total_flags(), 0);
}

#[test]
fn test_neighbors_clip_at_edges() {
    let board = Minefield::new(3, 3);
    assert_eq!(board.neighbors(0, 0), vec![(1, 0), (0, 1), (1, 1)]);
    assert_eq!(
        board.neighbors(1, 1),
        vec![(0, 0), (1, 0), (2, 0), (0, 1), (2, 1), (0, 2), (1, 2), (2, 2)]
    );
    assert_eq!(board.neighbors(2, 2), vec![(1, 1), (2, 1), (1, 2)]);
}

#[test]
fn test_counts() {
    let board = Minefield::parse("m.m\n.f.\nmmm");
    assert_eq!(board.count_mines(1, 1), 5);
    assert_eq!(board.count_flags(0, 0), 1);
    assert_eq!(board.count_mines(0, 0), 0);
    assert_eq!(board.total_mines(), 5);
    assert_eq!(board.total_flags(), 1);
}

#[test]
fn test_open_floods_zero_region() {
    // Opening the corner of a mine-free quadrant uncovers the whole
    // connected zero region and its numbered border, and nothing else.
    let mut board = Minefield::parse("....\n....\n..mm\n..mm");
    board.open(0, 0);
    assert_eq!(board.format(), "0000\n0122\n02mm\n02mm\n");
}

#[test]
fn test_open_numbered_cell_opens_it_alone() {
    let mut board = Minefield::parse("..\n.m");
    board.open(0, 0);
    assert_eq!(board.format(), "1.\n.m\n");
}

#[test]
fn test_open_mine_loses() {
    let mut board = Minefield::parse("m.\n..");
    assert!(!board.is_lost());
    board.open(0, 0);
    assert!(board.is_lost());
    assert!(!board.is_solved());
}

#[test]
fn test_open_is_idempotent() {
    let mut board = Minefield::parse("..m\n...\n...");
    board.open(0, 2);
    let once = board.clone();
    board.open(0, 2);
    assert_eq!(once, board);
}

#[test]
fn test_toggle_flag() {
    let mut board = Minefield::parse("m.\n..");
    board.toggle_flag(0, 0);
    assert_eq!(board.format(), "F.\n..\n");
    board.toggle_flag(0, 0);
    assert_eq!(board.format(), "m.\n..\n");
    board.open(1, 1);
    board.toggle_flag(1, 1);
    assert_eq!(board.format(), "m.\n.1\n");
}

#[test]
fn test_neighboring_open() {
    let board = Minefield::parse("1.\n..");
    assert!(board.neighboring_open(1, 0));
    assert!(board.neighboring_open(1, 1));
    assert!(!board.neighboring_open(0, 0));
}

#[test]
fn test_solved_and_lost_never_hold_together() {
    for text in ["m.\n..", "M0\n00", "F1\n11", "00\n00", "mm\nmm"] {
        let board = Minefield::parse(text);
        assert!(!(board.is_solved() && board.is_lost()));
    }
}

#[test]
fn test_is_solved() {
    let solved = Minefield::parse("F1\n11");
    assert!(solved.is_solved());
    let covered_mine = Minefield::parse("m1\n11");
    assert!(covered_mine.is_solved());
    let unsolved = Minefield::parse("m1\n1.");
    assert!(!unsolved.is_solved());
}

#[test]
fn test_conceal() {
    let mut board = Minefield::parse("F1\n11");
    board.conceal();
    assert_eq!(board.format(), "m.\n..\n");
}

#[test]
fn test_format_round_trips_through_parse() {
    for text in ["m.1\nf2F\nM00", "....\nmmmm", "0", "F"] {
        let board = Minefield::parse(text);
        let rendered = board.format();
        let reparsed = Minefield::parse(&rendered);
        assert_eq!(board, reparsed);
        assert_eq!(rendered, reparsed.format());
    }
}

#[test]
fn test_parse_skips_whitespace() {
    let padded = Minefield::parse("m.\n   \t .m  \n");
    let plain = Minefield::parse("m.\n.m");
    assert_eq!(padded, plain);
}

#[test]
fn test_format_shows_counts() {
    let mut board = Minefield::parse("mm\nm.");
    board.open(1, 1);
    assert_eq!(board.format(), "mm\nm3\n");
    assert_eq!(board.cells[0], Cell { kind: CellKind::Mine, state: CellState::Hidden });
    assert_eq!(board.cells[3], Cell { kind: CellKind::Empty, state: CellState::Opened });
}
