use minesweeper::algebra::{solve_endgame, solve_step_endgame};
use minesweeper::dense::{solve_bf, solve_chucking, solve_pruning, solve_step_bf, solve_step_chucking};
use minesweeper::generating::rng_from_seed;
use minesweeper::minefield::Minefield;
use minesweeper::solver::{solve, solve_bm, solve_bm_without_total_mines, solve_step};

#[test]
fn test_solve_step() {
    for (a, b) in &[
        (
            r#".1.
                   .F."#,
            r#"111
                   1F1"#,
        ),
        (
            r#"000m
             000.
             000.
             00m."#,
            r#"000F
             0000
             0000
             00F0"#,
        ),
        (
            r#"0000
                   0000
                   00m.
                   m..."#,
            r#"0000
                   0000
                   00F0
                   m.00"#,
        ),
        (
            r#"0000
                   0000
                   00F0
                   m.0."#,
            r#"0000
                   0000
                   00F0
                   F000
                   "#,
        ),
        (
            r#"00000m
                       000000
                       000000
                       000000"#,
            r#"00000F
                       000000
                       000000
                       000000"#,
        ),
        (
            r#"00001m
                    000011
                    000000
                    000000"#,
            r#"00001F
                    000011
                    000000
                    000000"#,
        ),
    ] {
        let mut left = Minefield::parse(a);
        solve_step_bf(&mut left);

        let right = Minefield::parse(b);
        assert_eq!(left, right);
    }
}

#[test]
fn test_solve_bf() {
    let mut minefield = Minefield::parse(
        r#"0000
               0011
               112m
               .m.."#,
    );
    let expected = Minefield::parse(
        r#"0000
               0011
               112F
               1F21"#,
    );
    solve_bf(&mut minefield);
    assert_eq!(expected, minefield);
}

#[test]
fn test_solve_pruning() {
    let expected = Minefield::parse(
        r#"FFF1
2321
0000
0000
"#,
    );
    let mut minefield = Minefield::parse(
        r#"FFF.
2321
0000
0000"#,
    );
    solve_pruning(&mut minefield);
    assert_eq!(expected, minefield);
}

#[test]
fn test_solve_step_is_idempotent_on_stuck_boards() {
    // Two hidden cells sharing one mine cannot be told apart: the solver
    // is stuck, and stepping twice changes nothing.
    let mut board = Minefield::parse(".m\n11");
    let first = solve_step(&mut board);
    assert!(!first);
    let snapshot = board.clone();
    let second = solve_step(&mut board);
    assert!(!second);
    assert_eq!(snapshot, board);
}

#[test]
fn test_all_strategies_agree() {
    let mut rng = rng_from_seed(7);
    for _ in 0..12 {
        let base = Minefield::random_start(&mut rng, 4, 4, 3);
        let mut a = base.clone();
        let mut b = base.clone();
        let mut c = base.clone();
        let mut d = base.clone();
        solve_bf(&mut a);
        solve_pruning(&mut b);
        solve_bm(&mut c);
        solve(&mut d);
        assert_eq!(a, b);
        assert_eq!(a, c);
        assert_eq!(a, d);
    }
}

#[test]
fn test_solve_without_total_mines_deduces_less() {
    // The cells far from the frontier can only be cleared through the
    // global mine count: without it the solver finds nothing here.
    let original = Minefield::parse("1m.\n...");
    let mut with_total = original.clone();
    let mut without_total = original.clone();
    solve_bm(&mut with_total);
    solve_bm_without_total_mines(&mut without_total);
    assert_eq!(without_total, original);
    assert!(with_total != original);
}

#[test]
fn test_overflagged_board_is_left_alone() {
    // A board whose flags contradict its counts has no consistent
    // solution: the step must change nothing rather than fail.
    let mut board = Minefield::parse("1f\nff");
    let before = board.clone();
    let changed = solve_step(&mut board);
    assert!(!changed);
    assert_eq!(before, board);
}

#[test]
fn test_solve_chucking_deduces_simple_boards() {
    let mut board = Minefield::parse(".1.\n.F.");
    solve_chucking(&mut board, 3, 0);
    assert_eq!(board, Minefield::parse("111\n1F1"));

    let mut unchanged = Minefield::parse(".m\n11");
    let changed = solve_step_chucking(&mut unchanged, 3, 1);
    assert!(!changed);
    assert_eq!(unchanged, Minefield::parse(".m\n11"));
}

#[test]
fn test_endgame_matches_full_solve_here() {
    let mut by_endgame = Minefield::parse("000m\n000.\n000.\n00m.");
    let mut by_search = by_endgame.clone();
    solve_endgame(&mut by_endgame);
    solve(&mut by_search);
    assert_eq!(by_endgame, by_search);
    assert!(by_endgame.is_solved());

    let mut stuck = Minefield::parse(".m\n11");
    let changed = solve_step_endgame(&mut stuck);
    assert!(!changed);
    assert_eq!(stuck, Minefield::parse(".m\n11"));
}

#[test]
fn test_solve_reaches_fixpoint() {
    let mut board = Minefield::parse("000m\n000.\n000.\n00m.");
    solve(&mut board);
    let snapshot = board.clone();
    assert!(!solve_step(&mut board));
    assert_eq!(snapshot, board);
    assert!(board.is_solved());
}
