use lib::code::{PosCode, code_space, decode};
use lib::config::{Dims, Repetition, Suicide};
use lib::reference::Color;
use lib::table::RuleTable;
use lib::naive;
use lib::search::{MoveOrder, Solver};

const SMALL: [(usize, usize); 5] = [(1, 1), (1, 2), (2, 1), (1, 3), (3, 1)];

const FAST: [(usize, usize); 5] = [(1, 1), (1, 2), (1, 3), (1, 4), (2, 2)];

const REVERSED: [(usize, usize); 4] = [(1, 1), (1, 2), (1, 3), (1, 4)];

fn floors(dims: Dims) -> impl Iterator<Item = i64> {
    let span = i64::try_from(dims.point_count()).expect("point count fits an i64");
    (-span - 1)..=(span + 1)
}

#[test]
fn the_engines_agree_on_every_value_of_every_board_of_three_points() {
    for (rows, cols) in SMALL {
        let dims = Dims::new(rows, cols);
        for suicide in [Suicide::Forbid, Suicide::RemoveOwn] {
            let table = RuleTable::build(dims, suicide).expect("a small board");
            for rep in [Repetition::Psk, Repetition::Ssk] {
                let mut solver = Solver::new(&table, rep);
                for raw in 0..code_space(dims) {
                    let code = PosCode(raw);
                    let board = decode(dims, code);
                    for to_move in [Color::Black, Color::White] {
                        let fast = solver
                            .solve_root(code, to_move)
                            .value
                            .expect("no budget was set");
                        let slow = naive::value_from(&board, to_move, rep, suicide);
                        assert_eq!(
                            fast, slow,
                            "{dims:?} {rep:?} {suicide:?} root {code:?} {to_move:?} to move: \
                             fast {fast} naive {slow}"
                        );
                    }
                }
            }
        }
    }
}

#[test]
fn the_engines_agree_on_every_verdict_of_every_board_of_three_points() {
    for (rows, cols) in SMALL {
        let dims = Dims::new(rows, cols);
        for suicide in [Suicide::Forbid, Suicide::RemoveOwn] {
            let table = RuleTable::build(dims, suicide).expect("a small board");
            for rep in [Repetition::Psk, Repetition::Ssk] {
                let mut solver = Solver::new(&table, rep);
                for raw in 0..code_space(dims) {
                    let code = PosCode(raw);
                    let board = decode(dims, code);
                    for to_move in [Color::Black, Color::White] {
                        for floor in floors(dims) {
                            for c in [Color::Black, Color::White] {
                                let fast = solver
                                    .decide_root(code, to_move, floor, c)
                                    .wins
                                    .expect("no budget was set");
                                let slow =
                                    naive::wins_from(&board, to_move, rep, suicide, floor, c);
                                assert_eq!(
                                    fast, slow,
                                    "{dims:?} {rep:?} {suicide:?} root {code:?} {to_move:?} to move, \
                                     komi floor {floor:?}, {c:?}: fast {fast} naive {slow}"
                                );
                            }
                        }
                    }
                }
            }
        }
    }
}

#[test]
fn verdicts_are_determined_and_track_the_value() {
    for (rows, cols) in FAST {
        let dims = Dims::new(rows, cols);
        for suicide in [Suicide::Forbid, Suicide::RemoveOwn] {
            let table = RuleTable::build(dims, suicide).expect("a small board");
            for rep in [Repetition::Psk, Repetition::Ssk] {
                let mut solver = Solver::new(&table, rep);
                for raw in 0..code_space(dims) {
                    let code = PosCode(raw);
                    for to_move in [Color::Black, Color::White] {
                        let value = solver
                            .solve_root(code, to_move)
                            .value
                            .expect("no budget was set");
                        for floor in floors(dims) {
                            let black = solver
                                .decide_root(code, to_move, floor, Color::Black)
                                .wins
                                .expect("no budget was set");
                            let white = solver
                                .decide_root(code, to_move, floor, Color::White)
                                .wins
                                .expect("no budget was set");
                            assert_ne!(
                                black, white,
                                "{dims:?} {rep:?} {suicide:?} root {code:?} {to_move:?} to move at komi \
                                 floor {floor:?}: both colors or neither has a winning strategy"
                            );
                            assert_eq!(
                                black,
                                i64::from(value) > floor,
                                "{dims:?} {rep:?} {suicide:?} root {code:?} {to_move:?} to move: value \
                                 {value:?} and the verdict at komi floor {floor:?} disagree"
                            );
                        }
                    }
                }
            }
        }
    }
}

#[test]
fn the_value_survives_a_reversed_move_order() {
    const BUDGET: u64 = 2_000_000;
    const COMPARED: u64 = 816;
    let mut differing_counts = 0u64;
    let mut compared = 0u64;
    let mut skipped = 0u64;
    for (rows, cols) in REVERSED {
        let dims = Dims::new(rows, cols);
        for suicide in [Suicide::Forbid, Suicide::RemoveOwn] {
            let table = RuleTable::build(dims, suicide).expect("a small board");
            for rep in [Repetition::Psk, Repetition::Ssk] {
                let mut forward = Solver::new(&table, rep);
                let mut backward = Solver::new(&table, rep)
                    .with_order(MoveOrder::Static)
                    .with_reversed_moves()
                    .with_budget(Some(BUDGET));
                for raw in 0..code_space(dims) {
                    let code = PosCode(raw);
                    for to_move in [Color::Black, Color::White] {
                        let a = forward.solve_root(code, to_move);
                        let b = backward.solve_root(code, to_move);
                        if b.value.is_none() {
                            skipped += 1;
                            continue;
                        }
                        assert_eq!(
                            a.value, b.value,
                            "{dims:?} {rep:?} {suicide:?} root {code:?} {to_move:?} to move: the value \
                             depends on the move order, so a cutoff is unsound"
                        );
                        compared += 1;
                        if a.nodes != b.nodes {
                            differing_counts += 1;
                        }
                    }
                }
            }
        }
    }
    assert!(
        differing_counts > 0,
        "no search changed its node count under the reversed order, so the order \
         agreement was asserted about a case that never arises"
    );
    assert_eq!(
        (compared, skipped),
        (COMPARED, 960 - COMPARED),
        "the two orders were compared at {compared} roots and {skipped} were skipped at a \
         budget of {BUDGET} nodes; this test records {COMPARED} compared"
    );
}

#[test]
fn an_exhausted_budget_reports_no_value() {
    let dims = Dims::new(1, 5);
    let table = RuleTable::build(dims, Suicide::Forbid).expect("a small board");
    let empty = PosCode(0);

    let mut capped = Solver::new(&table, Repetition::Psk).with_budget(Some(100));
    let stopped = capped.solve_root(empty, Color::Black);
    assert_eq!(stopped.value, None);
    assert!(stopped.nodes <= 101);

    let mut free = Solver::new(&table, Repetition::Psk);
    assert!(free.solve_root(empty, Color::Black).value.is_some());
}

#[test]
fn a_line_sweep_agrees_with_the_sweep_of_the_line_turned_on_its_side() {
    const BUDGET: Option<u64> = Some(2_000_000);
    for n in 2..=5 {
        for suicide in [Suicide::Forbid, Suicide::RemoveOwn] {
            if n == 5 && matches!(suicide, Suicide::RemoveOwn) {
                continue;
            }
            let across = lib::separate::sweep(Dims::new(1, n), suicide, BUDGET)
                .expect("a small board");
            let down = lib::separate::sweep(Dims::new(n, 1), suicide, BUDGET)
                .expect("a small board");
            assert_eq!(
                across.unresolved, 0,
                "the 1x{n:?} sweep under {suicide:?} left roots unresolved at the budget"
            );
            let turned = lib::separate::Sweep {
                dims: across.dims,
                ..down
            };
            assert_eq!(
                across, turned,
                "the 1x{n:?} sweep and the {n:?}x1 sweep disagree under {suicide:?}"
            );
        }
    }
}
