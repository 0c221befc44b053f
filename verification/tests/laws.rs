use lib::census::is_legal;
use lib::code::{code_space, decode, parse, render, PosCode};
use lib::config::{Dims, Repetition, Suicide};
use lib::reference::{playable_at, resolve_under, Color};
use lib::search::Solver;
use lib::separate::sweep_on_above;
use lib::symmetry::Symmetries;
use lib::table::RuleTable;

#[test]
fn a_rendering_with_each_row_on_its_own_line_parses_back() {
    let dims = Dims::new(2, 3);
    for raw in 0..code_space(dims) {
        let b = decode(dims, PosCode(raw));
        let lines = render(&b).replace('/', "\n");
        assert_eq!(parse(dims, &lines), Ok(b));
    }
}

#[test]
fn verdicts_agree_with_values_at_every_floor() {
    let dims = Dims::new(1, 3);
    let table = RuleTable::build(dims, Suicide::Forbid).expect("a small board");
    for rep in [Repetition::Psk, Repetition::Ssk] {
        for raw in 0..code_space(dims) {
            for to_move in [Color::Black, Color::White] {
                let value = Solver::new(&table, rep)
                    .solve_root(PosCode(raw), to_move)
                    .value
                    .expect("no budget");
                for floor in -4i64..=4 {
                    let black = Solver::new(&table, rep)
                        .decide_root(PosCode(raw), to_move, floor, Color::Black)
                        .wins
                        .expect("no budget");
                    let white = Solver::new(&table, rep)
                        .decide_root(PosCode(raw), to_move, floor, Color::White)
                        .wins
                        .expect("no budget");
                    assert_eq!(black, i64::from(value) > floor);
                    assert_eq!(white, i64::from(value) <= floor);
                }
            }
        }
    }
}

#[test]
fn symmetries_act_on_codes_as_a_group() {
    let dims = Dims::new(2, 2);
    let sym = Symmetries::new(dims).expect("a small board");
    assert_eq!(sym.order(), 8);
    for raw in 0..code_space(dims) {
        let code = PosCode(raw);
        assert_eq!(sym.code(0, code), code);
        assert_eq!(sym.swap(sym.swap(code)), code);
        for a in 0..sym.order() {
            assert_eq!(sym.swap(sym.code(a, code)), sym.code(a, sym.swap(code)));
            assert_eq!(sym.code(sym.inverse(a), sym.code(a, code)), code);
            for b in 0..sym.order() {
                assert_eq!(sym.code(sym.compose(a, b), code), sym.code(a, sym.code(b, code)));
            }
        }
    }
}

#[test]
fn a_sweep_accounts_for_each_root_once() {
    let table = RuleTable::build(Dims::new(2, 2), Suicide::Forbid).expect("a small board");
    for (budget, min_stones) in [(Some(50), 0), (None, 2)] {
        let w = sweep_on_above(&table, budget, min_stones);
        assert_eq!(w.roots, 162);
        assert_eq!(w.resolved + w.unresolved + w.skipped, w.roots);
        assert_eq!(w.searched + w.transported + w.skipped, w.roots);
        assert!(w.separating_liberties <= w.separating && w.separating <= w.resolved);
        assert!(w.resolved_with_ssk_only <= w.roots_with_ssk_only);
        assert!(w.resolved_with_ssk_only <= w.resolved);
    }
}

#[test]
fn a_playable_stone_on_a_legal_position_leaves_a_legal_one() {
    for (rows, cols) in [(1usize, 4usize), (2, 2), (2, 3)] {
        let dims = Dims::new(rows, cols);
        for suicide in [Suicide::Forbid, Suicide::RemoveOwn] {
            for raw in 0..code_space(dims) {
                let b = decode(dims, PosCode(raw));
                if !is_legal(&b) {
                    continue;
                }
                for p in dims.points() {
                    for c in [Color::Black, Color::White] {
                        if playable_at(&b, c, p, suicide) {
                            assert!(is_legal(&resolve_under(&b, c, p, suicide)), "{raw} {p:?} {c:?}");
                        }
                    }
                }
            }
        }
    }
}
