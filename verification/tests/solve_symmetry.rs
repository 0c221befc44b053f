use lib::code::{PosCode, code_space, decode};
use lib::config::{Dims, Repetition, Suicide};
use lib::reference::Color;
use lib::symmetry::Symmetries;
use lib::table::RuleTable;
use lib::naive;
use lib::search::{Solution, Solver};
use lib::separate::{
    Options, Separating, Sweep, root_outcomes, sweep_with, transported_floor,
    transported_value,
};

const RULES: [Repetition; 2] = [Repetition::Psk, Repetition::Ssk];
const SUICIDES: [Suicide; 2] = [Suicide::Forbid, Suicide::RemoveOwn];

fn place(code: PosCode, to_move: Color) -> usize {
    code.0 as usize * 2 + usize::from(to_move == Color::White)
}

fn root_at(index: usize) -> (PosCode, Color) {
    let code = PosCode(u32::try_from(index / 2).expect("a code fits a u32"));
    let to_move = if index.is_multiple_of(2) {
        Color::Black
    } else {
        Color::White
    };
    (code, to_move)
}

fn images(sym: &Symmetries, index: usize) -> Vec<(usize, bool, usize)> {
    let (code, to_move) = root_at(index);
    let mut out = Vec::new();
    for g in 0..sym.order() {
        if g != 0 {
            out.push((place(sym.code(g, code), to_move), false, g));
        }
        out.push((place(sym.code(g, sym.swap(code)), to_move.other()), true, g));
    }
    out
}

fn floors(dims: Dims) -> std::ops::RangeInclusive<i64> {
    let span = i64::try_from(dims.point_count()).expect("point count fits an i64");
    (-span - 1)..=(span + 1)
}

fn values_are_invariant(dims: Dims, suicide: Suicide, budget: Option<u64>) -> (u64, u64) {
    let table = RuleTable::build(dims, suicide).expect("a small board");
    let sym = Symmetries::new(dims).expect("a small board");
    let count = code_space(dims) as usize * 2;
    let (mut compared, mut skipped) = (0u64, 0u64);
    for rep in RULES {
        let mut solver = Solver::new(&table, rep).with_budget(budget);
        let sols: Vec<Solution> = (0..count)
            .map(|i| {
                let (code, to_move) = root_at(i);
                solver.solve_root(code, to_move)
            })
            .collect();
        for (i, a) in sols.iter().enumerate() {
            for (j, swapped, g) in images(&sym, i) {
                let b = sols[j];
                if g == 0 {
                    assert_eq!(
                        (b.nodes, b.max_depth, b.ssk_only),
                        (a.nodes, a.max_depth, a.ssk_only),
                        "{dims:?} {rep:?} {suicide:?}: root {i:?} and its color swap {j:?} were \
                         searched differently"
                    );
                }
                match (a.value, b.value) {
                    (Some(v), Some(w)) => {
                        assert_eq!(
                            w,
                            transported_value(v, swapped),
                            "{dims:?} {rep:?} {suicide:?}: root {i:?} has value {v} and its image {j:?} \
                             under element {g:?}, swap {swapped}, has {w:?}"
                        );
                        compared += 1;
                    }
                    _ => skipped += 1,
                }
            }
        }
    }
    (compared, skipped)
}

fn verdicts_are_transported(dims: Dims, suicide: Suicide, budget: Option<u64>) -> (u64, u64) {
    let table = RuleTable::build(dims, suicide).expect("a small board");
    let sym = Symmetries::new(dims).expect("a small board");
    let count = code_space(dims) as usize * 2;
    let lo = *floors(dims).start();
    let width = floors(dims).count();
    let slot = |i: usize, k: i64, c: Color| {
        let fi = usize::try_from(k - lo).expect("a floor in range");
        (i * width + fi) * 2 + usize::from(c == Color::White)
    };
    let (mut compared, mut skipped) = (0u64, 0u64);
    for rep in RULES {
        let mut solver = Solver::new(&table, rep).with_budget(budget);
        let mut wins: Vec<Option<bool>> = vec![None; count * width * 2];
        for i in 0..count {
            let (code, to_move) = root_at(i);
            for k in floors(dims) {
                for c in [Color::Black, Color::White] {
                    wins[slot(i, k, c)] = solver.decide_root(code, to_move, k, c).wins;
                }
            }
        }
        for i in 0..count {
            for (j, swapped, g) in images(&sym, i) {
                for k in floors(dims) {
                    let k2 = transported_floor(k, swapped);
                    if !floors(dims).contains(&k2) {
                        continue;
                    }
                    for c in [Color::Black, Color::White] {
                        let c2 = if swapped { c.other() } else { c };
                        match (wins[slot(i, k, c)], wins[slot(j, k2, c2)]) {
                            (Some(a), Some(b)) => {
                                assert_eq!(
                                    a, b,
                                    "{dims:?} {rep:?} {suicide:?}: {c:?} wins root {i:?} at komi floor \
                                     {k:?} is {a}, and {c2:?} wins its image {j:?} under element \
                                     {g:?}, swap {swapped}, at {k2} is {b:?}"
                                );
                                compared += 1;
                            }
                            _ => skipped += 1,
                        }
                    }
                }
            }
        }
    }
    (compared, skipped)
}

const BUDGET: Option<u64> = Some(1_000_000);

#[test]
fn values_are_invariant_on_boards_of_four_points() {
    for (rows, cols, order) in [
        (1, 1, 1u64),
        (1, 2, 2),
        (2, 1, 2),
        (1, 3, 2),
        (3, 1, 2),
        (1, 4, 2),
        (4, 1, 2),
        (2, 2, 8),
    ] {
        let dims = Dims::new(rows, cols);
        let roots = u64::from(code_space(dims)) * 2;
        for suicide in SUICIDES {
            let (compared, skipped) = values_are_invariant(dims, suicide, BUDGET);
            assert_eq!(
                (compared, skipped),
                (roots * (2 * order - 1) * 2, 0),
                "{dims:?} {suicide:?}"
            );
        }
    }
}

#[test]
fn verdicts_are_transported_on_boards_of_four_points() {
    for (rows, cols, pinned) in [
        (1, 1, 96u64),
        (1, 2, 1_368),
        (2, 1, 1_368),
        (1, 3, 5_400),
        (3, 1, 5_400),
        (1, 4, 20_088),
        (4, 1, 20_088),
        (2, 2, 101_736),
    ] {
        let dims = Dims::new(rows, cols);
        for suicide in SUICIDES {
            assert_eq!(
                verdicts_are_transported(dims, suicide, BUDGET),
                (pinned, 0),
                "{dims:?} {suicide:?}"
            );
        }
    }
}

fn as_plain(sweep: &Sweep, plain: &Sweep) -> Sweep {
    let clear = |sep: Option<Separating>| {
        sep.map(|s| Separating {
            transported: false,
            ..s
        })
    };
    Sweep {
        nodes: plain.nodes,
        ssk_only_plays: plain.ssk_only_plays,
        roots_with_ssk_only: plain.roots_with_ssk_only,
        resolved_with_ssk_only: plain.resolved_with_ssk_only,
        symmetry: false,
        searched: plain.searched,
        transported: 0,
        mirrored_moves: false,
        mirrored_skips: 0,
        minimal: clear(sweep.minimal),
        minimal_liberties: clear(sweep.minimal_liberties),
        ..sweep.clone()
    }
}

fn symmetric_sweep_agrees(
    dims: Dims,
    suicide: Suicide,
    budget: Option<u64>,
) -> (u64, u64) {
    let table = RuleTable::build(dims, suicide).expect("a small board");
    let plain_opts = Options {
        budget,
        ..Options::default()
    };
    let plain = sweep_with(&table, plain_opts);
    let sym_opts = Options {
        symmetry: true,
        ..plain_opts
    };
    let on = sweep_with(&table, sym_opts);
    let spread = sweep_with(
        &table,
        Options {
            threads: 14,
            ..sym_opts
        },
    );
    assert_eq!(
        spread, on,
        "{dims:?} {suicide:?}: the symmetric sweep moved with threads"
    );
    assert_eq!(
        spread.lines(&table, budget),
        on.lines(&table, budget),
        "{dims:?} {suicide:?}"
    );
    assert!(on.symmetry && !plain.symmetry);
    assert!(!on.mirrored_moves && on.mirrored_skips == 0);
    assert!(!plain.mirrored_moves && plain.mirrored_skips == 0);
    assert!(
        on.transported > 0,
        "{dims:?} {suicide:?}: nothing was transported"
    );
    assert_eq!(on.searched + on.transported + on.skipped, on.roots);
    assert_eq!(plain.searched + plain.skipped, plain.roots);
    assert!(on.nodes <= plain.nodes || budget.is_some());

    if plain.unresolved == 0 && on.unresolved == 0 {
        assert_eq!(as_plain(&on, &plain), plain, "{dims:?} {suicide:?}");
    } else {
        assert!(
            budget.is_some(),
            "{dims:?} {suicide:?}: an unbudgeted sweep left a root unresolved"
        );
    }

    let a = root_outcomes(&table, plain_opts);
    let b = root_outcomes(&table, sym_opts);

    let sym = Symmetries::new(dims).expect("a small board");
    for (i, y) in b.iter().enumerate() {
        let earlier = images(&sym, i).iter().any(|&(j, _, _)| j < i);
        assert_eq!(
            y.transported, earlier,
            "{dims:?} {suicide:?}: root {i:?} is transported {} but has an earlier image {earlier}",
            y.transported
        );
    }

    let mut carried = 0u64;
    for (i, y) in b.iter().enumerate().filter(|(_, y)| y.transported) {
        let routes = images(&sym, i);
        let j = routes
            .iter()
            .map(|&(j, _, _)| j)
            .min()
            .expect("a transported root has an image");
        let x = &b[j];
        assert!(
            !x.transported,
            "{dims:?} {suicide:?}: root {i:?}'s least image {j:?} was itself transported"
        );
        for (rep, from, to) in [("psk", x.psk, y.psk), ("ssk", x.ssk, y.ssk)] {
            let (Some(from), Some(to)) = (from, to) else {
                assert!(
                    from.is_none() && to.is_none(),
                    "{dims:?} {suicide:?} {rep:?}: root {i:?} and its representative {j:?} \
                     disagree on being skipped"
                );
                continue;
            };
            assert_eq!(
                (to.nodes, to.max_depth, to.ssk_only, to.value.is_some()),
                (
                    from.nodes,
                    from.max_depth,
                    from.ssk_only,
                    from.value.is_some()
                ),
                "{dims:?} {suicide:?} {rep:?}: root {i:?} did not carry its representative {j:?}'s search"
            );
            if let (Some(v), Some(w)) = (from.value, to.value) {
                assert!(
                    routes
                        .iter()
                        .any(|&(k, swapped, _)| k == j && w == transported_value(v, swapped)),
                    "{dims:?} {suicide:?} {rep:?}: root {i:?} has {w:?}, not a transport of \
                     {j:?}'s {v}"
                );
            }
            if rep == "ssk" && to.ssk_only > 0 {
                carried += 1;
            }
        }
    }

    let ssk: Vec<Solution> = b.iter().filter_map(|o| o.ssk).collect();
    let resolved_with = b
        .iter()
        .filter(|o| {
            matches!((o.psk, o.ssk), (Some(p), Some(q)) if p.value.is_some() && q.value.is_some() && q.ssk_only > 0)
        })
        .count();
    assert_eq!(
        on.ssk_only_plays,
        ssk.iter().map(|s| s.ssk_only).sum::<u64>(),
        "{dims:?} {suicide:?}"
    );
    assert_eq!(
        on.roots_with_ssk_only,
        u64::try_from(ssk.iter().filter(|s| s.ssk_only > 0).count()).unwrap(),
        "{dims:?} {suicide:?}"
    );
    assert_eq!(
        on.resolved_with_ssk_only,
        u64::try_from(resolved_with).unwrap(),
        "{dims:?} {suicide:?}"
    );
    let mut compared = 0u64;
    for (x, y) in a.iter().zip(&b) {
        assert_eq!((x.code, x.to_move), (y.code, y.to_move));
        assert!(!x.transported);
        let (Some(xp), Some(xs), Some(yp), Some(ys)) = (x.psk, x.ssk, y.psk, y.ssk) else {
            continue;
        };
        if let (Some(v), Some(w)) = (xp.value, yp.value) {
            assert_eq!(v, w, "{dims:?} {suicide:?} psk at {:?}", (x.code, x.to_move));
        }
        if let (Some(v), Some(w)) = (xs.value, ys.value) {
            assert_eq!(v, w, "{dims:?} {suicide:?} ssk at {:?}", (x.code, x.to_move));
        }
        if xp.value.is_some() && xs.value.is_some() && yp.value.is_some() && ys.value.is_some() {
            compared += 1;
        }
    }
    assert_eq!(
        u64::try_from(b.iter().filter(|o| o.transported).count()).unwrap(),
        on.transported
    );
    (compared, carried)
}

#[test]
fn a_symmetric_sweep_agrees_with_the_plain_sweep() {
    assert_eq!(sweeps_of_five_points_agree(), CARRIED_SSK_ONLY);
}

fn sweeps_of_five_points_agree() -> u64 {
    let mut carried = 0u64;
    for (rows, cols) in [
        (1, 1),
        (1, 2),
        (2, 1),
        (1, 3),
        (3, 1),
        (1, 4),
        (4, 1),
        (2, 2),
        (1, 5),
        (5, 1),
    ] {
        let dims = Dims::new(rows, cols);
        for suicide in SUICIDES {
            if rows * cols == 5 && suicide == Suicide::RemoveOwn {
                continue;
            }
            let roots = u64::from(code_space(dims)) * 2;
            let (compared, copied) = symmetric_sweep_agrees(dims, suicide, None);
            assert_eq!(compared, roots, "{dims:?} {suicide:?}");
            carried += copied;
        }
    }
    carried
}

const CARRIED_SSK_ONLY: u64 = 947;

#[test]
fn a_symmetric_sweep_searches_one_root_of_each_orbit() {
    let table = RuleTable::build(Dims::new(1, 3), Suicide::Forbid).expect("a small board");
    let on = sweep_with(
        &table,
        Options {
            symmetry: true,
            ..Options::default()
        },
    );
    assert_eq!((on.searched, on.transported), (18, 36));
}

#[test]
fn a_symmetric_sweep_with_a_stone_floor_agrees_with_the_plain_sweep() {
    for (rows, cols) in [(1, 4), (2, 2)] {
        let dims = Dims::new(rows, cols);
        for suicide in SUICIDES {
            let table = RuleTable::build(dims, suicide).expect("a small board");
            let plain_opts = Options {
                min_stones: 2,
                ..Options::default()
            };
            let plain = sweep_with(&table, plain_opts);
            let on = sweep_with(
                &table,
                Options {
                    symmetry: true,
                    ..plain_opts
                },
            );
            assert!(
                plain.skipped > 0,
                "{dims:?} {suicide:?}: the floor skipped nothing"
            );
            assert_eq!(plain.unresolved, 0, "{dims:?} {suicide:?}");
            assert_eq!(on.searched + on.transported + on.skipped, on.roots);
            assert!(on.transported > 0, "{dims:?} {suicide:?}");
            assert_eq!(as_plain(&on, &plain), plain, "{dims:?} {suicide:?}");
        }
    }
}

fn symmetric_sweep_agrees_with_naive(boards: &[(usize, usize)]) -> (u64, u64) {
    let mut transported = 0u64;
    let mut roots = 0u64;
    for &(rows, cols) in boards {
        let dims = Dims::new(rows, cols);
        for suicide in SUICIDES {
            let table = RuleTable::build(dims, suicide).expect("a small board");
            let opts = Options {
                symmetry: true,
                ..Options::default()
            };
            for outcome in root_outcomes(&table, opts) {
                let board = decode(dims, outcome.code);
                for (rep, sol) in [
                    (Repetition::Psk, outcome.psk),
                    (Repetition::Ssk, outcome.ssk),
                ] {
                    let fast = sol.and_then(|s| s.value).expect("no budget, no floor");
                    let slow = naive::value_from(&board, outcome.to_move, rep, suicide);
                    assert_eq!(
                        fast, slow,
                        "{dims:?} {rep:?} {suicide:?} root {:?} {:?} to move (transported {}): \
                         sweep {fast} naive {slow}",
                        outcome.code, outcome.to_move, outcome.transported
                    );
                }
                roots += 1;
                transported += u64::from(outcome.transported);
            }
        }
    }
    (roots, transported)
}

#[test]
fn a_symmetric_sweep_agrees_with_the_naive_engine_on_two_points() {
    assert_eq!(
        symmetric_sweep_agrees_with_naive(&[(1, 1), (1, 2), (2, 1)]),
        (84, NAIVE_TWO_TRANSPORTED)
    );
}

const NAIVE_TWO_TRANSPORTED: u64 = 54;

