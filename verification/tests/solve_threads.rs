use lib::config::{Dims, Suicide};
use lib::table::RuleTable;
use lib::separate::{Options, Sweep, sweep_on_above, sweep_with};

const THREADS: [usize; 3] = [1, 2, 14];

fn same_at_every_thread_count(
    dims: Dims,
    suicide: Suicide,
    budget: Option<u64>,
    min_stones: u32,
) -> Sweep {
    let table = RuleTable::build(dims, suicide).expect("a small board");
    let serial = sweep_on_above(&table, budget, min_stones);
    let body = serial.lines(&table, budget).join("\n");
    for threads in THREADS {
        let opts = Options {
            budget,
            min_stones,
            threads,
            ..Options::default()
        };
        let parallel = sweep_with(&table, opts);
        assert_eq!(
            parallel, serial,
            "{dims:?} {suicide:?} budget {budget:?} min-stones {min_stones}: \
             the sweep at {threads} threads differs from the sweep at one"
        );
        assert_eq!(
            parallel.lines(&table, budget).join("\n"),
            body,
            "{dims:?} {suicide:?} budget {budget:?} min-stones {min_stones}: \
             the body at {threads} threads differs from the body at one"
        );
    }
    serial
}

#[test]
fn an_unbudgeted_sweep_is_the_same_at_every_thread_count() {
    for (rows, cols, roots) in [(1, 1, 6), (1, 3, 54), (2, 2, 162)] {
        for suicide in [Suicide::Forbid, Suicide::RemoveOwn] {
            let sweep = same_at_every_thread_count(Dims::new(rows, cols), suicide, None, 0);
            assert_eq!(sweep.roots, roots);
            assert_eq!(sweep.resolved, roots, "{rows:?}x{cols:?} {suicide:?}");
            assert_eq!(sweep.unresolved, 0);
        }
    }
}

#[test]
fn a_separating_sweep_is_the_same_at_every_thread_count() {
    let sweep = same_at_every_thread_count(Dims::new(1, 2), Suicide::RemoveOwn, None, 0);
    assert_eq!(sweep.separating, 4);
    assert!(sweep.minimal.is_some());
}

#[test]
fn a_budgeted_sweep_is_the_same_at_every_thread_count() {
    let sweep = same_at_every_thread_count(Dims::new(1, 5), Suicide::Forbid, Some(1_000), 0);
    assert_eq!(sweep.roots, 486);
    assert_eq!(sweep.unresolved, 82);
    assert_eq!(sweep.resolved, 404);
    assert!(sweep.unresolved_least.is_some());
    assert!(sweep.unresolved_least_liberties.is_some());
}

#[test]
fn a_floored_sweep_is_the_same_at_every_thread_count() {
    let sweep = same_at_every_thread_count(Dims::new(2, 2), Suicide::Forbid, None, 2);
    assert_eq!(sweep.skipped, 18);
    assert_eq!(sweep.resolved, 144);
}
