use lib::code::PosCode;
use lib::config::{Dims, Repetition, Suicide};
use lib::reference::Color;
use lib::table::RuleTable;
use lib::search::Solver;

const PUBLISHED: [(usize, i32); 8] = [
    (1, 0),
    (2, 0),
    (3, 3),
    (4, 4),
    (5, 0),
    (6, 1),
    (7, 2),
    (8, 3),
];

const BUDGET: u64 = 40_000_000;

const REACHED: usize = 6;

#[test]
fn the_published_linear_scores_reproduce_as_far_as_the_solver_reaches() {
    reproduce(false);
}

fn reproduce(mirrored: bool) -> Vec<u64> {
    let mut checked = 0usize;
    let mut out_of_reach = Vec::new();
    let mut nodes = Vec::new();
    for (n, published) in PUBLISHED {
        let dims = Dims::new(1, n);
        let table = RuleTable::build(dims, Suicide::Forbid).expect("a board of at most 12 points");
        let solver_base = Solver::new(&table, Repetition::Psk).with_budget(Some(BUDGET));
        let mut solver = solver_base;
        let solved = solver.solve_root(PosCode(0), Color::Black);
        match solved.value {
            None => out_of_reach.push(n),
            Some(value) => {
                assert_eq!(
                    value, published,
                    "1x{n:?} under positional superko (mirrored moves {mirrored}): this workspace \
                     computes {value:?}, the \
                     table of test_data/literature/linear-go-scores.toml says {published}. \
                     One of the two is wrong and nothing downstream is worth anything until \
                     which is known."
                );
                checked += 1;
                nodes.push(solved.nodes);
            }
        }
    }
    assert_eq!(
        checked, REACHED,
        "the solver (mirrored moves {mirrored}) reached {checked} of the published rows, not \
         the {REACHED} this test records; {out_of_reach:?} were out of reach at a budget of \
         {BUDGET} nodes"
    );
    nodes
}

