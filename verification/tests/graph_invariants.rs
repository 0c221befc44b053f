use lib::config::{Dims, Repetition, Suicide};
use lib::reference::{
    Color, Move, Position, State, all_moves, area, ended, permits, step,
};

fn archive(st: &State, rep: Repetition) -> usize {
    match rep {
        Repetition::Ssk => st.seen().len(),
        Repetition::Psk => {
            let mut boards: Vec<&Position> = Vec::new();
            for s in st.seen() {
                if !boards.contains(&&s.board) {
                    boards.push(&s.board);
                }
            }
            boards.len()
        }
    }
}

struct Invariants {
    dims: Dims,
    rep: Repetition,
    suicide: Suicide,
    nodes: u64,
    leaves: u64,
}

impl Invariants {
    fn visit(&mut self, st: &State, depth: usize) {
        self.nodes += 1;

        assert!(st.seen().contains(st.now()), "now is not archived");

        let black = area(&st.now().board, Color::Black);
        let white = area(&st.now().board, Color::White);
        assert!(
            black + white <= self.dims.point_count(),
            "the two areas overlap"
        );

        let legal: Vec<Move> = all_moves(self.dims)
            .into_iter()
            .filter(|&mv| permits(st, mv, self.rep, self.suicide))
            .collect();

        if ended(st) {
            self.leaves += 1;
            return;
        }
        assert!(
            legal.contains(&Move::Pass),
            "a state that has not ended refuses the pass"
        );

        if depth == 0 {
            return;
        }

        for mv in legal {
            let next = step(st, mv, self.suicide);
            let grown = archive(&next, self.rep) - archive(st, self.rep);
            match mv {
                Move::Play(_) => assert_eq!(
                    grown, 1,
                    "a legal play grew the archive by {grown}, not by one"
                ),
                Move::Pass => assert!(
                    grown <= 1,
                    "a pass grew the archive by {grown}, not by zero or one"
                ),
            }
            self.visit(&next, depth - 1);
        }
    }
}

fn check(rows: usize, cols: usize, depth: usize) {
    let dims = Dims::new(rows, cols);
    for rep in [Repetition::Ssk, Repetition::Psk] {
        for suicide in [Suicide::Forbid, Suicide::RemoveOwn] {
            let mut walk = Invariants {
                dims,
                rep,
                suicide,
                nodes: 0,
                leaves: 0,
            };
            walk.visit(&State::start(&Position::empty(dims), Color::Black), depth);
            assert!(
                walk.nodes > 1,
                "{rows:?}x{cols:?}/{rep:?}/{suicide:?} visited nothing"
            );
            assert!(
                walk.leaves > 0,
                "{rows:?}x{cols:?}/{rep:?}/{suicide:?} reached no finished game, so \
                 'every leaf is ended' was asserted about nothing"
            );
        }
    }
}

#[test]
fn invariants_hold_on_one_by_three() {
    check(1, 3, 30);
}

#[test]
fn invariants_hold_on_two_by_two() {
    check(2, 2, 8);
}
