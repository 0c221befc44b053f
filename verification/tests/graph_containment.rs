use lib::code::render;
use lib::config::{Dims, Point, Repetition, Suicide};
use lib::reference::{
    Color, Move, Position, State, all_moves, ended, permits, psk, ssk, step,
};

#[derive(Default, Clone, Copy, Debug)]
struct Tally {
    ssk_only: u64,
    moves: u64,
}

fn walk(dims: Dims, suicide: Suicide, st: &State, depth: usize, tally: &mut Tally) {
    for mv in all_moves(dims) {
        let by_psk = psk(st, mv, suicide);
        let by_ssk = ssk(st, mv, suicide);
        assert!(
            !by_psk || by_ssk,
            "psk permits a move ssk refuses: {mv:?} at depth {depth}"
        );
        tally.moves += 1;
        if by_ssk && !by_psk {
            tally.ssk_only += 1;
        }
    }

    if ended(st) || depth == 0 {
        return;
    }

    for mv in all_moves(dims) {
        if !permits(st, mv, Repetition::Ssk, suicide) {
            continue;
        }
        let next = step(st, mv, suicide);
        walk(dims, suicide, &next, depth - 1, tally);
    }
}

fn tally_of(rows: usize, cols: usize, suicide: Suicide, depth: usize) -> Tally {
    let dims = Dims::new(rows, cols);
    let start = State::start(&Position::empty(dims), Color::Black);
    let mut tally = Tally::default();
    walk(dims, suicide, &start, depth, &mut tally);
    assert!(tally.moves > 0);
    tally
}

#[test]
fn psk_legal_implies_ssk_legal() {
    let mut differing = 0u64;
    for suicide in [Suicide::Forbid, Suicide::RemoveOwn] {
        for cols in 1..=3 {
            differing += tally_of(1, cols, suicide, 12).ssk_only;
        }
        differing += tally_of(2, 2, suicide, 6).ssk_only;
    }
    assert!(
        differing > 0,
        "no move on any board tested separated the two rules, so the containment \
         was asserted about a case that never arises"
    );
}

fn play_out(dims: Dims, suicide: Suicide, moves: &[Move]) -> State {
    let mut st = State::start(&Position::empty(dims), Color::Black);
    for &mv in moves {
        assert!(
            permits(&st, mv, Repetition::Ssk, suicide),
            "{mv:?} is not legal under ssk in this line"
        );
        st = step(&st, mv, suicide);
    }
    st
}

fn pt(row: usize, col: usize) -> Point {
    Point::new(row, col)
}

#[test]
fn the_rules_differ_on_one_by_three() {
    let dims = Dims::new(1, 3);
    let suicide = Suicide::Forbid;
    let st = play_out(
        dims,
        suicide,
        &[
            Move::Pass,
            Move::Play(pt(0, 0)),
            Move::Play(pt(0, 2)),
            Move::Play(pt(0, 1)),
            Move::Play(pt(0, 2)),
        ],
    );
    assert_eq!(render(&st.now().board), "..X");
    assert_eq!(st.now().to_move, Color::White);

    let retake = Move::Play(pt(0, 0));
    assert!(ssk(&st, retake, suicide), "ssk refuses the retake");
    assert!(!psk(&st, retake, suicide), "psk permits the retake");
}

#[test]
fn the_rules_differ_on_one_by_one_under_remove_own() {
    let dims = Dims::new(1, 1);
    let suicide = Suicide::RemoveOwn;
    let st = play_out(dims, suicide, &[]);
    let play = Move::Play(pt(0, 0));
    assert!(ssk(&st, play, suicide));
    assert!(!psk(&st, play, suicide));
}
