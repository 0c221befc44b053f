use lib::code::parse;
use lib::config::{Dims, Point, Repetition, Suicide};
use lib::reference::{
    Color, Move, Position, Rat, State, chain, clear, ended, has_liberty, legality, margin, permits,
    psk, resolve, resolve_remove_own, ssk, step, winner, winner_z,
};
use lib::reference::{Refusal, Situation};

fn board(rows: usize, cols: usize, text: &str) -> Position {
    parse(Dims::new(rows, cols), text).expect("fixture parses")
}

fn pt(row: usize, col: usize) -> Point {
    Point::new(row, col)
}

#[test]
fn two_neighbors_of_the_played_point_in_one_dying_chain() {
    let b = board(3, 3, "OOX/O../X..");
    assert_eq!(
        chain(&b, pt(0, 0)).len(),
        3,
        "the three white stones are one chain"
    );
    let after = resolve(&b, Color::Black, pt(1, 1));
    assert_eq!(after.get(pt(0, 0)), None);
    assert_eq!(after.get(pt(0, 1)), None);
    assert_eq!(after.get(pt(1, 0)), None);
    assert_eq!(after.get(pt(1, 1)), Some(Color::Black));
    assert_eq!(after.stone_count(Color::White), 0);
}

#[test]
fn two_chains_die_at_once() {
    let b = board(3, 3, "XOX/O../X..");
    assert!(
        !chain(&b, pt(0, 1)).contains(&pt(1, 0)),
        "the two white stones are separate chains"
    );
    let after = resolve(&b, Color::Black, pt(1, 1));
    assert_eq!(after.get(pt(0, 1)), None);
    assert_eq!(after.get(pt(1, 0)), None);
    assert_eq!(after.stone_count(Color::White), 0);
}

#[test]
fn clear_is_order_independent() {
    for (rows, cols) in [(2usize, 2usize), (2, 3), (1, 4)] {
        let dims = Dims::new(rows, cols);
        let row_major: Vec<Point> = dims.points().into_iter().collect();
        let reversed: Vec<Point> = {
            let mut v = row_major.clone();
            v.reverse();
            v
        };
        let column_major: Vec<Point> = (0..cols)
            .flat_map(|col| (0..rows).map(move |row| pt(row, col)))
            .collect();
        for code in 0..lib::code::code_space(dims) {
            let b = lib::code::decode(dims, lib::PosCode(code));
            for c in [Color::Black, Color::White] {
                let want = clear(&b, c);
                for order in [&row_major, &reversed, &column_major] {
                    assert_eq!(
                        want,
                        clear_in_order(&b, c, order),
                        "clearing {c:?} on {}",
                        lib::code::render(&b)
                    );
                }
            }
        }
    }
}

#[test]
fn clear_reads_the_original_board() {
    let b = board(2, 2, "XX/XX");
    let swept = clear(&b, Color::Black);
    assert_eq!(swept.stone_count(Color::Black), 0, "every stone comes off");

    let in_place = clear_in_place(&b, Color::Black);
    assert_eq!(in_place.stone_count(Color::Black), 3);
    assert_ne!(swept, in_place);
}

fn clear_in_place(b: &Position, c: Color) -> Position {
    let mut out = b.clone();
    for q in b.dims().points().into_iter() {
        if out.get(q) == Some(c) && !has_liberty(&out, q) {
            out.set(q, None);
        }
    }
    out
}

fn clear_in_order(b: &Position, c: Color, order: &[Point]) -> Position {
    let mut out = b.clone();
    for &q in order {
        if b.get(q) == Some(c) && !has_liberty(b, q) {
            out.set(q, None);
        }
    }
    out
}

#[test]
fn single_stone_suicide_on_one_by_one() {
    let dims = Dims::new(1, 1);
    let empty = Position::empty(dims);
    let st = State::start(&empty, Color::Black);
    let mv = Move::Play(pt(0, 0));

    let after = resolve_remove_own(&empty, Color::Black, pt(0, 0));
    assert_eq!(after, empty, "the stone comes straight back off");

    assert!(ssk(&st, mv, Suicide::RemoveOwn), "legal under SSK");
    assert!(!psk(&st, mv, Suicide::RemoveOwn), "a repetition under PSK");
    assert_eq!(
        legality(&st, mv, Repetition::Psk, Suicide::RemoveOwn),
        Err(Refusal::Repetition)
    );

    assert!(
        !ssk(&st, mv, Suicide::Forbid),
        "when suicide is forbidden, the play is suicide and never reaches the archive"
    );
    assert_eq!(
        legality(&st, mv, Repetition::Ssk, Suicide::Forbid),
        Err(Refusal::Suicide)
    );
}

#[test]
fn pass_is_legal_though_its_situation_is_archived() {
    let dims = Dims::new(2, 2);
    let st0 = State::start(&Position::empty(dims), Color::Black);
    let st1 = step(&st0, Move::Pass, Suicide::Forbid);
    let back: Situation = st1.now().clone();
    assert!(st1.seen().contains(&back));

    let st2 = step(&st1, Move::Pass, Suicide::Forbid);
    assert!(
        st1.seen().contains(st2.now()),
        "the pass re-entered a seen situation"
    );
    for rep in [Repetition::Ssk, Repetition::Psk] {
        assert!(permits(&st1, Move::Pass, rep, Suicide::Forbid));
        assert!(legality(&st1, Move::Pass, rep, Suicide::Forbid).is_ok());
    }
    assert!(ended(&st2));
}

#[test]
fn step_does_not_saturate_passes() {
    let dims = Dims::new(2, 2);
    let mut st = State::start(&Position::empty(dims), Color::Black);
    for expected in 1..=5u32 {
        st = step(&st, Move::Pass, Suicide::Forbid);
        assert_eq!(st.passes(), expected);
    }
    assert!(ended(&st));

    let played = step(&st, Move::Play(pt(0, 0)), Suicide::Forbid);
    assert_eq!(played.passes(), 0, "a play resets the counter");
}

#[test]
fn step_archives_on_every_move() {
    let dims = Dims::new(2, 2);
    let st0 = State::start(&Position::empty(dims), Color::Black);
    assert!(st0.seen().contains(st0.now()), "the root is seeded");
    for mv in [Move::Pass, Move::Play(pt(0, 0))] {
        let st = step(&st0, mv, Suicide::Forbid);
        assert!(st.seen().contains(st.now()));
        assert_eq!(st.seen().len(), 2);
    }
}

#[test]
fn winner_is_exact_over_rational_komi() {
    let lone = board(2, 2, "X./..");
    let split = board(2, 2, "X./.O");

    assert_eq!(margin(&lone, Rat::from_int(4)), Rat::zero());
    assert_eq!(
        winner(&lone, Rat::from_int(4)),
        Color::White,
        "a tie goes to White"
    );
    assert_eq!(winner(&lone, Rat::new(7, 2)), Color::Black);
    assert_eq!(winner(&lone, Rat::new(9, 2)), Color::White);
    assert_eq!(winner(&lone, Rat::from_int(3)), Color::Black);

    assert_eq!(margin(&split, Rat::zero()), Rat::zero());
    assert_eq!(
        winner(&split, Rat::zero()),
        Color::White,
        "a tie goes to White"
    );
    assert_eq!(winner(&split, Rat::new(-1, 2)), Color::Black);

    for komi in [
        Rat::zero(),
        Rat::from_int(3),
        Rat::from_int(4),
        Rat::new(7, 2),
        Rat::new(9, 2),
        Rat::new(-1, 2),
        Rat::new(-7, 3),
    ] {
        for b in [&lone, &split] {
            assert_eq!(
                winner_z(b, komi.floor()),
                winner(b, komi),
                "at komi {komi:?} on {}",
                lib::code::render(b)
            );
        }
    }
}

#[test]
fn a_position_is_not_equal_to_one_of_another_board() {
    let wide = Position::empty(Dims::new(1, 4));
    let square = Position::empty(Dims::new(2, 2));
    assert_eq!(wide.cells(), square.cells(), "the cells are the same");
    assert_ne!(wide, square, "the boards are not");
    assert_ne!(
        Situation {
            board: wide.clone(),
            to_move: Color::Black,
        },
        Situation {
            board: square.clone(),
            to_move: Color::Black,
        }
    );

    let stones = board(1, 4, "XX..");
    let folded = board(2, 2, "XX/..");
    assert_eq!(stones.cells(), folded.cells());
    assert_eq!(chain(&stones, pt(0, 0)).len(), 2);
    assert_eq!(chain(&folded, pt(0, 0)).len(), 2);
    assert_ne!(stones, folded);
}
