use lib::code::{parse, ParseError, PosCode};
use lib::config::{Dims, Point, Repetition, RuleConfig, Suicide};
use lib::reference::{Move, Rat, Refusal};
use lib::separate::Separating;
use lib::reference::Color;

#[test]
fn the_spellings_of_boards_points_and_moves() {
    assert_eq!(Dims::new(2, 3).to_string(), "2x3");
    assert_eq!(Point::new(1, 0).to_string(), "(1,0)");
    assert_eq!(Move::Pass.to_string(), "pass");
    assert_eq!(Move::Play(Point::new(0, 2)).to_string(), "play (0,2)");
    assert_eq!(PosCode(17).to_string(), "17");
    assert_eq!(Refusal::Occupied.name(), "occupied");
    assert_eq!(Refusal::Suicide.name(), "suicide");
    assert_eq!(Refusal::Repetition.name(), "repetition");
}

#[test]
fn a_rational_is_spelled_in_lowest_terms() {
    assert_eq!(Rat::from_int(7).to_string(), "7");
    assert_eq!(Rat::new(-13, 2).to_string(), "-13/2");
    assert_eq!(Rat::new(6, 4).to_string(), "3/2");
    assert_eq!(Rat::zero().to_string(), "0");
}

#[test]
fn a_configuration_is_spelled_in_full() {
    let c = RuleConfig::new(Dims::new(1, 5))
        .with_repetition(Repetition::Psk)
        .with_suicide(Suicide::RemoveOwn)
        .with_komi(Rat::new(1, 2));
    assert_eq!(c.to_string(), "board 1x5 rule psk suicide remove-own komi 1/2");
}

#[test]
fn parse_refusals_are_spelled() {
    let d = Dims::new(2, 2);
    assert_eq!(
        parse(d, "..").unwrap_err().to_string(),
        "expected 2 rows, found 1"
    );
    assert_eq!(
        parse(d, "../...").unwrap_err().to_string(),
        "row 1: expected 2 columns, found 3"
    );
    let e = parse(d, "../.Z").unwrap_err();
    assert_eq!(e, ParseError::BadChar { row: 1, col: 1, found: 'Z' });
    assert_eq!(e.to_string(), "row 1 column 1: 'Z' is not one of . X O");
    let quote = ParseError::BadChar { row: 0, col: 0, found: '\'' };
    assert_eq!(quote.to_string(), "row 0 column 0: '\\'' is not one of . X O");
    let bell = ParseError::BadChar { row: 0, col: 1, found: '\u{7}' };
    assert_eq!(bell.to_string(), "row 0 column 1: '\\u{7}' is not one of . X O");
}

#[test]
fn a_separating_root_is_spelled() {
    let s = Separating {
        code: PosCode(5),
        to_move: Color::White,
        psk: -1,
        ssk: 3,
        stones: 2,
        liberties: true,
        transported: false,
    };
    assert_eq!(s.to_string(), "code 5 white to move: psk -1 ssk 3");
}
