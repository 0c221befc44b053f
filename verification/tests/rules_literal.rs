use std::collections::BTreeSet;

use lib::PosCode;
use lib::code::{code_space, decode, render};
use lib::config::{Dims, Point, Suicide};
use lib::reference::{
    Color, Position, adj, area, chain, clear, has_liberty, joined, neighbors, playable_at, reaches,
    resolve, resolve_remove_own, resolve_under,
};

fn adj_literal(p: Point, q: Point) -> bool {
    (p.row == q.row && (p.col + 1 == q.col || q.col + 1 == p.col))
        || (p.col == q.col && (p.row + 1 == q.row || q.row + 1 == p.row))
}

fn joined_literal(b: &Position, p: Point, q: Point) -> bool {
    adj_literal(p, q) && b.get(p) == b.get(q) && b.get(p).is_some()
}

fn chain_literal(b: &Position, p: Point) -> BTreeSet<Point> {
    let all: Vec<Point> = b.dims().points().into_iter().collect();
    let mut set = BTreeSet::new();
    set.insert(p);
    loop {
        let mut grew = false;
        for q in set.iter().copied().collect::<Vec<Point>>() {
            for &r in &all {
                if joined_literal(b, q, r) && set.insert(r) {
                    grew = true;
                }
            }
        }
        if !grew {
            return set;
        }
    }
}

fn has_liberty_literal(b: &Position, p: Point) -> bool {
    let all: Vec<Point> = b.dims().points().into_iter().collect();
    chain_literal(b, p)
        .into_iter()
        .any(|q| all.iter().any(|&r| adj_literal(q, r) && b.get(r).is_none()))
}

fn clear_literal(b: &Position, c: Color) -> Position {
    let cells: Vec<Option<Color>> = b
        .dims()
        .points().into_iter()
        .map(|q| {
            if b.get(q) == Some(c) && !has_liberty_literal(b, q) {
                None
            } else {
                b.get(q)
            }
        })
        .collect();
    Position::from_cells(b.dims(), &cells)
}

fn resolve_literal(b: &Position, c: Color, p: Point) -> Position {
    clear_literal(&b.update(p, Some(c)), c.other())
}

fn resolve_remove_own_literal(b: &Position, c: Color, p: Point) -> Position {
    clear_literal(&clear_literal(&b.update(p, Some(c)), c.other()), c)
}

fn playable_at_literal(b: &Position, c: Color, p: Point) -> bool {
    b.get(p).is_none() && has_liberty_literal(&resolve_literal(b, c, p), p)
}

fn reaches_literal(b: &Position, p: Point, c: Color) -> bool {
    let all: Vec<Point> = b.dims().points().into_iter().collect();
    let mut set = BTreeSet::new();
    set.insert(p);
    loop {
        let mut grew = false;
        for x in set.iter().copied().collect::<Vec<Point>>() {
            if b.get(x).is_some() {
                continue;
            }
            for &y in &all {
                if adj_literal(x, y) && set.insert(y) {
                    grew = true;
                }
            }
        }
        if !grew {
            break;
        }
    }
    set.into_iter().any(|q| b.get(q) == Some(c))
}

fn area_literal(b: &Position, c: Color) -> usize {
    b.dims()
        .points().into_iter()
        .filter(|&p| {
            b.get(p) == Some(c)
                || (b.get(p).is_none()
                    && reaches_literal(b, p, c)
                    && !reaches_literal(b, p, c.other()))
        })
        .count()
}

fn small_boards() -> Vec<Dims> {
    let mut out = Vec::new();
    for rows in 1..=6 {
        for cols in 1..=6 {
            if rows * cols <= 6 {
                out.push(Dims::new(rows, cols));
            }
        }
    }
    out
}

#[test]
fn adj_is_the_literal_relation() {
    for dims in small_boards() {
        for p in dims.points().into_iter() {
            for q in dims.points().into_iter() {
                assert_eq!(adj(p, q), adj_literal(p, q), "adj at {p:?} {q:?} on {dims:?}");
                assert_eq!(adj(p, q), adj(q, p), "adj is symmetric at {p:?} {q:?}");
            }
            assert!(!adj(p, p), "adj is irreflexive at {p:?}");
        }
    }
}

#[test]
fn neighbors_is_the_quantifier() {
    for dims in small_boards() {
        for p in dims.points().into_iter() {
            let listed = neighbors(dims, p);
            let quantified: Vec<Point> = dims.points().into_iter().filter(|&q| adj_literal(p, q)).collect();
            let as_set: BTreeSet<Point> = listed.iter().copied().collect();
            assert_eq!(as_set.len(), listed.len(), "a neighbor is listed twice");
            assert_eq!(
                as_set,
                quantified.into_iter().collect::<BTreeSet<Point>>(),
                "neighbors of {p:?} on {dims:?}"
            );
        }
    }
}

#[test]
fn chains_and_liberties_are_literal() {
    for dims in small_boards() {
        for code in 0..code_space(dims) {
            let b = decode(dims, PosCode(code));
            for p in dims.points().into_iter() {
                for q in dims.points().into_iter() {
                    assert_eq!(
                        joined(&b, p, q),
                        joined_literal(&b, p, q),
                        "joined at {p:?} {q:?} on {}",
                        render(&b)
                    );
                }
                let got: BTreeSet<Point> = chain(&b, p).into_iter().collect();
                assert_eq!(got, chain_literal(&b, p), "chain at {p:?} on {}", render(&b));
                if b.get(p).is_none() {
                    assert_eq!(
                        got,
                        [p].into_iter().collect::<BTreeSet<Point>>(),
                        "the chain at an empty point is the singleton, at {p:?} on {}",
                        render(&b)
                    );
                }
                assert_eq!(
                    has_liberty(&b, p),
                    has_liberty_literal(&b, p),
                    "has_liberty at {p:?} on {}",
                    render(&b)
                );
            }
        }
    }
}

#[test]
fn clear_resolve_and_playable_are_literal() {
    for dims in small_boards() {
        for code in 0..code_space(dims) {
            let b = decode(dims, PosCode(code));
            for c in [Color::Black, Color::White] {
                assert_eq!(
                    clear(&b, c),
                    clear_literal(&b, c),
                    "clear {c:?} on {}",
                    render(&b)
                );
                for p in dims.points().into_iter() {
                    assert_eq!(
                        resolve(&b, c, p),
                        resolve_literal(&b, c, p),
                        "resolve {c:?} at {p:?} on {}",
                        render(&b)
                    );
                    assert_eq!(
                        resolve_remove_own(&b, c, p),
                        resolve_remove_own_literal(&b, c, p),
                        "resolve_remove_own {c:?} at {p:?} on {}",
                        render(&b)
                    );
                    assert_eq!(
                        resolve_under(&b, c, p, Suicide::Forbid),
                        resolve(&b, c, p),
                        "Forbid is Superko.resolve"
                    );
                    assert_eq!(
                        playable_at(&b, c, p, Suicide::Forbid),
                        playable_at_literal(&b, c, p),
                        "playable_at {c:?} at {p:?} on {}",
                        render(&b)
                    );
                    assert_eq!(
                        playable_at(&b, c, p, Suicide::RemoveOwn),
                        b.get(p).is_none(),
                        "RemoveOwn keeps the emptiness conjunct alone, at {p:?} on {}",
                        render(&b)
                    );
                }
            }
        }
    }
}

#[test]
fn reaches_and_area_are_literal() {
    for dims in small_boards() {
        for code in 0..code_space(dims) {
            let b = decode(dims, PosCode(code));
            for c in [Color::Black, Color::White] {
                for p in dims.points().into_iter() {
                    assert_eq!(
                        reaches(&b, p, c),
                        reaches_literal(&b, p, c),
                        "reaches {c:?} from {p:?} on {}",
                        render(&b)
                    );
                }
                assert_eq!(
                    area(&b, c),
                    area_literal(&b, c),
                    "area {c:?} on {}",
                    render(&b)
                );
            }
            assert!(
                area(&b, Color::Black) + area(&b, Color::White) <= dims.point_count(),
                "the two areas do not overlap, on {}",
                render(&b)
            );
        }
    }
}

#[test]
fn reaches_is_reflexive_at_a_stone() {
    let dims = Dims::new(1, 2);
    let b = decode(dims, PosCode(1 + 2 * 3)); // "XO"
    assert_eq!(render(&b), "XO");
    assert!(reaches(&b, Point::new(0, 0), Color::Black));
    assert!(!reaches(&b, Point::new(0, 0), Color::White));
    assert!(reaches(&b, Point::new(0, 1), Color::White));
    assert!(!reaches(&b, Point::new(0, 1), Color::Black));
}
