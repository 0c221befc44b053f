use lib::code::{PosCode, code_space, decode};
use lib::config::{Dims, Suicide};
use lib::reference::{Color, Position, has_liberty};
use lib::symmetry::Symmetries;
use lib::table::RuleTable;

fn boards_to_six() -> Vec<Dims> {
    let mut out = Vec::new();
    for rows in 1..=6 {
        for cols in 1..=6 {
            if rows * cols <= 6 {
                out.push(Dims::new(rows, cols));
            }
        }
    }
    out
}

fn liberties(b: &Position) -> bool {
    b.dims()
        .points().into_iter()
        .all(|p| b.get(p).is_none() || has_liberty(b, p))
}

#[test]
fn the_group_has_the_order_of_its_board() {
    for (rows, cols, order) in [
        (1, 1, 1),
        (1, 4, 2),
        (4, 1, 2),
        (2, 3, 4),
        (3, 2, 4),
        (2, 2, 8),
        (3, 3, 8),
        (1, 6, 2),
        (6, 1, 2),
    ] {
        let dims = Dims::new(rows, cols);
        let sym = Symmetries::new(dims).expect("a small board");
        assert_eq!(sym.order(), order, "{dims:?}");
        assert_eq!(sym.transform(0).name(), "identity", "{dims:?}");
        for g in 0..sym.order() {
            let t = sym.transform(g);
            assert!(
                !t.transpose || rows == cols,
                "{dims:?}: {} transposes a board that is not square",
                t.name()
            );
            for p in dims.points().into_iter() {
                assert_eq!(sym.point(g, p), t.apply(dims, p), "{dims:?} {}", t.name());
            }
        }
    }
}

#[test]
fn a_board_past_the_table_budget_is_refused() {
    assert!(Symmetries::new(Dims::new(4, 4)).is_err());
}

#[test]
fn the_elements_are_distinct_permutations_of_the_points() {
    for dims in boards_to_six().into_iter().chain([Dims::new(3, 3)]) {
        let sym = Symmetries::new(dims).expect("a small board");
        let maps: Vec<Vec<usize>> = (0..sym.order())
            .map(|g| dims.points().into_iter().map(|p| dims.index(sym.point(g, p))).collect())
            .collect();
        for (g, map) in maps.iter().enumerate() {
            let mut sorted = map.clone();
            sorted.sort_unstable();
            assert_eq!(
                sorted,
                (0..dims.point_count()).collect::<Vec<_>>(),
                "{dims:?} element {g:?}"
            );
            for (h, other) in maps.iter().enumerate().skip(g + 1) {
                assert_ne!(map, other, "{dims:?}: elements {g:?} and {h:?} are one map");
            }
        }
    }
}

#[test]
fn the_flat_tables_agree_with_the_accessors() {
    for dims in boards_to_six().into_iter().chain([Dims::new(3, 3)]) {
        let sym = Symmetries::new(dims).expect("a small board");
        let codes = code_space(dims) as usize;
        let points = dims.point_count();
        assert_eq!(sym.code_count(), codes, "{dims:?}");
        assert_eq!(sym.code_table().len(), sym.order() * codes, "{dims:?}");
        assert_eq!(sym.point_table().len(), sym.order() * points, "{dims:?}");
        for raw in 0..code_space(dims) {
            let code = PosCode(raw);
            for g in 0..sym.order() {
                assert_eq!(
                    sym.code_table()[g * codes + raw as usize],
                    sym.code(g, code).0,
                    "{dims:?} element {g:?} code {code:?}"
                );
            }
        }
        for g in 0..sym.order() {
            for p in dims.points().into_iter() {
                assert_eq!(
                    sym.point_table()[g * points + dims.index(p)],
                    dims.index(sym.point(g, p)),
                    "{dims:?} element {g:?}"
                );
            }
        }
    }
}

#[test]
fn the_code_maps_are_bijections_that_move_stones_and_keep_legality() {
    for dims in boards_to_six().into_iter().chain([Dims::new(3, 3)]) {
        let sym = Symmetries::new(dims).expect("a small board");
        let codes = code_space(dims) as usize;
        for g in 0..sym.order() {
            let mut hit = vec![false; codes];
            for raw in 0..code_space(dims) {
                let code = PosCode(raw);
                let image = sym.code(g, code);
                assert!(
                    !std::mem::replace(&mut hit[image.0 as usize], true),
                    "{dims:?} element {g:?}: two codes map to {image:?}"
                );
                let b = decode(dims, code);
                let sb = decode(dims, image);
                for p in dims.points().into_iter() {
                    assert_eq!(sb.get(sym.point(g, p)), b.get(p), "{dims:?} element {g:?}");
                }
                for c in [Color::Black, Color::White] {
                    assert_eq!(sb.stone_count(c), b.stone_count(c));
                }
                assert_eq!(liberties(&sb), liberties(&b), "{dims:?} element {g:?}");
            }
        }
        let mut hit = vec![false; codes];
        for raw in 0..code_space(dims) {
            let code = PosCode(raw);
            let image = sym.swap(code);
            assert!(
                !std::mem::replace(&mut hit[image.0 as usize], true),
                "{dims:?} swap: two codes map to {image:?}"
            );
            let b = decode(dims, code);
            let sb = decode(dims, image);
            for p in dims.points().into_iter() {
                assert_eq!(sb.get(p), b.get(p).map(Color::other), "{dims:?} swap");
            }
            assert_eq!(sb.stone_count(Color::Black), b.stone_count(Color::White));
            assert_eq!(sb.stone_count(Color::White), b.stone_count(Color::Black));
            assert_eq!(liberties(&sb), liberties(&b), "{dims:?} swap");
        }
    }
}

#[test]
fn the_maps_form_a_group_and_the_swap_commutes_with_it() {
    for dims in boards_to_six().into_iter().chain([Dims::new(3, 3)]) {
        let sym = Symmetries::new(dims).expect("a small board");
        let order = sym.order();
        for raw in 0..code_space(dims) {
            let code = PosCode(raw);
            assert_eq!(
                sym.code(0, code),
                code,
                "{dims:?}: element 0 is not the identity"
            );
            assert_eq!(
                sym.swap(sym.swap(code)),
                code,
                "{dims:?}: swap is not an involution"
            );
            for a in 0..order {
                let inv = sym.inverse(a);
                assert_eq!(sym.code(inv, sym.code(a, code)), code, "{dims:?} {a}");
                assert_eq!(sym.code(a, sym.code(inv, code)), code, "{dims:?} {a}");
                assert_eq!(
                    sym.code(a, sym.swap(code)),
                    sym.swap(sym.code(a, code)),
                    "{dims:?}: element {a} does not commute with the swap"
                );
                for b in 0..order {
                    let ab = sym.compose(a, b);
                    assert!(ab < order);
                    assert_eq!(
                        sym.code(ab, code),
                        sym.code(a, sym.code(b, code)),
                        "{dims:?}: compose({a}, {b:?}) is not b then a"
                    );
                }
            }
        }
        for a in 0..order {
            assert_eq!(sym.compose(a, sym.inverse(a)), 0, "{dims:?} {a}");
            assert_eq!(sym.compose(sym.inverse(a), a), 0, "{dims:?} {a}");
            for p in dims.points().into_iter() {
                for b in 0..order {
                    assert_eq!(
                        sym.point(sym.compose(a, b), p),
                        sym.point(a, sym.point(b, p)),
                        "{dims:?}"
                    );
                }
            }
        }
    }
}

fn table_commutes(dims: Dims, suicide: Suicide) -> u64 {
    let table = RuleTable::build(dims, suicide).expect("a board within the table budget");
    let sym = Symmetries::new(dims).expect("a board within the table budget");
    let mut checks = 0u64;
    for raw in 0..code_space(dims) {
        let code = PosCode(raw);
        for x in [Color::Black, Color::White] {
            let sc = sym.swap(code);
            assert_eq!(
                table.area(sc, x.other()),
                table.area(code, x),
                "{dims:?} {suicide:?}: area of {x:?} at {code:?} under the swap"
            );
            for g in 0..sym.order() {
                assert_eq!(
                    table.area(sym.code(g, code), x),
                    table.area(code, x),
                    "{dims:?} {suicide:?}: area of {x:?} at {code:?} under element {g:?}"
                );
            }
            for p in dims.points().into_iter() {
                let succ = table.succ(code, x, p);
                let playable = table.playable(code, x, p);
                assert_eq!(
                    table.succ(sc, x.other(), p),
                    sym.swap(succ),
                    "{dims:?} {suicide:?}: successor of {x:?} at {p:?} on {code:?} under the swap"
                );
                assert_eq!(
                    table.playable(sc, x.other(), p),
                    playable,
                    "{dims:?} {suicide:?}: playability of {x:?} at {p:?} on {code:?} under the swap"
                );
                checks += 1;
                for g in 0..sym.order() {
                    let gc = sym.code(g, code);
                    let gp = sym.point(g, p);
                    assert_eq!(
                        table.succ(gc, x, gp),
                        sym.code(g, succ),
                        "{dims:?} {suicide:?}: successor of {x:?} at {p:?} on {code:?} under element {g:?}"
                    );
                    assert_eq!(
                        table.playable(gc, x, gp),
                        playable,
                        "{dims:?} {suicide:?}: playability of {x:?} at {p:?} on {code:?} under element {g:?}"
                    );
                    checks += 1;
                }
            }
        }
    }
    checks
}

#[test]
fn the_table_commutes_with_every_map_on_boards_of_six_points() {
    for dims in boards_to_six() {
        let sym = Symmetries::new(dims).expect("a small board");
        let expected =
            u64::from(code_space(dims)) * 2 * dims.point_count() as u64 * (sym.order() as u64 + 1);
        for suicide in [Suicide::Forbid, Suicide::RemoveOwn] {
            assert_eq!(table_commutes(dims, suicide), expected, "{dims:?} {suicide:?}");
        }
    }
}

