use lib::scc::{SccCensus, situation_graph};
use lib::config::{Dims, Suicide};

fn legal(rows: usize, cols: usize) -> SccCensus {
    situation_graph(Dims::new(rows, cols), Suicide::Forbid, true)
}

#[test]
fn two_components_from_1x3_up() {
    for (rows, cols) in [
        (1, 3),
        (1, 4),
        (1, 5),
        (1, 6),
        (1, 7),
        (2, 2),
        (2, 3),
        (2, 4),
        (3, 3),
    ] {
        let c = legal(rows, cols);
        assert_eq!(
            c.components, 2,
            "{rows:?}x{cols:?}: expected the empty cycle and one giant component"
        );
        assert_eq!(c.empty_component, 2, "{rows:?}x{cols:?}: empty component size");
        assert_eq!(c.depth, 2, "{rows:?}x{cols:?}: condensation depth");
        assert_eq!(
            c.outside_largest, 2,
            "{rows:?}x{cols:?}: the cone prune can remove at most this many"
        );
        assert_eq!(c.trivial, 0, "{rows:?}x{cols:?}: no component of one vertex");
    }
}

#[test]
fn the_two_small_exceptions() {
    let c = legal(1, 1);
    assert_eq!((c.situations, c.components, c.largest), (2, 1, 2));

    let c = legal(1, 2);
    assert_eq!(c.situations, 10);
    assert_eq!(c.components, 3);
    assert_eq!(c.largest, 4);
    assert_eq!(c.empty_component, 2);
    assert_eq!(c.depth, 2);
}

#[test]
fn vertices_are_twice_the_legal_positions() {
    for (rows, cols, legal_positions) in [
        (1, 1, 1),
        (1, 2, 5),
        (1, 3, 15),
        (1, 4, 41),
        (1, 5, 113),
        (1, 6, 313),
        (1, 7, 867),
        (2, 2, 57),
        (2, 3, 489),
        (3, 3, 12675),
    ] {
        assert_eq!(
            legal(rows, cols).situations,
            2 * legal_positions,
            "{rows:?}x{cols:?}"
        );
    }
}

#[test]
fn the_pass_edge_is_unconditional() {
    for (rows, cols) in [(1, 3), (2, 2), (2, 3), (3, 3)] {
        let c = legal(rows, cols);
        assert!(c.edges >= c.situations, "{rows:?}x{cols:?}");
    }
}

#[test]
fn illegal_colorings_are_sources() {
    for (rows, cols) in [(1, 3), (1, 4), (2, 2), (2, 3)] {
        let all = situation_graph(Dims::new(rows, cols), Suicide::Forbid, false);
        let only = legal(rows, cols);
        assert_eq!(
            all.largest, only.largest,
            "{rows:?}x{cols:?}: the giant component is the same"
        );
        assert!(
            all.components > only.components,
            "{rows:?}x{cols:?}: illegal colorings add components"
        );
        assert_eq!(
            all.situations - all.largest,
            all.outside_largest,
            "{rows:?}x{cols:?}"
        );
    }
}

#[test]
fn the_empty_board_is_its_own_component() {
    for (rows, cols) in [(1, 1), (1, 2), (1, 3), (1, 4), (2, 2), (2, 3), (3, 3)] {
        let c = legal(rows, cols);
        assert_eq!(
            c.empty_component, 2,
            "{rows:?}x{cols:?}: the empty board's component is its pass cycle"
        );
    }
}

#[test]
fn permitting_suicide_collapses_the_graph_to_one_component() {
    for (rows, cols) in [(1, 2), (1, 3), (1, 4), (1, 5), (2, 2), (2, 3), (3, 3)] {
        let dims = Dims::new(rows, cols);
        let remove_own = situation_graph(dims, Suicide::RemoveOwn, true);
        assert_eq!(remove_own.components, 1, "{rows:?}x{cols:?}");
        assert_eq!(remove_own.outside_largest, 0, "{rows:?}x{cols:?}");
        assert_eq!(remove_own.depth, 1, "{rows:?}x{cols:?}");
        assert_eq!(
            remove_own.empty_component, remove_own.situations,
            "{rows:?}x{cols:?}: the empty board joins the giant component"
        );

        let forbid = situation_graph(dims, Suicide::Forbid, true);
        assert_eq!(forbid.situations, remove_own.situations, "{rows:?}x{cols:?}");
        assert!(forbid.edges < remove_own.edges, "{rows:?}x{cols:?}");
    }
}
