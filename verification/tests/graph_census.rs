use lib::census::{GraphCensus, legal_positions, position_graph};
use lib::config::{Dims, Suicide};

#[test]
fn legal_position_counts() {
    let line = [1u64, 5, 15, 41, 113, 313, 867, 2401];
    for (i, expected) in line.into_iter().enumerate() {
        let cols = i + 1;
        assert_eq!(
            legal_positions(Dims::new(1, cols)),
            expected,
            "L(1, {cols:?})"
        );
    }
    assert_eq!(legal_positions(Dims::new(2, 2)), 57, "L(2, 2)");
    assert_eq!(legal_positions(Dims::new(2, 3)), 489, "L(2, 3)");
    assert_eq!(legal_positions(Dims::new(3, 3)), 12675, "L(3, 3)");
}

#[test]
fn legal_positions_do_not_depend_on_orientation() {
    for (rows, cols) in [(1, 4), (2, 3), (1, 6)] {
        assert_eq!(
            legal_positions(Dims::new(rows, cols)),
            legal_positions(Dims::new(cols, rows)),
            "{rows:?}x{cols:?} and its transpose"
        );
    }
}

fn census(rows: usize, cols: usize, suicide: Suicide) -> GraphCensus {
    position_graph(Dims::new(rows, cols), suicide)
}

#[test]
fn position_graph_under_defs_lean() {
    let expected = [
        ((1, 2), 5u64, 8u64),
        ((1, 3), 15, 36),
        ((1, 4), 41, 128),
        ((2, 2), 57, 184),
        ((2, 3), 489, 2220),
    ];
    for ((rows, cols), nodes, edges) in expected {
        let c = census(rows, cols, Suicide::Forbid);
        assert_eq!(c.nodes, nodes, "{rows:?}x{cols:?} nodes");
        assert_eq!(c.edges, edges, "{rows:?}x{cols:?} edges");
        assert_eq!(c.self_loops, 0, "{rows:?}x{cols:?} self-loops");
    }
}

#[test]
fn position_graph_under_remove_own() {
    let expected = [
        ((1, 2), 5u64, 12u64, 0u64),
        ((1, 3), 15, 42, 4),
        ((1, 4), 41, 144, 16),
        ((2, 2), 57, 192, 8),
        ((2, 3), 489, 2312, 116),
    ];
    for ((rows, cols), nodes, edges, self_loops) in expected {
        let c = census(rows, cols, Suicide::RemoveOwn);
        assert_eq!(c.nodes, nodes, "{rows:?}x{cols:?} nodes");
        assert_eq!(c.edges, edges, "{rows:?}x{cols:?} edges");
        assert_eq!(c.self_loops, self_loops, "{rows:?}x{cols:?} self-loops");
    }
}

#[test]
fn nodes_are_the_legal_positions() {
    for (rows, cols) in [(1, 3), (1, 4), (2, 2), (2, 3)] {
        let dims = Dims::new(rows, cols);
        for suicide in [Suicide::Forbid, Suicide::RemoveOwn] {
            assert_eq!(position_graph(dims, suicide).nodes, legal_positions(dims));
        }
    }
}

#[test]
fn remove_own_only_adds_edges() {
    for (rows, cols) in [(1, 2), (1, 3), (1, 4), (2, 2), (2, 3)] {
        let forbid = census(rows, cols, Suicide::Forbid);
        let remove = census(rows, cols, Suicide::RemoveOwn);
        assert!(
            remove.edges >= forbid.edges,
            "{rows:?}x{cols:?}: permitting suicide lost an edge"
        );
        assert!(remove.self_loops >= forbid.self_loops);
    }
}
