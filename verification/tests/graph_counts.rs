use lib::enumerate::{self, Options, Report};
use lib::walk;
use lib::config::{Dims, Repetition, Suicide};

fn both(
    dims: Dims,
    rep: Repetition,
    suicide: Suicide,
    depth_cap: Option<usize>,
) -> (Report, Report) {
    let opts = Options {
        depth_cap,
        threads: 1,
    };
    let fast = enumerate::count_games(dims, rep, suicide, opts).expect("the board has a table");
    let naive = walk::count_games(dims, rep, suicide, depth_cap);
    (fast, naive)
}

#[test]
fn published_psk_counts() {
    for (cols, expected) in [(1u64, 1u64), (2, 9), (3, 907)] {
        for suicide in [Suicide::Forbid, Suicide::RemoveOwn] {
            let dims = Dims::new(1, usize::try_from(cols).expect("a small board"));
            let (fast, naive) = both(dims, Repetition::Psk, suicide, None);
            assert_eq!(
                fast.games, expected,
                "1x{cols:?} under psk/{suicide:?} is not the published count"
            );
            assert_eq!(
                fast, naive,
                "the enumerators disagree on 1x{cols:?}/{suicide:?}"
            );
        }
    }
}

#[test]
fn ssk_agrees_with_itself_and_dominates_psk() {
    let mut strictly_more = 0;
    for cols in 1..=3 {
        for suicide in [Suicide::Forbid, Suicide::RemoveOwn] {
            let dims = Dims::new(1, cols);
            let (fast, naive) = both(dims, Repetition::Ssk, suicide, None);
            assert_eq!(
                fast, naive,
                "the enumerators disagree on 1x{cols:?}/{suicide:?}"
            );
            let psk = both(dims, Repetition::Psk, suicide, None).0;
            assert!(
                fast.games >= psk.games,
                "ssk has fewer games than psk on 1x{cols:?}/{suicide:?}"
            );
            if fast.games > psk.games {
                strictly_more += 1;
            }
        }
    }
    assert!(
        strictly_more > 0,
        "no board tested distinguished the two rules, so the comparison asserted nothing"
    );
}

#[test]
fn two_by_two_agrees_to_a_depth_cap() {
    for rep in [Repetition::Ssk, Repetition::Psk] {
        for suicide in [Suicide::Forbid, Suicide::RemoveOwn] {
            let (fast, naive) = both(Dims::new(2, 2), rep, suicide, Some(10));
            assert_eq!(
                fast, naive,
                "the enumerators disagree on 2x2/{rep:?}/{suicide:?}"
            );
            assert!(fast.truncated > 0, "a depth cap of ten truncated nothing");
            assert!(
                fast.refused_repetition > 0,
                "no repetition refusal, so the archive was not doing work"
            );
        }
    }
}

#[test]
fn a_cap_does_not_invent_games() {
    let full = both(Dims::new(1, 3), Repetition::Psk, Suicide::Forbid, None).0;
    let capped = both(Dims::new(1, 3), Repetition::Psk, Suicide::Forbid, Some(6)).0;
    assert_eq!(full.games, 907);
    assert_eq!(full.truncated, 0);
    assert!(capped.games < full.games);
    assert!(capped.truncated > 0);
    assert!(capped.nodes < full.nodes);
    assert_eq!(capped.max_depth, 6);
}
