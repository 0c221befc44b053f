use lib::enumerate::{self, Options};
use lib::walk;
use lib::config::{Dims, Repetition, Suicide};

#[test]
fn one_by_four_agrees_with_the_arbiter_to_a_depth_cap() {
    let dims = Dims::new(1, 4);
    for rep in [Repetition::Ssk, Repetition::Psk] {
        for suicide in [Suicide::Forbid, Suicide::RemoveOwn] {
            let depth_cap = Some(12);
            let fast = enumerate::count_games(
                dims,
                rep,
                suicide,
                Options {
                    depth_cap,
                    threads: 1,
                },
            )
            .expect("the board has a table");
            let naive = walk::count_games(dims, rep, suicide, depth_cap);
            assert_eq!(fast, naive, "1x4/{rep:?}/{suicide:?} to twelve moves");
            assert!(fast.truncated > 0);
            assert!(fast.refused_repetition > 0);
        }
    }
}

#[test]
fn the_suicide_convention_is_observable_at_one_by_four() {
    let capped = |rows, cols, suicide, cap| {
        enumerate::count_games(
            Dims::new(rows, cols),
            Repetition::Psk,
            suicide,
            Options {
                depth_cap: cap,
                threads: 1,
            },
        )
        .expect("the board has a table")
        .games
    };

    assert_eq!(
        capped(1, 3, Suicide::Forbid, None),
        capped(1, 3, Suicide::RemoveOwn, None),
        "the conventions part company on 1x3, where the argument says they do not"
    );
    assert_ne!(
        capped(1, 4, Suicide::Forbid, Some(12)),
        capped(1, 4, Suicide::RemoveOwn, Some(12)),
        "the conventions agree on 1x4 to twelve moves"
    );
}
