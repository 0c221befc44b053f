use lib::cli::{parse_board, run, Flags};
use lib::config::Dims;

fn args(text: &str) -> Vec<String> {
    text.split_whitespace().map(str::to_string).collect()
}

#[test]
fn board_spellings() {
    assert_eq!(parse_board("2x3"), Ok(Dims::new(2, 3)));
    assert!(parse_board("2X3").is_err());
    assert!(parse_board("2").is_err());
    assert!(parse_board("0x3").is_err());
    assert!(parse_board("2x").is_err());
}

#[test]
fn flags_take_both_spellings() {
    let a = Flags::parse(&args("--board 1x3 --rule psk")).unwrap();
    let b = Flags::parse(&args("--board=1x3 --rule=psk")).unwrap();
    assert_eq!(a.board, b.board);
    assert_eq!(a.rule, b.rule);
}

#[test]
fn bad_command_lines_are_refused() {
    assert!(run(&args("")).is_err());
    assert!(run(&args("count-games --board 1x2 --rule psk")).is_err());
    assert!(
        run(&args(
            "count-games --board 1x2 --rule psk --suicide forbid --naive --threads 2"
        ))
        .is_err()
    );
    assert!(run(&args("count-positions --board 1x2 --rule psk")).is_err());
    assert!(run(&args("count-games --board 1x2 --rule ppk --suicide forbid")).is_err());
    assert!(
        run(&args(
            "count-games --board 1x2 --board 1x3 --rule psk --suicide forbid"
        ))
        .is_err()
    );
    assert!(run(&args("nonsense --board 1x2")).is_err());
}

#[test]
fn a_body_is_the_documented_lines() {
    let body = run(&args("count-games --board 1x2 --rule psk --suicide forbid")).unwrap();
    let keys: Vec<&str> = body
        .lines()
        .map(|l| l.split_once('=').expect("a body line is key=value").0)
        .collect();
    assert_eq!(
        keys,
        vec![
            "board",
            "rule",
            "suicide",
            "divergences",
            "root",
            "games",
            "nodes",
            "max-depth",
            "max-archive",
            "refused-occupied",
            "refused-suicide",
            "refused-repetition",
        ]
    );
    assert!(body.contains("games=9"));
    assert!(body.contains("root=.."));
}

#[test]
fn a_capped_body_says_so() {
    let body = run(&args(
        "count-games --board 2x2 --rule psk --suicide forbid --depth-cap 4",
    ))
    .unwrap();
    assert!(body.contains("depth-cap=4"));
    assert!(body.contains("truncated="));
}

#[test]
fn refusals_name_what_was_wrong() {
    assert_eq!(run(&args("")), Err("no command given".to_string()));
    assert_eq!(
        run(&args("count-games --board 1x2 --rule psk")),
        Err("--suicide is required".to_string())
    );
    assert_eq!(
        run(&args("count-positions --board 1x2 --rule psk")),
        Err("--rule is not an option of this command".to_string())
    );
    assert_eq!(
        run(&args("count-games --board 1x2 --rule ppk --suicide forbid")),
        Err("--rule is psk or ssk, not \"ppk\"".to_string())
    );
    assert_eq!(
        run(&args("count-games --board 1x2 --board 1x3 --rule psk --suicide forbid")),
        Err("--board given twice".to_string())
    );
    assert_eq!(
        run(&args("nonsense --board 1x2")),
        Err("unknown command \"nonsense\"".to_string())
    );
    assert_eq!(run(&args("count-games --bogus")), Err("unknown option \"--bogus\"".to_string()));
    assert_eq!(run(&args("count-games --board")), Err("--board needs a value".to_string()));
    assert_eq!(run(&args("count-games --naive=yes")), Err("--naive takes no value".to_string()));
    assert_eq!(
        run(&args("count-games --board 1x2 --rule psk --suicide forbid --naive --threads 2")),
        Err("--naive is single-threaded; drop --threads".to_string())
    );
    assert_eq!(
        run(&args("count-games --board 1x2 --rule psk --suicide forbid --threads 0")),
        Err("--threads takes a positive integer, not 0".to_string())
    );
    assert_eq!(
        run(&args("count-games --board 1x2 --rule psk --suicide forbid --depth-cap -1")),
        Err("--depth-cap takes a non-negative integer, not \"-1\"".to_string())
    );
}

#[test]
fn a_quoted_value_escapes_control_characters() {
    let line = vec!["count-games".to_string(), "--a\"b\\c\td\u{7}".to_string()];
    assert_eq!(
        run(&line),
        Err("unknown option \"--a\\\"b\\\\c\\td\\u{7}\"".to_string())
    );
}

#[test]
fn a_board_too_large_for_the_table_is_refused() {
    let r = run(&args("count-games --board 4x4 --rule psk --suicide forbid"));
    assert_eq!(
        r,
        Err("the 4x4 board has 16 points; the transition table covers at most 12 (3^12 codes of successor per color and point)".to_string())
    );
}

#[test]
fn the_bodies_of_the_censuses() {
    let body = run(&args("count-positions --board 1x2")).unwrap();
    assert_eq!(body, "board=1x2\ndivergences=dims-are-runtime:unlicensed\npositions=5\n");
    let body = run(&args("graph-census --board 1x2 --suicide remove-own")).unwrap();
    assert!(body.starts_with(
        "board=1x2\nsuicide=remove-own\ndivergences=dims-are-runtime:unlicensed,suicide-remove-own:unlicensed\nnodes="
    ));
    let body = run(&args("scc-census --board 1x2 --suicide forbid")).unwrap();
    let keys: Vec<&str> = body.lines().map(|l| l.split_once('=').unwrap().0).collect();
    assert_eq!(keys.len(), 19);
    assert_eq!(keys[3], "legal-situations");
    assert_eq!(keys[11], "all-situations");
    assert!(body.contains("all-situations=18\n"));
}

#[test]
fn a_fast_psk_count_names_its_divergences() {
    let body = run(&args("count-games --board 1x2 --rule psk --suicide forbid")).unwrap();
    assert!(body.contains(
        "divergences=dims-are-runtime:unlicensed,psk-archive-projection:unlicensed,rule-table-memo:unlicensed\n"
    ));
    let naive = run(&args("count-games --board 1x2 --rule psk --suicide forbid --naive")).unwrap();
    assert!(naive.contains("divergences=dims-are-runtime:unlicensed\n"));
    assert!(naive.contains("games=9\n"));
}

#[test]
fn a_body_is_the_same_at_every_thread_count() {
    let one = run(&args("count-games --board 1x3 --rule ssk --suicide forbid --threads 1")).unwrap();
    let three = run(&args("count-games --board 1x3 --rule ssk --suicide forbid --threads 3")).unwrap();
    assert_eq!(one, three);
}

#[test]
fn every_flag_takes_both_spellings() {
    let a = Flags::parse(&args("--board 2x2 --rule ssk --suicide forbid --threads 2 --depth-cap 3 --naive")).unwrap();
    let b = Flags::parse(&args("--board=2x2 --rule=ssk --suicide=forbid --threads=2 --depth-cap=3 --naive")).unwrap();
    assert_eq!(a.board, b.board);
    assert_eq!(a.rule, b.rule);
    assert_eq!(a.suicide, b.suicide);
    assert_eq!(a.threads, b.threads);
    assert_eq!(a.depth_cap, b.depth_cap);
    assert_eq!(a.naive, b.naive);
    assert_eq!(a.threads.as_deref(), Some("2"));
    let eq = Flags::parse(&args("--board=a=b")).unwrap();
    assert_eq!(eq.board.as_deref(), Some("a=b"));
}
