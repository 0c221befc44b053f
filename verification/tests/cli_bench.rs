use lib::bench::{run_case, suite, Case, Line, Settings};
use lib::config::{Dims, Repetition, Suicide};
use lib::search::MoveOrder;
use lib::separate as sep;
use lib::table::RuleTable;

fn fields_but_seconds(line: &Line) -> Vec<(&'static str, String)> {
    line.fields
        .iter()
        .filter(|(key, _)| *key != "seconds")
        .cloned()
        .collect()
}

fn keys(line: &Line) -> Vec<&'static str> {
    line.fields.iter().map(|(key, _)| *key).collect()
}

fn owned(pairs: &[(&'static str, &str)]) -> Vec<(&'static str, String)> {
    pairs.iter().map(|&(k, v)| (k, v.to_string())).collect()
}

#[test]
fn the_header_names_the_default_order() {
    assert_eq!(MoveOrder::default(), MoveOrder::Heuristic);
    assert_eq!(
        Settings::default().header(),
        "flags order=heuristic threads=1 symmetry=off"
    );
    assert_eq!(
        Settings {
            threads: 14,
            symmetry: true
        }
        .header(),
        "flags order=heuristic threads=14 symmetry=on"
    );
}

#[test]
fn the_suite_is_pinned_and_within_the_caps() {
    let described: Vec<(String, String, u64)> = suite()
        .iter()
        .map(|case| match *case {
            Case::Empty { rep, budget, .. } => {
                assert!(budget <= 100_000_000, "{}", case.name());
                (case.name(), rep.slug().to_string(), budget)
            }
            Case::Sweep { budget, .. } => {
                assert!(budget <= 1_000_000, "{}", case.name());
                (case.name(), "psk,ssk".to_string(), budget)
            }
        })
        .collect();
    let expected: Vec<(String, String, u64)> = [
        ("empty-1x5", "psk", 100_000_000),
        ("empty-1x5", "ssk", 100_000_000),
        ("empty-1x6", "psk", 100_000_000),
        ("empty-1x6", "ssk", 100_000_000),
        ("empty-1x7", "psk", 100_000_000),
        ("empty-1x7", "ssk", 100_000_000),
        ("empty-2x3", "psk", 100_000_000),
        ("empty-2x3", "ssk", 100_000_000),
        ("sweep-2x3", "psk,ssk", 1_000_000),
    ]
    .iter()
    .map(|&(n, r, b)| (n.to_string(), r.to_string(), b))
    .collect();
    assert_eq!(described, expected);
}

#[test]
fn an_empty_case_runs_under_its_budget() {
    let case = Case::Empty {
        dims: Dims::new(1, 5),
        rep: Repetition::Psk,
        budget: 100,
    };
    let line = run_case(&case, &Settings::default()).unwrap();
    assert_eq!(
        keys(&line),
        [
            "case",
            "rule",
            "value",
            "nodes",
            "seconds",
            "budget",
            "max-depth",
            "ssk-only"
        ]
    );
    assert_eq!(
        fields_but_seconds(&line),
        owned(&[
            ("case", "empty-1x5"),
            ("rule", "psk"),
            ("value", "unresolved"),
            ("nodes", "101"),
            ("budget", "100"),
            ("max-depth", "10"),
            ("ssk-only", "0"),
        ])
    );
}

#[test]
fn an_empty_case_resolves_within_a_sufficient_budget() {
    let case = Case::Empty {
        dims: Dims::new(1, 5),
        rep: Repetition::Psk,
        budget: 100_000_000,
    };
    let line = run_case(&case, &Settings::default()).unwrap();
    assert_eq!(
        fields_but_seconds(&line),
        owned(&[
            ("case", "empty-1x5"),
            ("rule", "psk"),
            ("value", "0"),
            ("nodes", "2115"),
            ("budget", "100000000"),
            ("max-depth", "17"),
            ("ssk-only", "0"),
        ])
    );
}

#[test]
fn a_sweep_case_reports_the_sweep_it_ran() {
    let dims = Dims::new(2, 2);
    let budget = 50;
    let case = Case::Sweep { dims, budget };
    let line = run_case(&case, &Settings::default()).unwrap();
    assert_eq!(
        keys(&line),
        [
            "case",
            "rule",
            "resolved",
            "unresolved",
            "separating",
            "nodes",
            "seconds",
            "budget",
            "roots",
            "ssk-only-plays",
            "resolved-with-ssk-only",
            "searched",
            "transported",
        ]
    );
    let pinned = owned(&[
        ("case", "sweep-2x2"),
        ("rule", "psk,ssk"),
        ("resolved", "64"),
        ("unresolved", "98"),
        ("separating", "0"),
        ("nodes", "12108"),
        ("budget", "50"),
        ("roots", "162"),
        ("ssk-only-plays", "52"),
        ("resolved-with-ssk-only", "0"),
        ("searched", "162"),
        ("transported", "0"),
    ]);
    assert_eq!(fields_but_seconds(&line), pinned);
    for threads in [2, 14] {
        let spread = run_case(
            &case,
            &Settings {
                threads,
                symmetry: false,
            },
        )
        .unwrap();
        assert_eq!(fields_but_seconds(&spread), pinned, "{threads} threads");
    }

    let table = RuleTable::build(dims, Suicide::Forbid).unwrap();
    let sweep = sep::sweep_on_above(&table, Some(budget), 0);
    assert_eq!(sweep.skipped, 0);
    assert_eq!(sweep.resolved + sweep.unresolved, sweep.roots);
    let n = |v: u64| v.to_string();
    assert_eq!(
        pinned,
        vec![
            ("case", "sweep-2x2".to_string()),
            ("rule", "psk,ssk".to_string()),
            ("resolved", n(sweep.resolved)),
            ("unresolved", n(sweep.unresolved)),
            ("separating", n(sweep.separating)),
            ("nodes", n(sweep.nodes)),
            ("budget", n(budget)),
            ("roots", n(sweep.roots)),
            ("ssk-only-plays", n(sweep.ssk_only_plays)),
            ("resolved-with-ssk-only", n(sweep.resolved_with_ssk_only)),
            ("searched", n(sweep.searched)),
            ("transported", n(sweep.transported)),
        ]
    );
}

#[test]
fn a_sweep_case_under_symmetry_reports_the_symmetric_sweep() {
    let dims = Dims::new(2, 2);
    let budget = 50;
    let case = Case::Sweep { dims, budget };
    let on = Settings {
        threads: 1,
        symmetry: true,
    };
    let line = run_case(&case, &on).unwrap();
    let table = RuleTable::build(dims, Suicide::Forbid).unwrap();
    let sweep = sep::sweep_with(
        &table,
        sep::Options {
            budget: Some(budget),
            min_stones: 0,
            threads: 1,
            symmetry: true,
        },
    );
    assert!(sweep.transported > 0);
    assert_eq!(sweep.searched + sweep.transported, sweep.roots);
    let n = |v: u64| v.to_string();
    let expected = vec![
        ("case", "sweep-2x2".to_string()),
        ("rule", "psk,ssk".to_string()),
        ("resolved", n(sweep.resolved)),
        ("unresolved", n(sweep.unresolved)),
        ("separating", n(sweep.separating)),
        ("nodes", n(sweep.nodes)),
        ("budget", n(budget)),
        ("roots", n(sweep.roots)),
        ("ssk-only-plays", n(sweep.ssk_only_plays)),
        ("resolved-with-ssk-only", n(sweep.resolved_with_ssk_only)),
        ("searched", n(sweep.searched)),
        ("transported", n(sweep.transported)),
    ];
    assert_eq!(fields_but_seconds(&line), expected);
    let spread = run_case(
        &case,
        &Settings {
            threads: 14,
            symmetry: true,
        },
    )
    .unwrap();
    assert_eq!(fields_but_seconds(&spread), expected);
}
