//! The fixed suite the solver's performance is measured against.
//!
//! Every case is under the no-suicide rule and carries its own node budget,
//! at most 10⁸ nodes for a single search and 10⁶ per search of a sweep. An
//! `empty-` case solves the empty board with Black to move; the `sweep-`
//! case is [`crate::separate::sweep_with`] over every root of its board.
//!
//! The first line of a run is `flags` followed by the settings in force.
//! Then one line per case, of space-separated `key=value` fields in a fixed
//! order: `case`, `rule`, then for a single search `value`, and for the
//! sweep `resolved`, `unresolved` and `separating`; then `nodes`, `seconds`
//! (wall time to three decimals of everything after the transition table is
//! built), `budget`, and the counters that apply.
//!
//! A line carries a wall time, which differs between two runs of the same
//! command, so it is a measurement and not a results body.

use vstd::prelude::*;

use crate::code::PosCode;
use crate::config::{dims_text, Dims, Repetition, Suicide};
use crate::naive::play_rules;
use crate::reference::Color;
use crate::search::{seat_node, solution_ok, MoveOrder, Solver};
use crate::separate::{sweep_ok, sweep_with, Options, Sweep};
use crate::table::{RuleTable, MAX_TABLE_POINTS};
use crate::text::{dec, digit_char, push_char, push_decimal, push_str};

verus! {

/// The largest budget a single search in the suite may carry.
pub const SOLVE_BUDGET_CAP: u64 = 100_000_000;

/// The largest budget a search of a sweep in the suite may carry.
pub const SWEEP_BUDGET_CAP: u64 = 1_000_000;

/// The settings a bench run is under.
#[derive(Clone, Copy, Debug, PartialEq, Eq)]
pub struct Settings {
    /// The threads the sweep case spreads its roots over, at least one.
    pub threads: usize,
    /// Whether the sweep case searches orbit representatives only.
    pub symmetry: bool,
}

impl Default for Settings {
    /// One thread, no symmetry.
    fn default() -> (r: Self)
        ensures
            r == (Settings { threads: 1, symmetry: false }),
    {
        Settings { threads: 1, symmetry: false }
    }
}

/// The name the `flags` line gives a move order.
pub open spec fn order_text(order: MoveOrder) -> Seq<char> {
    match order {
        MoveOrder::Heuristic => "heuristic"@,
        MoveOrder::Static => "static"@,
    }
}

/// The name the `flags` line gives a move order.
fn order_name(order: MoveOrder) -> (r: &'static str)
    ensures
        r@ == order_text(order),
{
    match order {
        MoveOrder::Heuristic => "heuristic",
        MoveOrder::Static => "static",
    }
}

impl Settings {
    /// The first line of a bench run: the settings in force, the move order
    /// every solver of the suite starts in among them.
    pub fn header(&self) -> (r: String)
        ensures
            r@ == "flags order="@ + order_text(MoveOrder::Heuristic) + " threads="@ + dec(self.threads as nat)
                + " symmetry="@ + (if self.symmetry {
                "on"@
            } else {
                "off"@
            }),
    {
        let mut out = String::new();
        push_str(&mut out, "flags order=");
        push_str(&mut out, order_name(MoveOrder::default()));
        push_str(&mut out, " threads=");
        push_decimal(&mut out, self.threads as u64);
        push_str(&mut out, " symmetry=");
        push_str(&mut out, if self.symmetry {
            "on"
        } else {
            "off"
        });
        out
    }
}

/// One case of the suite.
#[derive(Clone, Copy, Debug, PartialEq, Eq)]
pub enum Case {
    /// The empty board with Black to move, under one repetition rule.
    Empty {
        /// The board.
        dims: Dims,
        /// The repetition rule.
        rep: Repetition,
        /// The node budget of the search.
        budget: u64,
    },
    /// The separation sweep of a board.
    Sweep {
        /// The board.
        dims: Dims,
        /// The node budget of each search of the sweep.
        budget: u64,
    },
}

/// The board a case is on.
pub open spec fn case_dims(c: Case) -> Dims {
    match c {
        Case::Empty { dims, .. } => dims,
        Case::Sweep { dims, .. } => dims,
    }
}

/// A case's name, as the `case=` field prints it.
pub open spec fn case_name(c: Case) -> Seq<char> {
    match c {
        Case::Empty { dims, .. } => "empty-"@ + dims_text(dims),
        Case::Sweep { dims, .. } => "sweep-"@ + dims_text(dims),
    }
}

impl Case {
    /// The case's name, as the `case=` field prints it.
    pub fn name(&self) -> (r: String)
        ensures
            r@ == case_name(*self),
    {
        let mut out = String::new();
        let dims = match *self {
            Case::Empty { dims, .. } => {
                push_str(&mut out, "empty-");
                dims
            },
            Case::Sweep { dims, .. } => {
                push_str(&mut out, "sweep-");
                dims
            },
        };
        push_decimal(&mut out, dims.rows as u64);
        push_str(&mut out, "x");
        push_decimal(&mut out, dims.cols as u64);
        out
    }

    /// The board the case is on.
    pub fn dims(&self) -> (r: Dims)
        ensures
            r == case_dims(*self),
    {
        match *self {
            Case::Empty { dims, .. } => dims,
            Case::Sweep { dims, .. } => dims,
        }
    }
}

/// An `empty-` case at the suite's single-search budget.
fn empty(rows: usize, cols: usize, rep: Repetition) -> (r: Case)
    ensures
        r == (Case::Empty { dims: Dims { rows, cols }, rep, budget: SOLVE_BUDGET_CAP }),
{
    Case::Empty { dims: Dims { rows, cols }, rep, budget: SOLVE_BUDGET_CAP }
}

/// The fixed suite, in the order it runs and prints: the empty 1×5, 1×6,
/// 1×7 and 2×3 boards under each rule, then the sweep of 2×3.
pub fn suite() -> (r: Vec<Case>)
    ensures
        r@ == seq![
            Case::Empty { dims: Dims { rows: 1, cols: 5 }, rep: Repetition::Psk, budget: SOLVE_BUDGET_CAP },
            Case::Empty { dims: Dims { rows: 1, cols: 5 }, rep: Repetition::Ssk, budget: SOLVE_BUDGET_CAP },
            Case::Empty { dims: Dims { rows: 1, cols: 6 }, rep: Repetition::Psk, budget: SOLVE_BUDGET_CAP },
            Case::Empty { dims: Dims { rows: 1, cols: 6 }, rep: Repetition::Ssk, budget: SOLVE_BUDGET_CAP },
            Case::Empty { dims: Dims { rows: 1, cols: 7 }, rep: Repetition::Psk, budget: SOLVE_BUDGET_CAP },
            Case::Empty { dims: Dims { rows: 1, cols: 7 }, rep: Repetition::Ssk, budget: SOLVE_BUDGET_CAP },
            Case::Empty { dims: Dims { rows: 2, cols: 3 }, rep: Repetition::Psk, budget: SOLVE_BUDGET_CAP },
            Case::Empty { dims: Dims { rows: 2, cols: 3 }, rep: Repetition::Ssk, budget: SOLVE_BUDGET_CAP },
            Case::Sweep { dims: Dims { rows: 2, cols: 3 }, budget: SWEEP_BUDGET_CAP },
        ],
{
    let mut out: Vec<Case> = Vec::new();
    out.push(empty(1, 5, Repetition::Psk));
    out.push(empty(1, 5, Repetition::Ssk));
    out.push(empty(1, 6, Repetition::Psk));
    out.push(empty(1, 6, Repetition::Ssk));
    out.push(empty(1, 7, Repetition::Psk));
    out.push(empty(1, 7, Repetition::Ssk));
    out.push(empty(2, 3, Repetition::Psk));
    out.push(empty(2, 3, Repetition::Ssk));
    out.push(Case::Sweep { dims: Dims { rows: 2, cols: 3 }, budget: SWEEP_BUDGET_CAP });
    assert(out@ =~= seq![
        Case::Empty { dims: Dims { rows: 1, cols: 5 }, rep: Repetition::Psk, budget: SOLVE_BUDGET_CAP },
        Case::Empty { dims: Dims { rows: 1, cols: 5 }, rep: Repetition::Ssk, budget: SOLVE_BUDGET_CAP },
        Case::Empty { dims: Dims { rows: 1, cols: 6 }, rep: Repetition::Psk, budget: SOLVE_BUDGET_CAP },
        Case::Empty { dims: Dims { rows: 1, cols: 6 }, rep: Repetition::Ssk, budget: SOLVE_BUDGET_CAP },
        Case::Empty { dims: Dims { rows: 1, cols: 7 }, rep: Repetition::Psk, budget: SOLVE_BUDGET_CAP },
        Case::Empty { dims: Dims { rows: 1, cols: 7 }, rep: Repetition::Ssk, budget: SOLVE_BUDGET_CAP },
        Case::Empty { dims: Dims { rows: 2, cols: 3 }, rep: Repetition::Psk, budget: SOLVE_BUDGET_CAP },
        Case::Empty { dims: Dims { rows: 2, cols: 3 }, rep: Repetition::Ssk, budget: SOLVE_BUDGET_CAP },
        Case::Sweep { dims: Dims { rows: 2, cols: 3 }, budget: SWEEP_BUDGET_CAP },
    ]);
    out
}

/// One output line: `key=value` fields in the order they were pushed.
#[derive(Clone, Debug, PartialEq, Eq)]
pub struct Line {
    /// The fields, in order.
    pub fields: Vec<(&'static str, String)>,
}

/// The text of a line's fields, each as a key and a value.
pub open spec fn field_texts(f: Seq<(&'static str, String)>) -> Seq<(Seq<char>, Seq<char>)> {
    f.map_values(|x: (&'static str, String)| (x.0@, x.1@))
}

/// A line as it prints: its fields as `key=value`, separated by spaces.
pub open spec fn line_text(f: Seq<(Seq<char>, Seq<char>)>) -> Seq<char>
    decreases f.len(),
{
    if f.len() == 0 {
        Seq::empty()
    } else if f.len() == 1 {
        f[0].0 + "="@ + f[0].1
    } else {
        line_text(f.drop_last()) + " "@ + f.last().0 + "="@ + f.last().1
    }
}

impl Line {
    /// A line without fields.
    pub fn new() -> (r: Self)
        ensures
            r.fields@.len() == 0,
    {
        Line { fields: Vec::new() }
    }

    fn push(&mut self, key: &'static str, value: String)
        ensures
            field_texts(final(self).fields@) == field_texts(old(self).fields@).push((key@, value@)),
    {
        self.fields.push((key, value));
        assert(field_texts(final(self).fields@) =~= field_texts(old(self).fields@).push((key@, value@)));
    }

    /// The line as it prints.
    pub fn to_string(&self) -> (r: String)
        ensures
            r@ == line_text(field_texts(self.fields@)),
    {
        let mut out = String::new();
        let mut i: usize = 0;
        while i < self.fields.len()
            invariant
                i <= self.fields@.len(),
                out@ == line_text(field_texts(self.fields@).take(i as int)),
            decreases self.fields@.len() - i,
        {
            let ghost before = out@;
            if i > 0 {
                push_str(&mut out, " ");
            }
            push_str(&mut out, self.fields[i].0);
            push_str(&mut out, "=");
            push_str(&mut out, self.fields[i].1.as_str());
            proof {
                let t = field_texts(self.fields@).take(i + 1);
                assert(t.drop_last() =~= field_texts(self.fields@).take(i as int));
                assert(t.last() == (self.fields@[i as int].0@, self.fields@[i as int].1@));
                assert(out@ =~= line_text(t));
            }
            i += 1;
        }
        assert(field_texts(self.fields@).take(i as int) =~= field_texts(self.fields@));
        out
    }
}

/// A decimal as a string.
fn decimal(v: u64) -> (r: String)
    ensures
        r@ == dec(v as nat),
{
    let mut out = String::new();
    push_decimal(&mut out, v);
    assert(out@ =~= dec(v as nat));
    out
}

/// A string of one literal.
fn text(s: &str) -> (r: String)
    ensures
        r@ == s@,
{
    let mut out = String::new();
    push_str(&mut out, s);
    assert(out@ =~= s@);
    out
}

/// A signed decimal as a string.
fn signed(v: i32) -> (r: String)
    ensures
        r@ == crate::text::dec_int(v as int),
{
    let mut out = String::new();
    crate::text::push_signed(&mut out, v as i64);
    assert(out@ =~= crate::text::dec_int(v as int));
    out
}

/// A wall time in microseconds as seconds to three decimals, the
/// millisecond rounded half up.
pub open spec fn seconds_text(micros: nat) -> Seq<char> {
    let ms = (micros + 500) / 1000;
    dec(ms / 1000) + "."@ + seq![digit_char((ms % 1000) / 100), digit_char((ms % 100) / 10), digit_char(ms % 10)]
}

/// A wall time in microseconds as seconds to three decimals.
fn seconds(micros: u128) -> (r: String)
    ensures
        r@ == seconds_text(if micros > u64::MAX { u64::MAX as nat } else { micros as nat }),
{
    let m: u64 = if micros > u64::MAX as u128 {
        u64::MAX
    } else {
        micros as u64
    };
    let ms: u64 = m / 1000 + if m % 1000 >= 500 {
        1
    } else {
        0
    };
    assert(ms == (m + 500) / 1000) by (nonlinear_arith)
        requires
            ms == m / 1000 + if m % 1000 >= 500 {
                1int
            } else {
                0int
            },
    ;
    let mut out = String::new();
    push_decimal(&mut out, ms / 1000);
    push_str(&mut out, ".");
    let frac = ms % 1000;
    push_char(&mut out, crate::text::digit(frac / 100));
    push_char(&mut out, crate::text::digit((frac / 10) % 10));
    push_char(&mut out, crate::text::digit(frac % 10));
    proof {
        assert((frac / 10) % 10 == (ms % 100) / 10) by (nonlinear_arith)
            requires
                frac == ms % 1000,
        ;
        assert(frac % 10 == ms % 10) by (nonlinear_arith)
            requires
                frac == ms % 1000,
        ;
    }
    assert(out@ =~= seconds_text(m as nat));
    out
}

/// A moment to measure wall time from: `std::time::Instant`.
#[verifier::external_type_specification]
#[verifier::external_body]
pub struct ExInstant(std::time::Instant);

/// The moment now: `Instant::now`. What comes back depends on the clock,
/// and nothing is promised of it.
#[verifier::external_body]
fn clock() -> (r: std::time::Instant) {
    std::time::Instant::now()
}

/// The time since a moment: `Instant::elapsed`. What comes back depends on
/// the clock, and nothing is promised of it.
#[verifier::external_body]
fn elapsed(start: &std::time::Instant) -> (r: std::time::Duration) {
    start.elapsed()
}

/// A span in whole microseconds: `Duration::as_micros`. Nothing about the
/// span is visible here, so nothing is promised of the count.
#[verifier::external_body]
fn as_micros(span: &std::time::Duration) -> (r: u128) {
    span.as_micros()
}

/// The fields of an `empty-` case's line, the wall time aside.
pub open spec fn empty_fields(c: Case, value: Option<i32>, nodes: u64, secs: Seq<char>, max_depth: usize, ssk_only: u64) -> Seq<
    (Seq<char>, Seq<char>),
> {
    let (rep, budget) = match c {
        Case::Empty { rep, budget, .. } => (rep, budget),
        _ => (Repetition::Psk, 0),
    };
    seq![
        ("case"@, case_name(c)),
        ("rule"@, if rep is Psk { "psk"@ } else { "ssk"@ }),
        ("value"@, match value {
            Some(v) => crate::text::dec_int(v as int),
            None => "unresolved"@,
        }),
        ("nodes"@, dec(nodes as nat)),
        ("seconds"@, secs),
        ("budget"@, dec(budget as nat)),
        ("max-depth"@, dec(max_depth as nat)),
        ("ssk-only"@, dec(ssk_only as nat)),
    ]
}

/// The fields of a `sweep-` case's line, the wall time aside.
pub open spec fn sweep_fields(c: Case, s: Sweep, secs: Seq<char>) -> Seq<(Seq<char>, Seq<char>)> {
    let budget = match c {
        Case::Sweep { budget, .. } => budget,
        _ => 0,
    };
    seq![
        ("case"@, case_name(c)),
        ("rule"@, "psk,ssk"@),
        ("resolved"@, dec(s.resolved as nat)),
        ("unresolved"@, dec(s.unresolved as nat)),
        ("separating"@, dec(s.separating as nat)),
        ("nodes"@, dec(s.nodes as nat)),
        ("seconds"@, secs),
        ("budget"@, dec(budget as nat)),
        ("roots"@, dec(s.roots as nat)),
        ("ssk-only-plays"@, dec(s.ssk_only_plays as nat)),
        ("resolved-with-ssk-only"@, dec(s.resolved_with_ssk_only as nat)),
        ("searched"@, dec(s.searched as nat)),
        ("transported"@, dec(s.transported as nat)),
    ]
}

/// What a case's line says: for an `empty-` case, the search the solver
/// reports for the empty board; for a `sweep-` case, the sweep of its
/// board at its budget under the settings' threads and symmetry. The wall
/// time is whatever the clock gave.
pub open spec fn case_line_ok(c: Case, settings: Settings, f: Seq<(Seq<char>, Seq<char>)>) -> bool {
    let d = case_dims(c);
    match c {
        Case::Empty { rep, budget, .. } => exists|sol: crate::search::Solution, micros: nat|
            solution_ok(play_rules(d, rep, Suicide::Forbid), seat_node(rep, 0, Color::Black), Some(budget), sol) && f
                == #[trigger] empty_fields(c, sol.value, sol.nodes, seconds_text(micros), sol.max_depth, sol.ssk_only),
        Case::Sweep { budget, .. } => exists|s: Sweep, micros: nat|
            sweep_ok(
                d,
                Suicide::Forbid,
                Options {
                    budget: Some(budget),
                    min_stones: 0,
                    threads: settings.threads,
                    symmetry: settings.symmetry,
                },
                s,
            ) && f == #[trigger] sweep_fields(c, s, seconds_text(micros)),
    }
}

/// Run one case and describe it. A board the transition table refuses is
/// refused, with the table's words; so is a `sweep-` case under a thread
/// count of zero. An `empty-` case runs one search, whatever the thread
/// count.
pub fn run_case(case: &Case, settings: &Settings) -> (r: Result<Line, String>)
    requires
        case_dims(*case).wf(),
    ensures
        r is Ok ==> case_line_ok(*case, *settings, field_texts(r->Ok_0.fields@)),
        r is Ok <==> case_dims(*case).size() <= MAX_TABLE_POINTS && (case is Sweep ==> settings.threads > 0),
{
    let table = match RuleTable::build(case.dims(), Suicide::Forbid) {
        Ok(t) => t,
        Err(e) => {
            return Err(e.to_string());
        },
    };
    if let Case::Sweep { .. } = case {
        if settings.threads == 0 {
            return Err(text("a sweep needs at least one thread"));
        }
    }
    let mut line = Line::new();
    line.push("case", case.name());
    match *case {
        Case::Empty { rep, budget, .. } => {
            let started = clock();
            let mut solver = Solver::new(&table, rep).with_budget(Some(budget));
            proof {
                crate::code::lemma_pow3_monotone(0, case_dims(*case).size());
            }
            let solution = solver.solve_root(PosCode(0), Color::Black);
            let secs = seconds(as_micros(&elapsed(&started)));
            line.push("rule", text(rep.slug()));
            line.push("value", match solution.value {
                Some(v) => signed(v),
                None => text("unresolved"),
            });
            line.push("nodes", decimal(solution.nodes));
            let ghost s = secs@;
            line.push("seconds", secs);
            line.push("budget", decimal(budget));
            line.push("max-depth", decimal(solution.max_depth as u64));
            line.push("ssk-only", decimal(solution.ssk_only));
            proof {
                assert(field_texts(line.fields@) =~= empty_fields(
                    *case,
                    solution.value,
                    solution.nodes,
                    s,
                    solution.max_depth,
                    solution.ssk_only,
                ));
            }
        },
        Case::Sweep { budget, .. } => {
            let started = clock();
            let opts = Options {
                budget: Some(budget),
                min_stones: 0,
                threads: settings.threads,
                symmetry: settings.symmetry,
            };
            let sweep = sweep_with(&table, opts);
            let secs = seconds(as_micros(&elapsed(&started)));
            line.push("rule", text("psk,ssk"));
            line.push("resolved", decimal(sweep.resolved));
            line.push("unresolved", decimal(sweep.unresolved));
            line.push("separating", decimal(sweep.separating));
            line.push("nodes", decimal(sweep.nodes));
            let ghost s = secs@;
            line.push("seconds", secs);
            line.push("budget", decimal(budget));
            line.push("roots", decimal(sweep.roots));
            line.push("ssk-only-plays", decimal(sweep.ssk_only_plays));
            line.push("resolved-with-ssk-only", decimal(sweep.resolved_with_ssk_only));
            line.push("searched", decimal(sweep.searched));
            line.push("transported", decimal(sweep.transported));
            proof {
                assert(field_texts(line.fields@) =~= sweep_fields(*case, sweep, s));
            }
        },
    }
    Ok(line)
}

/// Run the whole suite: the header, then each case's line in order,
/// stopping at the first case [`run_case`] refuses.
pub fn run(settings: &Settings) -> (r: Result<Vec<String>, String>)
    ensures
        r is Ok ==> r->Ok_0@.len() == 10 && r->Ok_0@[0]@ == "flags order="@ + order_text(MoveOrder::Heuristic)
            + " threads="@ + dec(settings.threads as nat) + " symmetry="@ + (if settings.symmetry {
            "on"@
        } else {
            "off"@
        }),
        r is Ok <==> settings.threads > 0,
{
    let mut out: Vec<String> = Vec::new();
    out.push(settings.header());
    let cases = suite();
    let mut i: usize = 0;
    while i < cases.len()
        invariant
            cases@ == suite_spec(),
            i <= cases@.len(),
            out@.len() == i + 1,
            i > 8 ==> settings.threads > 0,
            out@[0]@ == "flags order="@ + order_text(MoveOrder::Heuristic) + " threads="@ + dec(settings.threads as nat)
                + " symmetry="@ + (if settings.symmetry {
                "on"@
            } else {
                "off"@
            }),
        decreases cases@.len() - i,
    {
        proof {
            lemma_suite_boards(i as int);
        }
        let line = run_case(&cases[i], settings)?;
        out.push(line.to_string());
        i += 1;
    }
    Ok(out)
}

/// Every board of the suite is one the transition table covers.
proof fn lemma_suite_boards(i: int)
    requires
        0 <= i < 9,
    ensures
        case_dims(suite_spec()[i]).wf(),
        case_dims(suite_spec()[i]).size() <= MAX_TABLE_POINTS,
        (suite_spec()[i] is Sweep) == (i == 8),
{
    let s = suite_spec();
    let d = case_dims(s[i]);
    if i == 0 || i == 1 {
        assert(d == Dims { rows: 1, cols: 5 });
    } else if i == 2 || i == 3 {
        assert(d == Dims { rows: 1, cols: 6 });
    } else if i == 4 || i == 5 {
        assert(d == Dims { rows: 1, cols: 7 });
    } else {
        assert(d == Dims { rows: 2, cols: 3 });
    }
    assert(d.rows * d.cols <= 12) by (nonlinear_arith)
        requires
            (d.rows == 1 && d.cols <= 7) || (d.rows == 2 && d.cols == 3),
    ;
}

/// The fixed suite.
pub open spec fn suite_spec() -> Seq<Case> {
    seq![
        Case::Empty { dims: Dims { rows: 1, cols: 5 }, rep: Repetition::Psk, budget: SOLVE_BUDGET_CAP },
        Case::Empty { dims: Dims { rows: 1, cols: 5 }, rep: Repetition::Ssk, budget: SOLVE_BUDGET_CAP },
        Case::Empty { dims: Dims { rows: 1, cols: 6 }, rep: Repetition::Psk, budget: SOLVE_BUDGET_CAP },
        Case::Empty { dims: Dims { rows: 1, cols: 6 }, rep: Repetition::Ssk, budget: SOLVE_BUDGET_CAP },
        Case::Empty { dims: Dims { rows: 1, cols: 7 }, rep: Repetition::Psk, budget: SOLVE_BUDGET_CAP },
        Case::Empty { dims: Dims { rows: 1, cols: 7 }, rep: Repetition::Ssk, budget: SOLVE_BUDGET_CAP },
        Case::Empty { dims: Dims { rows: 2, cols: 3 }, rep: Repetition::Psk, budget: SOLVE_BUDGET_CAP },
        Case::Empty { dims: Dims { rows: 2, cols: 3 }, rep: Repetition::Ssk, budget: SOLVE_BUDGET_CAP },
        Case::Sweep { dims: Dims { rows: 2, cols: 3 }, budget: SWEEP_BUDGET_CAP },
    ]
}

} // verus!
