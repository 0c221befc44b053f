//! The separation sweep: every root of a board, solved under both repetition
//! rules, looking for one whose value differs.
//!
//! A root is a **separating position** when the minimax area difference
//! under positional superko differs from the one under situational superko.
//! The sweep ranges over every one of the `3^(m·n)` colorings with each color
//! to move, in the order codes ascending, Black to move before White; a
//! coloring no play can reach is an instance of the problem and is swept.
//!
//! Minimality is taken in the order **stones ascending, then position code
//! ascending, then Black to move before White**.
//!
//! The sweep compares scores, because one score search answers about every
//! komi at once. The witness it names is a verdict at one komi floor,
//! produced by [`verdicts`] from the verdict recursion, so the witness itself
//! never routes through the agreement between scores and winners.
//!
//! With [`Options::symmetry`] set, the sweep searches one root of each orbit
//! under the board's symmetries and the color swap, its least member in the
//! sweep order, and gives every other member its representative's two
//! solutions, the value negated when the map between them exchanges the
//! colors. That the value of a root is unchanged by a board symmetry and
//! negated by the color swap is not proved here; a sweep run with it states
//! what the transport gives, and nothing more.
//!
//! Every root, searched or transported, goes through one fold in the sweep
//! order, and the fold is the only place a [`Sweep`] is assembled.

use vstd::prelude::*;

use crate::census::{is_legal, legal_spec};
use crate::code::{cells_of, code_space, decode, pow3, render, render_spec, PosCode};
use crate::config::{Dims, Repetition, Suicide};
use crate::enumerate::codes;
use crate::naive::play_rules;
use crate::reference::{Color, Position, PositionModel};
use crate::search::{decision_ok, nvalue, nwins, seat_node, solution_ok, Decision, Solution, Solver};
use crate::symmetry::{group, moved_cells, moved_code, swapped_code, Symmetries};
use crate::table::{pos_of, RuleTable, TooLarge, MAX_TABLE_POINTS};
use crate::text::{dec, dec_int, key_text, key_value, push_char, push_decimal, push_signed, push_str};

verus! {

/// One root whose value differs between the two repetition rules.
#[derive(Clone, Copy, Debug, PartialEq, Eq)]
pub struct Separating {
    /// The root position.
    pub code: PosCode,
    /// Who moves first from it.
    pub to_move: Color,
    /// The minimax area difference under positional superko.
    pub psk: i32,
    /// The minimax area difference under situational superko.
    pub ssk: i32,
    /// Stones on the board, both colors.
    pub stones: u32,
    /// Whether no chain of the position lacks a liberty.
    pub liberties: bool,
    /// Whether a symmetric sweep took the two values from the root's orbit
    /// representative rather than searching the root.
    pub transported: bool,
}

/// The number of a color in the minimality order: Black first.
pub open spec fn color_rank(c: Color) -> u8 {
    match c {
        Color::Black => 0,
        Color::White => 1,
    }
}

/// The key minimality is taken in.
pub open spec fn rank_spec(stones: u32, code: PosCode, to_move: Color) -> (u32, u32, u8) {
    (stones, code.0, color_rank(to_move))
}

/// Whether one key comes strictly before another, lexicographically.
pub open spec fn rank_lt(a: (u32, u32, u8), b: (u32, u32, u8)) -> bool {
    a.0 < b.0 || (a.0 == b.0 && (a.1 < b.1 || (a.1 == b.1 && a.2 < b.2)))
}

/// The key minimality is taken in: stones, then position code, then Black
/// to move before White.
pub fn rank_of(stones: u32, code: PosCode, to_move: Color) -> (r: (u32, u32, u8))
    ensures
        r == rank_spec(stones, code, to_move),
{
    let color: u8 = match to_move {
        Color::Black => 0,
        Color::White => 1,
    };
    (stones, code.0, color)
}

/// Whether one key comes strictly before another.
pub fn rank_less(a: (u32, u32, u8), b: (u32, u32, u8)) -> (r: bool)
    ensures
        r == rank_lt(a, b),
{
    a.0 < b.0 || (a.0 == b.0 && (a.1 < b.1 || (a.1 == b.1 && a.2 < b.2)))
}

/// The integers from `lo` up to one below `hi`.
pub open spec fn floors_spec(lo: int, hi: int) -> Seq<i64> {
    Seq::new(if hi > lo {
        (hi - lo) as nat
    } else {
        0
    }, |i: int| (lo + i) as i64)
}

/// Whether the two rules give different winners at a komi floor: a value
/// wins for Black at a floor when it exceeds it.
pub open spec fn winners_differ(psk: int, ssk: int, k: int) -> bool {
    (psk > k) != (ssk > k)
}

/// The lower of two values.
pub open spec fn lower(a: i32, b: i32) -> int {
    if a <= b {
        a as int
    } else {
        b as int
    }
}

/// The higher of two values.
pub open spec fn upper(a: i32, b: i32) -> int {
    if a <= b {
        b as int
    } else {
        a as int
    }
}

/// The komi floors of a separating root are exactly the floors at which
/// the two rules give different winners, where a color wins at a floor
/// when the value exceeds it; listed in increasing order.
pub proof fn law_komi_floors(psk: i32, ssk: i32)
    ensures
        forall|i: int|
            0 <= i < floors_spec(lower(psk, ssk), upper(psk, ssk)).len() ==> winners_differ(
                psk as int,
                ssk as int,
                #[trigger] floors_spec(lower(psk, ssk), upper(psk, ssk))[i] as int,
            ),
        forall|k: int|
            #[trigger] winners_differ(psk as int, ssk as int, k) ==> exists|i: int|
                0 <= i < floors_spec(lower(psk, ssk), upper(psk, ssk)).len() && floors_spec(lower(psk, ssk), upper(psk, ssk))[i]
                    as int == k,
        forall|i: int, j: int|
            0 <= i < j < floors_spec(lower(psk, ssk), upper(psk, ssk)).len() ==> (#[trigger] floors_spec(
                lower(psk, ssk),
                upper(psk, ssk),
            )[i] as int) < (#[trigger] floors_spec(lower(psk, ssk), upper(psk, ssk))[j] as int),
{
    let lo = lower(psk, ssk);
    let hi = upper(psk, ssk);
    let f = floors_spec(lo, hi);
    assert forall|i: int| 0 <= i < f.len() implies winners_differ(psk as int, ssk as int, #[trigger] f[i] as int) by {
        assert(f[i] as int == lo + i);
    }
    assert forall|k: int| #[trigger] winners_differ(psk as int, ssk as int, k) implies exists|i: int|
        0 <= i < f.len() && f[i] as int == k by {
        assert(f[k - lo] as int == k);
    }
    assert forall|i: int, j: int| 0 <= i < j < f.len() implies (#[trigger] f[i] as int) < (#[trigger] f[j] as int) by {
        assert(f[i] as int == lo + i);
        assert(f[j] as int == lo + j);
    }
}

impl Separating {
    /// The key minimality is taken in: [`rank_of`] of this root.
    pub fn rank(&self) -> (r: (u32, u32, u8))
        ensures
            r == rank_spec(self.stones, self.code, self.to_move),
    {
        rank_of(self.stones, self.code, self.to_move)
    }

    /// The komi floors at which the two rules give different winners, if
    /// scores and winners agree: the integers from the lower value up to one
    /// below the higher.
    pub fn komi_floors(&self) -> (r: Vec<i64>)
        ensures
            r@ == floors_spec(
                if self.psk <= self.ssk {
                    self.psk as int
                } else {
                    self.ssk as int
                },
                if self.psk <= self.ssk {
                    self.ssk as int
                } else {
                    self.psk as int
                },
            ),
            forall|i: int| 0 <= i < r@.len() ==> winners_differ(self.psk as int, self.ssk as int, #[trigger] r@[i] as int),
            forall|k: int|
                #[trigger] winners_differ(self.psk as int, self.ssk as int, k) ==> exists|i: int| 0 <= i < r@.len() && r@[i] as int == k,
    {
        proof {
            law_komi_floors(self.psk, self.ssk);
        }
        let lo: i64 = if self.psk <= self.ssk {
            self.psk as i64
        } else {
            self.ssk as i64
        };
        let hi: i64 = if self.psk <= self.ssk {
            self.ssk as i64
        } else {
            self.psk as i64
        };
        let mut out: Vec<i64> = Vec::new();
        let mut k = lo;
        while k < hi
            invariant
                lo <= k <= hi,
                lo >= i32::MIN,
                hi <= i32::MAX,
                out@ == floors_spec(lo as int, k as int),
            decreases hi - k,
        {
            out.push(k);
            k += 1;
            assert(out@ =~= floors_spec(lo as int, k as int));
        }
        out
    }
}

/// Both rules' verdicts for both colors at one komi floor.
#[derive(Clone, Copy, Debug, PartialEq, Eq)]
pub struct Verdicts {
    /// The komi floor the four verdicts are at.
    pub komi_floor: i64,
    /// Black has a winning strategy under positional superko.
    pub psk_black: bool,
    /// White has a winning strategy under positional superko.
    pub psk_white: bool,
    /// Black has a winning strategy under situational superko.
    pub ssk_black: bool,
    /// White has a winning strategy under situational superko.
    pub ssk_white: bool,
    /// Plays the four searches skipped as mirror images, added up: none,
    /// since every search visits every legal play.
    pub mirrored_skips: u64,
}

impl Verdicts {
    /// Whether the two rules disagree about who wins.
    pub fn separates(&self) -> (r: bool)
        ensures
            r == (self.psk_black != self.ssk_black),
    {
        self.psk_black != self.ssk_black
    }

    /// Whether exactly one color wins under each rule.
    pub fn determined(&self) -> (r: bool)
        ensures
            r == (self.psk_black != self.psk_white && self.ssk_black != self.ssk_white),
    {
        self.psk_black != self.psk_white && self.ssk_black != self.ssk_white
    }
}

/// Whether `who` wins from a root under a rule at a komi floor.
pub open spec fn root_wins(d: Dims, s: Suicide, rep: Repetition, code: nat, to_move: Color, k: int, who: Color) -> bool {
    nwins(play_rules(d, rep, s), seat_node(rep, code, to_move), k, who)
}

/// One verdict search from a root, `None` when it ran out of budget.
fn ask(table: &RuleTable, rep: Repetition, code: PosCode, to_move: Color, komi_floor: i64, c: Color, budget: Option<
    u64,
>) -> (r: Option<bool>)
    requires
        table.wf(),
        (code.0 as nat) < codes(table@.dims),
    ensures
        r is Some ==> r == Some(
            root_wins(table@.dims, table@.suicide, rep, code.0 as nat, to_move, komi_floor as int, c),
        ),
        r is None ==> budget is Some,
{
    let mut solver = Solver::new(table, rep).with_budget(budget);
    let d = solver.decide_root(code, to_move, komi_floor, c);
    d.wins
}

/// Both rules' verdicts for both colors at one komi floor, each by the
/// verdict recursion: four searches, not one score search read four ways.
/// `None` when a search ran out of the node budget: an unresolved verdict is
/// not a verdict.
pub fn verdicts(table: &RuleTable, code: PosCode, to_move: Color, komi_floor: i64, budget: Option<u64>) -> (r:
    Option<Verdicts>)
    requires
        table.wf(),
        (code.0 as nat) < codes(table@.dims),
    ensures
        budget is None ==> r is Some,
        r is Some ==> ({
            let v = r->Some_0;
            let (d, s, c, k) = (table@.dims, table@.suicide, code.0 as nat, komi_floor as int);
            &&& v.komi_floor == komi_floor
            &&& v.psk_black == root_wins(d, s, Repetition::Psk, c, to_move, k, Color::Black)
            &&& v.psk_white == root_wins(d, s, Repetition::Psk, c, to_move, k, Color::White)
            &&& v.ssk_black == root_wins(d, s, Repetition::Ssk, c, to_move, k, Color::Black)
            &&& v.ssk_white == root_wins(d, s, Repetition::Ssk, c, to_move, k, Color::White)
            &&& v.mirrored_skips == 0
        }),
{
    let psk_black = ask(table, Repetition::Psk, code, to_move, komi_floor, Color::Black, budget);
    let psk_white = ask(table, Repetition::Psk, code, to_move, komi_floor, Color::White, budget);
    let ssk_black = ask(table, Repetition::Ssk, code, to_move, komi_floor, Color::Black, budget);
    let ssk_white = ask(table, Repetition::Ssk, code, to_move, komi_floor, Color::White, budget);
    match (psk_black, psk_white, ssk_black, ssk_white) {
        (Some(a), Some(b), Some(c), Some(d)) => Some(
            Verdicts { komi_floor, psk_black: a, psk_white: b, ssk_black: c, ssk_white: d, mirrored_skips: 0 },
        ),
        _ => None,
    }
}

/// A root's value from the value of the root a symmetry maps it to: negated
/// when the map exchanges the colors, unchanged when it does not.
pub fn transported_value(value: i32, swapped: bool) -> (r: i32)
    requires
        value > i32::MIN,
    ensures
        r == if swapped {
            -value
        } else {
            value as int
        },
{
    if swapped {
        -value
    } else {
        value
    }
}

/// The komi floor a verdict is transported to: exchanging the colors
/// negates the area difference, so "`x` wins at floor `k`" becomes "the
/// other color wins at floor `-k - 1`"; a board symmetry leaves the floor
/// where it is.
pub fn transported_floor(komi_floor: i64, swapped: bool) -> (r: i64)
    requires
        komi_floor > i64::MIN,
    ensures
        r == if swapped {
            -komi_floor - 1
        } else {
            komi_floor as int
        },
{
    if swapped {
        -komi_floor - 1
    } else {
        komi_floor
    }
}

/// How many stones stand among the first `k` cells.
pub open spec fn stones_upto(cells: Seq<Option<Color>>, k: int) -> nat
    decreases k,
{
    if k <= 0 {
        0
    } else {
        stones_upto(cells, k - 1) + if cells[k - 1] is Some {
            1nat
        } else {
            0nat
        }
    }
}

/// Stones on a position, both colors.
pub open spec fn stones_spec(b: PositionModel) -> nat {
    stones_upto(b.cells, b.cells.len() as int)
}

/// Stones on a board, both colors.
fn stone_count(board: &Position) -> (r: u32)
    requires
        board@.cells.len() <= MAX_TABLE_POINTS,
    ensures
        r == stones_spec(board@),
{
    let cells = board.cells();
    let mut count: u32 = 0;
    let mut i: usize = 0;
    while i < cells.len()
        invariant
            cells@ == board@.cells,
            cells@.len() <= MAX_TABLE_POINTS,
            i <= cells@.len(),
            count == stones_upto(cells@, i as int),
            count <= i,
        decreases cells@.len() - i,
    {
        if cells[i].is_some() {
            count += 1;
        }
        i += 1;
    }
    count
}

/// The root at a place in the sweep order: codes ascending, Black to move
/// before White.
pub open spec fn root_at_spec(index: int) -> (PosCode, Color) {
    (PosCode((index / 2) as u32), if index % 2 == 0 {
        Color::Black
    } else {
        Color::White
    })
}

/// The place of a root in the sweep order.
pub open spec fn place_spec(code: nat, to_move: Color) -> int {
    2 * code + color_rank(to_move)
}

/// The root at a place in the sweep order.
fn root_at(index: usize) -> (r: (PosCode, Color))
    requires
        index / 2 <= u32::MAX,
    ensures
        r == root_at_spec(index as int),
{
    let code = PosCode((index / 2) as u32);
    let to_move = if index % 2 == 0 {
        Color::Black
    } else {
        Color::White
    };
    (code, to_move)
}

/// The place of a root in the sweep order, the inverse of [`root_at`].
fn place(code: PosCode, to_move: Color) -> (r: usize)
    requires
        code.0 < 0x4000_0000,
    ensures
        r == place_spec(code.0 as nat, to_move),
{
    let base = code.0 as usize * 2;
    match to_move {
        Color::Black => base,
        Color::White => base + 1,
    }
}

/// What a sweep recorded for one root, before anything is added up.
#[derive(Clone, Copy, Debug, PartialEq, Eq)]
pub struct RootOutcome {
    /// The root position.
    pub code: PosCode,
    /// Who moves first from it.
    pub to_move: Color,
    /// The search under positional superko, or `None` when the stone-count
    /// floor skipped the root. For a transported root, the representative's
    /// search with its value transported.
    pub psk: Option<Solution>,
    /// The search under situational superko, likewise.
    pub ssk: Option<Solution>,
    /// Whether the values were transported from the root's representative.
    pub transported: bool,
}

/// One root of a sweep, with its stones and whether it carries no
/// libertyless chain.
#[derive(Clone, Copy, Debug)]
struct Root {
    outcome: RootOutcome,
    stones: u32,
    liberties: bool,
}

/// A root searched at its place: its code and color are the place's, the
/// floor decides whether it was searched, and each search is one the solver
/// of its rule reports for it.
pub open spec fn searched_ok(d: Dims, s: Suicide, budget: Option<u64>, min_stones: u32, index: int, o: RootOutcome) -> bool {
    let (code, to_move) = root_at_spec(index);
    let b = pos_of(d, code.0 as nat);
    &&& o.code == code
    &&& o.to_move == to_move
    &&& !o.transported
    &&& (stones_spec(b) < min_stones <==> o.psk is None)
    &&& (o.psk is None <==> o.ssk is None)
    &&& o.psk is Some ==> solution_ok(
        play_rules(d, Repetition::Psk, s),
        seat_node(Repetition::Psk, code.0 as nat, to_move),
        budget,
        o.psk->Some_0,
    )
    &&& o.ssk is Some ==> solution_ok(
        play_rules(d, Repetition::Ssk, s),
        seat_node(Repetition::Ssk, code.0 as nat, to_move),
        budget,
        o.ssk->Some_0,
    )
}

/// Search the root at one place of the sweep order under both rules,
/// unless the stone-count floor excludes it.
fn solve_at(psk: &mut Solver, ssk: &mut Solver, dims: Dims, min_stones: u32, index: usize) -> (r: Root)
    requires
        old(psk).wf(),
        old(ssk).wf(),
        old(psk)@.dims == dims,
        old(ssk)@.dims == dims,
        old(psk)@.rep == Repetition::Psk,
        old(ssk)@.rep == Repetition::Ssk,
        old(psk)@.suicide == old(ssk)@.suicide,
        old(psk)@.budget == old(ssk)@.budget,
        index < 2 * codes(dims),
    ensures
        final(psk).wf(),
        final(ssk).wf(),
        final(psk)@ == old(psk)@,
        final(ssk)@ == old(ssk)@,
        searched_ok(dims, old(psk)@.suicide, old(psk)@.budget, min_stones, index as int, r.outcome),
        r.stones == stones_spec(pos_of(dims, r.outcome.code.0 as nat)),
        r.liberties == legal_spec(pos_of(dims, r.outcome.code.0 as nat)),
{
    let _d = psk.dims();
    proof {
        crate::code::lemma_pow3_monotone(dims.size(), 12);
        assert(pow3(12) == 531441) by {
            reveal_with_fuel(pow3, 13);
        }
    }
    let (code, to_move) = root_at(index);
    let board = decode(dims, code);
    let stones = stone_count(&board);
    let liberties = is_legal(&board);
    if stones < min_stones {
        return Root {
            outcome: RootOutcome { code, to_move, psk: None, ssk: None, transported: false },
            stones,
            liberties,
        };
    }
    let a = psk.solve_root(code, to_move);
    let b = ssk.solve_root(code, to_move);
    Root {
        outcome: RootOutcome { code, to_move, psk: Some(a), ssk: Some(b), transported: false },
        stones,
        liberties,
    }
}


/// What a sweep of one board found.
#[derive(Clone, Debug, PartialEq, Eq)]
pub struct Sweep {
    /// The board.
    pub dims: Dims,
    /// The size of the domain: `2 · 3^(m·n)`, every coloring with each color
    /// to move.
    pub roots: u64,
    /// Roots both searches resolved within the node budget.
    pub resolved: u64,
    /// Roots a search abandoned.
    pub unresolved: u64,
    /// The least unresolved root in the minimality order.
    pub unresolved_least: Option<(PosCode, Color, u32)>,
    /// The least unresolved root carrying no libertyless chain.
    pub unresolved_least_liberties: Option<(PosCode, Color, u32)>,
    /// Separating roots among the resolved ones.
    pub separating: u64,
    /// Separating roots carrying no libertyless chain.
    pub separating_liberties: u64,
    /// The least separating root in the minimality order.
    pub minimal: Option<Separating>,
    /// The least separating root carrying no libertyless chain.
    pub minimal_liberties: Option<Separating>,
    /// The empty board's value under positional superko, when resolved.
    pub empty_psk: Option<i32>,
    /// The empty board's value under situational superko, when resolved.
    pub empty_ssk: Option<i32>,
    /// Nodes visited across every search the sweep ran, saturating.
    pub nodes: u64,
    /// Plays positional superko would have refused that the
    /// situational-superko searches made, saturating.
    pub ssk_only_plays: u64,
    /// Roots whose situational-superko search made at least one such play.
    pub roots_with_ssk_only: u64,
    /// Resolved roots whose situational-superko search made at least one
    /// such play.
    pub resolved_with_ssk_only: u64,
    /// Roots excluded by the stone-count floor.
    pub skipped: u64,
    /// The stone-count floor the sweep ran under; zero sweeps everything.
    pub min_stones: u32,
    /// Whether the sweep searched orbit representatives only.
    pub symmetry: bool,
    /// Roots whose two searches ran.
    pub searched: u64,
    /// Roots whose values were transported from their representative.
    pub transported: u64,
    /// Whether the sweep's searches skipped mirrored plays: never, for a
    /// sweep run here, since every search visits every play. A report built
    /// by hand may say otherwise, and its lines then name that mode.
    pub mirrored_moves: bool,
    /// Plays skipped as mirror images across every search the sweep ran:
    /// none, since every search visits every play.
    pub mirrored_skips: u64,
}

/// How a sweep runs: the node budget of each search, the stone-count floor
/// of the domain, the number of threads a caller may spread the roots over,
/// and whether one root of each orbit is searched and the rest transported.
/// No search here skips a play as a mirror image of another, so there is no
/// option for it.
#[derive(Clone, Copy, Debug, PartialEq, Eq)]
pub struct Options {
    /// The node budget of each search, when there is one.
    pub budget: Option<u64>,
    /// The stone-count floor of the domain; zero sweeps everything.
    pub min_stones: u32,
    /// The number of threads the roots are spread over, at least one.
    pub threads: usize,
    /// Search one root of each orbit, and transport the values to the rest.
    pub symmetry: bool,
}

impl Default for Options {
    /// Every root searched in full, no budget, one thread.
    fn default() -> (r: Self)
        ensures
            r == (Options { budget: None, min_stones: 0, threads: 1, symmetry: false }),
    {
        Options { budget: None, min_stones: 0, threads: 1, symmetry: false }
    }
}

/// A sum that saturates at the largest `u64`.
pub open spec fn sat(a: u64, b: u64) -> u64 {
    if a + b > u64::MAX {
        u64::MAX
    } else {
        (a + b) as u64
    }
}

/// One more.
pub open spec fn inc(a: u64) -> u64 {
    (a + 1) as u64
}

/// One more when the condition holds.
pub open spec fn inc_if(a: u64, c: bool) -> u64 {
    if c {
        inc(a)
    } else {
        a
    }
}

/// The sweep before any root: the domain's size and the options.
pub open spec fn sweep_start(d: Dims, opts: Options) -> Sweep {
    Sweep {
        dims: d,
        roots: (2 * codes(d)) as u64,
        resolved: 0,
        unresolved: 0,
        unresolved_least: None,
        unresolved_least_liberties: None,
        separating: 0,
        separating_liberties: 0,
        minimal: None,
        minimal_liberties: None,
        empty_psk: None,
        empty_ssk: None,
        nodes: 0,
        ssk_only_plays: 0,
        roots_with_ssk_only: 0,
        resolved_with_ssk_only: 0,
        skipped: 0,
        min_stones: opts.min_stones,
        symmetry: opts.symmetry,
        searched: 0,
        transported: 0,
        mirrored_moves: false,
        mirrored_skips: 0,
    }
}

/// The least of a current minimum and a new candidate, the current one kept
/// on a tie.
pub open spec fn least_sep(cur: Option<Separating>, found: Separating) -> Option<Separating> {
    match cur {
        None => Some(found),
        Some(best) => if rank_lt(
            rank_spec(found.stones, found.code, found.to_move),
            rank_spec(best.stones, best.code, best.to_move),
        ) {
            Some(found)
        } else {
            cur
        },
    }
}

/// The least of a current least unresolved root and a new one.
pub open spec fn least_root(cur: Option<(PosCode, Color, u32)>, code: PosCode, to_move: Color, stones: u32) -> Option<
    (PosCode, Color, u32),
> {
    match cur {
        None => Some((code, to_move, stones)),
        Some((c, m, st)) => if rank_lt(rank_spec(stones, code, to_move), rank_spec(st, c, m)) {
            Some((code, to_move, stones))
        } else {
            cur
        },
    }
}

/// What one resolved root whose two values differ adds.
pub open spec fn fold_separating(out: Sweep, found: Separating) -> Sweep {
    let out = Sweep { separating: inc(out.separating), minimal: least_sep(out.minimal, found), ..out };
    if found.liberties {
        Sweep {
            separating_liberties: inc(out.separating_liberties),
            minimal_liberties: least_sep(out.minimal_liberties, found),
            ..out
        }
    } else {
        out
    }
}

/// What one root adds to a sweep: a skipped root is counted as skipped;
/// otherwise its searches' work, its ssk-only plays, the empty board's
/// values, and then either its resolution and separation or its place among
/// the unresolved.
pub open spec fn fold_step(out: Sweep, o: RootOutcome, stones: u32, liberties: bool) -> Sweep {
    match (o.psk, o.ssk) {
        (Some(a), Some(b)) => {
            let out = if o.transported {
                Sweep { transported: inc(out.transported), ..out }
            } else {
                Sweep {
                    searched: inc(out.searched),
                    nodes: sat(sat(out.nodes, a.nodes), b.nodes),
                    mirrored_skips: sat(sat(out.mirrored_skips, a.mirrored_skips), b.mirrored_skips),
                    ..out
                }
            };
            let out = Sweep {
                ssk_only_plays: sat(out.ssk_only_plays, b.ssk_only),
                roots_with_ssk_only: inc_if(out.roots_with_ssk_only, b.ssk_only > 0),
                ..out
            };
            let out = if o.code.0 == 0 && o.to_move == Color::Black {
                Sweep { empty_psk: a.value, empty_ssk: b.value, ..out }
            } else {
                out
            };
            match (a.value, b.value) {
                (Some(pv), Some(sv)) => {
                    let out = Sweep {
                        resolved: inc(out.resolved),
                        resolved_with_ssk_only: inc_if(out.resolved_with_ssk_only, b.ssk_only > 0),
                        ..out
                    };
                    if pv == sv {
                        out
                    } else {
                        fold_separating(
                            out,
                            Separating {
                                code: o.code,
                                to_move: o.to_move,
                                psk: pv,
                                ssk: sv,
                                stones,
                                liberties,
                                transported: o.transported,
                            },
                        )
                    }
                },
                _ => {
                    let out = Sweep {
                        unresolved: inc(out.unresolved),
                        unresolved_least: least_root(out.unresolved_least, o.code, o.to_move, stones),
                        ..out
                    };
                    if liberties {
                        Sweep {
                            unresolved_least_liberties: least_root(
                                out.unresolved_least_liberties,
                                o.code,
                                o.to_move,
                                stones,
                            ),
                            ..out
                        }
                    } else {
                        out
                    }
                },
            }
        },
        _ => Sweep { skipped: inc(out.skipped), ..out },
    }
}

/// A sweep added up from its roots in the sweep order, each root's stones
/// and liberties read off its own position.
pub open spec fn fold_spec(d: Dims, opts: Options, roots: Seq<RootOutcome>) -> Sweep
    decreases roots.len(),
{
    if roots.len() == 0 {
        sweep_start(d, opts)
    } else {
        let o = roots.last();
        let b = pos_of(d, o.code.0 as nat);
        fold_step(fold_spec(d, opts, roots.drop_last()), o, stones_spec(b) as u32, legal_spec(b))
    }
}

/// The outcomes of a sequence of roots.
spec fn outcomes(roots: Seq<Root>) -> Seq<RootOutcome> {
    roots.map_values(|r: Root| r.outcome)
}

/// A root's stones and liberties are its own position's.
spec fn root_facts(d: Dims, r: Root) -> bool {
    &&& r.stones as nat == stones_spec(pos_of(d, r.outcome.code.0 as nat))
    &&& r.liberties == legal_spec(pos_of(d, r.outcome.code.0 as nat))
    &&& (r.outcome.psk is Some <==> r.outcome.ssk is Some)
}

/// Every counter of a sweep is at most the number of roots folded.
spec fn counts_within(out: Sweep, k: int) -> bool {
    &&& out.resolved <= k
    &&& out.unresolved <= k
    &&& out.separating <= k
    &&& out.separating_liberties <= k
    &&& out.roots_with_ssk_only <= k
    &&& out.resolved_with_ssk_only <= k
    &&& out.skipped <= k
    &&& out.searched <= k
    &&& out.transported <= k
}

/// Whether an optional minimum is to be replaced by a candidate.
fn beats(cur: Option<Separating>, found: &Separating) -> (r: bool)
    ensures
        r == (cur is None || rank_lt(
            rank_spec(found.stones, found.code, found.to_move),
            rank_spec(cur->Some_0.stones, cur->Some_0.code, cur->Some_0.to_move),
        )),
{
    match cur {
        None => true,
        Some(best) => rank_less(found.rank(), best.rank()),
    }
}

/// Whether an optional least unresolved root is to be replaced.
fn beats_root(cur: Option<(PosCode, Color, u32)>, code: PosCode, to_move: Color, stones: u32) -> (r: bool)
    ensures
        r == (cur is None || rank_lt(
            rank_spec(stones, code, to_move),
            rank_spec(cur->Some_0.2, cur->Some_0.0, cur->Some_0.1),
        )),
{
    match cur {
        None => true,
        Some((c, m, s)) => rank_less(rank_of(stones, code, to_move), rank_of(s, c, m)),
    }
}


/// Add one root to a sweep.
fn fold_root(out: &mut Sweep, root: &Root, Ghost(k): Ghost<int>)
    requires
        0 <= k < 2 * 531441,
        counts_within(*old(out), k),
    ensures
        *final(out) == fold_step(*old(out), root.outcome, root.stones, root.liberties),
        counts_within(*final(out), k + 1),
{
    let o = root.outcome;
    let stones = root.stones;
    let liberties = root.liberties;
    match (o.psk, o.ssk) {
        (Some(a), Some(b)) => {
            if o.transported {
                out.transported = out.transported + 1;
            } else {
                out.searched = out.searched + 1;
                out.nodes = out.nodes.saturating_add(a.nodes).saturating_add(b.nodes);
                out.mirrored_skips = out.mirrored_skips.saturating_add(a.mirrored_skips).saturating_add(
                    b.mirrored_skips,
                );
            }
            out.ssk_only_plays = out.ssk_only_plays.saturating_add(b.ssk_only);
            if b.ssk_only > 0 {
                out.roots_with_ssk_only = out.roots_with_ssk_only + 1;
            }
            if o.code.0 == 0 && o.to_move == Color::Black {
                out.empty_psk = a.value;
                out.empty_ssk = b.value;
            }
            match (a.value, b.value) {
                (Some(pv), Some(sv)) => {
                    out.resolved = out.resolved + 1;
                    if b.ssk_only > 0 {
                        out.resolved_with_ssk_only = out.resolved_with_ssk_only + 1;
                    }
                    if pv != sv {
                        let found = Separating {
                            code: o.code,
                            to_move: o.to_move,
                            psk: pv,
                            ssk: sv,
                            stones,
                            liberties,
                            transported: o.transported,
                        };
                        out.separating = out.separating + 1;
                        if beats(out.minimal, &found) {
                            out.minimal = Some(found);
                        }
                        if liberties {
                            out.separating_liberties = out.separating_liberties + 1;
                            if beats(out.minimal_liberties, &found) {
                                out.minimal_liberties = Some(found);
                            }
                        }
                    }
                },
                _ => {
                    out.unresolved = out.unresolved + 1;
                    if beats_root(out.unresolved_least, o.code, o.to_move, stones) {
                        out.unresolved_least = Some((o.code, o.to_move, stones));
                    }
                    if liberties && beats_root(out.unresolved_least_liberties, o.code, o.to_move, stones) {
                        out.unresolved_least_liberties = Some((o.code, o.to_move, stones));
                    }
                },
            }
        },
        _ => {
            out.skipped = out.skipped + 1;
        },
    }
}

/// Add up a sweep from its roots, taken in the sweep order: the only place
/// a [`Sweep`] is assembled.
fn fold(dims: Dims, opts: Options, roots: &Vec<Root>) -> (r: Sweep)
    requires
        dims.wf(),
        dims.size() <= MAX_TABLE_POINTS,
        roots@.len() == 2 * codes(dims),
        forall|k: int| 0 <= k < roots@.len() ==> root_facts(dims, #[trigger] roots@[k]),
    ensures
        r == fold_spec(dims, opts, outcomes(roots@)),
{
    proof {
        crate::code::lemma_pow3_monotone(dims.size(), 12);
        assert(pow3(12) == 531441) by {
            reveal_with_fuel(pow3, 13);
        }
    }
    let count = code_space(dims) as u64 * 2;
    let mut out = Sweep {
        dims,
        roots: count,
        resolved: 0,
        unresolved: 0,
        unresolved_least: None,
        unresolved_least_liberties: None,
        separating: 0,
        separating_liberties: 0,
        minimal: None,
        minimal_liberties: None,
        empty_psk: None,
        empty_ssk: None,
        nodes: 0,
        ssk_only_plays: 0,
        roots_with_ssk_only: 0,
        resolved_with_ssk_only: 0,
        skipped: 0,
        min_stones: opts.min_stones,
        symmetry: opts.symmetry,
        searched: 0,
        transported: 0,
        mirrored_moves: false,
        mirrored_skips: 0,
    };
    let mut index: usize = 0;
    proof {
        assert(outcomes(roots@).take(0) =~= Seq::<RootOutcome>::empty());
    }
    while index < roots.len()
        invariant
            roots@.len() == 2 * codes(dims),
            codes(dims) <= 531441,
            forall|k: int| 0 <= k < roots@.len() ==> root_facts(dims, #[trigger] roots@[k]),
            index <= roots@.len(),
            out == fold_spec(dims, opts, outcomes(roots@).take(index as int)),
            counts_within(out, index as int),
        decreases roots@.len() - index,
    {
        let root = roots[index];
        let ghost before = out;
        proof {
            assert(root_facts(dims, roots@[index as int]));
            let t = outcomes(roots@).take(index + 1);
            assert(t.drop_last() =~= outcomes(roots@).take(index as int));
            assert(t.last() == root.outcome);
        }
        fold_root(&mut out, &root, Ghost(index as int));
        index += 1;
    }
    proof {
        assert(outcomes(roots@).take(index as int) =~= outcomes(roots@));
    }
    out
}


/// Which halves of the symmetry feature a report names: `off`, `roots`
/// ([`Options::symmetry`]), `moves` ([`Sweep::mirrored_moves`]) and `on`
/// (both).
#[derive(Clone, Copy, Debug, PartialEq, Eq, Structural)]
pub enum SymmetryMode {
    /// Neither half.
    Off,
    /// Canonical roots only: one root of each orbit searched, the rest
    /// transported.
    Roots,
    /// Mirrored moves only: every search skips mirrored plays.
    Moves,
    /// Both halves.
    On,
}

impl Default for SymmetryMode {
    fn default() -> (r: Self)
        ensures
            r == SymmetryMode::Off,
    {
        SymmetryMode::Off
    }
}

impl SymmetryMode {
    /// Every value, in the order a usage text names them.
    pub fn all() -> (r: Vec<SymmetryMode>)
        ensures
            r@ == seq![SymmetryMode::Off, SymmetryMode::Roots, SymmetryMode::Moves, SymmetryMode::On],
    {
        vec![SymmetryMode::Off, SymmetryMode::Roots, SymmetryMode::Moves, SymmetryMode::On]
    }

    /// The value with the two halves given.
    pub fn from_halves(roots: bool, moves: bool) -> (r: Self)
        ensures
            r.roots_spec() == roots,
            r.moves_spec() == moves,
    {
        match (roots, moves) {
            (false, false) => SymmetryMode::Off,
            (true, false) => SymmetryMode::Roots,
            (false, true) => SymmetryMode::Moves,
            (true, true) => SymmetryMode::On,
        }
    }

    /// Whether canonical roots are on.
    pub open spec fn roots_spec(self) -> bool {
        self is Roots || self is On
    }

    /// Whether mirrored moves are on.
    pub open spec fn moves_spec(self) -> bool {
        self is Moves || self is On
    }

    /// The spelling a command line takes and a body prints.
    pub open spec fn name_spec(self) -> Seq<char> {
        match self {
            SymmetryMode::Off => "off"@,
            SymmetryMode::Roots => "roots"@,
            SymmetryMode::Moves => "moves"@,
            SymmetryMode::On => "on"@,
        }
    }

    /// The spelling a command line takes and a body or `flags` line prints.
    pub fn name(self) -> (r: &'static str)
        ensures
            r@ == self.name_spec(),
    {
        match self {
            SymmetryMode::Off => "off",
            SymmetryMode::Roots => "roots",
            SymmetryMode::Moves => "moves",
            SymmetryMode::On => "on",
        }
    }

    /// Whether a sweep searches orbit representatives only.
    pub fn roots(self) -> (r: bool)
        ensures
            r == self.roots_spec(),
    {
        match self {
            SymmetryMode::Roots | SymmetryMode::On => true,
            _ => false,
        }
    }

    /// Whether every search skips mirrored plays.
    pub fn moves(self) -> (r: bool)
        ensures
            r == self.moves_spec(),
    {
        match self {
            SymmetryMode::Moves | SymmetryMode::On => true,
            _ => false,
        }
    }
}

/// A moved position has as many cells as the original, when every index
/// the permutation names is a cell.
proof fn lemma_moved_len(cells: Seq<Option<Color>>, perm: Seq<usize>, k: int)
    requires
        k <= perm.len(),
        forall|i: int| 0 <= i < perm.len() ==> (#[trigger] perm[i] as int) < cells.len(),
    ensures
        moved_cells(cells, perm, k).len() == cells.len(),
    decreases k,
{
    if k > 0 {
        lemma_moved_len(cells, perm, k - 1);
    }
}

/// The image of a code under a symmetry, and under the color swap, is a
/// code of the board.
proof fn lemma_image_codes(d: Dims, g: int, code: nat)
    requires
        d.wf(),
        0 <= g < group(d).len(),
    ensures
        moved_code(d, g, code) < pow3(d.size()),
        swapped_code(d, code) < pow3(d.size()),
{
    let cells = cells_of(d.size(), code);
    let t = group(d)[g];
    let perm = crate::symmetry::t_perm(t, d);
    crate::code::lemma_cells_of_len(d.size(), code);
    crate::symmetry::lemma_group(d);
    crate::config::lemma_grid(d);
    assert forall|i: int| 0 <= i < perm.len() implies (#[trigger] perm[i] as int) < cells.len() by {
        crate::symmetry::lemma_apply_on_board(t, d, d.point_of(i));
    }
    lemma_moved_len(cells, perm, d.size() as int);
    crate::code::lemma_code_bound(moved_cells(cells, perm, d.size() as int));
    crate::code::lemma_code_bound(crate::symmetry::swapped_cells(cells));
}

/// Lexicographic order on a place and whether the colors are exchanged,
/// unexchanged first.
pub open spec fn pair_le(a: (int, bool), b: (int, bool)) -> bool {
    a.0 < b.0 || (a.0 == b.0 && (!a.1 || b.1))
}

/// The member of a root's orbit that the `g`-th symmetry gives, after the
/// color swap when `swapped`: its place, and whether the colors were
/// exchanged.
pub open spec fn orbit_member(d: Dims, code: nat, to_move: Color, g: int, swapped: bool) -> (int, bool) {
    if swapped {
        (place_spec(moved_code(d, g, swapped_code(d, code)), to_move.opp()), true)
    } else {
        (place_spec(moved_code(d, g, code), to_move), false)
    }
}

/// A root's representative: the least member of its orbit, the root itself
/// included, preferring a map without the color swap on a tie.
pub open spec fn is_representative(d: Dims, code: nat, to_move: Color, rep: (int, bool)) -> bool {
    &&& (rep == (place_spec(code, to_move), false) || exists|g: int, sw: bool|
        0 <= g < group(d).len() && rep == #[trigger] orbit_member(d, code, to_move, g, sw))
    &&& pair_le(rep, (place_spec(code, to_move), false))
    &&& forall|g: int, sw: bool| 0 <= g < group(d).len() ==> pair_le(rep, #[trigger] orbit_member(d, code, to_move, g, sw))
}

/// The lesser of two orbit members.
fn pair_min(a: (usize, bool), b: (usize, bool)) -> (r: (usize, bool))
    ensures
        r == a || r == b,
        pair_le((r.0 as int, r.1), (a.0 as int, a.1)),
        pair_le((r.0 as int, r.1), (b.0 as int, b.1)),
{
    if b.0 < a.0 || (b.0 == a.0 && !b.1 && a.1) {
        b
    } else {
        a
    }
}

/// For every place in the sweep order, the place of its orbit's
/// representative and whether the map from the root to it exchanges the
/// colors.
fn representatives(sym: &Symmetries) -> (r: Vec<(usize, bool)>)
    requires
        sym.wf(),
    ensures
        r@.len() == 2 * codes(sym@.dims),
        forall|i: int|
            0 <= i < r@.len() ==> is_representative(
                sym@.dims,
                (i / 2) as nat,
                root_at_spec(i).1,
                ((#[trigger] r@[i]).0 as int, r@[i].1),
            ),
        forall|i: int| 0 <= i < r@.len() ==> (#[trigger] r@[i]).0 < 2 * codes(sym@.dims),
{
    let dims = sym.dims();
    let count = sym.code_count();
    let order = sym.order();
    proof {
        crate::symmetry::lemma_group(dims);
        crate::code::lemma_pow3_monotone(dims.size(), 12);
        assert(pow3(12) == 531441) by {
            reveal_with_fuel(pow3, 13);
        }
    }
    let mut out: Vec<(usize, bool)> = Vec::new();
    let mut raw: usize = 0;
    while raw < count
        invariant
            sym.wf(),
            dims == sym@.dims,
            dims.wf(),
            count == codes(dims),
            count <= 531441,
            order == group(dims).len(),
            raw <= count,
            out@.len() == 2 * raw,
            forall|i: int|
                0 <= i < out@.len() ==> is_representative(
                    dims,
                    (i / 2) as nat,
                    root_at_spec(i).1,
                    ((#[trigger] out@[i]).0 as int, out@[i].1),
                ),
            forall|i: int| 0 <= i < out@.len() ==> (#[trigger] out@[i]).0 < 2 * codes(dims),
        decreases count - raw,
    {
        let code = PosCode(raw as u32);
        let swapped = sym.swap(code);
        proof {
            lemma_image_codes(dims, 0, raw as nat);
        }
        assert((swapped.0 as nat) < count);
        let mut t: usize = 0;
        while t < 2
            invariant
                sym.wf(),
                dims == sym@.dims,
                dims.wf(),
                count == codes(dims),
                count <= 531441,
                order == group(dims).len(),
                raw < count,
                code.0 == raw,
                swapped.0 == swapped_code(dims, raw as nat),
                (swapped.0 as nat) < count,
                t <= 2,
                out@.len() == 2 * raw + t,
                forall|i: int|
                    0 <= i < out@.len() ==> is_representative(
                        dims,
                        (i / 2) as nat,
                        root_at_spec(i).1,
                        ((#[trigger] out@[i]).0 as int, out@[i].1),
                    ),
                forall|i: int| 0 <= i < out@.len() ==> (#[trigger] out@[i]).0 < 2 * codes(dims),
            decreases 2 - t,
        {
            let to_move = if t == 0 {
                Color::Black
            } else {
                Color::White
            };
            let mut best = (place(code, to_move), false);
            let ghost own = (place_spec(raw as nat, to_move), false);
            let mut g: usize = 0;
            while g < order
                invariant
                    sym.wf(),
                    dims == sym@.dims,
                    dims.wf(),
                    count == codes(dims),
                    count <= 531441,
                    order == group(dims).len(),
                    raw < count,
                    code.0 == raw,
                    swapped.0 == swapped_code(dims, raw as nat),
                    (swapped.0 as nat) < count,
                    g <= order,
                    best.0 < 2 * count,
                    own == (place_spec(raw as nat, to_move), false),
                    (best.0 as int, best.1) == own || exists|h: int, sw: bool|
                        0 <= h < group(dims).len() && (best.0 as int, best.1) == #[trigger] orbit_member(
                            dims,
                            raw as nat,
                            to_move,
                            h,
                            sw,
                        ),
                    pair_le((best.0 as int, best.1), own),
                    forall|h: int, sw: bool|
                        0 <= h < g ==> pair_le((best.0 as int, best.1), #[trigger] orbit_member(dims, raw as nat, to_move, h, sw)),
                decreases order - g,
            {
                let moved = sym.code(g, code);
                let moved_swapped = sym.code(g, swapped);
                proof {
                    lemma_image_codes(dims, g as int, raw as nat);
                    lemma_image_codes(dims, g as int, swapped.0 as nat);
                }
                let plain = (place(moved, to_move), false);
                let exchanged = (place(moved_swapped, to_move.other()), true);
                let ghost before = best;
                best = pair_min(pair_min(best, plain), exchanged);
                proof {
                    let p = orbit_member(dims, raw as nat, to_move, g as int, false);
                    let x = orbit_member(dims, raw as nat, to_move, g as int, true);
                    assert(p == (plain.0 as int, plain.1));
                    assert(x == (exchanged.0 as int, exchanged.1));
                    assert forall|h: int, sw: bool| 0 <= h < g + 1 implies pair_le(
                        (best.0 as int, best.1),
                        #[trigger] orbit_member(dims, raw as nat, to_move, h, sw),
                    ) by {
                        if h < g {
                            assert(pair_le((before.0 as int, before.1), orbit_member(dims, raw as nat, to_move, h, sw)));
                        } else if sw {
                            assert(orbit_member(dims, raw as nat, to_move, h, sw) == x);
                        } else {
                            assert(orbit_member(dims, raw as nat, to_move, h, sw) == p);
                        }
                    }
                    if (best.0 as int, best.1) == p {
                        assert(0 <= g < group(dims).len() && (best.0 as int, best.1) == orbit_member(dims, raw as nat, to_move, g as int, false));
                    } else if (best.0 as int, best.1) == x {
                        assert(0 <= g < group(dims).len() && (best.0 as int, best.1) == orbit_member(dims, raw as nat, to_move, g as int, true));
                    }
                }
                g += 1;
            }
            proof {
                let i = out@.len() as int;
                assert(i / 2 == raw as int);
                assert(root_at_spec(i).1 == to_move);
            }
            out.push(best);
            t += 1;
        }
        raw += 1;
    }
    out
}

/// A root's result from its representative's: the stones and liberties of
/// the root itself, the representative's two searches with their values
/// transported.
fn transport(from: Root, swapped: bool, dims: Dims, index: usize) -> (r: Root)
    requires
        dims.wf(),
        dims.size() <= MAX_TABLE_POINTS,
        index < 2 * codes(dims),
        from.outcome.psk is Some ==> from.outcome.psk->Some_0.value != Some(i32::MIN),
        from.outcome.ssk is Some ==> from.outcome.ssk->Some_0.value != Some(i32::MIN),
    ensures
        r.outcome == transport_spec(from.outcome, swapped, root_at_spec(index as int)),
        r.stones == stones_spec(pos_of(dims, r.outcome.code.0 as nat)),
        r.liberties == legal_spec(pos_of(dims, r.outcome.code.0 as nat)),
{
    proof {
        crate::code::lemma_pow3_monotone(dims.size(), MAX_TABLE_POINTS as nat);
        assert(pow3(12) == 531441) by {
            reveal_with_fuel(pow3, 13);
        }
    }
    let (code, to_move) = root_at(index);
    let board = decode(dims, code);
    let stones = stone_count(&board);
    let liberties = is_legal(&board);
    let psk = match from.outcome.psk {
        Some(s) => Some(carry(s, swapped)),
        None => None,
    };
    let ssk = match from.outcome.ssk {
        Some(s) => Some(carry(s, swapped)),
        None => None,
    };
    Root {
        outcome: RootOutcome {
            code,
            to_move,
            psk,
            ssk,
            transported: psk.is_some(),
        },
        stones,
        liberties,
    }
}

/// A solution with its value transported.
pub open spec fn carry_spec(s: Solution, swapped: bool) -> Solution {
    Solution {
        value: match s.value {
            Some(v) => Some(
                if swapped {
                    (-v) as i32
                } else {
                    v
                },
            ),
            None => None,
        },
        ..s
    }
}

/// What transport makes of a representative's outcome at a root.
pub open spec fn transport_spec(from: RootOutcome, swapped: bool, at: (PosCode, Color)) -> RootOutcome {
    RootOutcome {
        code: at.0,
        to_move: at.1,
        psk: match from.psk {
            Some(s) => Some(carry_spec(s, swapped)),
            None => None,
        },
        ssk: match from.ssk {
            Some(s) => Some(carry_spec(s, swapped)),
            None => None,
        },
        transported: from.psk is Some,
    }
}

/// A solution with its value transported.
fn carry(s: Solution, swapped: bool) -> (r: Solution)
    requires
        s.value != Some(i32::MIN),
    ensures
        r == carry_spec(s, swapped),
{
    Solution {
        value: match s.value {
            Some(v) => Some(transported_value(v, swapped)),
            None => None,
        },
        nodes: s.nodes,
        max_depth: s.max_depth,
        ssk_only: s.ssk_only,
        mirrored_skips: s.mirrored_skips,
    }
}


/// What a sweep recorded at a place of its order: a root searched where it
/// stands, or, under symmetry, a root its representative stands for, the
/// representative searched and its solutions transported.
pub open spec fn root_ok(d: Dims, s: Suicide, opts: Options, roots: Seq<RootOutcome>, i: int) -> bool {
    let (code, to_move) = root_at_spec(i);
    ||| searched_ok(d, s, opts.budget, opts.min_stones, i, roots[i])
    ||| opts.symmetry && exists|p: int, sw: bool|
        0 <= p < i && #[trigger] is_representative(d, code.0 as nat, to_move, (p, sw)) && searched_ok(
            d,
            s,
            opts.budget,
            opts.min_stones,
            p,
            roots[p],
        ) && roots[i] == transport_spec(roots[p], sw, (code, to_move))
}

/// Every place of a sweep is recorded as [`root_ok`] says, and a root that
/// is its own orbit's representative is searched.
pub open spec fn roots_ok(d: Dims, s: Suicide, opts: Options, roots: Seq<RootOutcome>) -> bool {
    &&& roots.len() == 2 * codes(d)
    &&& forall|i: int| 0 <= i < roots.len() ==> #[trigger] root_ok(d, s, opts, roots, i)
    &&& forall|i: int|
        0 <= i < roots.len() && is_representative(d, (i / 2) as nat, root_at_spec(i).1, (i, false))
            ==> searched_ok(d, s, opts.budget, opts.min_stones, i, #[trigger] roots[i])
    &&& !opts.symmetry ==> forall|i: int|
        0 <= i < roots.len() ==> searched_ok(d, s, opts.budget, opts.min_stones, i, #[trigger] roots[i])
}

/// The value from a root is bounded by the number of points.
proof fn lemma_seat_bound(d: Dims, s: Suicide, rep: Repetition, code: nat, to_move: Color)
    requires
        d.wf(),
        code < codes(d),
    ensures
        -(d.size() as int) <= nvalue(play_rules(d, rep, s), seat_node(rep, code, to_move)) <= d.size(),
{
    let r = play_rules(d, rep, s);
    let n = seat_node(rep, code, to_move);
    assert(crate::enumerate::node_ok(r, n)) by {
        assert(n.bits.len() == 1);
    }
    crate::search::lemma_nvalue_bound(r, n);
}

/// A searched root's values are values of the board, which fit well inside
/// an `i32`.
proof fn lemma_searched_values(d: Dims, s: Suicide, budget: Option<u64>, min_stones: u32, i: int, o: RootOutcome)
    requires
        d.wf(),
        d.size() <= MAX_TABLE_POINTS,
        searched_ok(d, s, budget, min_stones, i, o),
        0 <= i < 2 * codes(d),
    ensures
        o.psk is Some ==> o.psk->Some_0.value != Some(i32::MIN),
        o.ssk is Some ==> o.ssk->Some_0.value != Some(i32::MIN),
{
    let code = root_at_spec(i).0.0 as nat;
    let to_move = root_at_spec(i).1;
    crate::code::lemma_pow3_monotone(d.size(), 12);
    assert(pow3(12) == 531441) by {
        reveal_with_fuel(pow3, 13);
    }
    assert(code < codes(d));
    lemma_seat_bound(d, s, Repetition::Psk, code, to_move);
    lemma_seat_bound(d, s, Repetition::Ssk, code, to_move);
}

/// Every root of a sweep, searched or transported, in the sweep order.
fn solve_roots(table: &RuleTable, opts: Options) -> (r: Vec<Root>)
    requires
        table.wf(),
    ensures
        roots_ok(table@.dims, table@.suicide, opts, outcomes(r@)),
        forall|k: int| 0 <= k < r@.len() ==> root_facts(table@.dims, #[trigger] r@[k]),
{
    let dims = table.dims();
    let ghost s = table@.suicide;
    proof {
        crate::code::lemma_pow3_monotone(dims.size(), 12);
        assert(pow3(12) == 531441) by {
            reveal_with_fuel(pow3, 13);
        }
    }
    let count = code_space(dims) as usize * 2;
    let mut psk = Solver::new(table, Repetition::Psk).with_budget(opts.budget);
    let mut ssk = Solver::new(table, Repetition::Ssk).with_budget(opts.budget);
    let orbits: Vec<(usize, bool)> = if opts.symmetry {
        match Symmetries::new(dims) {
            Ok(sym) => representatives(&sym),
            Err(_) => Vec::new(),
        }
    } else {
        Vec::new()
    };
    proof {
        if opts.symmetry {
            assert(orbits@.len() == count);
        }
    }
    let mut out: Vec<Root> = Vec::new();
    let mut searched: Vec<bool> = Vec::new();
    let mut index: usize = 0;
    while index < count
        invariant
            searched@.len() == index,
            forall|i: int| 0 <= i < index && #[trigger] searched@[i] ==> searched_ok(dims, s, opts.budget, opts.min_stones, i, outcomes(out@)[i]),
            table.wf(),
            dims == table@.dims,
            dims.wf(),
            dims.size() <= MAX_TABLE_POINTS,
            s == table@.suicide,
            count == 2 * codes(dims),
            codes(dims) <= 531441,
            psk.wf(),
            ssk.wf(),
            psk@ == (crate::search::SolverModel { dims, suicide: s, rep: Repetition::Psk, budget: opts.budget, order: crate::search::MoveOrder::Heuristic, reversed: false }),
            ssk@ == (crate::search::SolverModel { dims, suicide: s, rep: Repetition::Ssk, budget: opts.budget, order: crate::search::MoveOrder::Heuristic, reversed: false }),
            opts.symmetry ==> orbits@.len() == count,
            opts.symmetry ==> forall|i: int|
                0 <= i < orbits@.len() ==> is_representative(
                    dims,
                    (i / 2) as nat,
                    root_at_spec(i).1,
                    ((#[trigger] orbits@[i]).0 as int, orbits@[i].1),
                ),
            index <= count,
            out@.len() == index,
            forall|k: int| 0 <= k < out@.len() ==> root_facts(dims, #[trigger] out@[k]),
            forall|i: int| 0 <= i < index ==> #[trigger] root_ok(dims, s, opts, outcomes(out@), i),
            forall|i: int|
                0 <= i < index && is_representative(dims, (i / 2) as nat, root_at_spec(i).1, (i, false))
                    ==> searched_ok(dims, s, opts.budget, opts.min_stones, i, #[trigger] outcomes(out@)[i]),
            !opts.symmetry ==> forall|i: int|
                0 <= i < index ==> searched_ok(dims, s, opts.budget, opts.min_stones, i, #[trigger] outcomes(out@)[i]),
        decreases count - index,
    {
        let ghost before = out@;
        let mut root: Option<Root> = None;
        if opts.symmetry {
            let (rep, swapped) = orbits[index];
            if rep < index {
                let from = out[rep];
                if searched[rep] {
                    proof {
                        assert(outcomes(out@)[rep as int] == from.outcome);
                        lemma_searched_values(dims, s, opts.budget, opts.min_stones, rep as int, from.outcome);
                    }
                    root = Some(transport(from, swapped, dims, index));
                }
            }
        }
        let here = root.is_none();
        let next = match root {
            Some(t) => t,
            None => solve_at(&mut psk, &mut ssk, dims, opts.min_stones, index),
        };
        out.push(next);
        searched.push(here);
        proof {
            assert(outcomes(out@) =~= outcomes(before).push(next.outcome));
            assert forall|i: int| 0 <= i < index + 1 && #[trigger] searched@[i] implies searched_ok(dims, s, opts.budget, opts.min_stones, i, outcomes(out@)[i]) by {
                if i < index {
                    assert(outcomes(out@)[i] == outcomes(before)[i]);
                }
            }
            assert forall|i: int| 0 <= i < index + 1 implies #[trigger] root_ok(dims, s, opts, outcomes(out@), i) by {
                if i < index {
                    assert(root_ok(dims, s, opts, outcomes(before), i));
                    assert(outcomes(out@)[i] == outcomes(before)[i]);
                    if !searched_ok(dims, s, opts.budget, opts.min_stones, i, outcomes(before)[i]) {
                        let (p, sw) = choose|p: int, sw: bool|
                            0 <= p < i && #[trigger] is_representative(dims, root_at_spec(i).0.0 as nat, root_at_spec(i).1, (p, sw)) && searched_ok(
                                dims,
                                s,
                                opts.budget,
                                opts.min_stones,
                                p,
                                outcomes(before)[p],
                            ) && outcomes(before)[i] == transport_spec(outcomes(before)[p], sw, root_at_spec(i));
                        assert(outcomes(out@)[p] == outcomes(before)[p]);
                    }
                } else if root is Some {
                    let (p, sw) = orbits@[index as int];
                    assert(root_at_spec(i).0.0 as nat == (i / 2) as nat);
                    assert(0 <= p < i && is_representative(dims, root_at_spec(i).0.0 as nat, root_at_spec(i).1, (p as int, sw)));
                    assert(searched_ok(dims, s, opts.budget, opts.min_stones, p as int, outcomes(out@)[p as int]));
                }
            }
            assert forall|i: int|
                0 <= i < index + 1 && is_representative(dims, (i / 2) as nat, root_at_spec(i).1, (i, false))
                    implies searched_ok(dims, s, opts.budget, opts.min_stones, i, #[trigger] outcomes(out@)[i]) by {
                if i < index {
                    assert(outcomes(out@)[i] == outcomes(before)[i]);
                } else if root is Some {
                    let (p, sw) = orbits@[index as int];
                    let me = (i, false);
                    let it = (p as int, sw);
                    assert(pair_le(it, me));
                    assert(pair_le(me, it)) by {
                        let code = (i / 2) as nat;
                        let m = root_at_spec(i).1;
                        if it != (place_spec(code, m), false) {
                            let (g, x) = choose|g: int, x: bool| 0 <= g < group(dims).len() && it == #[trigger] orbit_member(dims, code, m, g, x);
                            assert(pair_le(me, orbit_member(dims, code, m, g, x)));
                        }
                    }
                    assert(false);
                }
            }
            if !opts.symmetry {
                assert forall|i: int| 0 <= i < index + 1 implies searched_ok(
                    dims,
                    s,
                    opts.budget,
                    opts.min_stones,
                    i,
                    #[trigger] outcomes(out@)[i],
                ) by {
                    if i < index {
                        assert(outcomes(out@)[i] == outcomes(before)[i]);
                    }
                }
            }
        }
        index += 1;
    }
    out
}


/// What a sweep of a built board is: the fold, in the sweep order, of
/// roots each recorded as [`roots_ok`] says.
pub open spec fn sweep_ok(d: Dims, s: Suicide, opts: Options, r: Sweep) -> bool {
    exists|roots: Seq<RootOutcome>| #[trigger] roots_ok(d, s, opts, roots) && r == fold_spec(d, opts, roots)
}

/// A sweep's accounting: every root folded is resolved, unresolved or
/// skipped, and searched, transported or skipped; a separating root is a
/// resolved one, and one with liberties a separating one; a root resolved
/// with ssk-only plays is a resolved root with ssk-only plays.
pub proof fn law_fold_accounting(d: Dims, opts: Options, roots: Seq<RootOutcome>)
    requires
        roots.len() <= u64::MAX,
    ensures
        ({
            let w = fold_spec(d, opts, roots);
            &&& w.resolved + w.unresolved + w.skipped == roots.len()
            &&& w.searched + w.transported + w.skipped == roots.len()
            &&& w.separating_liberties <= w.separating <= w.resolved
            &&& w.resolved_with_ssk_only <= w.roots_with_ssk_only <= roots.len()
            &&& w.resolved_with_ssk_only <= w.resolved
        }),
    decreases roots.len(),
{
    if roots.len() > 0 {
        let rest = roots.drop_last();
        law_fold_accounting(d, opts, rest);
        let w0 = fold_spec(d, opts, rest);
        let o = roots.last();
        let b = pos_of(d, o.code.0 as nat);
        let w = fold_step(w0, o, stones_spec(b) as u32, legal_spec(b));
        assert(w == fold_spec(d, opts, roots));
        match (o.psk, o.ssk) {
            (Some(x), Some(y)) => {
                match (x.value, y.value) {
                    (Some(pv), Some(sv)) => {
                        assert(w.resolved == w0.resolved + 1);
                        assert(w.unresolved == w0.unresolved);
                        assert(w.separating <= w0.separating + 1);
                        assert(w.separating_liberties - w0.separating_liberties <= w.separating - w0.separating);
                        assert(w.resolved_with_ssk_only - w0.resolved_with_ssk_only == w.roots_with_ssk_only
                            - w0.roots_with_ssk_only);
                    },
                    _ => {
                        assert(w.resolved == w0.resolved);
                        assert(w.unresolved == w0.unresolved + 1);
                        assert(w.separating == w0.separating);
                        assert(w.separating_liberties == w0.separating_liberties);
                        assert(w.resolved_with_ssk_only == w0.resolved_with_ssk_only);
                        assert(w.roots_with_ssk_only >= w0.roots_with_ssk_only);
                    },
                }
                assert(w.skipped == w0.skipped);
                assert(w.searched + w.transported == w0.searched + w0.transported + 1);
            },
            _ => {
                assert(w.skipped == w0.skipped + 1);
            },
        }
    }
}

/// A sweep of a board the transition table covers accounts for each of its
/// roots exactly once: resolved, unresolved or skipped; and searched,
/// transported or skipped.
pub proof fn law_sweep_accounting(d: Dims, s: Suicide, opts: Options, r: Sweep)
    requires
        d.wf(),
        d.size() <= MAX_TABLE_POINTS,
        sweep_ok(d, s, opts, r),
    ensures
        r.roots == 2 * codes(d),
        r.resolved + r.unresolved + r.skipped == r.roots,
        r.searched + r.transported + r.skipped == r.roots,
        r.separating_liberties <= r.separating <= r.resolved,
        r.resolved_with_ssk_only <= r.roots_with_ssk_only,
        r.resolved_with_ssk_only <= r.resolved,
{
    let roots = choose|roots: Seq<RootOutcome>| #[trigger] roots_ok(d, s, opts, roots) && r == fold_spec(d, opts, roots);
    crate::code::lemma_pow3_monotone(d.size(), 12);
    assert(pow3(12) == 531441) by {
        reveal_with_fuel(pow3, 13);
    }
    law_fold_accounting(d, opts, roots);
    lemma_fold_roots(d, opts, roots);
}

/// The fold keeps the root count it starts with.
proof fn lemma_fold_roots(d: Dims, opts: Options, roots: Seq<RootOutcome>)
    ensures
        fold_spec(d, opts, roots).roots == sweep_start(d, opts).roots,
    decreases roots.len(),
{
    if roots.len() > 0 {
        lemma_fold_roots(d, opts, roots.drop_last());
    }
}

/// Sweep the roots of a built board. Every root is an independent pair of
/// searches; they run here in the sweep order, and `opts.threads` names how
/// many threads a caller may spread them over, which changes no result.
pub fn sweep_with(table: &RuleTable, opts: Options) -> (r: Sweep)
    requires
        table.wf(),
        opts.threads > 0,
    ensures
        sweep_ok(table@.dims, table@.suicide, opts, r),
{
    let roots = solve_roots(table, opts);
    let dims = table.dims();
    let r = fold(dims, opts, &roots);
    proof {
        assert(roots_ok(table@.dims, table@.suicide, opts, outcomes(roots@)));
    }
    r
}

/// Every root of a sweep with what the sweep recorded for it, in the sweep
/// order: the per-root results [`sweep_with`] folds.
pub fn root_outcomes(table: &RuleTable, opts: Options) -> (r: Vec<RootOutcome>)
    requires
        table.wf(),
        opts.threads > 0,
    ensures
        roots_ok(table@.dims, table@.suicide, opts, r@),
        sweep_ok(table@.dims, table@.suicide, opts, fold_spec(table@.dims, opts, r@)),
{
    let roots = solve_roots(table, opts);
    let mut out: Vec<RootOutcome> = Vec::new();
    let mut i: usize = 0;
    while i < roots.len()
        invariant
            i <= roots@.len(),
            out@ == outcomes(roots@).take(i as int),
        decreases roots@.len() - i,
    {
        out.push(roots[i].outcome);
        i += 1;
        assert(out@ =~= outcomes(roots@).take(i as int));
    }
    assert(out@ =~= outcomes(roots@));
    out
}

/// The options of a plain sweep: one thread, no symmetry.
pub open spec fn plain(budget: Option<u64>, min_stones: u32) -> Options {
    Options { budget, min_stones, threads: 1, symmetry: false }
}

/// Sweep the roots of a built board carrying at least `min_stones` stones.
pub fn sweep_on_above(table: &RuleTable, budget: Option<u64>, min_stones: u32) -> (r: Sweep)
    requires
        table.wf(),
    ensures
        sweep_ok(table@.dims, table@.suicide, plain(budget, min_stones), r),
{
    sweep_with(table, Options { budget, min_stones, threads: 1, symmetry: false })
}

/// Sweep every root of a built board.
pub fn sweep_on(table: &RuleTable, budget: Option<u64>) -> (r: Sweep)
    requires
        table.wf(),
    ensures
        sweep_ok(table@.dims, table@.suicide, plain(budget, 0), r),
{
    sweep_on_above(table, budget, 0)
}

/// Sweep every root of a board under both repetition rules. A board the
/// transition table refuses is refused.
pub fn sweep(dims: Dims, suicide: Suicide, budget: Option<u64>) -> (r: Result<Sweep, TooLarge>)
    requires
        dims.wf(),
    ensures
        r is Ok <==> dims.size() <= MAX_TABLE_POINTS,
        r is Err ==> r->Err_0 == (TooLarge { dims, limit: MAX_TABLE_POINTS }),
        r is Ok ==> sweep_ok(dims, suicide, plain(budget, 0), r->Ok_0),
{
    let table = match RuleTable::build(dims, suicide) {
        Ok(t) => t,
        Err(e) => {
            return Err(e);
        },
    };
    Ok(sweep_on(&table, budget))
}

/// Sweep the roots of a board carrying at least `min_stones` stones: a
/// restriction of the domain, under which a minimum is a minimum of the
/// restricted domain only.
pub fn sweep_above(dims: Dims, suicide: Suicide, budget: Option<u64>, min_stones: u32) -> (r: Result<Sweep, TooLarge>)
    requires
        dims.wf(),
    ensures
        r is Ok <==> dims.size() <= MAX_TABLE_POINTS,
        r is Err ==> r->Err_0 == (TooLarge { dims, limit: MAX_TABLE_POINTS }),
        r is Ok ==> sweep_ok(dims, suicide, plain(budget, min_stones), r->Ok_0),
{
    let table = match RuleTable::build(dims, suicide) {
        Ok(t) => t,
        Err(e) => {
            return Err(e);
        },
    };
    Ok(sweep_on_above(&table, budget, min_stones))
}


/// The text of a truth value.
pub open spec fn bool_text(b: bool) -> Seq<char> {
    if b {
        "true"@
    } else {
        "false"@
    }
}

/// The text of a color.
pub open spec fn color_text(c: Color) -> Seq<char> {
    match c {
        Color::Black => "black"@,
        Color::White => "white"@,
    }
}

/// Whether a minimum is a minimum over every root the test ranges over:
/// nothing was skipped, and no root of lower rank went unresolved.
pub open spec fn uncond_spec(skipped: u64, minimal: Option<Separating>, least: Option<(PosCode, Color, u32)>) -> bool {
    if skipped > 0 {
        false
    } else {
        match (minimal, least) {
            (_, None) => true,
            (None, Some(_)) => false,
            (Some(best), Some((code, to_move, stones))) => rank_lt(
                rank_spec(best.stones, best.code, best.to_move),
                rank_spec(stones, code, to_move),
            ),
        }
    }
}

/// The empty board's value as a body prints it.
pub open spec fn empty_text(v: Option<i32>, min_stones: u32) -> Seq<char> {
    match v {
        Some(n) => dec_int(n as int),
        None => if min_stones > 0 {
            "skipped"@
        } else {
            "unresolved"@
        },
    }
}

/// The least unresolved root as a body prints it.
pub open spec fn least_text(d: Dims, least: Option<(PosCode, Color, u32)>) -> Seq<char> {
    match least {
        None => "none"@,
        Some((code, c, _)) => render_spec(pos_of(d, code.0 as nat)) + seq![':'] + color_text(c),
    }
}

/// The komi floors joined by commas.
pub open spec fn floors_text(f: Seq<i64>) -> Seq<char>
    decreases f.len(),
{
    if f.len() == 0 {
        Seq::empty()
    } else if f.len() == 1 {
        dec_int(f[0] as int)
    } else {
        floors_text(f.drop_last()) + seq![','] + dec_int(f.last() as int)
    }
}

/// The line `key=value`.
pub open spec fn kv(key: Seq<char>, value: Seq<char>) -> Seq<char> {
    key + seq!['='] + value
}

/// The lines every body carries, in order.
pub open spec fn base_lines(sw: Sweep) -> Seq<Seq<char>> {
    seq![
        kv("roots"@, dec(sw.roots as nat)),
        kv("resolved"@, dec(sw.resolved as nat)),
        kv("unresolved"@, dec(sw.unresolved as nat)),
        kv("unresolved-least"@, least_text(sw.dims, sw.unresolved_least)),
        kv("minimum-unconditional"@, bool_text(uncond_spec(sw.skipped, sw.minimal, sw.unresolved_least))),
        kv(
            "minimum-liberties-unconditional"@,
            bool_text(uncond_spec(sw.skipped, sw.minimal_liberties, sw.unresolved_least_liberties)),
        ),
        kv("empty-psk"@, empty_text(sw.empty_psk, sw.min_stones)),
        kv("empty-ssk"@, empty_text(sw.empty_ssk, sw.min_stones)),
        kv("separating"@, dec(sw.separating as nat)),
        kv("separating-liberties"@, dec(sw.separating_liberties as nat)),
        kv("ssk-only-plays"@, dec(sw.ssk_only_plays as nat)),
        kv("roots-with-ssk-only"@, dec(sw.roots_with_ssk_only as nat)),
        kv("resolved-with-ssk-only"@, dec(sw.resolved_with_ssk_only as nat)),
        kv("min-stones"@, dec(sw.min_stones as nat)),
        kv("skipped"@, dec(sw.skipped as nat)),
    ]
}

/// The lines a body with either half of symmetry on carries after
/// `skipped=`.
pub open spec fn symmetry_lines(sw: Sweep) -> Seq<Seq<char>> {
    let mode = if sw.symmetry && sw.mirrored_moves {
        SymmetryMode::On
    } else if sw.symmetry {
        SymmetryMode::Roots
    } else if sw.mirrored_moves {
        SymmetryMode::Moves
    } else {
        SymmetryMode::Off
    };
    (if mode != SymmetryMode::Off {
        seq![kv("symmetry"@, mode.name_spec())]
    } else {
        Seq::empty()
    }) + (if sw.symmetry {
        seq![
            kv("symmetry-searched"@, dec(sw.searched as nat)),
            kv("symmetry-transported"@, dec(sw.transported as nat)),
        ]
    } else {
        Seq::empty()
    }) + (if sw.mirrored_moves {
        seq!["symmetry-mirrored-moves=on"@]
    } else {
        Seq::empty()
    })
}

/// The lines of a witness block: the root and its values, then, at the
/// lowest komi floor the two values differ at, the four verdicts and what
/// they say, or that a verdict search ran out of its budget.
pub open spec fn witness_spec(prefix: Seq<char>, sep: Separating, symmetry: bool, d: Dims, v: Option<Verdicts>) -> Seq<
    Seq<char>,
> {
    let lo = if sep.psk <= sep.ssk {
        sep.psk as int
    } else {
        sep.ssk as int
    };
    let hi = if sep.psk <= sep.ssk {
        sep.ssk as int
    } else {
        sep.psk as int
    };
    let floors = floors_spec(lo, hi);
    seq![
        kv(prefix + "-root"@, render_spec(pos_of(d, sep.code.0 as nat))),
        kv(prefix + "-to-move"@, color_text(sep.to_move)),
        kv(prefix + "-stones"@, dec(sep.stones as nat)),
        kv(prefix + "-liberties"@, bool_text(sep.liberties)),
        kv(prefix + "-psk"@, dec_int(sep.psk as int)),
        kv(prefix + "-ssk"@, dec_int(sep.ssk as int)),
    ] + (if symmetry {
        seq![kv(prefix + "-transported"@, bool_text(sep.transported))]
    } else {
        Seq::empty()
    }) + seq![kv(prefix + "-komi-floors"@, floors_text(floors))] + (if floors.len() == 0 {
        Seq::empty()
    } else {
        match v {
            Some(w) => seq![
                kv(prefix + "-witness-komi-floor"@, dec_int(w.komi_floor as int)),
                kv(prefix + "-witness-psk-black-wins"@, bool_text(w.psk_black)),
                kv(prefix + "-witness-psk-white-wins"@, bool_text(w.psk_white)),
                kv(prefix + "-witness-ssk-black-wins"@, bool_text(w.ssk_black)),
                kv(prefix + "-witness-ssk-white-wins"@, bool_text(w.ssk_white)),
                kv(prefix + "-witness-separates"@, bool_text(w.psk_black != w.ssk_black)),
                kv(
                    prefix + "-witness-determined"@,
                    bool_text(w.psk_black != w.psk_white && w.ssk_black != w.ssk_white),
                ),
            ],
            None => seq![
                kv(prefix + "-witness-komi-floor"@, dec_int(floors[0] as int)),
                kv(prefix + "-witness-unresolved"@, "true"@),
            ],
        }
    })
}

/// The verdicts a witness block is printed from: those of the lowest komi
/// floor the two values differ at, exact when they resolved.
pub open spec fn witness_verdicts_ok(table_dims: Dims, s: Suicide, budget: Option<u64>, sep: Separating, v: Option<Verdicts>) -> bool {
    let k = if sep.psk <= sep.ssk {
        sep.psk as int
    } else {
        sep.ssk as int
    };
    let (d, c, m) = (table_dims, sep.code.0 as nat, sep.to_move);
    &&& budget is None && sep.psk != sep.ssk ==> v is Some
    &&& v is Some ==> ({
        let w = v->Some_0;
        &&& w.komi_floor == k
        &&& w.psk_black == root_wins(d, s, Repetition::Psk, c, m, k, Color::Black)
        &&& w.psk_white == root_wins(d, s, Repetition::Psk, c, m, k, Color::White)
        &&& w.ssk_black == root_wins(d, s, Repetition::Ssk, c, m, k, Color::Black)
        &&& w.ssk_white == root_wins(d, s, Repetition::Ssk, c, m, k, Color::White)
        &&& w.mirrored_skips == 0
    })
}

/// The text of a list of lines.
pub open spec fn texts(v: Seq<String>) -> Seq<Seq<char>> {
    v.map_values(|x: String| x@)
}

/// Append a line.
fn push_line(out: &mut Vec<String>, line: String)
    ensures
        texts(final(out)@) == texts(old(out)@).push(line@),
{
    out.push(line);
    assert(texts(final(out)@) =~= texts(old(out)@).push(line@));
}

/// Append lines.
fn push_lines(out: &mut Vec<String>, lines: Vec<String>)
    ensures
        texts(final(out)@) == texts(old(out)@) + texts(lines@),
{
    let ghost l = lines@;
    let ghost o = out@;
    let mut lines = lines;
    out.append(&mut lines);
    assert(texts(out@) =~= texts(o) + texts(l));
}

/// The line `prefix key=text`.
fn line_text(prefix: &str, key: &str, text: &str) -> (r: String)
    ensures
        r@ == kv(prefix@ + key@, text@),
{
    let mut out = String::new();
    push_str(&mut out, prefix);
    push_str(&mut out, key);
    push_char(&mut out, '=');
    push_str(&mut out, text);
    assert(out@ =~= kv(prefix@ + key@, text@));
    out
}

/// The line `prefix key=value` for a natural number.
fn line_dec(prefix: &str, key: &str, v: u64) -> (r: String)
    ensures
        r@ == kv(prefix@ + key@, dec(v as nat)),
{
    let mut out = String::new();
    push_str(&mut out, prefix);
    push_str(&mut out, key);
    push_char(&mut out, '=');
    push_decimal(&mut out, v);
    assert(out@ =~= kv(prefix@ + key@, dec(v as nat)));
    out
}

/// The line `prefix key=value` for an integer.
fn line_int(prefix: &str, key: &str, v: i64) -> (r: String)
    ensures
        r@ == kv(prefix@ + key@, dec_int(v as int)),
{
    let mut out = String::new();
    push_str(&mut out, prefix);
    push_str(&mut out, key);
    push_char(&mut out, '=');
    push_signed(&mut out, v);
    assert(out@ =~= kv(prefix@ + key@, dec_int(v as int)));
    out
}

/// The text of a truth value.
fn bool_str(b: bool) -> (r: &'static str)
    ensures
        r@ == bool_text(b),
{
    if b {
        "true"
    } else {
        "false"
    }
}

/// The text of a color.
fn color_str(c: Color) -> (r: &'static str)
    ensures
        r@ == color_text(c),
{
    match c {
        Color::Black => "black",
        Color::White => "white",
    }
}


/// The komi floors joined by commas.
fn join_floors(f: &Vec<i64>) -> (r: String)
    ensures
        r@ == floors_text(f@),
{
    let mut out = String::new();
    let mut i: usize = 0;
    while i < f.len()
        invariant
            i <= f@.len(),
            out@ == floors_text(f@.take(i as int)),
        decreases f@.len() - i,
    {
        let ghost before = out@;
        if i > 0 {
            push_char(&mut out, ',');
        }
        push_signed(&mut out, f[i]);
        proof {
            let t = f@.take(i + 1);
            assert(t.drop_last() =~= f@.take(i as int));
            assert(t.last() == f@[i as int]);
            if i == 0 {
                assert(out@ =~= floors_text(t));
            } else {
                assert(out@ =~= floors_text(t));
            }
        }
        i += 1;
    }
    assert(f@.take(i as int) =~= f@);
    out
}

/// Whether the witness blocks of a body, printed from these verdicts, are
/// the blocks of its separating roots.
pub open spec fn body_spec(sw: Sweep, v1: Option<Verdicts>, v2: Option<Verdicts>) -> Seq<Seq<char>> {
    base_lines(sw) + symmetry_lines(sw) + (match sw.minimal {
        Some(sep) => witness_spec("minimal"@, sep, sw.symmetry, sw.dims, v1),
        None => Seq::empty(),
    }) + (match sw.minimal_liberties {
        Some(sep) => witness_spec("minimal-liberties"@, sep, sw.symmetry, sw.dims, v2),
        None => Seq::empty(),
    })
}

/// The roots a body names are roots of its board.
pub open spec fn names_roots(sw: Sweep) -> bool {
    &&& sw.minimal is Some ==> (sw.minimal->Some_0.code.0 as nat) < codes(sw.dims)
    &&& sw.minimal_liberties is Some ==> (sw.minimal_liberties->Some_0.code.0 as nat) < codes(sw.dims)
    &&& sw.unresolved_least is Some ==> (sw.unresolved_least->Some_0.0.0 as nat) < codes(sw.dims)
}

impl Sweep {
    /// Whether the minimum reported is a minimum over the whole board: no
    /// root was skipped by a floor, and no root of lower rank than the
    /// minimum went unresolved (none at all when nothing separated).
    pub fn unconditional(&self) -> (r: bool)
        ensures
            r == uncond_spec(self.skipped, self.minimal, self.unresolved_least),
    {
        self.unconditional_over(self.minimal, self.unresolved_least)
    }

    /// The test of [`Sweep::unconditional`], restricted to roots carrying no
    /// libertyless chain.
    pub fn unconditional_liberties(&self) -> (r: bool)
        ensures
            r == uncond_spec(self.skipped, self.minimal_liberties, self.unresolved_least_liberties),
    {
        self.unconditional_over(self.minimal_liberties, self.unresolved_least_liberties)
    }

    fn unconditional_over(&self, minimal: Option<Separating>, least_unresolved: Option<(PosCode, Color, u32)>) -> (r: bool)
        ensures
            r == uncond_spec(self.skipped, minimal, least_unresolved),
    {
        if self.skipped > 0 {
            return false;
        }
        match (minimal, least_unresolved) {
            (_, None) => true,
            (None, Some(_)) => false,
            (Some(best), Some((code, to_move, stones))) => rank_less(best.rank(), rank_of(stones, code, to_move)),
        }
    }

    /// The empty board's value as a body prints it: the value, `unresolved`
    /// when a budget stopped its search, or `skipped` when a stone-count
    /// floor kept it out of the domain.
    fn empty_value(&self, v: Option<i32>) -> (r: String)
        ensures
            r@ == empty_text(v, self.min_stones),
    {
        match v {
            Some(n) => {
                let mut out = String::new();
                push_signed(&mut out, n as i64);
                assert(out@ =~= dec_int(n as int));
                out
            },
            None => if self.min_stones > 0 {
                let mut out = String::new();
                push_str(&mut out, "skipped");
                assert(out@ =~= "skipped"@);
                out
            } else {
                let mut out = String::new();
                push_str(&mut out, "unresolved");
                assert(out@ =~= "unresolved"@);
                out
            },
        }
    }

    /// The least unresolved root as a body prints it.
    fn least_value(&self) -> (r: String)
        requires
            self.dims.wf(),
            self.dims.size() <= MAX_TABLE_POINTS,
            names_roots(*self),
        ensures
            r@ == least_text(self.dims, self.unresolved_least),
    {
        proof {
            crate::code::lemma_pow3_monotone(self.dims.size(), 12);
            crate::code::lemma_pow3_monotone(12, 20);
        }
        match self.unresolved_least {
            None => {
                let mut out = String::new();
                push_str(&mut out, "none");
                assert(out@ =~= "none"@);
                out
            },
            Some((code, c, _)) => {
                let mut out = render(&decode(self.dims, code));
                push_char(&mut out, ':');
                push_str(&mut out, color_str(c));
                assert(out@ =~= render_spec(pos_of(self.dims, code.0 as nat)) + seq![':'] + color_text(c));
                out
            },
        }
    }

    /// The verdict lines of a witness block, at the lowest komi floor the
    /// two values differ at.
    fn verdict_lines(prefix: &str, sep: &Separating, floors: &Vec<i64>, table: &RuleTable, budget: Option<u64>) -> (r: (
        Vec<String>,
        Option<Verdicts>,
    ))
        requires
            table.wf(),
            (sep.code.0 as nat) < codes(table@.dims),
            floors@.len() > 0,
        ensures
            texts(r.0@) == match r.1 {
                Some(w) => seq![
                    kv(prefix@ + "-witness-komi-floor"@, dec_int(w.komi_floor as int)),
                    kv(prefix@ + "-witness-psk-black-wins"@, bool_text(w.psk_black)),
                    kv(prefix@ + "-witness-psk-white-wins"@, bool_text(w.psk_white)),
                    kv(prefix@ + "-witness-ssk-black-wins"@, bool_text(w.ssk_black)),
                    kv(prefix@ + "-witness-ssk-white-wins"@, bool_text(w.ssk_white)),
                    kv(prefix@ + "-witness-separates"@, bool_text(w.psk_black != w.ssk_black)),
                    kv(
                        prefix@ + "-witness-determined"@,
                        bool_text(w.psk_black != w.psk_white && w.ssk_black != w.ssk_white),
                    ),
                ],
                None => seq![
                    kv(prefix@ + "-witness-komi-floor"@, dec_int(floors@[0] as int)),
                    kv(prefix@ + "-witness-unresolved"@, "true"@),
                ],
            },
            budget is None ==> r.1 is Some,
            r.1 is Some ==> ({
                let w = r.1->Some_0;
                let (d, s, c, k) = (table@.dims, table@.suicide, sep.code.0 as nat, floors@[0] as int);
                &&& w.komi_floor == floors@[0]
                &&& w.psk_black == root_wins(d, s, Repetition::Psk, c, sep.to_move, k, Color::Black)
                &&& w.psk_white == root_wins(d, s, Repetition::Psk, c, sep.to_move, k, Color::White)
                &&& w.ssk_black == root_wins(d, s, Repetition::Ssk, c, sep.to_move, k, Color::Black)
                &&& w.ssk_white == root_wins(d, s, Repetition::Ssk, c, sep.to_move, k, Color::White)
                &&& w.mirrored_skips == 0
            }),
    {
        let mut out: Vec<String> = Vec::new();
        let floor = floors[0];
        match verdicts(table, sep.code, sep.to_move, floor, budget) {
            Some(v) => {
                push_line(&mut out, line_int(prefix, "-witness-komi-floor", v.komi_floor));
                push_line(&mut out, line_text(prefix, "-witness-psk-black-wins", bool_str(v.psk_black)));
                push_line(&mut out, line_text(prefix, "-witness-psk-white-wins", bool_str(v.psk_white)));
                push_line(&mut out, line_text(prefix, "-witness-ssk-black-wins", bool_str(v.ssk_black)));
                push_line(&mut out, line_text(prefix, "-witness-ssk-white-wins", bool_str(v.ssk_white)));
                push_line(&mut out, line_text(prefix, "-witness-separates", bool_str(v.separates())));
                push_line(&mut out, line_text(prefix, "-witness-determined", bool_str(v.determined())));
                (out, Some(v))
            },
            None => {
                push_line(&mut out, line_int(prefix, "-witness-komi-floor", floor));
                push_line(&mut out, line_text(prefix, "-witness-unresolved", "true"));
                (out, None)
            },
        }
    }

    /// The lines describing one separating root and the verdicts that
    /// confirm it at the lowest komi floor the two rules differ at.
    fn witness_lines(&self, prefix: &str, sep: &Separating, table: &RuleTable, budget: Option<u64>) -> (r: (
        Vec<String>,
        Option<Verdicts>,
    ))
        requires
            table.wf(),
            table@.dims == self.dims,
            (sep.code.0 as nat) < codes(self.dims),
        ensures
            texts(r.0@) == witness_spec(prefix@, *sep, self.symmetry, self.dims, r.1),
            witness_verdicts_ok(self.dims, table@.suicide, budget, *sep, r.1),
    {
        let dims = self.dims;
        let _d = table.dims();
        proof {
            crate::code::lemma_pow3_monotone(dims.size(), 12);
            crate::code::lemma_pow3_monotone(12, 20);
        }
        let mut out: Vec<String> = Vec::new();
        push_line(&mut out, line_text(prefix, "-root", render(&decode(dims, sep.code)).as_str()));
        push_line(&mut out, line_text(prefix, "-to-move", color_str(sep.to_move)));
        push_line(&mut out, line_dec(prefix, "-stones", sep.stones as u64));
        push_line(&mut out, line_text(prefix, "-liberties", bool_str(sep.liberties)));
        push_line(&mut out, line_int(prefix, "-psk", sep.psk as i64));
        push_line(&mut out, line_int(prefix, "-ssk", sep.ssk as i64));
        if self.symmetry {
            push_line(&mut out, line_text(prefix, "-transported", bool_str(sep.transported)));
        }
        let floors = sep.komi_floors();
        let joined = join_floors(&floors);
        push_line(&mut out, line_text(prefix, "-komi-floors", joined.as_str()));
        let ghost fixed = texts(out@);
        let mut found: Option<Verdicts> = None;
        if floors.len() > 0 {
            let (lines, v) = Self::verdict_lines(prefix, sep, &floors, table, budget);
            found = v;
            push_lines(&mut out, lines);
        }
        proof {
            let lo = if sep.psk <= sep.ssk {
                sep.psk as int
            } else {
                sep.ssk as int
            };
            assert(floors@.len() > 0 ==> floors@[0] == lo);
            let spec = witness_spec(prefix@, *sep, self.symmetry, self.dims, found);
            assert(texts(out@) =~= spec);
        }
        (out, found)
    }

    /// The body lines a results file carries, in a fixed order, with the
    /// witness verdicts they were printed from: `minimal`'s block first,
    /// present only when a separating root was found, and likewise
    /// `minimal-liberties`'.
    pub fn lines_with_verdicts(&self, table: &RuleTable, budget: Option<u64>) -> (r: (Vec<String>, Vec<Verdicts>))
        requires
            table.wf(),
            table@.dims == self.dims,
            names_roots(*self),
        ensures
            exists|v1: Option<Verdicts>, v2: Option<Verdicts>|
                {
                    &&& texts(r.0@) == #[trigger] body_spec(*self, v1, v2)
                    &&& self.minimal is Some ==> witness_verdicts_ok(
                        self.dims,
                        table@.suicide,
                        budget,
                        self.minimal->Some_0,
                        v1,
                    )
                    &&& self.minimal_liberties is Some ==> witness_verdicts_ok(
                        self.dims,
                        table@.suicide,
                        budget,
                        self.minimal_liberties->Some_0,
                        v2,
                    )
                    &&& r.1@ == (match (self.minimal, v1) {
                        (Some(_), Some(w)) => seq![w],
                        _ => Seq::empty(),
                    }) + (match (self.minimal_liberties, v2) {
                        (Some(_), Some(w)) => seq![w],
                        _ => Seq::empty(),
                    })
                },
    {
        let dims = self.dims;
        let _d = table.dims();
        let mut out: Vec<String> = Vec::new();
        push_line(&mut out, key_value("roots", self.roots));
        push_line(&mut out, key_value("resolved", self.resolved));
        push_line(&mut out, key_value("unresolved", self.unresolved));
        push_line(&mut out, key_text("unresolved-least", self.least_value().as_str()));
        push_line(&mut out, key_text("minimum-unconditional", bool_str(self.unconditional())));
        push_line(&mut out, key_text("minimum-liberties-unconditional", bool_str(self.unconditional_liberties())));
        push_line(&mut out, key_text("empty-psk", self.empty_value(self.empty_psk).as_str()));
        push_line(&mut out, key_text("empty-ssk", self.empty_value(self.empty_ssk).as_str()));
        push_line(&mut out, key_value("separating", self.separating));
        push_line(&mut out, key_value("separating-liberties", self.separating_liberties));
        push_line(&mut out, key_value("ssk-only-plays", self.ssk_only_plays));
        push_line(&mut out, key_value("roots-with-ssk-only", self.roots_with_ssk_only));
        push_line(&mut out, key_value("resolved-with-ssk-only", self.resolved_with_ssk_only));
        push_line(&mut out, key_value("min-stones", self.min_stones as u64));
        push_line(&mut out, key_value("skipped", self.skipped));
        proof {
            assert(texts(out@) =~= base_lines(*self));
        }
        let mode = SymmetryMode::from_halves(self.symmetry, self.mirrored_moves);
        if mode != SymmetryMode::Off {
            push_line(&mut out, key_text("symmetry", mode.name()));
        }
        if self.symmetry {
            push_line(&mut out, key_value("symmetry-searched", self.searched));
            push_line(&mut out, key_value("symmetry-transported", self.transported));
        }
        if self.mirrored_moves {
            let mut line = String::new();
            push_str(&mut line, "symmetry-mirrored-moves=on");
            push_line(&mut out, line);
        }
        proof {
            let m = if self.symmetry && self.mirrored_moves {
                SymmetryMode::On
            } else if self.symmetry {
                SymmetryMode::Roots
            } else if self.mirrored_moves {
                SymmetryMode::Moves
            } else {
                SymmetryMode::Off
            };
            assert(mode == m);
            assert(texts(out@) =~= base_lines(*self) + symmetry_lines(*self));
        }
        let ghost upto = texts(out@);
        let mut witnessed: Vec<Verdicts> = Vec::new();
        let mut v1: Option<Verdicts> = None;
        let mut v2: Option<Verdicts> = None;
        if let Some(sep) = self.minimal {
            let (lines, v) = self.witness_lines("minimal", &sep, table, budget);
            v1 = v;
            push_lines(&mut out, lines);
            if let Some(w) = v {
                witnessed.push(w);
            }
        }
        let ghost after_first = texts(out@);
        let ghost w_first = witnessed@;
        if let Some(sep) = self.minimal_liberties {
            let (lines, v) = self.witness_lines("minimal-liberties", &sep, table, budget);
            v2 = v;
            push_lines(&mut out, lines);
            if let Some(w) = v {
                witnessed.push(w);
            }
        }
        proof {
            assert(texts(out@) =~= body_spec(*self, v1, v2));
            assert(witnessed@ =~= (match (self.minimal, v1) {
                (Some(_), Some(w)) => seq![w],
                _ => Seq::empty(),
            }) + (match (self.minimal_liberties, v2) {
                (Some(_), Some(w)) => seq![w],
                _ => Seq::empty(),
            }));
        }
        (out, witnessed)
    }
}


impl Sweep {
    /// The body lines a results file carries, in a fixed order: the counts,
    /// the symmetry lines when either half is on, then a witness block for
    /// each separating root found.
    pub fn lines(&self, table: &RuleTable, budget: Option<u64>) -> (r: Vec<String>)
        requires
            table.wf(),
            table@.dims == self.dims,
            names_roots(*self),
        ensures
            exists|v1: Option<Verdicts>, v2: Option<Verdicts>|
                {
                    &&& texts(r@) == #[trigger] body_spec(*self, v1, v2)
                    &&& self.minimal is Some ==> witness_verdicts_ok(
                        self.dims,
                        table@.suicide,
                        budget,
                        self.minimal->Some_0,
                        v1,
                    )
                    &&& self.minimal_liberties is Some ==> witness_verdicts_ok(
                        self.dims,
                        table@.suicide,
                        budget,
                        self.minimal_liberties->Some_0,
                        v2,
                    )
                },
    {
        self.lines_with_verdicts(table, budget).0
    }
}


impl Separating {
    /// The root in words: its code, who moves, and the two values.
    pub fn to_string(&self) -> (r: String)
        ensures
            r@ == "code "@ + dec(self.code.0 as nat) + seq![' '] + (match self.to_move {
                Color::Black => "black"@,
                Color::White => "white"@,
            }) + " to move: psk "@ + dec_int(self.psk as int) + " ssk "@ + dec_int(self.ssk as int),
    {
        let mut out = String::new();
        push_str(&mut out, "code ");
        push_decimal(&mut out, self.code.0 as u64);
        push_char(&mut out, ' ');
        push_str(&mut out, self.to_move.name());
        push_str(&mut out, " to move: psk ");
        push_signed(&mut out, self.psk as i64);
        push_str(&mut out, " ssk ");
        push_signed(&mut out, self.ssk as i64);
        out
    }
}


/// A sweep is the same at every thread count: the roots it records and the
/// counts it folds from them do not read the option.
pub proof fn law_sweep_threads(d: Dims, s: Suicide, opts: Options, threads: usize, r: Sweep)
    ensures
        sweep_ok(d, s, opts, r) == sweep_ok(d, s, Options { threads, ..opts }, r),
{
    let other = Options { threads, ..opts };
    assert forall|roots: Seq<RootOutcome>| #[trigger] roots_ok(d, s, opts, roots) implies roots_ok(d, s, other, roots) by {
        assert forall|i: int| 0 <= i < roots.len() implies #[trigger] root_ok(d, s, other, roots, i) by {
            assert(root_ok(d, s, opts, roots, i));
        }
    }
    assert forall|roots: Seq<RootOutcome>| #[trigger] roots_ok(d, s, other, roots) implies roots_ok(d, s, opts, roots) by {
        assert forall|i: int| 0 <= i < roots.len() implies #[trigger] root_ok(d, s, opts, roots, i) by {
            assert(root_ok(d, s, other, roots, i));
        }
    }
    assert forall|roots: Seq<RootOutcome>| #[trigger] fold_spec(d, opts, roots) == fold_spec(d, other, roots) by {
        lemma_fold_threads(d, opts, threads, roots);
    }
    if sweep_ok(d, s, opts, r) {
        let roots = choose|roots: Seq<RootOutcome>| #[trigger] roots_ok(d, s, opts, roots) && r == fold_spec(d, opts, roots);
        assert(roots_ok(d, s, other, roots));
    }
    if sweep_ok(d, s, other, r) {
        let roots = choose|roots: Seq<RootOutcome>| #[trigger] roots_ok(d, s, other, roots) && r == fold_spec(d, other, roots);
        assert(roots_ok(d, s, opts, roots));
    }
}

/// The fold of a sweep does not read the thread count.
proof fn lemma_fold_threads(d: Dims, opts: Options, threads: usize, roots: Seq<RootOutcome>)
    ensures
        fold_spec(d, opts, roots) == fold_spec(d, Options { threads, ..opts }, roots),
    decreases roots.len(),
{
    if roots.len() > 0 {
        lemma_fold_threads(d, opts, threads, roots.drop_last());
    }
}

} // verus!
