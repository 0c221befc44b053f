//! The board and the two variant axes.
//!
//! `Dims` and `Point` are the board geometry that every item of
//! [`crate::reference`] takes; `Suicide` and `Repetition` are the two axes
//! along which a run may vary the rules, and `RuleConfig` is the bundle a
//! caller passes around and a report prints.

use vstd::prelude::*;

use crate::reference::{rat_text, Rat};
use crate::text::{dec, push_char, push_decimal, push_str};

verus! {

/// The dimensions of the board: `rows` is the height `m`, `cols` the width `n`.
#[derive(Clone, Copy, Debug, PartialEq, Eq, PartialOrd, Ord, Hash, Structural)]
pub struct Dims {
    /// Rows.
    pub rows: usize,
    /// Columns.
    pub cols: usize,
}

/// A point of the board: a row and a column, kept apart so that neither can
/// be confused with the other or with a flat index.
#[derive(Clone, Copy, Debug, PartialEq, Eq, PartialOrd, Ord, Hash, Structural)]
pub struct Point {
    /// The row coordinate.
    pub row: usize,
    /// The column coordinate.
    pub col: usize,
}

impl Dims {
    /// Both dimensions positive, and the point count representable.
    pub open spec fn wf(self) -> bool {
        &&& self.rows > 0
        &&& self.cols > 0
        &&& self.rows * self.cols <= usize::MAX
    }

    /// The number of points, `m · n`.
    pub open spec fn size(self) -> nat {
        (self.rows * self.cols) as nat
    }

    /// Whether `p` lies on the board.
    pub open spec fn has(self, p: Point) -> bool {
        p.row < self.rows && p.col < self.cols
    }

    /// The row-major index of `p`, `row · n + col`.
    pub open spec fn index_of(self, p: Point) -> int {
        p.row * self.cols + p.col
    }

    /// The point at row-major index `i`.
    pub open spec fn point_of(self, i: int) -> Point {
        Point { row: (i / (self.cols as int)) as usize, col: (i % (self.cols as int)) as usize }
    }

    /// Every point in row-major order.
    pub open spec fn all_points(self) -> Seq<Point> {
        Seq::new(self.size(), |i: int| self.point_of(i))
    }

    /// A board of `rows` × `cols` points. A zero dimension is refused: every
    /// consumer indexes a non-empty board.
    pub fn new(rows: usize, cols: usize) -> (r: Self)
        requires
            rows > 0,
            cols > 0,
        ensures
            r == (Dims { rows, cols }),
    {
        Self { rows, cols }
    }

    /// The number of points, `m · n`.
    pub fn point_count(self) -> (r: usize)
        requires
            self.rows * self.cols <= usize::MAX,
        ensures
            r == self.size(),
    {
        self.rows * self.cols
    }

    /// Whether `p` lies on this board.
    pub fn contains(self, p: Point) -> (r: bool)
        ensures
            r == self.has(p),
    {
        p.row < self.rows && p.col < self.cols
    }

    /// The row-major index of `p`, `row · n + col`.
    pub fn index(self, p: Point) -> (r: usize)
        requires
            self.wf(),
            self.has(p),
        ensures
            r == self.index_of(p),
            r < self.size(),
    {
        proof {
            lemma_index_in_range(self, p);
        }
        p.row * self.cols + p.col
    }

    /// The point at row-major index `i`, the inverse of [`Dims::index`].
    pub fn point_at(self, i: usize) -> (r: Point)
        requires
            self.wf(),
            i < self.size(),
        ensures
            r == self.point_of(i as int),
            self.has(r),
            self.index_of(r) == i,
    {
        proof {
            lemma_point_of_in_range(self, i as int);
        }
        Point { row: i / self.cols, col: i % self.cols }
    }

    /// Every point, row-major. This is the order `all_moves` plays in and the
    /// order a position's string form is written in.
    pub fn points(self) -> (r: Vec<Point>)
        requires
            self.wf(),
        ensures
            r@ == self.all_points(),
    {
        let n = self.point_count();
        let mut out: Vec<Point> = Vec::new();
        let mut i: usize = 0;
        while i < n
            invariant
                self.wf(),
                n == self.size(),
                i <= n,
                out@ == self.all_points().take(i as int),
            decreases n - i,
        {
            let p = self.point_at(i);
            out.push(p);
            i += 1;
            assert(out@ =~= self.all_points().take(i as int));
        }
        assert(out@ =~= self.all_points());
        out
    }
}

/// An index computed from an on-board point lies below the point count.
pub proof fn lemma_index_in_range(d: Dims, p: Point)
    requires
        d.wf(),
        d.has(p),
    ensures
        0 <= d.index_of(p) < d.size(),
        d.point_of(d.index_of(p)) == p,
{
    let r = p.row as int;
    let c = p.col as int;
    let n = d.cols as int;
    let m = d.rows as int;
    assert(r * n + c < m * n) by (nonlinear_arith)
        requires
            0 <= r < m,
            0 <= c < n,
    ;
    assert(0 <= r * n) by (nonlinear_arith)
        requires
            0 <= r,
            0 < n,
    ;
    vstd::arithmetic::div_mod::lemma_fundamental_div_mod_converse(r * n + c, n, r, c);
}

/// The point at an index below the point count lies on the board, and its
/// index is that index.
pub proof fn lemma_point_of_in_range(d: Dims, i: int)
    requires
        d.wf(),
        0 <= i < d.size(),
    ensures
        d.has(d.point_of(i)),
        d.index_of(d.point_of(i)) == i,
{
    let n = d.cols as int;
    let m = d.rows as int;
    vstd::arithmetic::div_mod::lemma_fundamental_div_mod(i, n);
    vstd::arithmetic::div_mod::lemma_div_pos_is_pos(i, n);
    vstd::arithmetic::div_mod::lemma_mod_bound(i, n);
    let q = i / n;
    let r = i % n;
    assert(q < m) by {
        if q >= m {
            assert(n * q >= n * m) by (nonlinear_arith)
                requires
                    q >= m,
                    n > 0,
            ;
            assert(n * m == m * n) by (nonlinear_arith);
        }
    }
    assert(d.point_of(i).row == q);
    assert(d.point_of(i).col == r);
    assert(q * n == n * q) by (nonlinear_arith);
}

/// Index and point are inverse bijections between the on-board points and
/// `0 .. m · n`.
pub proof fn lemma_grid(d: Dims)
    requires
        d.wf(),
    ensures
        forall|p: Point|
            d.has(p) ==> 0 <= #[trigger] d.index_of(p) < d.size() && d.point_of(d.index_of(p)) == p,
        forall|i: int|
            0 <= i < d.size() ==> d.has(#[trigger] d.point_of(i)) && d.index_of(d.point_of(i)) == i,
{
    assert forall|p: Point| d.has(p) implies 0 <= #[trigger] d.index_of(p) < d.size() && d.point_of(
        d.index_of(p),
    ) == p by {
        lemma_index_in_range(d, p);
    }
    assert forall|i: int| 0 <= i < d.size() implies d.has(#[trigger] d.point_of(i)) && d.index_of(
        d.point_of(i),
    ) == i by {
        lemma_point_of_in_range(d, i);
    }
}

/// Two on-board points with the same index are the same point.
pub proof fn lemma_index_injective(d: Dims, p: Point, q: Point)
    requires
        d.wf(),
        d.has(p),
        d.has(q),
        d.index_of(p) == d.index_of(q),
    ensures
        p == q,
{
    lemma_index_in_range(d, p);
    lemma_index_in_range(d, q);
}

impl Point {
    /// The point at `(row, col)`.
    pub fn new(row: usize, col: usize) -> (r: Self)
        ensures
            r == (Point { row, col }),
    {
        Self { row, col }
    }
}

/// What happens to a play that leaves its own chain without a liberty.
///
/// `Forbid` refuses the move. `RemoveOwn` is the Tromp–Taylor and New Zealand
/// reading, where the move is legal and the player's own stones come off.
#[derive(Clone, Copy, Debug, PartialEq, Eq, PartialOrd, Ord, Hash, Structural)]
pub enum Suicide {
    /// Suicide is illegal.
    Forbid,
    /// Suicide is legal and removes the player's own dead stones.
    RemoveOwn,
}

impl Suicide {
    /// The spelling a command line accepts and a report prints.
    pub fn slug(self) -> (r: &'static str)
        ensures
            r@ == (match self {
                Suicide::Forbid => "forbid"@,
                Suicide::RemoveOwn => "remove-own"@,
            }),
    {
        match self {
            Suicide::Forbid => "forbid",
            Suicide::RemoveOwn => "remove-own",
        }
    }
}

impl Default for Suicide {
    fn default() -> (r: Self)
        ensures
            r == Suicide::Forbid,
    {
        Suicide::Forbid
    }
}

/// Which repetition rule is in force: situational superko forbids
/// recreating a seen situation, positional superko a seen position.
#[derive(Clone, Copy, Debug, PartialEq, Eq, PartialOrd, Ord, Hash, Structural)]
pub enum Repetition {
    /// Situational superko — a play may not recreate a seen situation.
    Ssk,
    /// Positional superko — a play may not recreate a seen position.
    Psk,
}

impl Repetition {
    /// The spelling a command line accepts and a report prints.
    pub fn slug(self) -> (r: &'static str)
        ensures
            r@ == (match self {
                Repetition::Ssk => "ssk"@,
                Repetition::Psk => "psk"@,
            }),
    {
        match self {
            Repetition::Ssk => "ssk",
            Repetition::Psk => "psk",
        }
    }
}

impl Default for Repetition {
    fn default() -> (r: Self)
        ensures
            r == Repetition::Ssk,
    {
        Repetition::Ssk
    }
}

/// A resolved rule configuration: the board, the two variant axes and the
/// komi.
#[derive(Clone, Copy, Debug, PartialEq, Eq)]
pub struct RuleConfig {
    /// The board.
    pub dims: Dims,
    /// What a self-capturing play does.
    pub suicide: Suicide,
    /// Which repetition rule is in force.
    pub repetition: Repetition,
    /// The komi, exactly, as a rational.
    pub komi: Rat,
}

impl RuleConfig {
    /// The default configuration: suicide forbidden, situational superko,
    /// komi zero. A tie goes to White, so the tie convention is observable at
    /// an integer komi.
    pub fn new(dims: Dims) -> (r: Self)
        ensures
            r.dims == dims,
            r.suicide == Suicide::Forbid,
            r.repetition == Repetition::Ssk,
            r.komi@ == (0int, 1int),
    {
        Self { dims, suicide: Suicide::Forbid, repetition: Repetition::Ssk, komi: Rat::zero() }
    }

    /// The same configuration under a different repetition rule.
    pub fn with_repetition(self, repetition: Repetition) -> (r: Self)
        ensures
            r == (RuleConfig { repetition, ..self }),
    {
        RuleConfig { repetition, ..self }
    }

    /// The same configuration under a different suicide convention.
    pub fn with_suicide(self, suicide: Suicide) -> (r: Self)
        ensures
            r == (RuleConfig { suicide, ..self }),
    {
        RuleConfig { suicide, ..self }
    }

    /// The same configuration at a different komi.
    pub fn with_komi(self, komi: Rat) -> (r: Self)
        ensures
            r == (RuleConfig { komi, ..self }),
    {
        RuleConfig { komi, ..self }
    }

    /// Whether suicide is forbidden, the convention under which a play never
    /// removes the mover's own stones.
    pub fn mirrors_defs(self) -> (r: bool)
        ensures
            r == (self.suicide == Suicide::Forbid),
    {
        match self.suicide {
            Suicide::Forbid => true,
            Suicide::RemoveOwn => false,
        }
    }
}


/// A board as a report spells it: `MxN`.
pub open spec fn dims_text(d: Dims) -> Seq<char> {
    dec(d.rows as nat) + "x"@ + dec(d.cols as nat)
}

/// A point as a report spells it: `(row,col)`.
pub open spec fn point_text(p: Point) -> Seq<char> {
    seq!['('] + dec(p.row as nat) + seq![','] + dec(p.col as nat) + seq![')']
}

impl Dims {
    /// The board as a report spells it: `MxN`.
    pub fn to_string(&self) -> (r: String)
        ensures
            r@ == dims_text(*self),
    {
        let mut out = String::new();
        push_decimal(&mut out, self.rows as u64);
        push_str(&mut out, "x");
        push_decimal(&mut out, self.cols as u64);
        out
    }
}

impl Point {
    /// The point as a report spells it: `(row,col)`.
    pub fn to_string(&self) -> (r: String)
        ensures
            r@ == point_text(*self),
    {
        let mut out = String::new();
        push_char(&mut out, '(');
        push_decimal(&mut out, self.row as u64);
        push_char(&mut out, ',');
        push_decimal(&mut out, self.col as u64);
        push_char(&mut out, ')');
        assert(out@ =~= point_text(*self));
        out
    }
}

/// The spelling of a suicide convention.
pub open spec fn suicide_text(s: Suicide) -> Seq<char> {
    match s {
        Suicide::Forbid => "forbid"@,
        Suicide::RemoveOwn => "remove-own"@,
    }
}

/// The spelling of a repetition rule.
pub open spec fn rule_text(r: Repetition) -> Seq<char> {
    match r {
        Repetition::Ssk => "ssk"@,
        Repetition::Psk => "psk"@,
    }
}

impl RuleConfig {
    /// The configuration in words: board, rule, suicide convention, komi.
    pub fn to_string(&self) -> (r: String)
        ensures
            r@ == "board "@ + dims_text(self.dims) + " rule "@ + rule_text(self.repetition) + " suicide "@
                + suicide_text(self.suicide) + " komi "@ + rat_text(self.komi@),
    {
        let mut out = String::new();
        push_str(&mut out, "board ");
        let d = self.dims.to_string();
        push_str(&mut out, d.as_str());
        push_str(&mut out, " rule ");
        push_str(&mut out, self.repetition.slug());
        push_str(&mut out, " suicide ");
        push_str(&mut out, self.suicide.slug());
        push_str(&mut out, " komi ");
        let k = self.komi.to_string();
        push_str(&mut out, k.as_str());
        out
    }
}

} // verus!
