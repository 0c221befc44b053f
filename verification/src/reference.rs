//! The rules of Go under superko: board mechanics, the two repetition rules,
//! history-carrying state and area scoring.
//!
//! Every rule is stated twice: once as a spec function over the public
//! models (`PositionModel`, `SitModel`, `StateModel`), which says what the
//! rule *is*, and once as an executable function whose contract equates its
//! result with that spec. Chains and reachability are defined by paths, the
//! reflexive-transitive closure of a one-step relation; the executable flood
//! fill is proved to compute exactly that closure.

use vstd::prelude::*;
use vstd::set_lib::{lemma_int_range, lemma_len_subset, set_int_range};

pub use crate::config::{Dims, Point, Repetition, Suicide};
use crate::config::point_text;
use crate::text::{dec_int, push_char, push_signed, push_str};

verus! {

/// The two colors of stone.
#[derive(Clone, Copy, Debug, PartialEq, Eq, PartialOrd, Ord, Hash, Structural)]
pub enum Color {
    /// Black, who moves first from the root of play.
    Black,
    /// White.
    White,
}

impl Color {
    /// The opposing color, as a spec.
    pub open spec fn opp(self) -> Color {
        match self {
            Color::Black => Color::White,
            Color::White => Color::Black,
        }
    }

    /// The opposing color.
    #[inline]
    pub fn other(self) -> (r: Self)
        ensures
            r == self.opp(),
    {
        match self {
            Color::Black => Color::White,
            Color::White => Color::Black,
        }
    }

    /// The character this color takes in a position's string form.
    pub fn glyph(self) -> (r: char)
        ensures
            r == (match self {
                Color::Black => 'X',
                Color::White => 'O',
            }),
    {
        match self {
            Color::Black => 'X',
            Color::White => 'O',
        }
    }

    /// The color's name.
    pub fn name(self) -> (r: &'static str)
        ensures
            r@ == (match self {
                Color::Black => "black"@,
                Color::White => "white"@,
            }),
    {
        match self {
            Color::Black => "black",
            Color::White => "white",
        }
    }
}

/// Two points are adjacent when they agree on one coordinate and differ by
/// one on the other: the four orthogonal neighbors. Diagonals are not
/// adjacency.
pub open spec fn adj_spec(p: Point, q: Point) -> bool {
    ||| p.row == q.row && (p.col + 1 == q.col || q.col + 1 == p.col)
    ||| p.col == q.col && (p.row + 1 == q.row || q.row + 1 == p.row)
}

/// Whether `p` and `q` are orthogonal neighbors.
pub fn adj(p: Point, q: Point) -> (r: bool)
    ensures
        r == adj_spec(p, q),
{
    (p.row == q.row && ((p.col < q.col && q.col - p.col == 1) || (q.col < p.col && p.col - q.col
        == 1))) || (p.col == q.col && ((p.row < q.row && q.row - p.row == 1) || (q.row < p.row
        && p.row - q.row == 1)))
}

/// The `k`-th candidate neighbor of `p`, `k` in `0..4`: up, left, right,
/// down, when it lies on the board. Listed in row-major order.
pub open spec fn cand(d: Dims, p: Point, k: int) -> Option<Point> {
    if k == 0 {
        if p.row > 0 {
            Some(Point { row: (p.row - 1) as usize, col: p.col })
        } else {
            None
        }
    } else if k == 1 {
        if p.col > 0 {
            Some(Point { row: p.row, col: (p.col - 1) as usize })
        } else {
            None
        }
    } else if k == 2 {
        if p.col + 1 < d.cols {
            Some(Point { row: p.row, col: (p.col + 1) as usize })
        } else {
            None
        }
    } else if k == 3 {
        if p.row + 1 < d.rows {
            Some(Point { row: (p.row + 1) as usize, col: p.col })
        } else {
            None
        }
    } else {
        None
    }
}

/// A candidate as a sequence of zero or one points.
pub open spec fn cand_seq(d: Dims, p: Point, k: int) -> Seq<Point> {
    match cand(d, p, k) {
        Some(q) => seq![q],
        None => Seq::empty(),
    }
}

/// The on-board neighbors of `p`, in row-major order.
pub open spec fn nbrs(d: Dims, p: Point) -> Seq<Point> {
    cand_seq(d, p, 0) + cand_seq(d, p, 1) + cand_seq(d, p, 2) + cand_seq(d, p, 3)
}

/// Every on-board point adjacent to an on-board `p` is one of its four
/// candidates, and every candidate is an on-board point adjacent to `p`.
pub proof fn lemma_cand(d: Dims, p: Point)
    requires
        d.has(p),
    ensures
        forall|k: int|
            0 <= k < 4 && #[trigger] cand(d, p, k) is Some ==> d.has(cand(d, p, k)->0) && adj_spec(
                p,
                cand(d, p, k)->0,
            ),
        forall|q: Point|
            d.has(q) && #[trigger] adj_spec(p, q) ==> cand(d, p, 0) == Some(q) || cand(d, p, 1)
                == Some(q) || cand(d, p, 2) == Some(q) || cand(d, p, 3) == Some(q),
{
}

/// The candidates are distinct.
pub proof fn lemma_cand_distinct(d: Dims, p: Point)
    ensures
        forall|j: int, k: int|
            0 <= j < k < 4 && (#[trigger] cand(d, p, j)) is Some && (#[trigger] cand(d, p, k)) is Some
                ==> cand(d, p, j)->0 != cand(d, p, k)->0,
{
}

/// The on-board points adjacent to `p`, in row-major order.
pub fn neighbors(dims: Dims, p: Point) -> (r: Vec<Point>)
    requires
        dims.has(p),
    ensures
        r@ == nbrs(dims, p),
{
    let mut out: Vec<Point> = Vec::new();
    if p.row > 0 {
        out.push(Point::new(p.row - 1, p.col));
    }
    assert(out@ =~= cand_seq(dims, p, 0));
    let ghost s0 = out@;
    if p.col > 0 {
        out.push(Point::new(p.row, p.col - 1));
    }
    assert(out@ =~= s0 + cand_seq(dims, p, 1));
    let ghost s1 = out@;
    if p.col < dims.cols && dims.cols - p.col > 1 {
        out.push(Point::new(p.row, p.col + 1));
    }
    assert(out@ =~= s1 + cand_seq(dims, p, 2));
    let ghost s2 = out@;
    if p.row < dims.rows && dims.rows - p.row > 1 {
        out.push(Point::new(p.row + 1, p.col));
    }
    assert(out@ =~= s2 + cand_seq(dims, p, 3));
    out
}

/// The neighbor list holds exactly the on-board points adjacent to `p`,
/// each once.
pub proof fn lemma_nbrs(d: Dims, p: Point)
    requires
        d.has(p),
    ensures
        forall|q: Point| nbrs(d, p).contains(q) <==> d.has(q) && adj_spec(p, q),
        nbrs(d, p).no_duplicates(),
{
    lemma_cand(d, p);
    lemma_cand_distinct(d, p);
    let s = nbrs(d, p);
    assert forall|q: Point| s.contains(q) implies d.has(q) && adj_spec(p, q) by {
        let i = choose|i: int| 0 <= i < s.len() && s[i] == q;
        let a = cand_seq(d, p, 0);
        let b = cand_seq(d, p, 1);
        let c = cand_seq(d, p, 2);
        if i < a.len() {
            assert(cand(d, p, 0) is Some);
        } else if i < a.len() + b.len() {
            assert(cand(d, p, 1) is Some);
        } else if i < a.len() + b.len() + c.len() {
            assert(cand(d, p, 2) is Some);
        } else {
            assert(cand(d, p, 3) is Some);
        }
    }
    assert forall|q: Point| d.has(q) && adj_spec(p, q) implies s.contains(q) by {
        let a = cand_seq(d, p, 0);
        let b = cand_seq(d, p, 1);
        let c = cand_seq(d, p, 2);
        if cand(d, p, 0) == Some(q) {
            assert(s[0] == q);
        } else if cand(d, p, 1) == Some(q) {
            assert(s[a.len() as int] == q);
        } else if cand(d, p, 2) == Some(q) {
            assert(s[(a.len() + b.len()) as int] == q);
        } else {
            assert(s[(a.len() + b.len() + c.len()) as int] == q);
        }
    }
}

/// What a position is: a board and, for each of its points in row-major
/// order, a stone or nothing.
pub struct PositionModel {
    /// The board.
    pub dims: Dims,
    /// The cells, row-major.
    pub cells: Seq<Option<Color>>,
}

impl PositionModel {
    /// A board with one cell per point.
    pub open spec fn wf(self) -> bool {
        self.dims.wf() && self.cells.len() == self.dims.size()
    }

    /// What stands at `p`.
    pub open spec fn at(self, p: Point) -> Option<Color> {
        self.cells[self.dims.index_of(p)]
    }

    /// The same position with `v` at `p`.
    pub open spec fn put(self, p: Point, v: Option<Color>) -> PositionModel {
        PositionModel { dims: self.dims, cells: self.cells.update(self.dims.index_of(p), v) }
    }

    /// How many stones of `c` stand among the first `k` cells.
    pub open spec fn count_prefix(self, c: Color, k: int) -> nat
        decreases k,
    {
        if k <= 0 {
            0
        } else {
            self.count_prefix(c, k - 1) + if self.cells[k - 1] == Some(c) {
                1nat
            } else {
                0nat
            }
        }
    }

    /// How many stones of `c` stand on the board.
    pub open spec fn stones(self, c: Color) -> nat {
        self.count_prefix(c, self.cells.len() as int)
    }
}

/// A position gives each point of the board a stone or leaves it empty. Two
/// positions are equal when they are on the same board and agree at every
/// point.
#[derive(Clone, Debug)]
pub struct Position {
    dims: Dims,
    cells: Vec<Option<Color>>,
}

impl View for Position {
    type V = PositionModel;

    closed spec fn view(&self) -> PositionModel {
        PositionModel { dims: self.dims, cells: self.cells@ }
    }
}

impl Position {
    /// The empty board.
    pub fn empty(dims: Dims) -> (r: Self)
        requires
            dims.wf(),
        ensures
            r@.wf(),
            r@.dims == dims,
            forall|i: int| 0 <= i < dims.size() ==> r@.cells[i] is None,
    {
        let n = dims.point_count();
        let mut cells: Vec<Option<Color>> = Vec::new();
        let mut i: usize = 0;
        while i < n
            invariant
                i <= n,
                cells.len() == i,
                forall|j: int| 0 <= j < i ==> cells@[j] is None,
            decreases n - i,
        {
            cells.push(None);
            i += 1;
        }
        Self { dims, cells }
    }

    /// A position from its cells, row-major.
    pub fn from_cells(dims: Dims, cells: &[Option<Color>]) -> (r: Self)
        requires
            dims.wf(),
            cells@.len() == dims.size(),
        ensures
            r@ == (PositionModel { dims, cells: cells@ }),
            r@.wf(),
    {
        let mut out: Vec<Option<Color>> = Vec::new();
        let mut i: usize = 0;
        while i < cells.len()
            invariant
                i <= cells@.len(),
                out@ == cells@.take(i as int),
            decreases cells@.len() - i,
        {
            out.push(cells[i]);
            i += 1;
            assert(out@ =~= cells@.take(i as int));
        }
        assert(out@ =~= cells@);
        Self { dims, cells: out }
    }

    /// A copy of this position.
    pub fn duplicate(&self) -> (r: Self)
        ensures
            r@ == self@,
    {
        Position { dims: self.dims, cells: self.cells.clone() }
    }

    /// The board this position is on.
    pub fn dims(&self) -> (r: Dims)
        ensures
            r == self@.dims,
    {
        self.dims
    }

    /// The cells, row-major.
    pub fn cells(&self) -> (r: &[Option<Color>])
        ensures
            r@ == self@.cells,
    {
        self.cells.as_slice()
    }

    /// What stands at `p`.
    pub fn get(&self, p: Point) -> (r: Option<Color>)
        requires
            self@.wf(),
            self@.dims.has(p),
        ensures
            r == self@.at(p),
    {
        let i = self.dims.index(p);
        self.cells[i]
    }

    /// What stands at row-major index `i`.
    pub fn get_at(&self, i: usize) -> (r: Option<Color>)
        requires
            i < self@.cells.len(),
        ensures
            r == self@.cells[i as int],
    {
        self.cells[i]
    }

    /// Put `v` at `p`, in place.
    pub fn set(&mut self, p: Point, v: Option<Color>)
        requires
            old(self)@.wf(),
            old(self)@.dims.has(p),
        ensures
            final(self)@ == old(self)@.put(p, v),
            final(self)@.wf(),
    {
        let i = self.dims.index(p);
        self.cells.set(i, v);
    }

    /// A fresh position agreeing with this one except at `p`.
    pub fn update(&self, p: Point, v: Option<Color>) -> (r: Self)
        requires
            self@.wf(),
            self@.dims.has(p),
        ensures
            r@ == self@.put(p, v),
            r@.wf(),
    {
        let mut out = self.duplicate();
        out.set(p, v);
        out
    }

    /// How many stones of `c` stand on the board.
    pub fn stone_count(&self, c: Color) -> (r: usize)
        ensures
            r == self@.stones(c),
    {
        let mut count: usize = 0;
        let mut i: usize = 0;
        while i < self.cells.len()
            invariant
                i <= self.cells.len(),
                count == self@.count_prefix(c, i as int),
                count <= i,
            decreases self.cells.len() - i,
        {
            if self.cells[i] == Some(c) {
                count += 1;
            }
            i += 1;
        }
        count
    }

    /// Whether two positions are on the same board and agree at every point.
    pub fn same(&self, other: &Position) -> (r: bool)
        ensures
            r == (self@ == other@),
    {
        if self.dims != other.dims || self.cells.len() != other.cells.len() {
            return false;
        }
        let mut i: usize = 0;
        while i < self.cells.len()
            invariant
                i <= self.cells.len(),
                self.cells.len() == other.cells.len(),
                forall|j: int| 0 <= j < i ==> self.cells@[j] == other.cells@[j],
            decreases self.cells.len() - i,
        {
            if self.cells[i] != other.cells[i] {
                return false;
            }
            i += 1;
        }
        assert(self.cells@ =~= other.cells@);
        true
    }
}

impl PartialEq for Position {
    fn eq(&self, other: &Self) -> (r: bool) {
        self.same(other)
    }
}

impl Eq for Position {}

impl vstd::std_specs::cmp::PartialEqSpecImpl for Position {
    open spec fn obeys_eq_spec() -> bool {
        true
    }

    open spec fn eq_spec(&self, other: &Position) -> bool {
        self.view() == other.view()
    }
}

/// Adjacent points carrying stones of the same color — the relation whose
/// connected components are chains.
pub open spec fn joined_spec(b: PositionModel, p: Point, q: Point) -> bool {
    adj_spec(p, q) && b.at(p) == b.at(q) && b.at(p) is Some
}

/// Whether `p` and `q` are adjacent stones of one color.
pub fn joined(b: &Position, p: Point, q: Point) -> (r: bool)
    requires
        b@.wf(),
        b@.dims.has(p),
        b@.dims.has(q),
    ensures
        r == joined_spec(b@, p, q),
{
    adj(p, q) && b.get(p) == b.get(q) && b.get(p).is_some()
}

/// The two one-step relations a flood fill closes over.
#[derive(Clone, Copy, Debug, PartialEq, Eq, Structural)]
pub enum Link {
    /// Adjacent stones of one color: the closure is a chain.
    Joined,
    /// A step from an empty point to any adjacent point: the closure is what
    /// an empty point reaches.
    FromEmpty,
}

/// One step of the relation a flood fill closes over.
pub open spec fn link_spec(b: PositionModel, l: Link, x: Point, y: Point) -> bool {
    match l {
        Link::Joined => joined_spec(b, x, y),
        Link::FromEmpty => adj_spec(x, y) && b.at(x) is None,
    }
}

/// A walk of on-board points, each step of which is a `l` step.
pub open spec fn is_walk(b: PositionModel, l: Link, w: Seq<Point>) -> bool {
    &&& w.len() >= 1
    &&& forall|i: int| 0 <= i < w.len() ==> b.dims.has(#[trigger] w[i])
    &&& forall|i: int| 0 <= i < w.len() - 1 ==> link_spec(b, l, #[trigger] w[i], w[i + 1])
}

/// `q` is in the reflexive-transitive closure of `l` from `p`.
pub open spec fn linked(b: PositionModel, l: Link, p: Point, q: Point) -> bool {
    exists|w: Seq<Point>| #[trigger] is_walk(b, l, w) && w[0] == p && w.last() == q
}

/// The one-point walk: the closure is reflexive.
proof fn lemma_linked_refl(b: PositionModel, l: Link, p: Point)
    requires
        b.dims.has(p),
    ensures
        linked(b, l, p, p),
{
    let w = seq![p];
    assert(is_walk(b, l, w));
}

/// A walk extended by one step is a walk.
proof fn lemma_linked_step(b: PositionModel, l: Link, p: Point, q: Point, y: Point)
    requires
        linked(b, l, p, q),
        b.dims.has(y),
        link_spec(b, l, q, y),
    ensures
        linked(b, l, p, y),
{
    let w = choose|w: Seq<Point>| #[trigger] is_walk(b, l, w) && w[0] == p && w.last() == q;
    let w2 = w.push(y);
    assert forall|i: int| 0 <= i < w2.len() - 1 implies link_spec(b, l, #[trigger] w2[i], w2[i + 1]) by {
        if i < w.len() - 1 {
            assert(w2[i] == w[i] && w2[i + 1] == w[i + 1]);
        }
    }
    assert(is_walk(b, l, w2));
}

/// A set of points closed under `l` holds everything a member reaches.
proof fn lemma_closed_holds_walk(b: PositionModel, l: Link, m: Seq<bool>, w: Seq<Point>)
    requires
        b.wf(),
        m.len() == b.dims.size(),
        is_walk(b, l, w),
        m[b.dims.index_of(w[0])],
        forall|x: Point, y: Point|
            b.dims.has(x) && b.dims.has(y) && m[b.dims.index_of(x)] && #[trigger] link_spec(
                b,
                l,
                x,
                y,
            ) ==> m[b.dims.index_of(y)],
    ensures
        m[b.dims.index_of(w.last())],
    decreases w.len(),
{
    if w.len() > 1 {
        let v = w.drop_last();
        assert(is_walk(b, l, v)) by {
            assert forall|i: int| 0 <= i < v.len() - 1 implies link_spec(b, l, #[trigger] v[i], v[i + 1]) by {
                assert(link_spec(b, l, w[i], w[i + 1]));
            }
            assert forall|i: int| 0 <= i < v.len() implies b.dims.has(#[trigger] v[i]) by {
                assert(b.dims.has(w[i]));
            }
        }
        lemma_closed_holds_walk(b, l, m, v);
        assert(link_spec(b, l, w[w.len() - 2], w[w.len() - 1]));
        assert(b.dims.has(w[w.len() - 2]));
        assert(b.dims.has(w[w.len() - 1]));
    }
}

/// Decide one step of the relation.
fn link_step(b: &Position, l: Link, x: Point, y: Point) -> (r: bool)
    requires
        b@.wf(),
        b@.dims.has(x),
        b@.dims.has(y),
    ensures
        r == link_spec(b@, l, x, y),
{
    match l {
        Link::Joined => joined(b, x, y),
        Link::FromEmpty => adj(x, y) && b.get(x).is_none(),
    }
}

/// The `k`-th candidate neighbor of `p`.
fn candidate(d: Dims, p: Point, k: usize) -> (r: Option<Point>)
    requires
        d.has(p),
    ensures
        r == cand(d, p, k as int),
{
    if k == 0 {
        if p.row > 0 {
            Some(Point::new(p.row - 1, p.col))
        } else {
            None
        }
    } else if k == 1 {
        if p.col > 0 {
            Some(Point::new(p.row, p.col - 1))
        } else {
            None
        }
    } else if k == 2 {
        if d.cols - p.col > 1 {
            Some(Point::new(p.row, p.col + 1))
        } else {
            None
        }
    } else if k == 3 {
        if d.rows - p.row > 1 {
            Some(Point::new(p.row + 1, p.col))
        } else {
            None
        }
    } else {
        None
    }
}

/// The closure of `l` from `p`, as one flag per point: a flood fill.
pub fn closure(b: &Position, l: Link, p: Point) -> (mask: Vec<bool>)
    requires
        b@.wf(),
        b@.dims.has(p),
    ensures
        mask@.len() == b@.dims.size(),
        forall|i: int|
            0 <= i < mask@.len() ==> (mask@[i] <==> linked(b@, l, p, b@.dims.point_of(i))),
{
    let d = b.dims();
    let n = d.point_count();
    let ghost bm = b@;
    let mut mask: Vec<bool> = Vec::new();
    let mut i: usize = 0;
    while i < n
        invariant
            i <= n,
            mask.len() == i,
            forall|j: int| 0 <= j < i ==> !mask@[j],
        decreases n - i,
    {
        mask.push(false);
        i += 1;
    }
    let ip = d.index(p);
    mask.set(ip, true);
    proof {
        crate::config::lemma_grid(d);
        lemma_linked_refl(bm, l, p);
        lemma_int_range(0, n as int);
    }
    let ghost mut marked: Set<int> = set![ip as int];
    let mut stack: Vec<Point> = Vec::new();
    stack.push(p);
    proof {
        assert(marked.subset_of(set_int_range(0, n as int)));
        lemma_len_subset(marked, set_int_range(0, n as int));
        assert(stack@[0] == p);
        assert forall|x: Point| d.has(x) && mask@[d.index_of(x)] implies x == p by {
            assert(d.index_of(x) == d.index_of(p));
        }
    }
    while stack.len() > 0
        invariant
            bm == b@,
            bm.wf(),
            d == bm.dims,
            n == d.size(),
            d.has(p),
            mask.len() == n,
            mask@[d.index_of(p)],
            forall|j: int| 0 <= j < n ==> (marked.contains(j) <==> mask@[j]),
            marked.finite(),
            marked.subset_of(set_int_range(0, n as int)),
            set_int_range(0, n as int).finite(),
            set_int_range(0, n as int).len() == n,
            marked.len() <= n,
            // Soundness: a marked point is in the closure.
            forall|j: int| 0 <= j < n && mask@[j] ==> linked(bm, l, p, d.point_of(j)),
            // The stack holds marked points, each once.
            stack@.no_duplicates(),
            forall|j: int| 0 <= j < stack.len() ==> d.has(#[trigger] stack@[j]) && mask@[d.index_of(
                stack@[j],
            )],
            // A marked point off the stack has had every successor marked.
            forall|x: Point, y: Point|
                d.has(x) && d.has(y) && mask@[d.index_of(x)] && !stack@.contains(x)
                    && #[trigger] link_spec(bm, l, x, y) ==> mask@[d.index_of(y)],
        decreases 2 * (n - marked.len()) + stack.len(),
    {
        let ghost stack0 = stack@;
        let ghost marked0 = marked;
        let q = stack.pop().unwrap();
        proof {
            crate::config::lemma_grid(d);
        }
        assert(!stack@.contains(q)) by {
            if stack@.contains(q) {
                let j = choose|j: int| 0 <= j < stack@.len() && stack@[j] == q;
                let k = stack@.len() as int;
                assert(stack0[j] == stack0[k]);
            }
        }
        proof {
            lemma_cand(d, q);
            assert(stack0 == stack@.push(q));
            assert forall|x: Point| stack0.contains(x) implies stack@.contains(x) || x == q by {
                let j = choose|j: int| 0 <= j < stack0.len() && stack0[j] == x;
                if j < stack@.len() {
                    assert(stack@[j] == x);
                }
            }
        }
        let mut k: usize = 0;
        while k < 4
            invariant
                bm == b@,
                bm.wf(),
                d == bm.dims,
                n == d.size(),
                d.has(p),
                d.has(q),
                k <= 4,
                mask.len() == n,
                mask@[d.index_of(p)],
                mask@[d.index_of(q)],
                linked(bm, l, p, q),
                !stack@.contains(q),
                forall|j: int| 0 <= j < n ==> (marked.contains(j) <==> mask@[j]),
                marked.finite(),
                marked.subset_of(set_int_range(0, n as int)),
                set_int_range(0, n as int).finite(),
                set_int_range(0, n as int).len() == n,
                marked.len() <= n,
                forall|j: int| 0 <= j < n && mask@[j] ==> linked(bm, l, p, d.point_of(j)),
                stack@.no_duplicates(),
                forall|j: int|
                    0 <= j < stack.len() ==> d.has(#[trigger] stack@[j]) && mask@[d.index_of(
                        stack@[j],
                    )],
                forall|x: Point, y: Point|
                    d.has(x) && d.has(y) && mask@[d.index_of(x)] && !stack@.contains(x) && x != q
                        && #[trigger] link_spec(bm, l, x, y) ==> mask@[d.index_of(y)],
                forall|j: int|
                    0 <= j < k && (#[trigger] cand(d, q, j)) is Some && link_spec(
                        bm,
                        l,
                        q,
                        cand(d, q, j)->0,
                    ) ==> mask@[d.index_of(cand(d, q, j)->0)],
                2 * (n - marked.len()) + stack.len() <= 2 * (n - marked0.len()) + stack0.len() - 1,
            decreases 4 - k,
        {
            proof {
                crate::config::lemma_grid(d);
            }
            if let Some(y) = candidate(d, q, k) {
                if link_step(b, l, q, y) {
                    let iy = d.index(y);
                    if !mask[iy] {
                        proof {
                            lemma_linked_step(bm, l, p, q, y);
                            lemma_point_of_in_range_idx(d, y);
                        }
                        mask.set(iy, true);
                        proof {
                            marked = marked.insert(iy as int);
                            lemma_len_subset(marked, set_int_range(0, n as int));
                        }
                        assert(!stack@.contains(y)) by {
                            if stack@.contains(y) {
                                let j = choose|j: int| 0 <= j < stack@.len() && stack@[j] == y;
                                assert(mask@[d.index_of(stack@[j])]);
                            }
                        }
                        let ghost before_push = stack@;
                        stack.push(y);
                        assert forall|x: Point| before_push.contains(x) implies stack@.contains(x) by {
                            let j = choose|j: int| 0 <= j < before_push.len() && before_push[j] == x;
                            assert(stack@[j] == x);
                        }
                        assert forall|x: Point| stack@.contains(x) implies before_push.contains(x) || x == y by {
                            let j = choose|j: int| 0 <= j < stack@.len() && stack@[j] == x;
                            if j < before_push.len() {
                                assert(before_push[j] == x);
                            }
                        }
                        assert(stack@.contains(y)) by {
                            assert(stack@[stack@.len() - 1] == y);
                        }
                        assert forall|x: Point| d.has(x) && d.has(y) && x != y implies d.index_of(x) != d.index_of(y) by {
                            crate::config::lemma_grid(d);
                        }
                        assert forall|j: int| 0 <= j < n && mask@[j] implies linked(
                            bm,
                            l,
                            p,
                            d.point_of(j),
                        ) by {
                            if j == iy {
                                lemma_index_in_range_idx(d, y);
                            }
                        }
                    }
                }
            }
            k += 1;
        }
        assert forall|x: Point, y: Point|
            d.has(x) && d.has(y) && mask@[d.index_of(x)] && !stack@.contains(x)
                && #[trigger] link_spec(bm, l, x, y) implies mask@[d.index_of(y)] by {
            if x == q {
                assert(adj_spec(q, y));
            }
        }
    }
    proof {
        crate::config::lemma_grid(d);
    }
    assert forall|i: int| 0 <= i < mask@.len() implies (mask@[i] <==> linked(
        bm,
        l,
        p,
        d.point_of(i),
    )) by {
        if linked(bm, l, p, d.point_of(i)) {
            let w = choose|w: Seq<Point>| #[trigger]
                is_walk(bm, l, w) && w[0] == p && w.last() == d.point_of(i);
            lemma_closed_holds_walk(bm, l, mask@, w);
            crate::config::lemma_point_of_in_range(d, i);
        }
    }
    mask
}

proof fn lemma_point_of_in_range_idx(d: Dims, y: Point)
    requires
        d.wf(),
        d.has(y),
    ensures
        d.point_of(d.index_of(y)) == y,
        0 <= d.index_of(y) < d.size(),
{
    crate::config::lemma_index_in_range(d, y);
}

proof fn lemma_index_in_range_idx(d: Dims, y: Point)
    requires
        d.wf(),
        d.has(y),
    ensures
        d.point_of(d.index_of(y)) == y,
{
    crate::config::lemma_index_in_range(d, y);
}


/// The greatest common divisor, by Euclid's recursion.
pub open spec fn gcd_spec(a: nat, b: nat) -> nat
    decreases b,
{
    if b == 0 {
        a
    } else {
        gcd_spec(b, a % b)
    }
}

/// The divisor a rational is reduced by: the greatest common divisor, or 1
/// when both are zero.
pub open spec fn reducer(a: nat, b: nat) -> nat {
    if gcd_spec(a, b) == 0 {
        1
    } else {
        gcd_spec(a, b)
    }
}

/// The greatest common divisor divides both arguments.
#[verifier::spinoff_prover]
pub proof fn lemma_gcd_divides(a: nat, b: nat)
    ensures
        gcd_spec(a, b) == 0 ==> a == 0 && b == 0,
        gcd_spec(a, b) > 0 ==> a % gcd_spec(a, b) == 0 && b % gcd_spec(a, b) == 0,
    decreases b,
{
    if b != 0 {
        lemma_gcd_divides(b, a % b);
        let g = gcd_spec(b, a % b);
        assert(gcd_spec(a, b) == g);
        if g > 0 {
            // a = (a / b) * b + a % b, and g divides both terms.
            vstd::arithmetic::div_mod::lemma_fundamental_div_mod(a as int, b as int);
            let q = a as int / b as int;
            let kb = b as int / g as int;
            let kr = (a % b) as int / g as int;
            vstd::arithmetic::div_mod::lemma_fundamental_div_mod(b as int, g as int);
            vstd::arithmetic::div_mod::lemma_fundamental_div_mod((a % b) as int, g as int);
            assert(a as int == g * (q * kb + kr)) by (nonlinear_arith)
                requires
                    a as int == b as int * q + (a % b) as int,
                    b as int == g * kb,
                    (a % b) as int == g * kr,
            ;
            vstd::arithmetic::div_mod::lemma_mod_multiples_basic(q * kb + kr, g as int);
            assert((g * (q * kb + kr)) % (g as int) == 0) by {
                assert(g * (q * kb + kr) == (q * kb + kr) * g) by (nonlinear_arith);
            }
            assert(a % g == 0);
            assert(b % g == 0);
        } else {
            assert(b == 0 || gcd_spec(b, a % b) > 0) by {
                lemma_gcd_divides(b, a % b);
            }
        }
    }
}

/// A positive number's divisors are at most it.
proof fn lemma_divisor_le(a: nat, g: nat)
    requires
        a > 0,
        g > 0,
        a % g == 0,
    ensures
        g <= a,
{
    vstd::arithmetic::div_mod::lemma_fundamental_div_mod(a as int, g as int);
    let k = a as int / g as int;
    assert(a as int == g * k);
    if k <= 0 {
        assert(g * k <= 0) by (nonlinear_arith)
            requires
                g > 0,
                k <= 0,
        ;
    } else {
        assert(g * k >= g) by (nonlinear_arith)
            requires
                g > 0,
                k >= 1,
        ;
    }
}

/// The greatest common divisor, by Euclid's loop; 1 when both are zero.
fn gcd(a: u64, b: u64) -> (r: u64)
    ensures
        r == reducer(a as nat, b as nat),
{
    let mut x = a;
    let mut y = b;
    while y != 0
        invariant
            gcd_spec(x as nat, y as nat) == gcd_spec(a as nat, b as nat),
        decreases y,
    {
        let t = x % y;
        x = y;
        y = t;
    }
    if x == 0 {
        1
    } else {
        x
    }
}

/// The greatest common divisor of two `u128`s; 1 when both are zero.
fn gcd_wide(a: u128, b: u128) -> (r: u128)
    ensures
        r == reducer(a as nat, b as nat),
{
    let mut x = a;
    let mut y = b;
    while y != 0
        invariant
            gcd_spec(x as nat, y as nat) == gcd_spec(a as nat, b as nat),
        decreases y,
    {
        let t = x % y;
        x = y;
        y = t;
    }
    if x == 0 {
        1
    } else {
        x
    }
}

/// The absolute value of an integer.
pub open spec fn abs(x: int) -> nat {
    if x < 0 {
        (-x) as nat
    } else {
        x as nat
    }
}

/// An integer with the sign of `s` and the magnitude `m`.
pub open spec fn signed(neg: bool, m: int) -> int {
    if neg {
        -m
    } else {
        m
    }
}

/// The reduced form of `num / den`, `den > 0`: both divided by their
/// greatest common divisor.
pub open spec fn reduce(num: int, den: int) -> (int, int) {
    let g = reducer(abs(num), abs(den)) as int;
    (signed(num < 0, abs(num) as int / g), den / g)
}

/// An exact rational, `num / den` in lowest terms with `den > 0`.
#[derive(Clone, Copy, Debug, PartialEq, Eq, Hash, Structural)]
pub struct Rat {
    num: i64,
    den: i64,
}

impl View for Rat {
    type V = (int, int);

    closed spec fn view(&self) -> (int, int) {
        (self.num as int, self.den as int)
    }
}

/// The reduction divides exactly and keeps the value of the fraction.
proof fn lemma_reduce(num: int, den: int)
    requires
        den > 0,
    ensures
        reduce(num, den).1 > 0,
        reduce(num, den).1 <= den,
        abs(reduce(num, den).0) <= abs(num),
        reduce(num, den).0 * den == num * reduce(num, den).1,
{
    let a = abs(num);
    let b = abs(den);
    lemma_gcd_divides(a, b);
    let g = reducer(a, b) as int;
    assert(g > 0);
    assert(a as int % g == 0 && b as int % g == 0);
    lemma_divisor_le(b, g as nat);
    vstd::arithmetic::div_mod::lemma_fundamental_div_mod(a as int, g);
    vstd::arithmetic::div_mod::lemma_fundamental_div_mod(b as int, g);
    let ka = a as int / g;
    let kb = b as int / g;
    assert(kb > 0) by (nonlinear_arith)
        requires
            b as int == g * kb,
            b > 0,
            g > 0,
    ;
    assert(kb <= b) by (nonlinear_arith)
        requires
            b as int == g * kb,
            g >= 1,
            kb > 0,
    ;
    assert(ka <= a) by (nonlinear_arith)
        requires
            a as int == g * ka,
            g >= 1,
            ka >= 0,
    ;
    assert(ka >= 0) by {
        vstd::arithmetic::div_mod::lemma_div_pos_is_pos(a as int, g);
    }
    assert(ka * (g * kb) == (g * ka) * kb) by (nonlinear_arith);
    if num < 0 {
        assert((-ka) * den == num * kb) by (nonlinear_arith)
            requires
                num == -(g * ka),
                den == g * kb,
        ;
    } else {
        assert(ka * den == num * kb) by (nonlinear_arith)
            requires
                num == g * ka,
                den == g * kb,
        ;
    }
}

impl Rat {
    /// Zero.
    pub fn zero() -> (r: Self)
        ensures
            r@ == (0int, 1int),
    {
        Rat { num: 0, den: 1 }
    }

    /// The rational `num / den`, in lowest terms with a positive denominator.
    pub fn new(num: i64, den: i64) -> (r: Self)
        requires
            den != 0,
            den < 0 ==> num != i64::MIN && den != i64::MIN,
        ensures
            r@ == reduce(signed(den < 0, num as int), abs(den as int) as int),
            r@.1 > 0,
            r@.0 * den == num * r@.1,
    {
        let neg = den < 0;
        let (n, d): (i64, i64) = if neg {
            (-num, -den)
        } else {
            (num, den)
        };
        let na: u64 = if n < 0 {
            (-(n as i128)) as u64
        } else {
            n as u64
        };
        let da: u64 = d as u64;
        let g = gcd(na, da);
        proof {
            lemma_reduce(n as int, d as int);
            lemma_gcd_divides(na as nat, da as nat);
        }
        let qa: u64 = na / g;
        let qd: u64 = da / g;
        let rn: i64 = if n < 0 {
            -(qa as i128) as i64
        } else {
            qa as i64
        };
        let r = Rat { num: rn, den: qd as i64 };
        proof {
            assert(r@ == reduce(n as int, d as int));
            if neg {
                assert(r@.0 * (-(den as int)) == (-(num as int)) * r@.1);
                assert(r@.0 * (den as int) == (num as int) * r@.1) by (nonlinear_arith)
                    requires
                        r@.0 * (-(den as int)) == (-(num as int)) * r@.1,
                ;
            }
        }
        r
    }

    /// The rational `n / 1`.
    pub fn from_int(n: i64) -> (r: Self)
        ensures
            r@ == (n as int, 1int),
    {
        Rat { num: n, den: 1 }
    }

    /// The numerator, in lowest terms.
    pub fn num(self) -> (r: i64)
        ensures
            r == self@.0,
    {
        self.num
    }

    /// The denominator, in lowest terms.
    pub fn den(self) -> (r: i64)
        ensures
            r == self@.1,
    {
        self.den
    }

    /// Whether the rational is strictly positive — the test the winner
    /// makes on the margin.
    pub fn is_positive(self) -> (r: bool)
        ensures
            r == (self@.0 > 0),
    {
        self.num > 0
    }

    /// The greatest integer at most this rational, for a positive denominator.
    pub fn floor(self) -> (r: i64)
        requires
            self@.1 > 0,
        ensures
            r == self@.0 / self@.1,
    {
        let n = self.num as i128;
        let d = self.den as i128;
        if n >= 0 {
            let q = (n as u128) / (d as u128);
            proof {
                vstd::arithmetic::div_mod::lemma_div_basics_5(n as int, d as int);
            }
            q as i64
        } else {
            let m = (-n) as u128;
            let q = (m + (d as u128) - 1) / (d as u128);
            proof {
                lemma_floor_neg(n as int, d as int);
            }
            -(q as i128) as i64
        }
    }

    /// The difference `self - other`, reduced. The reduced numerator and
    /// denominator must fit an `i64`.
    pub fn minus(self, other: Self) -> (r: Self)
        requires
            self@.1 > 0,
            other@.1 > 0,
            fits_i64(reduce(self@.0 * other@.1 - other@.0 * self@.1, self@.1 * other@.1)),
        ensures
            r@ == reduce(self@.0 * other@.1 - other@.0 * self@.1, self@.1 * other@.1),
            r@.1 > 0,
    {
        let a = self.num as i128;
        let b = self.den as i128;
        let c = other.num as i128;
        let d = other.den as i128;
        proof {
            lemma_mul_i64_bounds(a as int, d as int);
            lemma_mul_i64_bounds(c as int, b as int);
            lemma_mul_i64_bounds(b as int, d as int);
        }
        assert(a * d - c * b <= i128::MAX && a * d - c * b >= i128::MIN);
        let num: i128 = a * d - c * b;
        let den: i128 = b * d;
        let na: u128 = if num < 0 {
            (-num) as u128
        } else {
            num as u128
        };
        let g = gcd_wide(na, den as u128);
        assert(b * d > 0) by (nonlinear_arith)
            requires
                b > 0,
                d > 0,
        ;
        proof {
            lemma_reduce(num as int, den as int);
            lemma_gcd_divides(na as nat, den as nat);
        }
        let qa: u128 = na / g;
        let qd: u128 = (den as u128) / g;
        let rn: i64 = if num < 0 {
            -(qa as i128) as i64
        } else {
            qa as i64
        };
        Rat { num: rn, den: qd as i64 }
    }
}

/// Both halves of a pair fit an `i64`.
pub open spec fn fits_i64(r: (int, int)) -> bool {
    i64::MIN <= r.0 <= i64::MAX && i64::MIN <= r.1 <= i64::MAX
}

proof fn lemma_mul_i64_bounds(x: int, y: int)
    requires
        i64::MIN <= x <= i64::MAX,
        0 < y <= i64::MAX,
    ensures
        -0x3fff_ffff_ffff_ffff_8000_0000_0000_0000 <= x * y <= 0x3fff_ffff_ffff_ffff_8000_0000_0000_0000,
{
    assert(-0x3fff_ffff_ffff_ffff_8000_0000_0000_0000 <= x * y <= 0x3fff_ffff_ffff_ffff_8000_0000_0000_0000) by (nonlinear_arith)
        requires
            -0x8000_0000_0000_0000 <= x <= 0x8000_0000_0000_0000,
            0 < y <= 0x7fff_ffff_ffff_ffff,
    ;
}

proof fn lemma_floor_neg(n: int, d: int)
    requires
        n < 0,
        d > 0,
    ensures
        -((-n + d - 1) / d) == n / d,
        0 <= (-n + d - 1) / d <= -n,
{
    let m = -n;
    let q = (m + d - 1) / d;
    let r = (m + d - 1) % d;
    vstd::arithmetic::div_mod::lemma_fundamental_div_mod(m + d - 1, d);
    vstd::arithmetic::div_mod::lemma_mod_bound(m + d - 1, d);
    // n = -q * d + (d - 1 - r), with 0 <= d - 1 - r < d.
    assert(d * (-q) == -(d * q)) by (nonlinear_arith);
    vstd::arithmetic::div_mod::lemma_div_pos_is_pos(m + d - 1, d);
    assert(q <= m) by (nonlinear_arith)
        requires
            d * q + r == m + d - 1,
            r >= 0,
            d >= 1,
            m >= 1,
            q >= 0,
    ;
    vstd::arithmetic::div_mod::lemma_fundamental_div_mod_converse(n, d, -q, d - 1 - r);
}

/// `q` is a stone of the chain at `p`.
pub open spec fn chain_has(b: PositionModel, p: Point, q: Point) -> bool {
    linked(b, Link::Joined, p, q)
}

/// Some point adjacent to `q` is empty.
pub open spec fn liberty_at(b: PositionModel, q: Point) -> bool {
    exists|r: Point| b.dims.has(r) && #[trigger] adj_spec(q, r) && b.at(r) is None
}

/// A chain has a liberty when some point adjacent to some stone of the chain
/// is empty. A chain without a liberty is captured.
pub open spec fn has_liberty_spec(b: PositionModel, p: Point) -> bool {
    exists|q: Point| b.dims.has(q) && #[trigger] chain_has(b, p, q) && liberty_at(b, q)
}

/// Whether some point adjacent to `q` is empty.
fn liberty_next_to(b: &Position, q: Point) -> (r: bool)
    requires
        b@.wf(),
        b@.dims.has(q),
    ensures
        r == liberty_at(b@, q),
{
    let d = b.dims();
    proof {
        lemma_cand(d, q);
    }
    let mut k: usize = 0;
    while k < 4
        invariant
            b@.wf(),
            d == b@.dims,
            d.has(q),
            k <= 4,
            forall|j: int|
                0 <= j < k && (#[trigger] cand(d, q, j)) is Some ==> b@.at(cand(d, q, j)->0) is Some,
        decreases 4 - k,
    {
        if let Some(r) = candidate(d, q, k) {
            if b.get(r).is_none() {
                proof {
                    lemma_cand(d, q);
                    assert(adj_spec(q, r));
                }
                return true;
            }
        }
        k += 1;
    }
    proof {
        lemma_cand(d, q);
    }
    false
}

/// The chain containing `p`: the stones connected to `p` through
/// same-colored neighbors, in row-major order. An empty `p` gives the
/// singleton.
pub fn chain(b: &Position, p: Point) -> (r: Vec<Point>)
    requires
        b@.wf(),
        b@.dims.has(p),
    ensures
        forall|q: Point| r@.contains(q) <==> b@.dims.has(q) && chain_has(b@, p, q),
        forall|i: int, j: int|
            0 <= i < j < r@.len() ==> b@.dims.index_of(#[trigger] r@[i]) < b@.dims.index_of(
                #[trigger] r@[j],
            ),
{
    let d = b.dims();
    let n = d.point_count();
    let mask = closure(b, Link::Joined, p);
    proof {
        crate::config::lemma_grid(d);
    }
    let mut out: Vec<Point> = Vec::new();
    let mut i: usize = 0;
    while i < n
        invariant
            b@.wf(),
            d == b@.dims,
            n == d.size(),
            i <= n,
            mask@.len() == n,
            forall|j: int| 0 <= j < n ==> (mask@[j] <==> chain_has(b@, p, d.point_of(j))),
            forall|j: int| 0 <= j < out@.len() ==> d.has(#[trigger] out@[j]) && d.index_of(out@[j]) < i,
            forall|q: Point|
                d.has(q) && d.index_of(q) < i ==> (out@.contains(q) <==> chain_has(b@, p, q)),
            forall|j: int, k: int|
                0 <= j < k < out@.len() ==> d.index_of(#[trigger] out@[j]) < d.index_of(
                    #[trigger] out@[k],
                ),
        decreases n - i,
    {
        proof {
            crate::config::lemma_grid(d);
        }
        let ghost before = out@;
        if mask[i] {
            let q = d.point_at(i);
            out.push(q);
            assert forall|x: Point| out@.contains(x) implies before.contains(x) || x == q by {
                let j = choose|j: int| 0 <= j < out@.len() && out@[j] == x;
                if j < before.len() {
                    assert(before[j] == x);
                }
            }
            assert forall|x: Point| before.contains(x) implies out@.contains(x) by {
                let j = choose|j: int| 0 <= j < before.len() && before[j] == x;
                assert(out@[j] == x);
            }
            assert(out@.contains(q)) by {
                assert(out@[out@.len() - 1] == q);
            }
        }
        i += 1;
    }
    proof {
        assert forall|q: Point| out@.contains(q) implies d.has(q) && chain_has(b@, p, q) by {
            let j = choose|j: int| 0 <= j < out@.len() && out@[j] == q;
            assert(d.has(out@[j]));
        }
    }
    out
}

/// Whether the chain at `p` has a liberty.
pub fn has_liberty(b: &Position, p: Point) -> (r: bool)
    requires
        b@.wf(),
        b@.dims.has(p),
    ensures
        r == has_liberty_spec(b@, p),
{
    let d = b.dims();
    let n = d.point_count();
    let mask = closure(b, Link::Joined, p);
    let mut i: usize = 0;
    while i < n
        invariant
            b@.wf(),
            d == b@.dims,
            n == d.size(),
            i <= n,
            mask@.len() == n,
            forall|j: int| 0 <= j < n ==> (mask@[j] <==> chain_has(b@, p, d.point_of(j))),
            forall|q: Point|
                d.has(q) && d.index_of(q) < i && chain_has(b@, p, q) ==> !liberty_at(b@, q),
        decreases n - i,
    {
        proof {
            crate::config::lemma_grid(d);
        }
        if mask[i] {
            let q = d.point_at(i);
            if liberty_next_to(b, q) {
                return true;
            }
        }
        i += 1;
    }
    proof {
        crate::config::lemma_grid(d);
    }
    false
}

/// The position with every `c` stone whose chain has no liberty removed.
/// Every removal reads the original board, so the sweep order cannot matter.
pub open spec fn clear_spec(b: PositionModel, c: Color) -> PositionModel {
    PositionModel {
        dims: b.dims,
        cells: Seq::new(
            b.cells.len(),
            |i: int|
                if b.cells[i] == Some(c) && !has_liberty_spec(b, b.dims.point_of(i)) {
                    None
                } else {
                    b.cells[i]
                },
        ),
    }
}

/// The position after `c` places a stone at `p` and every opposing chain
/// left without a liberty is removed.
pub open spec fn resolve_spec(b: PositionModel, c: Color, p: Point) -> PositionModel {
    clear_spec(b.put(p, Some(c)), c.opp())
}

/// The position after `c` plays at `p` under the suicide-permitting reading:
/// the opponent's dead chains come off first, then the player's own.
pub open spec fn resolve_remove_own_spec(b: PositionModel, c: Color, p: Point) -> PositionModel {
    clear_spec(clear_spec(b.put(p, Some(c)), c.opp()), c)
}

/// The position after `c` plays at `p` under a suicide convention.
pub open spec fn resolve_under_spec(b: PositionModel, c: Color, p: Point, s: Suicide) -> PositionModel {
    match s {
        Suicide::Forbid => resolve_spec(b, c, p),
        Suicide::RemoveOwn => resolve_remove_own_spec(b, c, p),
    }
}

/// Remove every `c` stone whose chain has no liberty.
pub fn clear(b: &Position, c: Color) -> (r: Position)
    requires
        b@.wf(),
    ensures
        r@ == clear_spec(b@, c),
        r@.wf(),
{
    let d = b.dims();
    let n = d.point_count();
    let mut out = b.duplicate();
    let mut i: usize = 0;
    while i < n
        invariant
            b@.wf(),
            d == b@.dims,
            n == d.size(),
            i <= n,
            out@.dims == d,
            out@.cells.len() == n,
            forall|j: int| 0 <= j < i ==> out@.cells[j] == clear_spec(b@, c).cells[j],
            forall|j: int| i <= j < n ==> out@.cells[j] == b@.cells[j],
        decreases n - i,
    {
        proof {
            crate::config::lemma_grid(d);
        }
        let q = d.point_at(i);
        if b.get_at(i) == Some(c) && !has_liberty(b, q) {
            out.set_at(i, None);
        }
        i += 1;
    }
    assert(out@.cells =~= clear_spec(b@, c).cells);
    out
}

impl Position {
    /// Put `v` at row-major index `i`, in place.
    pub fn set_at(&mut self, i: usize, v: Option<Color>)
        requires
            i < old(self)@.cells.len(),
        ensures
            final(self)@.dims == old(self)@.dims,
            final(self)@.cells == old(self)@.cells.update(i as int, v),
    {
        self.cells.set(i, v);
    }
}

/// The position after `c` places a stone at `p` and every opposing chain
/// left without a liberty is removed. A move that leaves the played stone's
/// own chain without a liberty is suicide, which `playable_at` forbids
/// rather than resolves.
pub fn resolve(b: &Position, c: Color, p: Point) -> (r: Position)
    requires
        b@.wf(),
        b@.dims.has(p),
    ensures
        r@ == resolve_spec(b@, c, p),
        r@.wf(),
{
    clear(&b.update(p, Some(c)), c.other())
}

/// The position after `c` plays at `p` under the suicide-permitting reading:
/// the opponent's dead chains come off first, then the player's own.
pub fn resolve_remove_own(b: &Position, c: Color, p: Point) -> (r: Position)
    requires
        b@.wf(),
        b@.dims.has(p),
    ensures
        r@ == resolve_remove_own_spec(b@, c, p),
        r@.wf(),
{
    clear(&clear(&b.update(p, Some(c)), c.other()), c)
}

/// The position after `c` plays at `p` under the chosen suicide convention.
pub fn resolve_under(b: &Position, c: Color, p: Point, suicide: Suicide) -> (r: Position)
    requires
        b@.wf(),
        b@.dims.has(p),
    ensures
        r@ == resolve_under_spec(b@, c, p, suicide),
        r@.wf(),
{
    match suicide {
        Suicide::Forbid => resolve(b, c, p),
        Suicide::RemoveOwn => resolve_remove_own(b, c, p),
    }
}

/// What a situation is: a position and the player to move.
pub struct SitModel {
    /// The stones on the board.
    pub board: PositionModel,
    /// Whose turn it is.
    pub to_move: Color,
}

/// A situation: a position together with the player to move. Situational
/// superko forbids recreating a situation, positional superko a position.
#[derive(Clone, Debug)]
pub struct Situation {
    /// The stones on the board.
    pub board: Position,
    /// Whose turn it is.
    pub to_move: Color,
}

impl View for Situation {
    type V = SitModel;

    open spec fn view(&self) -> SitModel {
        SitModel { board: self.board@, to_move: self.to_move }
    }
}

impl Situation {
    /// A copy of this situation.
    pub fn duplicate(&self) -> (r: Self)
        ensures
            r@ == self@,
    {
        Situation { board: self.board.duplicate(), to_move: self.to_move }
    }

    /// Whether two situations are the same position with the same player to
    /// move.
    pub fn same(&self, other: &Situation) -> (r: bool)
        ensures
            r == (self@ == other@),
    {
        self.to_move == other.to_move && self.board.same(&other.board)
    }
}

impl PartialEq for Situation {
    fn eq(&self, other: &Self) -> (r: bool) {
        self.same(other)
    }
}

impl Eq for Situation {}

impl vstd::std_specs::cmp::PartialEqSpecImpl for Situation {
    open spec fn obeys_eq_spec() -> bool {
        true
    }

    open spec fn eq_spec(&self, other: &Situation) -> bool {
        self.view() == other.view()
    }
}

/// A move is a pass or a play at a point.
#[derive(Clone, Copy, Debug, PartialEq, Eq, PartialOrd, Ord, Hash, Structural)]
pub enum Move {
    /// A pass.
    Pass,
    /// A play at a point.
    Play(Point),
}

/// The move lies on the board: a pass, or a play at an on-board point.
pub open spec fn on_board(d: Dims, mv: Move) -> bool {
    match mv {
        Move::Pass => true,
        Move::Play(p) => d.has(p),
    }
}

/// The situation a move leads to, whatever its legality.
pub open spec fn after_spec(s: SitModel, mv: Move, suicide: Suicide) -> SitModel {
    match mv {
        Move::Pass => SitModel { board: s.board, to_move: s.to_move.opp() },
        Move::Play(p) => SitModel {
            board: resolve_under_spec(s.board, s.to_move, p, suicide),
            to_move: s.to_move.opp(),
        },
    }
}

/// The situation a move leads to. Legality is a separate question; this is
/// the board mechanics alone.
pub fn situation_after(s: &Situation, mv: Move, suicide: Suicide) -> (r: Situation)
    requires
        s.board@.wf(),
        on_board(s.board@.dims, mv),
    ensures
        r@ == after_spec(s@, mv, suicide),
        r.board@.wf(),
{
    match mv {
        Move::Pass => Situation { board: s.board.duplicate(), to_move: s.to_move.other() },
        Move::Play(p) => Situation {
            board: resolve_under(&s.board, s.to_move, p, suicide),
            to_move: s.to_move.other(),
        },
    }
}

/// The situations a list holds.
pub open spec fn sit_set(v: Seq<Situation>) -> Set<SitModel> {
    Set::new(|m: SitModel| exists|i: int| 0 <= i < v.len() && #[trigger] v[i]@ == m)
}

/// What a state of play is: the situation now, every situation that has
/// occurred, and how many passes immediately precede.
pub struct StateModel {
    /// The situation now.
    pub now: SitModel,
    /// Every situation that has occurred, `now` included.
    pub seen: Set<SitModel>,
    /// How many passes immediately precede.
    pub passes: nat,
}

impl StateModel {
    /// The situation now is archived, and every archived situation is a
    /// situation of the board now.
    pub open spec fn wf(self) -> bool {
        &&& self.now.board.wf()
        &&& self.seen.finite()
        &&& self.seen.contains(self.now)
        &&& forall|s: SitModel|
            #[trigger] self.seen.contains(s) ==> s.board.wf() && s.board.dims == self.now.board.dims
    }
}

/// A state of play: the situation now, every situation that has occurred,
/// and how many passes immediately precede. [`State::start`] is the only way
/// to build one from nothing, and [`step`] the only way to build the next.
#[derive(Clone, Debug)]
pub struct State {
    now: Situation,
    seen: Vec<Situation>,
    passes: u32,
}

impl View for State {
    type V = StateModel;

    closed spec fn view(&self) -> StateModel {
        StateModel { now: self.now@, seen: sit_set(self.seen@), passes: self.passes as nat }
    }
}

/// The situations of a list form a finite set.
pub proof fn lemma_sit_set_finite(v: Seq<Situation>)
    ensures
        sit_set(v).finite(),
    decreases v.len(),
{
    if v.len() == 0 {
        assert(sit_set(v) =~= Set::empty());
    } else {
        let w = v.drop_last();
        lemma_sit_set_finite(w);
        assert(sit_set(v) =~= sit_set(w).insert(v.last()@)) by {
            assert forall|m: SitModel| sit_set(v).contains(m) implies sit_set(w).insert(v.last()@).contains(m) by {
                let i = choose|i: int| 0 <= i < v.len() && #[trigger] v[i]@ == m;
                if i < w.len() {
                    assert(w[i]@ == m);
                }
            }
            assert forall|m: SitModel| sit_set(w).insert(v.last()@).contains(m) implies sit_set(v).contains(m) by {
                if m != v.last()@ {
                    let i = choose|i: int| 0 <= i < w.len() && #[trigger] w[i]@ == m;
                    assert(v[i]@ == m);
                } else {
                    assert(v[v.len() - 1]@ == m);
                }
            }
        }
    }
}

/// Whether a list holds a situation.
fn holds(v: &Vec<Situation>, s: &Situation) -> (r: bool)
    ensures
        r == sit_set(v@).contains(s@),
{
    let mut i: usize = 0;
    while i < v.len()
        invariant
            i <= v.len(),
            forall|j: int| 0 <= j < i ==> v@[j]@ != s@,
        decreases v.len() - i,
    {
        if v[i].same(s) {
            assert(v@[i as int]@ == s@);
            return true;
        }
        i += 1;
    }
    false
}

/// Whether every situation of a list stands on a board other than `b`.
fn boards_avoid(v: &Vec<Situation>, b: &Position) -> (r: bool)
    ensures
        r == (forall|m: SitModel| #[trigger] sit_set(v@).contains(m) ==> m.board != b@),
{
    let mut i: usize = 0;
    while i < v.len()
        invariant
            i <= v.len(),
            forall|j: int| 0 <= j < i ==> v@[j].board@ != b@,
        decreases v.len() - i,
    {
        if v[i].board.same(b) {
            assert(sit_set(v@).contains(v@[i as int]@));
            return false;
        }
        i += 1;
    }
    assert forall|m: SitModel| #[trigger] sit_set(v@).contains(m) implies m.board != b@ by {
        let j = choose|j: int| 0 <= j < v@.len() && #[trigger] v@[j]@ == m;
    }
    true
}

/// A copy of a list of situations.
fn copy_all(v: &Vec<Situation>) -> (r: Vec<Situation>)
    ensures
        r@.len() == v@.len(),
        forall|i: int| 0 <= i < v@.len() ==> (#[trigger] r@[i])@ == v@[i]@,
        sit_set(r@) == sit_set(v@),
{
    let mut out: Vec<Situation> = Vec::new();
    let mut i: usize = 0;
    while i < v.len()
        invariant
            i <= v.len(),
            out@.len() == i,
            forall|j: int| 0 <= j < i ==> (#[trigger] out@[j])@ == v@[j]@,
        decreases v.len() - i,
    {
        out.push(v[i].duplicate());
        i += 1;
    }
    assert(sit_set(out@) =~= sit_set(v@)) by {
        assert forall|m: SitModel| sit_set(out@).contains(m) implies sit_set(v@).contains(m) by {
            let j = choose|j: int| 0 <= j < out@.len() && #[trigger] out@[j]@ == m;
            assert(v@[j]@ == m);
        }
        assert forall|m: SitModel| sit_set(v@).contains(m) implies sit_set(out@).contains(m) by {
            let j = choose|j: int| 0 <= j < v@.len() && #[trigger] v@[j]@ == m;
            assert(out@[j]@ == m);
        }
    }
    out
}

impl State {
    /// The state in which play begins from a given position: the position
    /// is the root of play, nothing is forbidden yet, and the root situation
    /// is already in the archive.
    pub fn start(b: &Position, c: Color) -> (r: Self)
        requires
            b@.wf(),
        ensures
            r@ == (StateModel {
                now: SitModel { board: b@, to_move: c },
                seen: set![SitModel { board: b@, to_move: c }],
                passes: 0,
            }),
            r@.wf(),
    {
        let now = Situation { board: b.duplicate(), to_move: c };
        let mut seen: Vec<Situation> = Vec::new();
        seen.push(now.duplicate());
        let r = State { now, seen, passes: 0 };
        assert(r@.seen =~= set![SitModel { board: b@, to_move: c }]) by {
            assert(r.seen@[0]@ == r.now@);
        }
        r
    }

    /// The situation now.
    pub fn now(&self) -> (r: &Situation)
        ensures
            r@ == self@.now,
    {
        &self.now
    }

    /// Every situation that has occurred, `now` included.
    pub fn seen(&self) -> (r: &Vec<Situation>)
        ensures
            sit_set(r@) == self@.seen,
    {
        &self.seen
    }

    /// How many passes immediately precede.
    pub fn passes(&self) -> (r: u32)
        ensures
            r == self@.passes,
    {
        self.passes
    }
}

/// The state after a move: the successor situation is archived on every
/// move, passes included, and the pass count is an ordinary count.
pub open spec fn step_spec(st: StateModel, mv: Move, suicide: Suicide) -> StateModel {
    let now = after_spec(st.now, mv, suicide);
    StateModel {
        now,
        seen: st.seen.insert(now),
        passes: match mv {
            Move::Pass => st.passes + 1,
            Move::Play(_) => 0,
        },
    }
}

/// The state after a move. Total: applying it to an illegal move gives a
/// state, which no rule reaches.
pub fn step(st: &State, mv: Move, suicide: Suicide) -> (r: State)
    requires
        st@.wf(),
        on_board(st@.now.board.dims, mv),
        mv is Pass ==> st@.passes < u32::MAX,
    ensures
        r@ == step_spec(st@, mv, suicide),
        r@.wf(),
{
    let now = situation_after(&st.now, mv, suicide);
    let mut seen = copy_all(&st.seen);
    let ghost copied = seen@;
    let present = holds(&seen, &now);
    if !present {
        seen.push(now.duplicate());
        assert(seen@[seen@.len() - 1]@ == now@);
    }
    assert(sit_set(seen@).contains(now@));
    let passes = match mv {
        Move::Pass => st.passes + 1,
        Move::Play(_) => 0,
    };
    let r = State { now, seen, passes };
    proof {
        lemma_sit_set_finite(r.seen@);
        assert(r@.seen =~= st@.seen.insert(r@.now)) by {
            assert forall|m: SitModel| r@.seen.contains(m) implies st@.seen.insert(r@.now).contains(m) by {
                let j = choose|j: int| 0 <= j < r.seen@.len() && #[trigger] r.seen@[j]@ == m;
                if j < copied.len() {
                    assert(copied[j]@ == st.seen@[j]@);
                    assert(sit_set(st.seen@).contains(m)) by {
                        assert(st.seen@[j]@ == m);
                    }
                }
            }
            assert forall|m: SitModel| st@.seen.insert(r@.now).contains(m) implies r@.seen.contains(m) by {
                if m != r@.now {
                    let j = choose|j: int| 0 <= j < st.seen@.len() && #[trigger] st.seen@[j]@ == m;
                    assert(copied[j]@ == m);
                    assert(r.seen@[j]@ == m);
                }
            }
        }
    }
    r
}

/// What takes a move back: the situation before it, whether its situation
/// was new to the history, and the passes before it.
pub struct Retreat {
    now: Situation,
    added: bool,
    passes: u32,
}

impl State {
    /// The same state, field for field.
    pub closed spec fn same_as(self, other: State) -> bool {
        &&& self.now == other.now
        &&& self.seen@ == other.seen@
        &&& self.passes == other.passes
    }

    /// Being the same state is an equivalence, and the same states are the
    /// same state of play.
    pub proof fn lemma_same(a: State, b: State, c: State)
        ensures
            a.same_as(a),
            a.same_as(b) ==> b.same_as(a) && a@ == b@,
            a.same_as(b) && b.same_as(c) ==> a.same_as(c),
    {
    }

    /// A copy of this state.
    pub fn duplicate(&self) -> (r: State)
        ensures
            r@ == self@,
    {
        State { now: self.now.duplicate(), seen: copy_all(&self.seen), passes: self.passes }
    }

    /// Take a move in place, given the situation it leads to; the state
    /// becomes the one [`step`] gives.
    pub fn advance_to(&mut self, mv: Move, after: Situation, suicide: Suicide) -> (undo: Retreat)
        requires
            old(self)@.wf(),
            on_board(old(self)@.now.board.dims, mv),
            mv is Pass ==> old(self)@.passes < u32::MAX,
            after@ == after_spec(old(self)@.now, mv, suicide),
            after.board@.wf(),
            mv is Play ==> !old(self)@.seen.contains(after@),
        ensures
            final(self)@ == step_spec(old(self)@, mv, suicide),
            final(self)@.wf(),
            undo.undoes(*final(self), *old(self)),
    {
        let ghost prior = *self;
        let mut after = after;
        let added = match mv {
            Move::Play(_) => true,
            Move::Pass => !holds(&self.seen, &after),
        };
        if added {
            self.seen.push(after.duplicate());
        }
        std::mem::swap(&mut self.now, &mut after);
        let passes = self.passes;
        self.passes = match mv {
            Move::Pass => passes + 1,
            Move::Play(_) => 0,
        };
        proof {
            lemma_sit_set_finite(self.seen@);
            let now = self.now@;
            if added {
                assert(self.seen@[self.seen@.len() - 1]@ == now);
                assert(self.seen@.drop_last() =~= prior.seen@);
            }
            assert(sit_set(self.seen@) =~= sit_set(prior.seen@).insert(now)) by {
                assert forall|m: SitModel| sit_set(self.seen@).contains(m) implies sit_set(prior.seen@).insert(now).contains(m) by {
                    let j = choose|j: int| 0 <= j < self.seen@.len() && #[trigger] self.seen@[j]@ == m;
                    if j < prior.seen@.len() {
                        assert(self.seen@[j] == prior.seen@[j]);
                        assert(prior.seen@[j]@ == m);
                    }
                }
                assert forall|m: SitModel| sit_set(prior.seen@).insert(now).contains(m) implies sit_set(self.seen@).contains(m) by {
                    if m != now {
                        let j = choose|j: int| 0 <= j < prior.seen@.len() && #[trigger] prior.seen@[j]@ == m;
                        assert(self.seen@[j] == prior.seen@[j]);
                        assert(self.seen@[j]@ == m);
                    } else if added {
                        assert(self.seen@[self.seen@.len() - 1]@ == m);
                    }
                }
            }
        }
        Retreat { now: after, added, passes }
    }

    /// Take back a move [`State::advance`] took, to the state before it.
    pub fn retreat(&mut self, undo: Retreat, Ghost(prior): Ghost<State>)
        requires
            undo.undoes(*old(self), prior),
        ensures
            final(self).same_as(prior),
    {
        let Retreat { now, added, passes } = undo;
        if added {
            self.seen.pop();
        }
        self.now = now;
        self.passes = passes;
    }
}

impl Retreat {
    /// Taking this back from `cur` gives `prior`.
    pub closed spec fn undoes(self, cur: State, prior: State) -> bool {
        &&& prior.now == self.now
        &&& prior.passes == self.passes
        &&& if self.added {
            cur.seen@.len() > 0 && cur.seen@.drop_last() == prior.seen@
        } else {
            cur.seen@ == prior.seen@
        }
    }

    /// What takes a move back from one state takes it back from the same
    /// state.
    pub proof fn lemma_undoes_same(self, a: State, b: State, prior: State)
        requires
            self.undoes(a, prior),
            a.same_as(b),
        ensures
            self.undoes(b, prior),
    {
    }
}

/// The game has ended: two consecutive passes.
pub open spec fn ended_spec(st: StateModel) -> bool {
    st.passes >= 2
}

/// Whether the game has ended.
pub fn ended(st: &State) -> (r: bool)
    ensures
        r == ended_spec(st@),
{
    st.passes >= 2
}

/// The board conditions every play must meet, whatever the repetition rule:
/// the point is empty, and — unless suicide removes the player's own stones —
/// the resulting chain has a liberty.
pub open spec fn playable_spec(b: PositionModel, c: Color, p: Point, s: Suicide) -> bool {
    match s {
        Suicide::Forbid => b.at(p) is None && has_liberty_spec(resolve_spec(b, c, p), p),
        Suicide::RemoveOwn => b.at(p) is None,
    }
}

/// Whether `c` may play at `p` on the board conditions alone.
pub fn playable_at(b: &Position, c: Color, p: Point, suicide: Suicide) -> (r: bool)
    requires
        b@.wf(),
        b@.dims.has(p),
    ensures
        r == playable_spec(b@, c, p, suicide),
{
    match suicide {
        Suicide::Forbid => b.get(p).is_none() && has_liberty(&resolve(b, c, p), p),
        Suicide::RemoveOwn => b.get(p).is_none(),
    }
}

/// Situational superko: a play may not recreate a situation that has
/// occurred. A pass is always legal.
pub open spec fn ssk_spec(st: StateModel, mv: Move, s: Suicide) -> bool {
    match mv {
        Move::Pass => true,
        Move::Play(p) => playable_spec(st.now.board, st.now.to_move, p, s) && !st.seen.contains(
            after_spec(st.now, mv, s),
        ),
    }
}

/// Positional superko: a play may not recreate a position that has occurred,
/// whoever was to move. A pass is always legal.
pub open spec fn psk_spec(st: StateModel, mv: Move, s: Suicide) -> bool {
    match mv {
        Move::Pass => true,
        Move::Play(p) => playable_spec(st.now.board, st.now.to_move, p, s) && forall|m: SitModel|
            #[trigger] st.seen.contains(m) ==> m.board != after_spec(st.now, mv, s).board,
    }
}

/// Whether a move is legal under the named repetition rule.
pub open spec fn permits_spec(st: StateModel, mv: Move, rep: Repetition, s: Suicide) -> bool {
    match rep {
        Repetition::Ssk => ssk_spec(st, mv, s),
        Repetition::Psk => psk_spec(st, mv, s),
    }
}

/// The situation a move leads to, when the rule in force permits it.
pub fn permitted_after(st: &State, mv: Move, rep: Repetition, suicide: Suicide) -> (r: Option<Situation>)
    requires
        st@.wf(),
        on_board(st@.now.board.dims, mv),
    ensures
        (r is Some) == permits_spec(st@, mv, rep, suicide),
        r matches Some(a) ==> a@ == after_spec(st@.now, mv, suicide) && a.board@.wf(),
        r is Some && mv is Play ==> !st@.seen.contains(after_spec(st@.now, mv, suicide)),
{
    match mv {
        Move::Pass => Some(situation_after(&st.now, mv, suicide)),
        Move::Play(p) => {
            if !playable_at(&st.now.board, st.now.to_move, p, suicide) {
                return None;
            }
            let after = situation_after(&st.now, mv, suicide);
            let fresh = match rep {
                Repetition::Ssk => !holds(&st.seen, &after),
                Repetition::Psk => boards_avoid(&st.seen, &after.board),
            };
            if fresh {
                proof {
                    if rep == Repetition::Psk {
                        if st@.seen.contains(after@) {
                            assert(after@.board == after_spec(st@.now, mv, suicide).board);
                        }
                    }
                }
                Some(after)
            } else {
                None
            }
        },
    }
}

/// Situational superko.
pub fn ssk(st: &State, mv: Move, suicide: Suicide) -> (r: bool)
    requires
        st@.wf(),
        on_board(st@.now.board.dims, mv),
    ensures
        r == ssk_spec(st@, mv, suicide),
{
    match mv {
        Move::Pass => true,
        Move::Play(p) => playable_at(&st.now.board, st.now.to_move, p, suicide) && !holds(
            &st.seen,
            &situation_after(&st.now, mv, suicide),
        ),
    }
}

/// Positional superko.
pub fn psk(st: &State, mv: Move, suicide: Suicide) -> (r: bool)
    requires
        st@.wf(),
        on_board(st@.now.board.dims, mv),
    ensures
        r == psk_spec(st@, mv, suicide),
{
    match mv {
        Move::Pass => true,
        Move::Play(p) => {
            let after = situation_after(&st.now, mv, suicide);
            playable_at(&st.now.board, st.now.to_move, p, suicide) && boards_avoid(
                &st.seen,
                &after.board,
            )
        },
    }
}

/// Whether `mv` is legal in `st` under the named repetition rule.
pub fn permits(st: &State, mv: Move, rep: Repetition, suicide: Suicide) -> (r: bool)
    requires
        st@.wf(),
        on_board(st@.now.board.dims, mv),
    ensures
        r == permits_spec(st@, mv, rep, suicide),
{
    match rep {
        Repetition::Ssk => ssk(st, mv, suicide),
        Repetition::Psk => psk(st, mv, suicide),
    }
}

/// Why a move was refused.
#[derive(Clone, Copy, Debug, PartialEq, Eq, PartialOrd, Ord, Hash, Structural)]
pub enum Refusal {
    /// The point already carries a stone.
    Occupied,
    /// The play would leave its own chain without a liberty, and the
    /// convention in force forbids that.
    Suicide,
    /// The play would recreate a situation (SSK) or a position (PSK) that has
    /// occurred.
    Repetition,
}

/// Which conjunct of legality refuses a move, in the fixed priority
/// `Occupied` before `Suicide` before `Repetition`.
pub open spec fn legality_spec(st: StateModel, mv: Move, rep: Repetition, s: Suicide) -> Result<(), Refusal> {
    match mv {
        Move::Pass => Ok(()),
        Move::Play(p) => {
            let b = st.now.board;
            let after = after_spec(st.now, mv, s);
            if b.at(p) is Some {
                Err(Refusal::Occupied)
            } else if s == Suicide::Forbid && !has_liberty_spec(resolve_spec(b, st.now.to_move, p), p) {
                Err(Refusal::Suicide)
            } else if (match rep {
                Repetition::Ssk => st.seen.contains(after),
                Repetition::Psk => exists|m: SitModel| #[trigger] st.seen.contains(m) && m.board == after.board,
            }) {
                Err(Refusal::Repetition)
            } else {
                Ok(())
            }
        },
    }
}

/// The diagnostic form of legality: which conjunct refused the move. A pass
/// is never refused.
pub fn legality(st: &State, mv: Move, rep: Repetition, suicide: Suicide) -> (r: Result<(), Refusal>)
    requires
        st@.wf(),
        on_board(st@.now.board.dims, mv),
    ensures
        r == legality_spec(st@, mv, rep, suicide),
{
    let p = match mv {
        Move::Pass => {
            return Ok(());
        },
        Move::Play(p) => p,
    };
    let b = &st.now.board;
    let c = st.now.to_move;
    if b.get(p).is_some() {
        return Err(Refusal::Occupied);
    }
    if suicide == Suicide::Forbid && !has_liberty(&resolve(b, c, p), p) {
        return Err(Refusal::Suicide);
    }
    let after = situation_after(&st.now, mv, suicide);
    let repeats = match rep {
        Repetition::Ssk => holds(&st.seen, &after),
        Repetition::Psk => !boards_avoid(&st.seen, &after.board),
    };
    if repeats {
        return Err(Refusal::Repetition);
    }
    Ok(())
}

/// The legality verdict is refused exactly when the rule refuses the move.
pub proof fn lemma_legality_is_permits(st: StateModel, mv: Move, rep: Repetition, s: Suicide)
    requires
        st.wf(),
        on_board(st.now.board.dims, mv),
    ensures
        (legality_spec(st, mv, rep, s) is Ok) == permits_spec(st, mv, rep, s),
{
}

/// An empty point reaches color `c` when a path of adjacent empty points
/// leads from it to a `c` stone; the walk may step out of the empty region
/// once, onto the stone it reaches. A `c` stone reaches `c` by the
/// reflexive case.
pub open spec fn reaches_spec(b: PositionModel, p: Point, c: Color) -> bool {
    exists|q: Point| b.dims.has(q) && #[trigger] linked(b, Link::FromEmpty, p, q) && b.at(q) == Some(c)
}

/// Whether `p` reaches color `c`.
pub fn reaches(b: &Position, p: Point, c: Color) -> (r: bool)
    requires
        b@.wf(),
        b@.dims.has(p),
    ensures
        r == reaches_spec(b@, p, c),
{
    let d = b.dims();
    let n = d.point_count();
    let mask = closure(b, Link::FromEmpty, p);
    let mut i: usize = 0;
    while i < n
        invariant
            b@.wf(),
            d == b@.dims,
            n == d.size(),
            i <= n,
            mask@.len() == n,
            forall|j: int| 0 <= j < n ==> (mask@[j] <==> linked(b@, Link::FromEmpty, p, d.point_of(j))),
            forall|q: Point|
                d.has(q) && d.index_of(q) < i && linked(b@, Link::FromEmpty, p, q) ==> b@.at(q) != Some(c),
        decreases n - i,
    {
        proof {
            crate::config::lemma_grid(d);
        }
        if mask[i] && b.get_at(i) == Some(c) {
            return true;
        }
        i += 1;
    }
    proof {
        crate::config::lemma_grid(d);
    }
    false
}

/// Whether the point at index `i` counts for `c` by area: a `c` stone, or an
/// empty point reaching `c` and not the other color.
pub open spec fn scores_for(b: PositionModel, c: Color, i: int) -> bool {
    ||| b.cells[i] == Some(c)
    ||| b.cells[i] is None && reaches_spec(b, b.dims.point_of(i), c) && !reaches_spec(
        b,
        b.dims.point_of(i),
        c.opp(),
    )
}

/// How many of the first `k` points count for `c`.
pub open spec fn area_prefix(b: PositionModel, c: Color, k: int) -> nat
    decreases k,
{
    if k <= 0 {
        0
    } else {
        area_prefix(b, c, k - 1) + if scores_for(b, c, k - 1) {
            1nat
        } else {
            0nat
        }
    }
}

/// Area score: stones of the color, plus empty points reaching that color
/// and not the other.
pub open spec fn area_spec(b: PositionModel, c: Color) -> nat {
    area_prefix(b, c, b.cells.len() as int)
}

/// The area counted over a prefix is at most its length.
pub proof fn lemma_area_prefix_bound(b: PositionModel, c: Color, k: int)
    requires
        k >= 0,
    ensures
        area_prefix(b, c, k) <= k,
    decreases k,
{
    if k > 0 {
        lemma_area_prefix_bound(b, c, k - 1);
    }
}

/// The two areas never claim the same point, so they add up to at most the
/// number of points.
pub proof fn lemma_areas_disjoint(b: PositionModel, k: int)
    requires
        0 <= k,
    ensures
        area_prefix(b, Color::Black, k) + area_prefix(b, Color::White, k) <= k,
    decreases k,
{
    if k > 0 {
        lemma_areas_disjoint(b, k - 1);
    }
}

/// Area score.
pub fn area(b: &Position, c: Color) -> (r: usize)
    requires
        b@.wf(),
    ensures
        r == area_spec(b@, c),
        r <= b@.dims.size(),
{
    let d = b.dims();
    let n = d.point_count();
    let mut count: usize = 0;
    let mut i: usize = 0;
    while i < n
        invariant
            b@.wf(),
            d == b@.dims,
            n == d.size(),
            i <= n,
            count == area_prefix(b@, c, i as int),
            count <= i,
        decreases n - i,
    {
        proof {
            crate::config::lemma_grid(d);
        }
        let p = d.point_at(i);
        let v = b.get_at(i);
        let counts = v == Some(c) || (v.is_none() && reaches(b, p, c) && !reaches(b, p, c.other()));
        if counts {
            count += 1;
        }
        i += 1;
    }
    count
}

/// Both area scores fit an `i64`.
pub open spec fn areas_fit(b: PositionModel) -> bool {
    area_spec(b, Color::Black) <= i64::MAX && area_spec(b, Color::White) <= i64::MAX
}

/// Black's area less White's.
pub open spec fn diff_spec(b: PositionModel) -> int {
    area_spec(b, Color::Black) - area_spec(b, Color::White)
}

/// Black's margin: Black's area less White's, less komi, reduced.
pub open spec fn margin_spec(b: PositionModel, komi: (int, int)) -> (int, int) {
    reduce(diff_spec(b) * komi.1 - komi.0, komi.1)
}

/// Black's margin: Black's area less White's, less komi. The reduced result
/// must fit an `i64`, and so must both areas.
pub fn margin(b: &Position, komi: Rat) -> (r: Rat)
    requires
        b@.wf(),
        komi@.1 > 0,
        areas_fit(b@),
        fits_i64(margin_spec(b@, komi@)),
    ensures
        r@ == margin_spec(b@, komi@),
{
    let black = area(b, Color::Black);
    let white = area(b, Color::White);
    proof {
        lemma_areas_disjoint(b@, b@.cells.len() as int);
    }
    let x = Rat::from_int(black as i64);
    let y = Rat::from_int(white as i64);
    proof {
        lemma_reduce_by_one(black - white);
        assert(x@.0 * y@.1 - y@.0 * x@.1 == black - white);
        assert(x@.1 * y@.1 == 1);
    }
    let z = x.minus(y);
    assert(z@ == (black - white, 1int));
    assert(z@.0 * komi@.1 - komi@.0 * z@.1 == diff_spec(b@) * komi@.1 - komi@.0);
    z.minus(komi)
}

/// A whole number is already reduced over 1.
#[verifier::spinoff_prover]
proof fn lemma_reduce_by_one(x: int)
    ensures
        reduce(x, 1) == (x, 1int),
{
    let a = abs(x);
    assert(a % 1 == 0) by (nonlinear_arith);
    assert(gcd_spec(1, 0) == 1);
    assert(gcd_spec(a, 1) == gcd_spec(1, a % 1));
    assert(gcd_spec(a, 1) == 1);
    assert(reducer(a, 1) == 1);
    assert(abs(1) == 1);
    assert(a as int / 1 == a) by (nonlinear_arith);
    assert(1int / 1 == 1) by (nonlinear_arith);
    assert(signed(x < 0, a as int) == x);
}

/// The winner at a finished game: Black when the margin is positive, and a
/// tie goes to White.
pub open spec fn winner_spec(b: PositionModel, komi: (int, int)) -> Color {
    if margin_spec(b, komi).0 > 0 {
        Color::Black
    } else {
        Color::White
    }
}

/// The winner at a finished game. A tie goes to White.
pub fn winner(b: &Position, komi: Rat) -> (r: Color)
    requires
        b@.wf(),
        komi@.1 > 0,
        areas_fit(b@),
        fits_i64(margin_spec(b@, komi@)),
    ensures
        r == winner_spec(b@, komi@),
{
    if margin(b, komi).is_positive() {
        Color::Black
    } else {
        Color::White
    }
}

/// Who won, decided over the integers: Black wins when the komi floor is
/// below the difference of the two area scores, and a tie goes to White.
pub open spec fn winner_z_spec(b: PositionModel, komi_floor: int) -> Color {
    if komi_floor < diff_spec(b) {
        Color::Black
    } else {
        Color::White
    }
}

/// Who won, decided over the integers at the floor of komi.
pub fn winner_z(b: &Position, komi_floor: i64) -> (r: Color)
    requires
        b@.wf(),
        areas_fit(b@),
    ensures
        r == winner_z_spec(b@, komi_floor as int),
{
    let black = area(b, Color::Black);
    let white = area(b, Color::White);
    proof {
        lemma_areas_disjoint(b@, b@.cells.len() as int);
    }
    if komi_floor < black as i64 - white as i64 {
        Color::Black
    } else {
        Color::White
    }
}

/// Deciding the winner over the integers at the floor of komi gives the
/// verdict the rational margin gives: Black wins exactly when the floor of
/// komi is below the area difference.
pub proof fn law_winner_z_is_winner(b: PositionModel, komi: (int, int))
    requires
        komi.1 > 0,
    ensures
        winner_z_spec(b, komi.0 / komi.1) == winner_spec(b, komi),
{
    let d = diff_spec(b);
    let kn = komi.0;
    let kd = komi.1;
    let num = d * kd - kn;
    lemma_reduce(num, kd);
    let m = reduce(num, kd);
    // The reduced numerator has the sign of the numerator.
    assert(m.0 > 0 <==> num > 0) by {
        assert(m.0 * kd == num * m.1);
        if m.0 > 0 {
            assert(m.0 * kd > 0) by (nonlinear_arith)
                requires
                    m.0 > 0,
                    kd > 0,
            ;
            if num <= 0 {
                assert(num * m.1 <= 0) by (nonlinear_arith)
                    requires
                        num <= 0,
                        m.1 > 0,
                ;
            }
        } else {
            assert(m.0 * kd <= 0) by (nonlinear_arith)
                requires
                    m.0 <= 0,
                    kd > 0,
            ;
            if num > 0 {
                assert(num * m.1 > 0) by (nonlinear_arith)
                    requires
                        num > 0,
                        m.1 > 0,
                ;
            }
        }
    }
    // d * kd - kn > 0 exactly when floor(kn / kd) < d.
    vstd::arithmetic::div_mod::lemma_fundamental_div_mod(kn, kd);
    vstd::arithmetic::div_mod::lemma_mod_bound(kn, kd);
    let f = kn / kd;
    let r = kn % kd;
    if f < d {
        assert(kd * f + r < d * kd) by (nonlinear_arith)
            requires
                f + 1 <= d,
                0 <= r < kd,
                kd > 0,
        ;
    } else {
        assert(kd * f + r >= d * kd) by (nonlinear_arith)
            requires
                f >= d,
                0 <= r,
                kd > 0,
        ;
    }
}

/// Every move available on a board, legal or not: the pass first, then a
/// play at each point in row-major order.
pub open spec fn all_moves_spec(d: Dims) -> Seq<Move> {
    seq![Move::Pass] + Seq::new(d.size(), |i: int| Move::Play(d.point_of(i)))
}

/// Every move available on the board, legal or not: the pass first, then a
/// play at each point in row-major order.
pub fn all_moves(dims: Dims) -> (r: Vec<Move>)
    requires
        dims.wf(),
    ensures
        r@ == all_moves_spec(dims),
{
    let n = dims.point_count();
    let mut out: Vec<Move> = Vec::new();
    out.push(Move::Pass);
    let mut i: usize = 0;
    while i < n
        invariant
            dims.wf(),
            n == dims.size(),
            i <= n,
            out@ == all_moves_spec(dims).take(i + 1),
        decreases n - i,
    {
        out.push(Move::Play(dims.point_at(i)));
        i += 1;
        assert(out@ =~= all_moves_spec(dims).take(i + 1));
    }
    assert(out@ =~= all_moves_spec(dims));
    out
}


/// A rational as a report spells it: the numerator, then `/` and the
/// denominator unless it is one.
pub open spec fn rat_text(v: (int, int)) -> Seq<char> {
    if v.1 == 1 {
        dec_int(v.0)
    } else {
        dec_int(v.0) + seq!['/'] + dec_int(v.1)
    }
}

impl Rat {
    /// The rational as a report spells it.
    pub fn to_string(&self) -> (r: String)
        ensures
            r@ == rat_text(self@),
    {
        let mut out = String::new();
        push_signed(&mut out, self.num);
        if self.den != 1 {
            push_char(&mut out, '/');
            push_signed(&mut out, self.den);
        }
        out
    }
}

impl Move {
    /// The move in words: `pass`, or `play` and the point.
    pub fn to_string(&self) -> (r: String)
        ensures
            r@ == match *self {
                Move::Pass => "pass"@,
                Move::Play(p) => "play "@ + point_text(p),
            },
    {
        match *self {
            Move::Pass => {
                let mut out = String::new();
                push_str(&mut out, "pass");
                out
            },
            Move::Play(p) => {
                let mut out = String::new();
                push_str(&mut out, "play ");
                let t = p.to_string();
                push_str(&mut out, t.as_str());
                out
            },
        }
    }
}

impl Refusal {
    /// Which conjunct refused, in a word.
    pub fn name(self) -> (r: &'static str)
        ensures
            r@ == match self {
                Refusal::Occupied => "occupied"@,
                Refusal::Suicide => "suicide"@,
                Refusal::Repetition => "repetition"@,
            },
    {
        match self {
            Refusal::Occupied => "occupied",
            Refusal::Suicide => "suicide",
            Refusal::Repetition => "repetition",
        }
    }
}

} // verus!
