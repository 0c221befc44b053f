//! The symmetries of a board, and the exchange of the two colors, as
//! permutations of points and of position codes.
//!
//! A board symmetry is a map of the `m × n` grid onto itself taken from the
//! eight symmetries of the square: the identity, the reversal of the rows,
//! the reversal of the columns, the half-turn, and — only when `m = n` — the
//! transposition and the three maps it composes to. On a given board several
//! of the eight can coincide as maps of the grid, and [`Symmetries::new`]
//! keeps one of each: a group of order 1 on 1×1, 2 on a line, 4 on a
//! rectangle, 8 on a square. A symmetry moves a position by moving its
//! stones; the color swap exchanges the color of every stone and moves none.
//! [`law_group`] states that the kept maps are closed under composition,
//! hold the identity, and hold the inverse of each.

use vstd::prelude::*;

use crate::code::{cells_of, code_of, code_space, decode, encode, pow3, PosCode};
use crate::config::{Dims, Point};
use crate::reference::{Color, Position};
use crate::table::{TooLarge, MAX_TABLE_POINTS};

verus! {

/// One of the eight symmetries of the square: reverse the rows, reverse the
/// columns, and then, when `transpose` is set, exchange the coordinates.
#[derive(Clone, Copy, Debug, PartialEq, Eq, PartialOrd, Ord, Hash, Structural)]
pub struct Transform {
    /// Exchange row and column, after the reversals. Only a square board has
    /// such a symmetry.
    pub transpose: bool,
    /// Send row `r` to row `m - 1 - r`.
    pub flip_rows: bool,
    /// Send column `c` to column `n - 1 - c`.
    pub flip_cols: bool,
}

/// Where a transform sends a point.
pub open spec fn t_apply(t: Transform, d: Dims, p: Point) -> Point {
    let row = if t.flip_rows {
        (d.rows - 1 - p.row) as usize
    } else {
        p.row
    };
    let col = if t.flip_cols {
        (d.cols - 1 - p.col) as usize
    } else {
        p.col
    };
    if t.transpose {
        Point { row: col, col: row }
    } else {
        Point { row, col }
    }
}

/// A transform is a symmetry of the board: a transposing one only of a
/// square.
pub open spec fn t_valid(t: Transform, d: Dims) -> bool {
    !t.transpose || d.rows == d.cols
}

/// The permutation of point indices a transform makes.
pub open spec fn t_perm(t: Transform, d: Dims) -> Seq<usize> {
    Seq::new(d.size(), |i: int| d.index_of(t_apply(t, d, d.point_of(i))) as usize)
}

/// The transform that does `b` and then `a`.
pub open spec fn compose_t(a: Transform, b: Transform) -> Transform {
    if !b.transpose {
        Transform { transpose: a.transpose, flip_rows: a.flip_rows != b.flip_rows, flip_cols: a.flip_cols != b.flip_cols }
    } else {
        Transform { transpose: !a.transpose, flip_rows: a.flip_cols != b.flip_rows, flip_cols: a.flip_rows != b.flip_cols }
    }
}

/// The transform that undoes `a`.
pub open spec fn inverse_t(a: Transform) -> Transform {
    if a.transpose {
        Transform { transpose: true, flip_rows: a.flip_cols, flip_cols: a.flip_rows }
    } else {
        a
    }
}

/// The identity.
pub open spec fn identity_t() -> Transform {
    Transform { transpose: false, flip_rows: false, flip_cols: false }
}

/// The transforms tried, in order: the reversals without transposing, then
/// with it on a square board.
pub open spec fn candidates(d: Dims) -> Seq<Transform> {
    let plain = seq![
        Transform { transpose: false, flip_rows: false, flip_cols: false },
        Transform { transpose: false, flip_rows: false, flip_cols: true },
        Transform { transpose: false, flip_rows: true, flip_cols: false },
        Transform { transpose: false, flip_rows: true, flip_cols: true },
    ];
    if d.rows == d.cols {
        plain + seq![
            Transform { transpose: true, flip_rows: false, flip_cols: false },
            Transform { transpose: true, flip_rows: false, flip_cols: true },
            Transform { transpose: true, flip_rows: true, flip_cols: false },
            Transform { transpose: true, flip_rows: true, flip_cols: true },
        ]
    } else {
        plain
    }
}

/// The first `k` candidates, each kept unless an earlier kept one makes the
/// same permutation.
pub open spec fn kept(d: Dims, k: int) -> Seq<Transform>
    decreases k,
{
    if k <= 0 {
        Seq::empty()
    } else {
        let s = kept(d, k - 1);
        let t = candidates(d)[k - 1];
        if exists|j: int| 0 <= j < s.len() && #[trigger] t_perm(s[j], d) == t_perm(t, d) {
            s
        } else {
            s.push(t)
        }
    }
}

/// Some transform of a list makes the permutation `t` makes.
pub open spec fn covers(s: Seq<Transform>, d: Dims, t: Transform) -> bool {
    exists|j: int| 0 <= j < s.len() && #[trigger] t_perm(s[j], d) == t_perm(t, d)
}

/// The symmetry group of a board: one transform per distinct map.
pub open spec fn group(d: Dims) -> Seq<Transform> {
    kept(d, candidates(d).len() as int)
}

/// A point of the board goes to a point of the board.
pub proof fn lemma_apply_on_board(t: Transform, d: Dims, p: Point)
    requires
        d.wf(),
        d.has(p),
        t_valid(t, d),
    ensures
        d.has(t_apply(t, d, p)),
{
}

/// Doing `b` and then `a` is doing their composite.
pub proof fn lemma_compose_apply(a: Transform, b: Transform, d: Dims, p: Point)
    requires
        d.wf(),
        d.has(p),
        t_valid(a, d),
        t_valid(b, d),
    ensures
        t_valid(compose_t(a, b), d),
        t_apply(a, d, t_apply(b, d, p)) == t_apply(compose_t(a, b), d, p),
{
}

/// The inverse undoes, on either side.
pub proof fn lemma_inverse_t(a: Transform, d: Dims)
    requires
        t_valid(a, d),
    ensures
        t_valid(inverse_t(a), d),
        compose_t(a, inverse_t(a)) == identity_t(),
        compose_t(inverse_t(a), a) == identity_t(),
{
}

/// The kept transforms are candidates, make distinct permutations, and
/// cover the permutation of every candidate seen so far.
proof fn lemma_kept(d: Dims, k: int)
    requires
        0 <= k <= candidates(d).len(),
    ensures
        forall|j: int| 0 <= j < kept(d, k).len() ==> #[trigger] candidates(d).contains(kept(d, k)[j]),
        forall|i: int, j: int|
            0 <= i < j < kept(d, k).len() ==> t_perm(kept(d, k)[i], d) != t_perm(kept(d, k)[j], d),
        forall|c: int| 0 <= c < k ==> #[trigger] covers(kept(d, k), d, candidates(d)[c]),
        k > 0 ==> kept(d, k).len() > 0 && kept(d, k)[0] == candidates(d)[0],
        kept(d, k).len() <= k,
    decreases k,
{
    if k > 0 {
        lemma_kept(d, k - 1);
        let s = kept(d, k - 1);
        let t = candidates(d)[k - 1];
        assert(candidates(d).contains(t));
        if covers(s, d, t) {
            assert forall|c: int| 0 <= c < k implies #[trigger] covers(s, d, candidates(d)[c]) by {
                if c == k - 1 {
                    assert(covers(s, d, t));
                }
            }
        } else {
            let s2 = s.push(t);
            assert forall|c: int| 0 <= c < k implies #[trigger] covers(s2, d, candidates(d)[c]) by {
                if c < k - 1 {
                    assert(covers(s, d, candidates(d)[c]));
                    let j = choose|j: int| 0 <= j < s.len() && #[trigger] t_perm(s[j], d) == t_perm(candidates(d)[c], d);
                    assert(s2[j] == s[j]);
                    assert(t_perm(s2[j], d) == t_perm(candidates(d)[c], d));
                } else {
                    assert(s2[s.len() as int] == t);
                    assert(t_perm(s2[s.len() as int], d) == t_perm(candidates(d)[c], d));
                }
            }
            assert forall|j: int| 0 <= j < s2.len() implies #[trigger] candidates(d).contains(s2[j]) by {
                if j < s.len() {
                    assert(s2[j] == s[j]);
                }
            }
            if k == 1 {
                assert(s.len() == 0);
            }
        }
    }
}

/// Every candidate is valid on its board.
proof fn lemma_candidates_valid(d: Dims)
    ensures
        forall|j: int| 0 <= j < candidates(d).len() ==> t_valid(#[trigger] candidates(d)[j], d),
        candidates(d).len() <= 8,
        candidates(d)[0] == identity_t(),
        forall|t: Transform| t_valid(t, d) ==> candidates(d).contains(t),
{
    let c = candidates(d);
    assert forall|t: Transform| t_valid(t, d) implies c.contains(t) by {
        let i: int = (if t.transpose { 4int } else { 0int }) + (if t.flip_rows { 2int } else { 0int }) + (if t.flip_cols {
            1int
        } else {
            0int
        });
        assert(c[i] == t);
    }
}


/// The name of a transform, its parts joined by `+`.
pub open spec fn name_spec(t: Transform) -> Seq<char> {
    if !t.flip_rows && !t.flip_cols && !t.transpose {
        "identity"@
    } else {
        let a = if t.flip_rows {
            "flip-rows"@
        } else {
            Seq::empty()
        };
        let b = if t.flip_cols {
            (if t.flip_rows {
                "+"@
            } else {
                Seq::empty()
            }) + "flip-cols"@
        } else {
            Seq::empty()
        };
        let c = if t.transpose {
            (if t.flip_rows || t.flip_cols {
                "+"@
            } else {
                Seq::empty()
            }) + "transpose"@
        } else {
            Seq::empty()
        };
        a + b + c
    }
}

impl Transform {
    /// The identity.
    pub fn identity() -> (r: Self)
        ensures
            r == identity_t(),
    {
        Transform { transpose: false, flip_rows: false, flip_cols: false }
    }

    /// Where this symmetry sends a point of a board. A transposing symmetry
    /// is one of a square board only.
    pub fn apply(self, dims: Dims, p: Point) -> (r: Point)
        requires
            dims.has(p),
            t_valid(self, dims),
        ensures
            r == t_apply(self, dims, p),
            dims.wf() ==> dims.has(r),
    {
        let row = if self.flip_rows {
            dims.rows - 1 - p.row
        } else {
            p.row
        };
        let col = if self.flip_cols {
            dims.cols - 1 - p.col
        } else {
            p.col
        };
        if self.transpose {
            Point::new(col, row)
        } else {
            Point::new(row, col)
        }
    }

    /// A name for the results a symmetric run prints: the reversals and the
    /// transposition it does, or `identity`.
    pub fn name(self) -> (r: String)
        ensures
            r@ == name_spec(self),
    {
        let mut out = String::new();
        if !self.flip_rows && !self.flip_cols && !self.transpose {
            crate::text::push_str(&mut out, "identity");
            return out;
        }
        if self.flip_rows {
            crate::text::push_str(&mut out, "flip-rows");
        }
        if self.flip_cols {
            if self.flip_rows {
                crate::text::push_str(&mut out, "+");
            }
            crate::text::push_str(&mut out, "flip-cols");
        }
        if self.transpose {
            if self.flip_rows || self.flip_cols {
                crate::text::push_str(&mut out, "+");
            }
            crate::text::push_str(&mut out, "transpose");
        }
        proof {
            assert(out@ =~= name_spec(self));
        }
        out
    }
}

/// The transforms tried, in order.
fn candidate_list(dims: Dims) -> (r: Vec<Transform>)
    ensures
        r@ == candidates(dims),
{
    let mut out: Vec<Transform> = Vec::new();
    out.push(Transform { transpose: false, flip_rows: false, flip_cols: false });
    out.push(Transform { transpose: false, flip_rows: false, flip_cols: true });
    out.push(Transform { transpose: false, flip_rows: true, flip_cols: false });
    out.push(Transform { transpose: false, flip_rows: true, flip_cols: true });
    if dims.rows == dims.cols {
        out.push(Transform { transpose: true, flip_rows: false, flip_cols: false });
        out.push(Transform { transpose: true, flip_rows: false, flip_cols: true });
        out.push(Transform { transpose: true, flip_rows: true, flip_cols: false });
        out.push(Transform { transpose: true, flip_rows: true, flip_cols: true });
    }
    assert(out@ =~= candidates(dims));
    out
}

/// The permutation of point indices a symmetry makes.
fn perm_of(t: Transform, dims: Dims) -> (r: Vec<usize>)
    requires
        dims.wf(),
        t_valid(t, dims),
    ensures
        r@ == t_perm(t, dims),
{
    let n = dims.point_count();
    let mut out: Vec<usize> = Vec::new();
    let mut i: usize = 0;
    while i < n
        invariant
            dims.wf(),
            t_valid(t, dims),
            n == dims.size(),
            i <= n,
            out@ =~= t_perm(t, dims).take(i as int),
        decreases n - i,
    {
        let p = dims.point_at(i);
        let q = t.apply(dims, p);
        out.push(dims.index(q));
        i += 1;
    }
    assert(out@ =~= t_perm(t, dims));
    out
}

/// Whether two lists of indices are the same.
fn same_perm(a: &Vec<usize>, b: &Vec<usize>) -> (r: bool)
    ensures
        r == (a@ == b@),
{
    if a.len() != b.len() {
        return false;
    }
    let mut i: usize = 0;
    while i < a.len()
        invariant
            a@.len() == b@.len(),
            i <= a@.len(),
            forall|k: int| 0 <= k < i ==> a@[k] == b@[k],
        decreases a@.len() - i,
    {
        if a[i] != b[i] {
            return false;
        }
        i += 1;
    }
    assert(a@ =~= b@);
    true
}

/// The symmetry group of a board: one transform of each distinct map, in
/// the order tried, with its permutation.
fn group_of(dims: Dims) -> (r: (Vec<Transform>, Vec<Vec<usize>>))
    requires
        dims.wf(),
    ensures
        r.0@ == group(dims),
        r.1@.len() == r.0@.len(),
        forall|g: int| 0 <= g < r.1@.len() ==> (#[trigger] r.1@[g])@ == t_perm(r.0@[g], dims),
{
    let cands = candidate_list(dims);
    proof {
        lemma_candidates_valid(dims);
    }
    let mut transforms: Vec<Transform> = Vec::new();
    let mut points: Vec<Vec<usize>> = Vec::new();
    let mut k: usize = 0;
    while k < cands.len()
        invariant
            dims.wf(),
            cands@ == candidates(dims),
            forall|j: int| 0 <= j < candidates(dims).len() ==> t_valid(#[trigger] candidates(dims)[j], dims),
            k <= cands@.len(),
            transforms@ == kept(dims, k as int),
            points@.len() == transforms@.len(),
            forall|g: int| 0 <= g < points@.len() ==> (#[trigger] points@[g])@ == t_perm(transforms@[g], dims),
        decreases cands@.len() - k,
    {
        let t = cands[k];
        let perm = perm_of(t, dims);
        let mut found = false;
        let mut j: usize = 0;
        while j < points.len()
            invariant
                j <= points@.len(),
                points@.len() == transforms@.len(),
                perm@ == t_perm(t, dims),
                forall|g: int| 0 <= g < points@.len() ==> (#[trigger] points@[g])@ == t_perm(transforms@[g], dims),
                found <==> exists|x: int| 0 <= x < j && #[trigger] t_perm(transforms@[x], dims) == t_perm(t, dims),
            decreases points@.len() - j,
        {
            if same_perm(&points[j], &perm) {
                found = true;
            }
            j += 1;
        }
        if !found {
            transforms.push(t);
            points.push(perm);
        }
        k += 1;
    }
    (transforms, points)
}

/// The position a permutation of points makes: the cell at `perm[i]` is the
/// cell that was at `i`.
pub open spec fn moved_cells(cells: Seq<Option<Color>>, perm: Seq<usize>, k: int) -> Seq<Option<Color>>
    decreases k,
{
    if k <= 0 {
        Seq::new(cells.len(), |i: int| None)
    } else {
        moved_cells(cells, perm, k - 1).update(perm[k - 1] as int, cells[k - 1])
    }
}

/// The position with the color of every stone exchanged.
pub open spec fn swapped_cells(cells: Seq<Option<Color>>) -> Seq<Option<Color>> {
    cells.map_values(
        |v: Option<Color>|
            match v {
                Some(c) => Some(c.opp()),
                None => None,
            },
    )
}

/// The image of a position under a permutation of its points.
fn moved(b: &Position, perm: &Vec<usize>) -> (r: Position)
    requires
        b@.wf(),
        perm@.len() == b@.cells.len(),
        forall|i: int| 0 <= i < perm@.len() ==> #[trigger] perm@[i] < b@.cells.len(),
    ensures
        r@.dims == b@.dims,
        r@.cells == moved_cells(b@.cells, perm@, b@.cells.len() as int),
        r@.wf(),
{
    let dims = b.dims();
    let src = b.cells();
    let n = src.len();
    let mut cells: Vec<Option<Color>> = Vec::new();
    let mut i: usize = 0;
    while i < n
        invariant
            i <= n,
            cells@.len() == i,
            forall|k: int| 0 <= k < i ==> cells@[k] is None,
        decreases n - i,
    {
        cells.push(None);
        i += 1;
    }
    assert(cells@ =~= moved_cells(src@, perm@, 0));
    let mut i: usize = 0;
    while i < n
        invariant
            src@ == b@.cells,
            n == src@.len(),
            perm@.len() == n,
            forall|k: int| 0 <= k < perm@.len() ==> #[trigger] perm@[k] < n,
            i <= n,
            cells@ == moved_cells(src@, perm@, i as int),
            cells@.len() == n,
        decreases n - i,
    {
        cells.set(perm[i], src[i]);
        i += 1;
    }
    Position::from_cells(dims, cells.as_slice())
}

/// The position with every stone's color exchanged.
fn swapped(b: &Position) -> (r: Position)
    requires
        b@.wf(),
    ensures
        r@.dims == b@.dims,
        r@.cells == swapped_cells(b@.cells),
        r@.wf(),
{
    let src = b.cells();
    let mut cells: Vec<Option<Color>> = Vec::new();
    let mut i: usize = 0;
    while i < src.len()
        invariant
            i <= src@.len(),
            cells@ =~= swapped_cells(src@).take(i as int),
        decreases src@.len() - i,
    {
        let v = match src[i] {
            Some(c) => Some(c.other()),
            None => None,
        };
        cells.push(v);
        i += 1;
    }
    assert(cells@ =~= swapped_cells(src@));
    Position::from_cells(b.dims(), cells.as_slice())
}


/// The permutation that does `pb` and then `pa`.
pub open spec fn perm_compose(pa: Seq<usize>, pb: Seq<usize>) -> Seq<usize> {
    Seq::new(pb.len(), |i: int| pa[pb[i] as int])
}

/// Composing permutations is composing the transforms that make them.
pub proof fn lemma_perm_compose(a: Transform, b: Transform, d: Dims)
    requires
        d.wf(),
        t_valid(a, d),
        t_valid(b, d),
    ensures
        perm_compose(t_perm(a, d), t_perm(b, d)) == t_perm(compose_t(a, b), d),
        forall|i: int| 0 <= i < d.size() ==> (#[trigger] t_perm(b, d)[i]) < d.size(),
{
    crate::config::lemma_grid(d);
    assert forall|i: int| 0 <= i < d.size() implies (#[trigger] t_perm(b, d)[i]) < d.size() by {
        lemma_apply_on_board(b, d, d.point_of(i));
    }
    assert forall|i: int| 0 <= i < d.size() implies #[trigger] perm_compose(t_perm(a, d), t_perm(b, d))[i] == t_perm(
        compose_t(a, b),
        d,
    )[i] by {
        let p = d.point_of(i);
        lemma_apply_on_board(b, d, p);
        let q = t_apply(b, d, p);
        assert(d.point_of(d.index_of(q)) == q);
        lemma_apply_on_board(a, d, q);
        lemma_compose_apply(a, b, d, p);
    }
    assert(perm_compose(t_perm(a, d), t_perm(b, d)) =~= t_perm(compose_t(a, b), d));
}

/// Every valid transform's map is in the group, and the group's maps are
/// distinct, valid, and start with the identity.
pub proof fn lemma_group(d: Dims)
    ensures
        forall|t: Transform| t_valid(t, d) ==> #[trigger] covers(group(d), d, t),
        forall|i: int, j: int|
            0 <= i < j < group(d).len() ==> t_perm(group(d)[i], d) != t_perm(group(d)[j], d),
        forall|g: int| 0 <= g < group(d).len() ==> t_valid(#[trigger] group(d)[g], d),
        group(d).len() >= 1,
        group(d)[0] == identity_t(),
        group(d).len() <= 8,
{
    lemma_candidates_valid(d);
    let c = candidates(d);
    lemma_kept(d, c.len() as int);
    assert forall|t: Transform| t_valid(t, d) implies #[trigger] covers(group(d), d, t) by {
        let i = choose|i: int| 0 <= i < c.len() && c[i] == t;
        assert(covers(kept(d, c.len() as int), d, c[i]));
    }
    assert forall|g: int| 0 <= g < group(d).len() implies t_valid(#[trigger] group(d)[g], d) by {
        assert(c.contains(group(d)[g]));
    }
}

/// The symmetries of a board form a group: the composite of two of them is
/// one of them, the identity is one of them, and each has an inverse among
/// them.
pub proof fn law_group(d: Dims, a: int, b: int)
    requires
        d.wf(),
        0 <= a < group(d).len(),
        0 <= b < group(d).len(),
    ensures
        exists|c: int|
            0 <= c < group(d).len() && #[trigger] t_perm(group(d)[c], d) == perm_compose(
                t_perm(group(d)[a], d),
                t_perm(group(d)[b], d),
            ),
        perm_compose(t_perm(group(d)[0], d), t_perm(group(d)[a], d)) == t_perm(group(d)[a], d),
        exists|h: int|
            0 <= h < group(d).len() && perm_compose(t_perm(group(d)[a], d), #[trigger] t_perm(group(d)[h], d)) == t_perm(
                group(d)[0],
                d,
            ),
{
    lemma_group(d);
    let ta = group(d)[a];
    let tb = group(d)[b];
    lemma_perm_compose(ta, tb, d);
    assert(t_valid(compose_t(ta, tb), d));
    assert(covers(group(d), d, compose_t(ta, tb)));
    lemma_perm_compose(identity_t(), ta, d);
    assert(compose_t(identity_t(), ta) == ta);
    lemma_inverse_t(ta, d);
    let inv = inverse_t(ta);
    assert(covers(group(d), d, inv));
    let h = choose|j: int| 0 <= j < group(d).len() && #[trigger] t_perm(group(d)[j], d) == t_perm(inv, d);
    lemma_perm_compose(ta, inv, d);
}

/// The index of the first permutation of a list that equals `p`, or the
/// list's length when none does.
fn find_perm(perms: &Vec<Vec<usize>>, p: &Vec<usize>) -> (r: usize)
    ensures
        r <= perms@.len(),
        r < perms@.len() ==> perms@[r as int]@ == p@,
        forall|k: int| 0 <= k < r ==> perms@[k]@ != p@,
{
    let mut i: usize = 0;
    while i < perms.len()
        invariant
            i <= perms@.len(),
            forall|k: int| 0 <= k < i ==> perms@[k]@ != p@,
        decreases perms@.len() - i,
    {
        if same_perm(&perms[i], p) {
            return i;
        }
        i += 1;
    }
    i
}

/// The composite of two permutations.
fn compose_perm(pa: &Vec<usize>, pb: &Vec<usize>) -> (r: Vec<usize>)
    requires
        forall|i: int| 0 <= i < pb@.len() ==> (#[trigger] pb@[i]) < pa@.len(),
    ensures
        r@ == perm_compose(pa@, pb@),
{
    let mut out: Vec<usize> = Vec::new();
    let mut i: usize = 0;
    while i < pb.len()
        invariant
            forall|k: int| 0 <= k < pb@.len() ==> (#[trigger] pb@[k]) < pa@.len(),
            i <= pb@.len(),
            out@ =~= perm_compose(pa@, pb@).take(i as int),
        decreases pb@.len() - i,
    {
        out.push(pa[pb[i]]);
        i += 1;
    }
    assert(out@ =~= perm_compose(pa@, pb@));
    out
}

/// What a set of symmetry maps is: the board they are of.
pub struct SymModel {
    /// The board.
    pub dims: Dims,
}

/// The symmetries of one board, as tables: each element's permutation of
/// the points and of the position codes, the color swap's permutation of
/// the codes, and the group's composition and inverse.
#[derive(Clone, Debug)]
pub struct Symmetries {
    dims: Dims,
    transforms: Vec<Transform>,
    points: Vec<usize>,
    code_count: usize,
    codes: Vec<u32>,
    swap: Vec<u32>,
    compose: Vec<Vec<usize>>,
    inverse: Vec<usize>,
}

impl View for Symmetries {
    type V = SymModel;

    closed spec fn view(&self) -> SymModel {
        SymModel { dims: self.dims }
    }
}

/// The code of a position's image under the `g`-th symmetry of its board.
pub open spec fn moved_code(d: Dims, g: int, code: nat) -> nat {
    code_of(moved_cells(cells_of(d.size(), code), t_perm(group(d)[g], d), d.size() as int))
}

/// The code of a position with its colors exchanged.
pub open spec fn swapped_code(d: Dims, code: nat) -> nat {
    code_of(swapped_cells(cells_of(d.size(), code)))
}

/// A symmetry's map of point indices stays on the board and is undone by
/// its inverse's map, on either side.
proof fn lemma_perm_inverse(t: Transform, d: Dims)
    requires
        d.wf(),
        t_valid(t, d),
    ensures
        t_perm(t, d).len() == d.size(),
        t_perm(inverse_t(t), d).len() == d.size(),
        forall|i: int| 0 <= i < d.size() ==> (#[trigger] t_perm(t, d)[i]) < d.size(),
        forall|i: int| 0 <= i < d.size() ==> (#[trigger] t_perm(inverse_t(t), d)[i]) < d.size(),
        forall|i: int| 0 <= i < d.size() ==> #[trigger] t_perm(inverse_t(t), d)[t_perm(t, d)[i] as int] == i,
        forall|i: int| 0 <= i < d.size() ==> #[trigger] t_perm(t, d)[t_perm(inverse_t(t), d)[i] as int] == i,
{
    let inv = inverse_t(t);
    lemma_inverse_t(t, d);
    lemma_perm_compose(inv, t, d);
    lemma_perm_compose(t, inv, d);
    assert forall|i: int| 0 <= i < d.size() implies #[trigger] t_perm(identity_t(), d)[i] == i by {
        crate::config::lemma_point_of_in_range(d, i);
    }
    assert forall|i: int| 0 <= i < d.size() implies #[trigger] t_perm(inv, d)[t_perm(t, d)[i] as int] == i by {
        assert(perm_compose(t_perm(inv, d), t_perm(t, d))[i] == t_perm(identity_t(), d)[i]);
    }
    assert forall|i: int| 0 <= i < d.size() implies #[trigger] t_perm(t, d)[t_perm(inv, d)[i] as int] == i by {
        assert(perm_compose(t_perm(t, d), t_perm(inv, d))[i] == t_perm(identity_t(), d)[i]);
    }
}

/// Moving cells by a one-to-one map puts the `i`-th cell at the map's
/// `i`-th entry.
proof fn lemma_moved_at(cells: Seq<Option<Color>>, perm: Seq<usize>, k: int)
    requires
        0 <= k <= cells.len(),
        k <= perm.len(),
        forall|i: int| 0 <= i < k ==> (#[trigger] perm[i]) < cells.len(),
        forall|i: int, j: int| 0 <= i < j < k ==> perm[i] != perm[j],
    ensures
        moved_cells(cells, perm, k).len() == cells.len(),
        forall|i: int| 0 <= i < k ==> #[trigger] moved_cells(cells, perm, k)[perm[i] as int] == cells[i],
    decreases k,
{
    if k > 0 {
        lemma_moved_at(cells, perm, k - 1);
        assert forall|i: int| 0 <= i < k implies #[trigger] moved_cells(cells, perm, k)[perm[i] as int] == cells[i] by {
            if i < k - 1 {
                assert(perm[i] != perm[k - 1]);
            }
        }
    }
}

/// The cells of a symmetry's image: the cell at `perm[i]` is the cell that
/// was at `i`.
proof fn lemma_moved_perm(cells: Seq<Option<Color>>, t: Transform, d: Dims)
    requires
        d.wf(),
        t_valid(t, d),
        cells.len() == d.size(),
    ensures
        moved_cells(cells, t_perm(t, d), d.size() as int).len() == d.size(),
        forall|i: int|
            0 <= i < d.size() ==> #[trigger] moved_cells(cells, t_perm(t, d), d.size() as int)[t_perm(t, d)[i] as int]
                == cells[i],
{
    lemma_perm_inverse(t, d);
    let p = t_perm(t, d);
    let q = t_perm(inverse_t(t), d);
    assert forall|i: int, j: int| 0 <= i < j < d.size() implies p[i] != p[j] by {
        if p[i] == p[j] {
            assert(q[p[i] as int] == i);
            assert(q[p[j] as int] == j);
        }
    }
    lemma_moved_at(cells, p, d.size() as int);
}

/// The symmetries and the color swap act on codes as a group: every image
/// is a code of the board; the identity leaves a code alone; the image
/// under a composite is the image under one and then the other; swapping
/// colors twice gives the code back; and the swap commutes with every
/// symmetry.
pub proof fn law_code_group(d: Dims, a: int, b: int, code: nat)
    requires
        d.wf(),
        0 <= a < group(d).len(),
        0 <= b < group(d).len(),
        code < pow3(d.size()),
    ensures
        moved_code(d, a, code) < pow3(d.size()),
        moved_code(d, 0, code) == code,
        forall|c: int|
            0 <= c < group(d).len() && #[trigger] t_perm(group(d)[c], d) == perm_compose(
                t_perm(group(d)[a], d),
                t_perm(group(d)[b], d),
            ) ==> moved_code(d, c, code) == moved_code(d, a, moved_code(d, b, code)),
        swapped_code(d, code) < pow3(d.size()),
        swapped_code(d, swapped_code(d, code)) == code,
        swapped_code(d, moved_code(d, a, code)) == moved_code(d, a, swapped_code(d, code)),
{
    let n = d.size();
    lemma_group(d);
    let ta = group(d)[a];
    let tb = group(d)[b];
    let pa = t_perm(ta, d);
    let pb = t_perm(tb, d);
    let x = cells_of(n, code);
    crate::code::law_encode_decode(n, code);
    lemma_perm_inverse(ta, d);
    lemma_perm_inverse(tb, d);
    // Images are codes of the board.
    let xa = moved_cells(x, pa, n as int);
    lemma_moved_perm(x, ta, d);
    crate::code::lemma_code_bound(xa);
    // The identity.
    let t0 = group(d)[0];
    lemma_moved_perm(x, t0, d);
    let m0 = moved_cells(x, t_perm(t0, d), n as int);
    assert forall|i: int| 0 <= i < n implies #[trigger] m0[i] == x[i] by {
        crate::config::lemma_point_of_in_range(d, i);
        assert(t_perm(t0, d)[i] == i);
        assert(m0[t_perm(t0, d)[i] as int] == x[i]);
    }
    assert(m0 =~= x);
    // Composites.
    let y = moved_cells(x, pb, n as int);
    lemma_moved_perm(x, tb, d);
    crate::code::law_decode_encode(y);
    crate::code::lemma_code_bound(y);
    let z = moved_cells(y, pa, n as int);
    lemma_moved_perm(y, ta, d);
    assert forall|c: int|
        0 <= c < group(d).len() && #[trigger] t_perm(group(d)[c], d) == perm_compose(pa, pb) implies moved_code(d, c, code)
            == moved_code(d, a, moved_code(d, b, code)) by {
        let tc = group(d)[c];
        lemma_moved_perm(x, tc, d);
        let w = moved_cells(x, t_perm(tc, d), n as int);
        assert forall|j: int| 0 <= j < n implies #[trigger] w[j] == z[j] by {
            let k = t_perm(inverse_t(ta), d)[j] as int;
            let i = t_perm(inverse_t(tb), d)[k] as int;
            assert(pa[k] == j);
            assert(pb[i] == k);
            assert(t_perm(tc, d)[i] == pa[pb[i] as int]);
        }
        assert(w =~= z);
    }
    // The swap.
    let s = swapped_cells(x);
    crate::code::law_decode_encode(s);
    crate::code::lemma_code_bound(s);
    assert(swapped_cells(s) =~= x);
    let sa = moved_cells(s, pa, n as int);
    lemma_moved_perm(s, ta, d);
    crate::code::law_decode_encode(xa);
    let xas = swapped_cells(xa);
    assert forall|j: int| 0 <= j < n implies #[trigger] sa[j] == xas[j] by {
        let k = t_perm(inverse_t(ta), d)[j] as int;
        assert(pa[k] == j);
    }
    assert(sa =~= xas);
}

impl Symmetries {
    /// Every table holds what its element's map gives.
    pub closed spec fn wf(&self) -> bool {
        let d = self.dims;
        let n = d.size() as int;
        let order = group(d).len() as int;
        let cc = pow3(d.size()) as int;
        &&& d.wf()
        &&& d.size() <= MAX_TABLE_POINTS
        &&& self.transforms@ == group(d)
        &&& self.points@.len() == order * n
        &&& forall|g: int, i: int| 0 <= g < order && 0 <= i < n ==> #[trigger] self.points@[g * n + i] == t_perm(group(d)[g], d)[i]
        &&& self.code_count == cc
        &&& self.codes@.len() == order * cc
        &&& forall|g: int, c: int| 0 <= g < order && 0 <= c < cc ==> #[trigger] self.codes@[g * cc + c] == moved_code(d, g, c as nat)
        &&& self.swap@.len() == cc
        &&& forall|c: int| 0 <= c < cc ==> #[trigger] self.swap@[c] == swapped_code(d, c as nat)
        &&& self.compose@.len() == order
        &&& forall|a: int| 0 <= a < order ==> (#[trigger] self.compose@[a])@.len() == order
        &&& forall|a: int, b: int|
            0 <= a < order && 0 <= b < order ==> #[trigger] self.compose@[a]@[b] < order && t_perm(group(d)[self.compose@[a]@[b] as int], d)
                == perm_compose(t_perm(group(d)[a], d), t_perm(group(d)[b], d))
        &&& self.inverse@.len() == order
        &&& forall|g: int| 0 <= g < order ==> #[trigger] self.inverse@[g] < order && self.compose@[g]@[self.inverse@[g] as int] == 0
    }
}


impl Symmetries {
    /// The symmetries of a board, and the color swap, as tables over its
    /// points and codes. A board past the transition table's point budget
    /// is refused.
    pub fn new(dims: Dims) -> (r: Result<Self, TooLarge>)
        requires
            dims.wf(),
        ensures
            r is Ok <==> dims.size() <= MAX_TABLE_POINTS,
            match r {
                Ok(s) => s.wf() && s@.dims == dims,
                Err(e) => e == (TooLarge { dims, limit: MAX_TABLE_POINTS }),
            },
    {
        if dims.point_count() > MAX_TABLE_POINTS {
            return Err(TooLarge { dims, limit: MAX_TABLE_POINTS });
        }
        let n = dims.point_count();
        let (transforms, points) = group_of(dims);
        let order = transforms.len();
        proof {
            lemma_group(dims);
        }
        // Composition.
        let mut compose: Vec<Vec<usize>> = Vec::new();
        let mut a: usize = 0;
        while a < order
            invariant
                dims.wf(),
                n == dims.size(),
                transforms@ == group(dims),
                order == group(dims).len(),
                points@.len() == order,
                forall|g: int| 0 <= g < order ==> (#[trigger] points@[g])@ == t_perm(group(dims)[g], dims),
                forall|t: Transform| t_valid(t, dims) ==> #[trigger] covers(group(dims), dims, t),
                forall|g: int| 0 <= g < group(dims).len() ==> t_valid(#[trigger] group(dims)[g], dims),
                a <= order,
                compose@.len() == a,
                forall|x: int| 0 <= x < a ==> (#[trigger] compose@[x])@.len() == order,
                forall|x: int, y: int|
                    0 <= x < a && 0 <= y < order ==> #[trigger] compose@[x]@[y] < order && t_perm(group(dims)[compose@[x]@[y] as int], dims)
                        == perm_compose(t_perm(group(dims)[x], dims), t_perm(group(dims)[y], dims)),
            decreases order - a,
        {
            let mut row: Vec<usize> = Vec::new();
            let mut b: usize = 0;
            while b < order
                invariant
                    dims.wf(),
                    n == dims.size(),
                    transforms@ == group(dims),
                    order == group(dims).len(),
                    points@.len() == order,
                    forall|g: int| 0 <= g < order ==> (#[trigger] points@[g])@ == t_perm(group(dims)[g], dims),
                    forall|t: Transform| t_valid(t, dims) ==> #[trigger] covers(group(dims), dims, t),
                    forall|g: int| 0 <= g < group(dims).len() ==> t_valid(#[trigger] group(dims)[g], dims),
                    a < order,
                    b <= order,
                    row@.len() == b,
                    forall|y: int|
                        0 <= y < b ==> #[trigger] row@[y] < order && t_perm(group(dims)[row@[y] as int], dims) == perm_compose(
                            t_perm(group(dims)[a as int], dims),
                            t_perm(group(dims)[y], dims),
                        ),
                decreases order - b,
            {
                proof {
                    lemma_perm_compose(group(dims)[a as int], group(dims)[b as int], dims);
                    assert(t_valid(compose_t(group(dims)[a as int], group(dims)[b as int]), dims));
                    assert(covers(group(dims), dims, compose_t(group(dims)[a as int], group(dims)[b as int])));
                }
                let composed = compose_perm(&points[a], &points[b]);
                let c = find_perm(&points, &composed);
                proof {
                    if c >= order {
                        let j = choose|j: int|
                            0 <= j < group(dims).len() && #[trigger] t_perm(group(dims)[j], dims) == t_perm(
                                compose_t(group(dims)[a as int], group(dims)[b as int]),
                                dims,
                            );
                        assert(points@[j]@ == composed@);
                    }
                }
                row.push(c);
                b += 1;
            }
            compose.push(row);
            a += 1;
        }
        // Inverses.
        let mut inverse: Vec<usize> = Vec::new();
        let mut g: usize = 0;
        while g < order
            invariant
                dims.wf(),
                transforms@ == group(dims),
                order == group(dims).len(),
                compose@.len() == order,
                forall|x: int| 0 <= x < order ==> (#[trigger] compose@[x])@.len() == order,
                forall|x: int, y: int|
                    0 <= x < order && 0 <= y < order ==> #[trigger] compose@[x]@[y] < order && t_perm(group(dims)[compose@[x]@[y] as int], dims)
                        == perm_compose(t_perm(group(dims)[x], dims), t_perm(group(dims)[y], dims)),
                forall|t: Transform| t_valid(t, dims) ==> #[trigger] covers(group(dims), dims, t),
                forall|g: int| 0 <= g < group(dims).len() ==> t_valid(#[trigger] group(dims)[g], dims),
                forall|i: int, j: int| 0 <= i < j < group(dims).len() ==> t_perm(group(dims)[i], dims) != t_perm(group(dims)[j], dims),
                group(dims)[0] == identity_t(),
                g <= order,
                inverse@.len() == g,
                forall|x: int| 0 <= x < g ==> #[trigger] inverse@[x] < order && compose@[x]@[inverse@[x] as int] == 0,
            decreases order - g,
        {
            let ghost ta = group(dims)[g as int];
            proof {
                lemma_inverse_t(ta, dims);
                assert(covers(group(dims), dims, inverse_t(ta)));
            }
            let ghost hw = choose|j: int| 0 <= j < group(dims).len() && #[trigger] t_perm(group(dims)[j], dims) == t_perm(inverse_t(ta), dims);
            proof {
                lemma_perm_compose(ta, group(dims)[hw], dims);
                lemma_perm_compose(ta, inverse_t(ta), dims);
                let c = compose@[g as int]@[hw] as int;
                assert(t_perm(group(dims)[c], dims) == t_perm(group(dims)[0], dims));
                if c != 0 {
                    assert(t_perm(group(dims)[0], dims) != t_perm(group(dims)[c], dims));
                }
            }
            let mut h: usize = 0;
            while h < order && compose[g][h] != 0
                invariant
                    compose@.len() == order,
                    g < order,
                    compose@[g as int]@.len() == order,
                    h <= order,
                    0 <= hw < order,
                    compose@[g as int]@[hw] == 0,
                    forall|y: int| 0 <= y < h ==> compose@[g as int]@[y] != 0,
                decreases order - h,
            {
                h += 1;
            }
            inverse.push(h);
            g += 1;
        }
        // Code tables.
        proof {
            crate::code::lemma_pow3_monotone(dims.size(), 12);
            assert(pow3(12) == 531441) by {
                reveal_with_fuel(pow3, 13);
            }
        }
        let cc = code_space(dims) as usize;
        let mut codes: Vec<u32> = Vec::new();
        let mut g: usize = 0;
        while g < order
            invariant
                dims.wf(),
                dims.size() <= MAX_TABLE_POINTS,
                n == dims.size(),
                transforms@ == group(dims),
                order == group(dims).len(),
                order <= 8,
                cc == pow3(dims.size()),
                cc <= 531441,
                points@.len() == order,
                forall|x: int| 0 <= x < order ==> (#[trigger] points@[x])@ == t_perm(group(dims)[x], dims),
                forall|x: int| 0 <= x < group(dims).len() ==> t_valid(#[trigger] group(dims)[x], dims),
                g <= order,
                codes@.len() == g * cc,
                forall|x: int, c: int| 0 <= x < g && 0 <= c < cc ==> #[trigger] codes@[x * cc + c] == moved_code(dims, x, c as nat),
            decreases order - g,
        {
            let mut raw: usize = 0;
            proof {
                lemma_perm_compose(group(dims)[g as int], group(dims)[g as int], dims);
            }
            while raw < cc
                invariant
                    dims.wf(),
                    dims.size() <= MAX_TABLE_POINTS,
                    n == dims.size(),
                    order == group(dims).len(),
                    cc == pow3(dims.size()),
                    cc <= 531441,
                    g < order,
                    order <= 8,
                    points@.len() == order,
                    points@[g as int]@ == t_perm(group(dims)[g as int], dims),
                    forall|i: int| 0 <= i < dims.size() ==> (#[trigger] t_perm(group(dims)[g as int], dims)[i]) < dims.size(),
                    raw <= cc,
                    codes@.len() == g * cc + raw,
                    forall|x: int, c: int| 0 <= x < g && 0 <= c < cc ==> #[trigger] codes@[x * cc + c] == moved_code(dims, x, c as nat),
                    forall|c: int| 0 <= c < raw ==> #[trigger] codes@[g * cc + c] == moved_code(dims, g as int, c as nat),
                decreases cc - raw,
            {
                proof {
                    crate::code::lemma_cells_of_len(dims.size(), raw as nat);
                    assert((g * cc + raw) < 8 * 531441) by (nonlinear_arith)
                        requires
                            g < 8,
                            cc <= 531441,
                            raw < cc,
                    ;
                }
                let b = decode(dims, PosCode(raw as u32));
                let m = moved(&b, &points[g]);
                proof {
                    crate::code::lemma_code_bound(m@.cells);
                    crate::code::lemma_pow3_monotone(dims.size(), 20);
                    crate::code::lemma_pow3_20();
                }
                let e = encode(&m);
                codes.push(e.0);
                proof {
                    assert forall|x: int, c: int| 0 <= x < g && 0 <= c < cc implies #[trigger] codes@[x * cc + c] == moved_code(dims, x, c as nat) by {
                        assert(x * cc + c < g * cc) by (nonlinear_arith)
                            requires
                                0 <= x < g,
                                0 <= c < cc,
                        ;
                    }
                }
                raw += 1;
            }
            proof {
                assert(codes@.len() == (g + 1) * cc) by (nonlinear_arith)
                    requires
                        codes@.len() == g * cc + cc,
                ;
            }
            g += 1;
        }
        let mut swap: Vec<u32> = Vec::new();
        let mut raw: usize = 0;
        while raw < cc
            invariant
                dims.wf(),
                dims.size() <= MAX_TABLE_POINTS,
                cc == pow3(dims.size()),
                cc <= 531441,
                raw <= cc,
                swap@.len() == raw,
                forall|c: int| 0 <= c < raw ==> #[trigger] swap@[c] == swapped_code(dims, c as nat),
            decreases cc - raw,
        {
            let b = decode(dims, PosCode(raw as u32));
            let sw = swapped(&b);
            proof {
                crate::code::lemma_pow3_monotone(dims.size(), 20);
                crate::code::lemma_pow3_20();
            }
            swap.push(encode(&sw).0);
            raw += 1;
        }
        // The permutations, one after another.
        let mut flat: Vec<usize> = Vec::new();
        let mut g: usize = 0;
        while g < order
            invariant
                n == dims.size(),
                n <= MAX_TABLE_POINTS,
                order == group(dims).len(),
                order <= 8,
                points@.len() == order,
                forall|x: int| 0 <= x < order ==> (#[trigger] points@[x])@ == t_perm(group(dims)[x], dims),
                g <= order,
                flat@.len() == g * n,
                forall|x: int, i: int| 0 <= x < g && 0 <= i < n ==> #[trigger] flat@[x * n + i] == t_perm(group(dims)[x], dims)[i],
            decreases order - g,
        {
            let mut i: usize = 0;
            while i < n
                invariant
                    n == dims.size(),
                    n <= MAX_TABLE_POINTS,
                    g < order,
                    order <= 8,
                    points@.len() == order,
                    points@[g as int]@ == t_perm(group(dims)[g as int], dims),
                    i <= n,
                    flat@.len() == g * n + i,
                    forall|x: int, j: int| 0 <= x < g && 0 <= j < n ==> #[trigger] flat@[x * n + j] == t_perm(group(dims)[x], dims)[j],
                    forall|j: int| 0 <= j < i ==> #[trigger] flat@[g * n + j] == t_perm(group(dims)[g as int], dims)[j],
                decreases n - i,
            {
                proof {
                    assert(g * n + i < 8 * 12) by (nonlinear_arith)
                        requires
                            g < 8,
                            n <= 12,
                            i < n,
                    ;
                }
                flat.push(points[g][i]);
                proof {
                    assert forall|x: int, j: int| 0 <= x < g && 0 <= j < n implies #[trigger] flat@[x * n + j] == t_perm(group(dims)[x], dims)[j] by {
                        assert(x * n + j < g * n) by (nonlinear_arith)
                            requires
                                0 <= x < g,
                                0 <= j < n,
                        ;
                    }
                }
                i += 1;
            }
            proof {
                assert(flat@.len() == (g + 1) * n) by (nonlinear_arith)
                    requires
                        flat@.len() == g * n + n,
                ;
            }
            g += 1;
        }
        Ok(Symmetries { dims, transforms, points: flat, code_count: cc, codes, swap, compose, inverse })
    }
}


impl Symmetries {
    /// The board these maps are of.
    pub fn dims(&self) -> (r: Dims)
        ensures
            r == self@.dims,
            self.wf() ==> r.wf() && r.size() <= MAX_TABLE_POINTS,
    {
        self.dims
    }

    /// How many symmetries the board has.
    pub fn order(&self) -> (r: usize)
        requires
            self.wf(),
        ensures
            r == group(self@.dims).len(),
    {
        self.transforms.len()
    }

    /// The `g`-th symmetry.
    pub fn transform(&self, g: usize) -> (r: Transform)
        requires
            self.wf(),
            g < group(self@.dims).len(),
        ensures
            r == group(self@.dims)[g as int],
    {
        self.transforms[g]
    }

    /// Where the `g`-th symmetry sends a point.
    pub fn point(&self, g: usize, p: Point) -> (r: Point)
        requires
            self.wf(),
            g < group(self@.dims).len(),
            self@.dims.has(p),
        ensures
            r == t_apply(group(self@.dims)[g as int], self@.dims, p),
    {
        let d = self.dims;
        let n = d.point_count();
        let i = d.index(p);
        proof {
            lemma_group(d);
            assert(g * n + i < 8 * 12) by (nonlinear_arith)
                requires
                    g < 8,
                    n <= 12,
                    i < n,
            ;
            crate::config::lemma_grid(d);
            lemma_apply_on_board(group(d)[g as int], d, p);
            assert(d.point_of(i as int) == p);
            let order = group(d).len() as int;
            assert(g * n + i < order * n) by (nonlinear_arith)
                requires
                    g < order,
                    i < n,
            ;
        }
        let j = self.points[g * n + i];
        d.point_at(j)
    }

    /// The code of a position's image under the `g`-th symmetry.
    pub fn code(&self, g: usize, code: PosCode) -> (r: PosCode)
        requires
            self.wf(),
            g < group(self@.dims).len(),
            (code.0 as nat) < pow3(self@.dims.size()),
        ensures
            r.0 == moved_code(self@.dims, g as int, code.0 as nat),
    {
        proof {
            lemma_group(self.dims);
            crate::code::lemma_pow3_monotone(self.dims.size(), 12);
            assert(pow3(12) == 531441) by {
                reveal_with_fuel(pow3, 13);
            }
            assert(g * self.code_count + code.0 < 8 * 531441) by (nonlinear_arith)
                requires
                    g < 8,
                    self.code_count <= 531441,
                    code.0 < self.code_count,
            ;
            let order = group(self.dims).len() as int;
            let cc = self.code_count as int;
            assert(g * cc + code.0 < order * cc) by (nonlinear_arith)
                requires
                    g < order,
                    code.0 < cc,
            ;
        }
        PosCode(self.codes[g * self.code_count + code.0 as usize])
    }

    /// The number of codes each map permutes.
    pub fn code_count(&self) -> (r: usize)
        requires
            self.wf(),
        ensures
            r == pow3(self@.dims.size()),
    {
        self.code_count
    }

    /// Every element's code map, one after another.
    pub fn code_table(&self) -> (r: &[u32])
        requires
            self.wf(),
        ensures
            r@.len() == group(self@.dims).len() * pow3(self@.dims.size()),
            forall|g: int, c: int|
                0 <= g < group(self@.dims).len() && 0 <= c < pow3(self@.dims.size()) ==> #[trigger] r@[g * pow3(
                    self@.dims.size(),
                ) + c] == moved_code(self@.dims, g, c as nat),
    {
        self.codes.as_slice()
    }

    /// Every element's point map, one after another.
    pub fn point_table(&self) -> (r: &[usize])
        requires
            self.wf(),
        ensures
            r@.len() == group(self@.dims).len() * self@.dims.size(),
            forall|g: int, i: int|
                0 <= g < group(self@.dims).len() && 0 <= i < self@.dims.size() ==> #[trigger] r@[g * self@.dims.size() + i]
                    == t_perm(group(self@.dims)[g], self@.dims)[i],
    {
        self.points.as_slice()
    }

    /// The code of a position with its colors exchanged.
    pub fn swap(&self, code: PosCode) -> (r: PosCode)
        requires
            self.wf(),
            (code.0 as nat) < pow3(self@.dims.size()),
        ensures
            r.0 == swapped_code(self@.dims, code.0 as nat),
    {
        PosCode(self.swap[code.0 as usize])
    }

    /// The element that does `b` and then `a`.
    pub fn compose(&self, a: usize, b: usize) -> (r: usize)
        requires
            self.wf(),
            a < group(self@.dims).len(),
            b < group(self@.dims).len(),
        ensures
            r < group(self@.dims).len(),
            t_perm(group(self@.dims)[r as int], self@.dims) == perm_compose(
                t_perm(group(self@.dims)[a as int], self@.dims),
                t_perm(group(self@.dims)[b as int], self@.dims),
            ),
    {
        self.compose[a][b]
    }

    /// The element that undoes `g`.
    pub fn inverse(&self, g: usize) -> (r: usize)
        requires
            self.wf(),
            g < group(self@.dims).len(),
        ensures
            r < group(self@.dims).len(),
            perm_compose(t_perm(group(self@.dims)[g as int], self@.dims), t_perm(group(self@.dims)[r as int], self@.dims))
                == t_perm(group(self@.dims)[0], self@.dims),
    {
        let h = self.inverse[g];
        proof {
            assert(self.compose@[g as int]@[h as int] == 0);
        }
        h
    }
}

} // verus!
