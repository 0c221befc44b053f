//! Two ways to name a position: an internal integer code, and the string
//! form that crosses a file boundary.
//!
//! [`PosCode`] is a base-3 index over all `3^(m·n)` positions, legal and
//! illegal alike, with digit `row · n + col` and digit values 0 empty, 1
//! black, 2 white. [`render`] writes rows of `.`, `X` and `O` separated by
//! `/`, and [`parse`] reads them back against dimensions given explicitly.

use vstd::prelude::*;

use crate::config::{Dims, Point};
use crate::reference::{Color, Position, PositionModel};
use crate::text::{chars_of, control, dec, hex_text, is_control, push_char, push_code_escape, push_decimal, push_str};

verus! {

broadcast use vstd::string::group_string_axioms;

/// The largest board a [`PosCode`] indexes: `3^20` is below `u32::MAX`, and
/// `3^21` is not.
pub const MAX_CODED_POINTS: usize = 20;

/// A base-3 index over all `3^(m·n)` positions of a board.
#[derive(Clone, Copy, Debug, PartialEq, Eq, PartialOrd, Ord, Hash, Structural)]
pub struct PosCode(pub u32);

/// Three to the `k`.
pub open spec fn pow3(k: nat) -> nat
    decreases k,
{
    if k == 0 {
        1
    } else {
        3 * pow3((k - 1) as nat)
    }
}

/// The digit of a cell: 0 empty, 1 black, 2 white.
pub open spec fn digit(v: Option<Color>) -> nat {
    match v {
        None => 0,
        Some(Color::Black) => 1,
        Some(Color::White) => 2,
    }
}

/// The cell a digit names; any digit past 1 is white.
pub open spec fn cell_of(d: nat) -> Option<Color> {
    if d == 0 {
        None
    } else if d == 1 {
        Some(Color::Black)
    } else {
        Some(Color::White)
    }
}

/// The code of a cell sequence: the first cell is the lowest base-3 digit.
pub open spec fn code_of(s: Seq<Option<Color>>) -> nat
    decreases s.len(),
{
    if s.len() == 0 {
        0
    } else {
        digit(s[0]) + 3 * code_of(s.drop_first())
    }
}

/// The `n` cells a code names, lowest digit first.
pub open spec fn cells_of(n: nat, c: nat) -> Seq<Option<Color>>
    decreases n,
{
    if n == 0 {
        Seq::empty()
    } else {
        seq![cell_of(c % 3)] + cells_of((n - 1) as nat, c / 3)
    }
}

/// A code names exactly `n` cells.
pub proof fn lemma_cells_of_len(n: nat, c: nat)
    ensures
        cells_of(n, c).len() == n,
    decreases n,
{
    if n > 0 {
        lemma_cells_of_len((n - 1) as nat, c / 3);
    }
}

/// The code of a sequence of `n` cells is below `3^n`.
pub proof fn lemma_code_bound(s: Seq<Option<Color>>)
    ensures
        code_of(s) < pow3(s.len()),
    decreases s.len(),
{
    if s.len() > 0 {
        lemma_code_bound(s.drop_first());
    }
}

/// Powers of three grow.
pub proof fn lemma_pow3_monotone(a: nat, b: nat)
    requires
        a <= b,
    ensures
        pow3(a) <= pow3(b),
        pow3(a) >= 1,
    decreases b,
{
    if b > a {
        lemma_pow3_monotone(a, (b - 1) as nat);
    } else if a > 0 {
        lemma_pow3_monotone((a - 1) as nat, (a - 1) as nat);
    }
}

/// `3^20` fits a `u32`.
pub proof fn lemma_pow3_20()
    ensures
        pow3(20) == 3486784401,
{
    reveal_with_fuel(pow3, 21);
}

/// Decoding a code and encoding the cells gives the code back.
pub proof fn law_encode_decode(n: nat, c: nat)
    requires
        c < pow3(n),
    ensures
        code_of(cells_of(n, c)) == c,
        cells_of(n, c).len() == n,
    decreases n,
{
    if n > 0 {
        law_encode_decode((n - 1) as nat, c / 3);
        let s = cells_of(n, c);
        assert(s.drop_first() =~= cells_of((n - 1) as nat, c / 3));
        assert(digit(cell_of(c % 3)) == c % 3);
    }
}

/// Encoding cells and decoding the code gives the cells back.
pub proof fn law_decode_encode(s: Seq<Option<Color>>)
    ensures
        cells_of(s.len(), code_of(s)) == s,
    decreases s.len(),
{
    if s.len() > 0 {
        law_decode_encode(s.drop_first());
        let c = code_of(s);
        assert(c % 3 == digit(s[0]));
        assert(c / 3 == code_of(s.drop_first()));
        assert(cell_of(digit(s[0])) == s[0]);
        assert(cells_of(s.len(), c) =~= s);
    }
}

/// The number of codes on this board, `3^(m·n)`.
pub fn code_space(dims: Dims) -> (r: u32)
    requires
        dims.rows * dims.cols <= MAX_CODED_POINTS,
    ensures
        r == pow3(dims.size()),
{
    let points = dims.point_count();
    let mut r: u32 = 1;
    let mut i: usize = 0;
    proof {
        lemma_pow3_20();
    }
    while i < points
        invariant
            points == dims.size(),
            points <= 20,
            i <= points,
            r == pow3(i as nat),
            pow3(20) == 3486784401,
        decreases points - i,
    {
        proof {
            lemma_pow3_monotone((i + 1) as nat, 20);
        }
        r = r * 3;
        i += 1;
    }
    r
}

/// The code of a position.
pub fn encode(b: &Position) -> (r: PosCode)
    requires
        b@.wf(),
        b@.dims.size() <= MAX_CODED_POINTS,
    ensures
        r.0 == code_of(b@.cells),
        r.0 < pow3(b@.dims.size()),
{
    let cells = b.cells();
    let n = cells.len();
    let mut code: u32 = 0;
    let mut i: usize = n;
    proof {
        lemma_pow3_20();
        lemma_code_bound(b@.cells);
    }
    while i > 0
        invariant
            cells@ == b@.cells,
            n == cells@.len(),
            n <= 20,
            i <= n,
            code == code_of(cells@.skip(i as int)),
            pow3(20) == 3486784401,
        decreases i,
    {
        let ghost rest = cells@.skip(i as int);
        i -= 1;
        let digit: u32 = match cells[i] {
            None => 0,
            Some(Color::Black) => 1,
            Some(Color::White) => 2,
        };
        proof {
            assert(cells@.skip(i as int).drop_first() =~= rest);
            lemma_code_bound(cells@.skip(i as int));
            lemma_pow3_monotone((n - i) as nat, 20);
        }
        code = digit + 3 * code;
    }
    assert(cells@.skip(0) =~= cells@);
    proof {
        lemma_code_bound(b@.cells);
    }
    PosCode(code)
}

/// The position a code names.
pub fn decode(dims: Dims, code: PosCode) -> (r: Position)
    requires
        dims.wf(),
        dims.size() <= MAX_CODED_POINTS,
        code.0 < pow3(dims.size()),
    ensures
        r@ == (PositionModel { dims, cells: cells_of(dims.size(), code.0 as nat) }),
        r@.wf(),
{
    let n = dims.point_count();
    let mut rest = code.0;
    let mut cells: Vec<Option<Color>> = Vec::new();
    let mut i: usize = 0;
    while i < n
        invariant
            n == dims.size(),
            i <= n,
            cells@ + cells_of((n - i) as nat, rest as nat) == cells_of(n as nat, code.0 as nat),
        decreases n - i,
    {
        let ghost before = cells@;
        let cell = match rest % 3 {
            0 => None,
            1 => Some(Color::Black),
            _ => Some(Color::White),
        };
        cells.push(cell);
        proof {
            let tail = cells_of((n - i) as nat, rest as nat);
            assert(tail =~= seq![cell] + cells_of((n - i - 1) as nat, (rest / 3) as nat));
            assert(before + tail =~= cells@ + cells_of((n - i - 1) as nat, (rest / 3) as nat));
        }
        rest = rest / 3;
        i += 1;
    }
    assert(cells@ + cells_of(0, rest as nat) =~= cells@);
    proof {
        lemma_cells_of_len(n as nat, code.0 as nat);
    }
    Position::from_cells(dims, cells.as_slice())
}

/// The glyph of a cell.
pub open spec fn glyph_of(v: Option<Color>) -> char {
    match v {
        None => '.',
        Some(Color::Black) => 'X',
        Some(Color::White) => 'O',
    }
}

/// Row `r` of a position's string form.
pub open spec fn row_text(b: PositionModel, r: int) -> Seq<char> {
    Seq::new(b.dims.cols as nat, |c: int| glyph_of(b.cells[r * b.dims.cols + c]))
}

/// The first `k` rows, separated by `/`.
pub open spec fn rows_text(b: PositionModel, k: int) -> Seq<char>
    decreases k,
{
    if k <= 0 {
        Seq::empty()
    } else if k == 1 {
        row_text(b, 0)
    } else {
        rows_text(b, k - 1) + seq!['/'] + row_text(b, k - 1)
    }
}

/// The row-major string form: rows of `.`, `X` and `O`, separated by `/`.
pub open spec fn render_spec(b: PositionModel) -> Seq<char> {
    rows_text(b, b.dims.rows as int)
}

/// The row-major string form: rows of `.`, `X` (black) and `O` (white),
/// separated by `/`.
pub fn render(b: &Position) -> (r: String)
    requires
        b@.wf(),
    ensures
        r@ == render_spec(b@),
{
    let dims = b.dims();
    let mut out = String::new();
    let mut row: usize = 0;
    proof {
        crate::config::lemma_grid(dims);
    }
    while row < dims.rows
        invariant
            b@.wf(),
            dims == b@.dims,
            row <= dims.rows,
            out@ == rows_text(b@, row as int),
        decreases dims.rows - row,
    {
        if row > 0 {
            push_char(&mut out, '/');
        }
        let ghost head = out@;
        let mut col: usize = 0;
        while col < dims.cols
            invariant
                b@.wf(),
                dims == b@.dims,
                row < dims.rows,
                col <= dims.cols,
                out@ == head + row_text(b@, row as int).take(col as int),
            decreases dims.cols - col,
        {
            let p = Point::new(row, col);
            proof {
                crate::config::lemma_index_in_range(dims, p);
            }
            let ch = match b.get(p) {
                None => '.',
                Some(c) => c.glyph(),
            };
            push_char(&mut out, ch);
            col += 1;
            assert(out@ =~= head + row_text(b@, row as int).take(col as int));
        }
        assert(row_text(b@, row as int).take(dims.cols as int) =~= row_text(b@, row as int));
        row += 1;
    }
    out
}

/// Whether a character is white space in Unicode's sense, the set
/// `char::is_whitespace` tests.
pub open spec fn is_space(c: char) -> bool {
    let u = c as u32;
    ||| 0x9 <= u <= 0xd
    ||| u == 0x20
    ||| u == 0x85
    ||| u == 0xa0
    ||| u == 0x1680
    ||| 0x2000 <= u <= 0x200a
    ||| u == 0x2028
    ||| u == 0x2029
    ||| u == 0x202f
    ||| u == 0x205f
    ||| u == 0x3000
}

/// Whether a character is white space.
pub fn is_whitespace(c: char) -> (r: bool)
    ensures
        r == is_space(c),
{
    let u = c as u32;
    (0x9 <= u && u <= 0xd) || u == 0x20 || u == 0x85 || u == 0xa0 || u == 0x1680 || (0x2000 <= u
        && u <= 0x200a) || u == 0x2028 || u == 0x2029 || u == 0x202f || u == 0x205f || u == 0x3000
}

/// The text without its leading white space.
pub open spec fn trim_start(s: Seq<char>) -> Seq<char>
    decreases s.len(),
{
    if s.len() > 0 && is_space(s[0]) {
        trim_start(s.drop_first())
    } else {
        s
    }
}

/// The text without its trailing white space.
pub open spec fn trim_end(s: Seq<char>) -> Seq<char>
    decreases s.len(),
{
    if s.len() > 0 && is_space(s.last()) {
        trim_end(s.drop_last())
    } else {
        s
    }
}

/// The text without white space at either end.
pub open spec fn trim(s: Seq<char>) -> Seq<char> {
    trim_end(trim_start(s))
}

/// Whether a character separates rows.
pub open spec fn is_sep(c: char) -> bool {
    c == '/' || c == '\n'
}

/// The pieces of `s` from the piece starting at `start`, scanning from `i`.
pub open spec fn split_from(s: Seq<char>, start: int, i: int) -> Seq<Seq<char>>
    decreases s.len() - i,
{
    if i >= s.len() {
        seq![s.subrange(start, s.len() as int)]
    } else if is_sep(s[i]) {
        seq![s.subrange(start, i)] + split_from(s, i + 1, i + 1)
    } else {
        split_from(s, start, i + 1)
    }
}

/// The rows of a text: the whole text trimmed, cut at every separator, and
/// every piece trimmed. An empty piece is a row of length zero.
pub open spec fn rows_of(text: Seq<char>) -> Seq<Seq<char>> {
    split_from(trim(text), 0, 0).map_values(|r: Seq<char>| trim(r))
}

/// Why a string is not a position of the given board.
#[allow(inconsistent_fields)]
#[derive(Clone, Copy, Debug, PartialEq, Eq, Structural)]
pub enum ParseError {
    /// The text has a different number of rows than the board.
    RowCount {
        /// Rows the board has.
        expected: usize,
        /// Rows the text has.
        found: usize,
    },
    /// A row has a different length than the board's width.
    RowLength {
        /// The row, counted from zero.
        row: usize,
        /// Columns the board has.
        expected: usize,
        /// Columns the row has.
        found: usize,
    },
    /// A character that is not `.`, `X` or `O`.
    BadChar {
        /// The row, counted from zero.
        row: usize,
        /// The column, counted from zero.
        col: usize,
        /// The offending character.
        found: char,
    },
}

/// Whether a character is one of `.`, `X`, `O`.
pub open spec fn is_glyph(c: char) -> bool {
    c == '.' || c == 'X' || c == 'O'
}

/// The cell a glyph names.
pub open spec fn cell_of_glyph(c: char) -> Option<Color> {
    if c == 'X' {
        Some(Color::Black)
    } else if c == 'O' {
        Some(Color::White)
    } else {
        None
    }
}

/// The first column from `j` on that is not a glyph.
pub open spec fn first_bad(row: Seq<char>, j: int) -> Option<int>
    decreases row.len() - j,
{
    if j >= row.len() {
        None
    } else if !is_glyph(row[j]) {
        Some(j)
    } else {
        first_bad(row, j + 1)
    }
}

/// The first refusal among the rows from `r` on.
pub open spec fn check_rows(d: Dims, rows: Seq<Seq<char>>, r: int) -> Option<ParseError>
    decreases rows.len() - r,
{
    if r >= rows.len() {
        None
    } else if rows[r].len() != d.cols {
        Some(
            ParseError::RowLength {
                row: r as usize,
                expected: d.cols,
                found: rows[r].len() as usize,
            },
        )
    } else {
        match first_bad(rows[r], 0) {
            Some(c) => Some(
                ParseError::BadChar { row: r as usize, col: c as usize, found: rows[r][c] },
            ),
            None => check_rows(d, rows, r + 1),
        }
    }
}

/// What parsing a text on a board gives.
pub open spec fn parse_spec(d: Dims, text: Seq<char>) -> Result<PositionModel, ParseError> {
    let rows = rows_of(text);
    if rows.len() != d.rows {
        Err(ParseError::RowCount { expected: d.rows, found: rows.len() as usize })
    } else {
        match check_rows(d, rows, 0) {
            Some(e) => Err(e),
            None => Ok(
                PositionModel {
                    dims: d,
                    cells: Seq::new(
                        d.size(),
                        |i: int| cell_of_glyph(rows[i / d.cols as int][i % d.cols as int]),
                    ),
                },
            ),
        }
    }
}

/// The first `k` rows, separated by `sep`.
pub open spec fn rows_text_with(b: PositionModel, k: int, sep: char) -> Seq<char>
    decreases k,
{
    if k <= 0 {
        Seq::empty()
    } else if k == 1 {
        row_text(b, 0)
    } else {
        rows_text_with(b, k - 1, sep) + seq![sep] + row_text(b, k - 1)
    }
}

/// The string form with each row on a line of its own.
pub open spec fn render_lines_spec(b: PositionModel) -> Seq<char> {
    rows_text_with(b, b.dims.rows as int, '\n')
}

/// No glyph separates rows or is white space.
proof fn lemma_glyph(v: Option<Color>)
    ensures
        !is_sep(glyph_of(v)),
        !is_space(glyph_of(v)),
        is_glyph(glyph_of(v)),
        cell_of_glyph(glyph_of(v)) == v,
{
    crate::text::lemma_char_code(glyph_of(v));
}

/// A piece with no separator from `i` on is the last piece.
proof fn lemma_split_tail(s: Seq<char>, start: int, i: int)
    requires
        0 <= start <= i <= s.len(),
        forall|j: int| i <= j < s.len() ==> !is_sep(#[trigger] s[j]),
    ensures
        split_from(s, start, i) == seq![s.subrange(start, s.len() as int)],
    decreases s.len() - i,
{
    if i < s.len() {
        lemma_split_tail(s, start, i + 1);
    }
}

/// Cutting `a`, a separator and a separator-free `q` gives the pieces of
/// `a` and then `q`.
proof fn lemma_split_append(a: Seq<char>, sep: char, q: Seq<char>, start: int, i: int)
    requires
        is_sep(sep),
        forall|j: int| 0 <= j < q.len() ==> !is_sep(#[trigger] q[j]),
        0 <= start <= i <= a.len(),
    ensures
        split_from(a + seq![sep] + q, start, i) == split_from(a, start, i) + seq![q],
    decreases a.len() - i,
{
    let s = a + seq![sep] + q;
    if i == a.len() {
        assert forall|j: int| i + 1 <= j < s.len() implies !is_sep(#[trigger] s[j]) by {
            assert(s[j] == q[j - i - 1]);
        }
        lemma_split_tail(s, i + 1, i + 1);
        assert(s.subrange(i + 1, s.len() as int) =~= q);
        assert(s.subrange(start, i) =~= a.subrange(start, a.len() as int));
    } else {
        assert(s[i] == a[i]);
        if is_sep(a[i]) {
            lemma_split_append(a, sep, q, i + 1, i + 1);
            assert(s.subrange(start, i) =~= a.subrange(start, i));
            assert(seq![a.subrange(start, i)] + (split_from(a, i + 1, i + 1) + seq![q]) =~= (seq![
                a.subrange(start, i),
            ] + split_from(a, i + 1, i + 1)) + seq![q]);
        } else {
            lemma_split_append(a, sep, q, start, i + 1);
        }
    }
}

/// The characters of a row are glyphs, of the cells of that row.
proof fn lemma_row_text(b: PositionModel, r: int)
    requires
        b.wf(),
        0 <= r < b.dims.rows,
    ensures
        row_text(b, r).len() == b.dims.cols,
        forall|j: int| 0 <= j < b.dims.cols ==> #[trigger] row_text(b, r)[j] == glyph_of(b.cells[r * b.dims.cols + j]),
        forall|j: int| 0 <= j < b.dims.cols ==> !is_sep(#[trigger] row_text(b, r)[j]) && is_glyph(row_text(b, r)[j]),
        trim(row_text(b, r)) == row_text(b, r),
        first_bad(row_text(b, r), 0) is None,
{
    let t = row_text(b, r);
    assert forall|j: int| 0 <= j < b.dims.cols implies !is_sep(#[trigger] t[j]) && is_glyph(t[j]) by {
        lemma_glyph(b.cells[r * b.dims.cols + j]);
    }
    lemma_glyph(b.cells[r * b.dims.cols]);
    lemma_glyph(b.cells[r * b.dims.cols + b.dims.cols - 1]);
    assert(trim_start(t) == t);
    assert(trim_end(t) == t);
    lemma_first_bad_none(t, 0);
}

/// A row of glyphs only has no bad column.
proof fn lemma_first_bad_none(row: Seq<char>, j: int)
    requires
        0 <= j,
        forall|i: int| 0 <= i < row.len() ==> is_glyph(#[trigger] row[i]),
    ensures
        first_bad(row, j) is None,
    decreases row.len() - j,
{
    if j < row.len() {
        lemma_first_bad_none(row, j + 1);
    }
}

/// The rows of the first `k` rows' text, cut at their separators, are those
/// rows; the text starts and ends with a glyph.
proof fn lemma_rows_split(b: PositionModel, k: int, sep: char)
    requires
        b.wf(),
        1 <= k <= b.dims.rows,
        is_sep(sep),
    ensures
        split_from(rows_text_with(b, k, sep), 0, 0) == Seq::new(k as nat, |r: int| row_text(b, r)),
        rows_text_with(b, k, sep).len() > 0,
        rows_text_with(b, k, sep)[0] == glyph_of(b.cells[0]),
        rows_text_with(b, k, sep).last() == glyph_of(b.cells[(k - 1) * b.dims.cols + b.dims.cols - 1]),
    decreases k,
{
    lemma_row_text(b, k - 1);
    let t = row_text(b, k - 1);
    if k == 1 {
        lemma_split_tail(t, 0, 0);
        assert(t.subrange(0, t.len() as int) =~= t);
        assert(seq![t] =~= Seq::new(k as nat, |r: int| row_text(b, r)));
    } else {
        lemma_rows_split(b, k - 1, sep);
        let a = rows_text_with(b, k - 1, sep);
        lemma_split_append(a, sep, t, 0, 0);
        assert(split_from(a, 0, 0) + seq![t] =~= Seq::new(k as nat, |r: int| row_text(b, r)));
        assert((a + seq![sep] + t)[0] == a[0]);
    }
}

/// The rows a parse finds in the text of a position are its rows, and none
/// is refused.
proof fn lemma_rows_of_text(b: PositionModel, sep: char)
    requires
        b.wf(),
        is_sep(sep),
    ensures
        rows_of(rows_text_with(b, b.dims.rows as int, sep)) == Seq::new(b.dims.rows as nat, |r: int| row_text(b, r)),
{
    let k = b.dims.rows as int;
    let s = rows_text_with(b, k, sep);
    lemma_rows_split(b, k, sep);
    lemma_glyph(b.cells[0]);
    lemma_glyph(b.cells[(k - 1) * b.dims.cols + b.dims.cols - 1]);
    assert(trim_start(s) == s);
    assert(trim_end(s) == s);
    let rows = Seq::new(k as nat, |r: int| row_text(b, r));
    assert forall|r: int| 0 <= r < k implies #[trigger] trim(rows[r]) == rows[r] by {
        lemma_row_text(b, r);
    }
    assert(rows.map_values(|t: Seq<char>| trim(t)) =~= rows);
}

/// No row of a position's text is refused from the `r`-th on.
proof fn lemma_check_rows(b: PositionModel, r: int)
    requires
        b.wf(),
        0 <= r <= b.dims.rows,
    ensures
        check_rows(b.dims, Seq::new(b.dims.rows as nat, |i: int| row_text(b, i)), r) is None,
    decreases b.dims.rows - r,
{
    if r < b.dims.rows {
        lemma_row_text(b, r);
        lemma_check_rows(b, r + 1);
    }
}

/// Parsing the rows of a position's text gives the position back.
proof fn lemma_parse_rows(b: PositionModel, sep: char)
    requires
        b.wf(),
        is_sep(sep),
    ensures
        parse_spec(b.dims, rows_text_with(b, b.dims.rows as int, sep)) == Ok::<PositionModel, ParseError>(b),
{
    let d = b.dims;
    let rows = Seq::new(d.rows as nat, |r: int| row_text(b, r));
    lemma_rows_of_text(b, sep);
    lemma_check_rows(b, 0);
    let cells = Seq::new(d.size(), |i: int| cell_of_glyph(rows[i / d.cols as int][i % d.cols as int]));
    assert forall|i: int| 0 <= i < d.size() implies #[trigger] cells[i] == b.cells[i] by {
        crate::config::lemma_point_of_in_range(d, i);
        let q = i / d.cols as int;
        let c = i % d.cols as int;
        lemma_row_text(b, q);
        assert(rows[q][c] == glyph_of(b.cells[q * d.cols + c]));
        lemma_glyph(b.cells[i]);
    }
    assert(cells =~= b.cells);
}

/// The text with `/` between rows is the text of the rows separated by `/`.
proof fn lemma_rows_text_slash(b: PositionModel, k: int)
    ensures
        rows_text(b, k) == rows_text_with(b, k, '/'),
    decreases k,
{
    if k > 1 {
        lemma_rows_text_slash(b, k - 1);
    }
}

/// Parsing the string form of a position, rows separated by `/` or each on
/// a line of its own, gives the position back.
pub proof fn law_parse_render(b: PositionModel)
    requires
        b.wf(),
    ensures
        parse_spec(b.dims, render_spec(b)) == Ok::<PositionModel, ParseError>(b),
        parse_spec(b.dims, render_lines_spec(b)) == Ok::<PositionModel, ParseError>(b),
{
    lemma_rows_text_slash(b, b.dims.rows as int);
    lemma_parse_rows(b, '/');
    lemma_parse_rows(b, '\n');
}

/// The index range of `s[lo..hi]` with white space trimmed from both ends.
fn trim_range(s: &Vec<char>, lo: usize, hi: usize) -> (r: (usize, usize))
    requires
        lo <= hi <= s@.len(),
    ensures
        lo <= r.0 <= r.1 <= hi,
        s@.subrange(r.0 as int, r.1 as int) == trim(s@.subrange(lo as int, hi as int)),
{
    let mut a = lo;
    while a < hi && is_whitespace(s[a])
        invariant
            lo <= a <= hi <= s@.len(),
            trim_start(s@.subrange(lo as int, hi as int)) == trim_start(s@.subrange(a as int, hi as int)),
        decreases hi - a,
    {
        assert(s@.subrange(a as int, hi as int).drop_first() =~= s@.subrange(a + 1, hi as int));
        a += 1;
    }
    assert(trim_start(s@.subrange(a as int, hi as int)) == s@.subrange(a as int, hi as int));
    let mut b = hi;
    while b > a && is_whitespace(s[b - 1])
        invariant
            lo <= a <= b <= hi <= s@.len(),
            trim_end(s@.subrange(a as int, hi as int)) == trim_end(s@.subrange(a as int, b as int)),
        decreases b - a,
    {
        assert(s@.subrange(a as int, b as int).drop_last() =~= s@.subrange(a as int, b - 1));
        b -= 1;
    }
    assert(trim_end(s@.subrange(a as int, b as int)) == s@.subrange(a as int, b as int));
    (a, b)
}

/// The position a string names on the given board. Rows are separated by
/// `/` or by a newline; white space around the whole text and around each
/// row is ignored, and nothing else is. An empty row is a row of length
/// zero and is counted as one.
pub fn parse(dims: Dims, text: &str) -> (r: Result<Position, ParseError>)
    requires
        dims.wf(),
    ensures
        match r {
            Ok(b) => parse_spec(dims, text@) == Ok::<PositionModel, ParseError>(b@) && b@.wf(),
            Err(e) => parse_spec(dims, text@) == Err::<PositionModel, ParseError>(e),
        },
{
    let chars = chars_of(text);
    let (lo, hi) = trim_range(&chars, 0, chars.len());
    let ghost t = chars@.subrange(lo as int, hi as int);
    assert(chars@.subrange(0, chars@.len() as int) =~= chars@);
    // Cut the trimmed text into rows, each trimmed.
    let mut rows: Vec<(usize, usize)> = Vec::new();
    let mut start: usize = lo;
    let mut i: usize = lo;
    while i < hi
        invariant
            lo <= start <= i <= hi <= chars@.len(),
            t == chars@.subrange(lo as int, hi as int),
            forall|k: int| 0 <= k < rows@.len() ==> (#[trigger] rows@[k]).0 <= rows@[k].1 <= hi,
            rows@.map_values(|p: (usize, usize)| chars@.subrange(p.0 as int, p.1 as int)) + split_from(
                t,
                start - lo,
                i - lo,
            ).map_values(|r: Seq<char>| trim(r)) == split_from(t, 0, 0).map_values(
                |r: Seq<char>| trim(r),
            ),
        decreases hi - i,
    {
        if chars[i] == '/' || chars[i] == '\n' {
            let piece = trim_range(&chars, start, i);
            let ghost before = rows@;
            rows.push(piece);
            proof {
                assert(t.subrange(start - lo, i - lo) =~= chars@.subrange(start as int, i as int));
                let tail = split_from(t, start - lo, i - lo);
                assert(tail == seq![t.subrange(start - lo, i - lo)] + split_from(
                    t,
                    i + 1 - lo,
                    i + 1 - lo,
                ));
                assert(rows@.map_values(|p: (usize, usize)| chars@.subrange(p.0 as int, p.1 as int))
                    =~= before.map_values(|p: (usize, usize)| chars@.subrange(p.0 as int, p.1 as int))
                    + seq![trim(t.subrange(start - lo, i - lo))]);
                assert(tail.map_values(|r: Seq<char>| trim(r)) =~= seq![trim(t.subrange(start - lo, i - lo))]
                    + split_from(t, i + 1 - lo, i + 1 - lo).map_values(|r: Seq<char>| trim(r)));
            }
            start = i + 1;
        }
        i += 1;
    }
    let piece = trim_range(&chars, start, hi);
    let ghost before = rows@;
    rows.push(piece);
    proof {
        assert(t.subrange(start - lo, hi - lo) =~= chars@.subrange(start as int, hi as int));
        assert(split_from(t, start - lo, hi - lo) == seq![t.subrange(start - lo, t.len() as int)]);
        assert(rows@.map_values(|p: (usize, usize)| chars@.subrange(p.0 as int, p.1 as int))
            =~= split_from(t, 0, 0).map_values(|r: Seq<char>| trim(r))) by {
            assert(rows@.map_values(|p: (usize, usize)| chars@.subrange(p.0 as int, p.1 as int))
                =~= before.map_values(|p: (usize, usize)| chars@.subrange(p.0 as int, p.1 as int))
                + seq![trim(t.subrange(start - lo, hi - lo))]);
        }
    }
    let ghost rs = rows_of(text@);
    assert(rs =~= rows@.map_values(|p: (usize, usize)| chars@.subrange(p.0 as int, p.1 as int)));
    if rows.len() != dims.rows {
        return Err(ParseError::RowCount { expected: dims.rows, found: rows.len() });
    }
    // Check every row, in order, and fill the cells.
    let n = dims.point_count();
    let mut cells: Vec<Option<Color>> = Vec::new();
    let mut r: usize = 0;
    while r < rows.len()
        invariant
            dims.wf(),
            n == dims.size(),
            rows@.len() == dims.rows,
            rs.len() == dims.rows,
            rs == rows_of(text@),
            forall|k: int| 0 <= k < rows@.len() ==> (#[trigger] rows@[k]).0 <= rows@[k].1 <= chars@.len(),
            forall|k: int| 0 <= k < rs.len() ==> #[trigger] rs[k] == chars@.subrange(rows@[k].0 as int, rows@[k].1 as int),
            r <= rows@.len(),
            check_rows(dims, rs, 0) == check_rows(dims, rs, r as int),
            cells@.len() == r * dims.cols,
            forall|k: int| 0 <= k < r ==> rs[k].len() == dims.cols,
            forall|i: int| 0 <= i < cells@.len() ==> #[trigger] cells@[i] == cell_of_glyph(
                rs[i / dims.cols as int][i % dims.cols as int],
            ),
        decreases rows@.len() - r,
    {
        let (a, b) = rows[r];
        let ghost row = rs[r as int];
        assert(a <= b <= chars@.len());
        assert(row == chars@.subrange(a as int, b as int));
        assert(row.len() == b - a);
        if b - a != dims.cols {
            assert(check_rows(dims, rs, r as int) == Some(
                ParseError::RowLength { row: r, expected: dims.cols, found: (b - a) as usize },
            ));
            return Err(ParseError::RowLength { row: r, expected: dims.cols, found: b - a });
        }
        let mut c: usize = 0;
        while c < dims.cols
            invariant
                dims.wf(),
                rows@.len() == dims.rows,
                r < rows@.len(),
                a + dims.cols == b <= chars@.len(),
                row == chars@.subrange(a as int, b as int),
                row == rs[r as int],
                rs.len() == dims.rows,
                rs == rows_of(text@),
                check_rows(dims, rs, 0) == check_rows(dims, rs, r as int),
                c <= dims.cols,
                first_bad(row, 0) == first_bad(row, c as int),
                cells@.len() == r * dims.cols + c,
                forall|i: int| 0 <= i < cells@.len() ==> #[trigger] cells@[i] == cell_of_glyph(
                    rs[i / dims.cols as int][i % dims.cols as int],
                ),
            decreases dims.cols - c,
        {
            let ch = chars[a + c];
            assert(row[c as int] == ch);
            assert(row.len() == dims.cols);
            if ch != '.' && ch != 'X' && ch != 'O' {
                assert(first_bad(row, c as int) == Some(c as int));
                assert(check_rows(dims, rs, r as int) == Some(
                    ParseError::BadChar { row: r, col: c, found: ch },
                ));
                return Err(ParseError::BadChar { row: r, col: c, found: ch });
            }
            let cell = if ch == 'X' {
                Some(Color::Black)
            } else if ch == 'O' {
                Some(Color::White)
            } else {
                None
            };
            proof {
                let i = cells@.len() as int;
                let m = dims.cols as int;
                vstd::arithmetic::div_mod::lemma_fundamental_div_mod_converse(i, m, r as int, c as int);
            }
            cells.push(cell);
            c += 1;
        }
        assert(first_bad(row, dims.cols as int) == None::<int>);
        assert(cells@.len() == (r + 1) * dims.cols) by (nonlinear_arith)
            requires
                cells@.len() == r * dims.cols + dims.cols,
        ;
        r += 1;
    }
    assert(cells@.len() == n) by {
        assert(dims.rows * dims.cols == dims.size());
    }
    let ghost want = Seq::new(
        dims.size(),
        |i: int| cell_of_glyph(rs[i / dims.cols as int][i % dims.cols as int]),
    );
    assert(cells@ =~= want);
    Ok(Position::from_cells(dims, cells.as_slice()))
}


impl PosCode {
    /// The code in decimal.
    pub fn to_string(&self) -> (r: String)
        ensures
            r@ == dec(self.0 as nat),
    {
        let mut out = String::new();
        push_decimal(&mut out, self.0 as u64);
        out
    }
}

/// What a character shows between single quotes: a backslash before a
/// backslash or a single quote, the escapes of the newline, the carriage
/// return, the tab and the nul, and the code of another control character.
pub open spec fn char_escape(c: char) -> Seq<char> {
    if c == '\\' {
        seq!['\\', '\\']
    } else if c == '\'' {
        seq!['\\', '\'']
    } else if c == '\n' {
        seq!['\\', 'n']
    } else if c == '\r' {
        seq!['\\', 'r']
    } else if c == '\t' {
        seq!['\\', 't']
    } else if c == '\0' {
        seq!['\\', '0']
    } else if is_control(c) {
        seq!['\\', 'u', '{'] + hex_text(c as nat) + seq!['}']
    } else {
        seq![c]
    }
}

/// A refusal in words.
pub open spec fn parse_error_text(e: ParseError) -> Seq<char> {
    match e {
        ParseError::RowCount { expected, found } => "expected "@ + dec(expected as nat) + " rows, found "@ + dec(
            found as nat,
        ),
        ParseError::RowLength { row, expected, found } => "row "@ + dec(row as nat) + ": expected "@ + dec(
            expected as nat,
        ) + " columns, found "@ + dec(found as nat),
        ParseError::BadChar { row, col, found } => "row "@ + dec(row as nat) + " column "@ + dec(col as nat) + ": "@
            + seq!['\''] + char_escape(found) + seq!['\''] + " is not one of . X O"@,
    }
}

/// Append what a character shows between single quotes.
fn push_char_escaped(out: &mut String, c: char)
    ensures
        final(out)@ == old(out)@ + char_escape(c),
{
    let ghost before = out@;
    if c == '\\' {
        push_char(out, '\\');
        push_char(out, '\\');
    } else if c == '\'' {
        push_char(out, '\\');
        push_char(out, '\'');
    } else if c == '\n' {
        push_char(out, '\\');
        push_char(out, 'n');
    } else if c == '\r' {
        push_char(out, '\\');
        push_char(out, 'r');
    } else if c == '\t' {
        push_char(out, '\\');
        push_char(out, 't');
    } else if c == '\0' {
        push_char(out, '\\');
        push_char(out, '0');
    } else if control(c) {
        push_code_escape(out, c);
    } else {
        push_char(out, c);
    }
    assert(out@ =~= before + char_escape(c));
}

impl ParseError {
    /// The refusal in words.
    pub fn to_string(&self) -> (r: String)
        ensures
            r@ == parse_error_text(*self),
    {
        let mut out = String::new();
        match *self {
            ParseError::RowCount { expected, found } => {
                push_str(&mut out, "expected ");
                push_decimal(&mut out, expected as u64);
                push_str(&mut out, " rows, found ");
                push_decimal(&mut out, found as u64);
            },
            ParseError::RowLength { row, expected, found } => {
                push_str(&mut out, "row ");
                push_decimal(&mut out, row as u64);
                push_str(&mut out, ": expected ");
                push_decimal(&mut out, expected as u64);
                push_str(&mut out, " columns, found ");
                push_decimal(&mut out, found as u64);
            },
            ParseError::BadChar { row, col, found } => {
                push_str(&mut out, "row ");
                push_decimal(&mut out, row as u64);
                push_str(&mut out, " column ");
                push_decimal(&mut out, col as u64);
                push_str(&mut out, ": ");
                push_char(&mut out, '\'');
                push_char_escaped(&mut out, found);
                push_char(&mut out, '\'');
                push_str(&mut out, " is not one of . X O");
            },
        }
        assert(out@ =~= parse_error_text(*self));
        out
    }
}

} // verus!
