//! The transition table: the fast path, built by calling the rules.
//!
//! [`RuleTable::build`] is the only constructor, and it calls
//! [`crate::reference`]'s `resolve_under`, `playable_at` and `area` at every
//! position, color and point of the board. Its contract says every entry
//! equals what those functions give, so the table is a memo of the rules and
//! cannot drift from them.

use vstd::prelude::*;

use crate::archive::{lemma_bit_or, lemma_zero_word, word_bit};
use crate::code::{cells_of, code_of, code_space, decode, encode, pow3, PosCode};
use crate::config::{Dims, Point, Suicide};
use crate::reference::{
    area, area_spec, playable_at, playable_spec, resolve_under, resolve_under_spec, Color, Position,
    PositionModel,
};

use crate::text::{dec, push_decimal, push_str};

verus! {

/// The largest board the table is built for: `3^12` codes × 2 colors × 12
/// points of successor. Above it the build is refused rather than attempted.
pub const MAX_TABLE_POINTS: usize = 12;

/// Why a table was not built.
#[derive(Clone, Copy, Debug, PartialEq, Eq, Structural)]
pub struct TooLarge {
    /// The board asked for.
    pub dims: Dims,
    /// The point budget the build refuses to exceed.
    pub limit: usize,
}

/// The position a code names on a board.
pub open spec fn pos_of(d: Dims, code: nat) -> PositionModel {
    PositionModel { dims: d, cells: cells_of(d.size(), code) }
}

/// The color of index 0 (Black) or 1 (White).
pub open spec fn color_of(ci: int) -> Color {
    if ci == 0 {
        Color::Black
    } else {
        Color::White
    }
}

/// The index of a color: 0 for Black, 1 for White.
pub open spec fn color_index(c: Color) -> int {
    match c {
        Color::Black => 0,
        Color::White => 1,
    }
}

/// The code of the position after `c` plays at `p` on the position `code`
/// names, under a suicide convention.
pub open spec fn succ_gen(d: Dims, s: Suicide, code: nat, c: Color, p: Point) -> nat {
    code_of(resolve_under_spec(pos_of(d, code), c, p, s).cells)
}

/// Whether `c` may play at `p` on the position `code` names.
pub open spec fn playable_gen(d: Dims, s: Suicide, code: nat, c: Color, p: Point) -> bool {
    playable_spec(pos_of(d, code), c, p, s)
}

/// The area of `c` on the position `code` names.
pub open spec fn area_gen(d: Dims, code: nat, c: Color) -> nat {
    area_spec(pos_of(d, code), c)
}

/// The slot of a code, a color index and a point index.
pub open spec fn slot_of(points: int, code: int, ci: int, pi: int) -> int {
    (code * 2 + ci) * points + pi
}

impl TooLarge {
    /// The refusal in words.
    pub fn to_string(&self) -> (r: String)
        requires
            self.dims.wf(),
        ensures
            r@ == "the "@ + dec(self.dims.rows as nat) + "x"@ + dec(self.dims.cols as nat) + " board has "@
                + dec(self.dims.size()) + " points; the transition table covers at most "@ + dec(
                self.limit as nat,
            ) + " (3^"@ + dec(self.limit as nat) + " codes of successor per color and point)"@,
    {
        let mut out = String::new();
        push_str(&mut out, "the ");
        push_decimal(&mut out, self.dims.rows as u64);
        push_str(&mut out, "x");
        push_decimal(&mut out, self.dims.cols as u64);
        push_str(&mut out, " board has ");
        push_decimal(&mut out, self.dims.point_count() as u64);
        push_str(&mut out, " points; the transition table covers at most ");
        push_decimal(&mut out, self.limit as u64);
        push_str(&mut out, " (3^");
        push_decimal(&mut out, self.limit as u64);
        push_str(&mut out, " codes of successor per color and point)");
        out
    }
}

/// What a table is: a board and a suicide convention.
pub struct TableModel {
    /// The board.
    pub dims: Dims,
    /// The suicide convention.
    pub suicide: Suicide,
}

/// Every transition of a board, indexed by position code, color and point.
#[derive(Clone, Debug)]
pub struct RuleTable {
    dims: Dims,
    suicide: Suicide,
    points: usize,
    succ: Vec<u32>,
    playable: Vec<u64>,
    areas: Vec<[u8; 2]>,
}

impl View for RuleTable {
    type V = TableModel;

    closed spec fn view(&self) -> TableModel {
        TableModel { dims: self.dims, suicide: self.suicide }
    }
}

proof fn lemma_slot_bounds(points: int, codes: int, code: int, ci: int, pi: int)
    requires
        0 <= code < codes,
        0 <= ci < 2,
        0 <= pi < points,
    ensures
        0 <= slot_of(points, code, ci, pi) < codes * 2 * points,
        slot_of(points, code, ci, pi) + 1 == if pi + 1 < points {
            slot_of(points, code, ci, pi + 1)
        } else if ci == 0 {
            slot_of(points, code, 1, 0)
        } else {
            slot_of(points, code + 1, 0, 0)
        },
{
    assert(0 <= slot_of(points, code, ci, pi) < codes * 2 * points) by (nonlinear_arith)
        requires
            0 <= code < codes,
            0 <= ci < 2,
            0 <= pi < points,
    ;
    assert(slot_of(points, code, ci, pi) + 1 == if pi + 1 < points {
        slot_of(points, code, ci, pi + 1)
    } else if ci == 0 {
        slot_of(points, code, 1, 0)
    } else {
        slot_of(points, code + 1, 0, 0)
    }) by (nonlinear_arith)
        requires
            0 <= code < codes,
            0 <= ci < 2,
            0 <= pi < points,
    ;
}

impl RuleTable {
    /// Every entry is what the rules give.
    pub closed spec fn wf(&self) -> bool {
        &&& self.dims.wf()
        &&& self.dims.size() <= MAX_TABLE_POINTS
        &&& self.points == self.dims.size()
        &&& self.areas@.len() == pow3(self.dims.size())
        &&& self.succ@.len() == self.areas@.len() * 2 * self.points
        &&& self.playable@.len() * 64 >= self.succ@.len()
        &&& forall|k: int, ci: int, pi: int|
            #![trigger slot_of(self.points as int, k, ci, pi)]
            0 <= k < self.areas@.len() && 0 <= ci < 2 && 0 <= pi < self.points ==> {
                let slot = slot_of(self.points as int, k, ci, pi);
                let p = self.dims.point_of(pi);
                &&& self.succ@[slot] == succ_gen(self.dims, self.suicide, k as nat, color_of(ci), p)
                &&& word_bit(self.playable@[slot / 64], (slot % 64) as u64) == playable_gen(
                    self.dims,
                    self.suicide,
                    k as nat,
                    color_of(ci),
                    p,
                )
            }
        &&& forall|k: int, ci: int|
            0 <= k < self.areas@.len() && 0 <= ci < 2 ==> #[trigger] self.areas@[k][ci] == area_gen(
                self.dims,
                k as nat,
                color_of(ci),
            )
    }

    /// Build the table for a board, by calling the rules at every position,
    /// color and point. Successors are defined at occupied points too,
    /// because resolving a play is total; whether the play is allowed there
    /// is the separate playable bit. A board of more than
    /// [`MAX_TABLE_POINTS`] points is refused.
    pub fn build(dims: Dims, suicide: Suicide) -> (r: Result<Self, TooLarge>)
        requires
            dims.wf(),
        ensures
            match r {
                Ok(t) => t.wf() && t@.dims == dims && t@.suicide == suicide,
                Err(e) => e == (TooLarge { dims, limit: MAX_TABLE_POINTS }),
            },
            r is Ok <==> dims.size() <= MAX_TABLE_POINTS,
    {
        if dims.point_count() > MAX_TABLE_POINTS {
            return Err(TooLarge { dims, limit: MAX_TABLE_POINTS });
        }
        let points = dims.point_count();
        let codes_u32 = code_space(dims);
        let codes = codes_u32 as usize;
        proof {
            crate::code::lemma_pow3_monotone(dims.size(), 12);
            assert(pow3(12) == 531441) by {
                reveal_with_fuel(pow3, 13);
            }
            assert(codes * 2 * points <= 531441 * 2 * 12) by (nonlinear_arith)
                requires
                    codes <= 531441,
                    points <= 12,
            ;
        }
        let slots = codes * 2 * points;
        let nwords = (slots + 63) / 64;
        let mut playable: Vec<u64> = Vec::new();
        let mut w: usize = 0;
        while w < nwords
            invariant
                w <= nwords,
                playable@.len() == w,
                forall|j: int| 0 <= j < w ==> playable@[j] == 0,
            decreases nwords - w,
        {
            playable.push(0);
            w += 1;
        }
        let mut succ: Vec<u32> = Vec::new();
        let mut areas: Vec<[u8; 2]> = Vec::new();
        assert forall|j: int| 0 <= j < nwords * 64 implies !#[trigger] word_bit(playable@[j / 64], (j % 64) as u64) by {
            lemma_zero_word((j % 64) as u64);
        }
        assert(points > 0) by (nonlinear_arith)
            requires
                dims.rows > 0,
                dims.cols > 0,
                points == dims.rows * dims.cols,
        ;
        let mut code: usize = 0;
        assert(0 * 2 * points == 0) by (nonlinear_arith);
        while code < codes
            invariant
                dims.wf(),
                points == dims.size(),
                points <= MAX_TABLE_POINTS,
                points > 0,
                codes == pow3(dims.size()),
                codes <= 531441,
                slots == codes * 2 * points,
                code <= codes,
                playable@.len() == nwords,
                nwords * 64 >= slots,
                areas@.len() == code,
                succ@.len() == code * 2 * points,
                forall|k: int, ci: int, pi: int|
                    #![trigger slot_of(points as int, k, ci, pi)]
                    0 <= k < code && 0 <= ci < 2 && 0 <= pi < points ==> {
                        let slot = slot_of(points as int, k, ci, pi);
                        let p = dims.point_of(pi);
                        &&& succ@[slot] == succ_gen(dims, suicide, k as nat, color_of(ci), p)
                        &&& word_bit(playable@[slot / 64], (slot % 64) as u64) == playable_gen(
                            dims,
                            suicide,
                            k as nat,
                            color_of(ci),
                            p,
                        )
                    },
                forall|j: int|
                    code * 2 * points <= j < nwords * 64 ==> !#[trigger] word_bit(playable@[j / 64], (j % 64) as u64),
                forall|k: int, ci: int|
                    0 <= k < code && 0 <= ci < 2 ==> #[trigger] areas@[k][ci] == area_gen(dims, k as nat, color_of(ci)),
            decreases codes - code,
        {
            let b = decode(dims, PosCode(code as u32));
            assert(b@ == pos_of(dims, code as nat));
            let black = area(&b, Color::Black);
            let white = area(&b, Color::White);
            areas.push([black as u8, white as u8]);
            let mut ci: usize = 0;
            while ci < 2
                invariant
                    dims.wf(),
                    b@ == pos_of(dims, code as nat),
                    b@.wf(),
                    points == dims.size(),
                    points <= MAX_TABLE_POINTS,
                    points > 0,
                    codes == pow3(dims.size()),
                    codes <= 531441,
                    slots == codes * 2 * points,
                    code < codes,
                    ci <= 2,
                    playable@.len() == nwords,
                    nwords * 64 >= slots,
                    succ@.len() == slot_of(points as int, code as int, ci as int, 0),
                    forall|k: int, cj: int, pi: int|
                        #![trigger slot_of(points as int, k, cj, pi)]
                        0 <= pi < points && ((0 <= k < code && 0 <= cj < 2) || (k == code && 0 <= cj
                            < ci)) ==> {
                            let slot = slot_of(points as int, k, cj, pi);
                            let p = dims.point_of(pi);
                            &&& succ@[slot] == succ_gen(dims, suicide, k as nat, color_of(cj), p)
                            &&& word_bit(playable@[slot / 64], (slot % 64) as u64) == playable_gen(
                                dims,
                                suicide,
                                k as nat,
                                color_of(cj),
                                p,
                            )
                        },
                    forall|j: int|
                        slot_of(points as int, code as int, ci as int, 0) <= j < nwords * 64 ==> !#[trigger] word_bit(
                            playable@[j / 64],
                            (j % 64) as u64,
                        ),
                decreases 2 - ci,
            {
                let c = if ci == 0 {
                    Color::Black
                } else {
                    Color::White
                };
                let mut pi: usize = 0;
                while pi < points
                    invariant
                        dims.wf(),
                        b@ == pos_of(dims, code as nat),
                        b@.wf(),
                        points == dims.size(),
                        points <= MAX_TABLE_POINTS,
                        points > 0,
                        codes == pow3(dims.size()),
                        codes <= 531441,
                        slots == codes * 2 * points,
                        code < codes,
                        ci < 2,
                        c == color_of(ci as int),
                        pi <= points,
                        playable@.len() == nwords,
                        nwords * 64 >= slots,
                        succ@.len() == slot_of(points as int, code as int, ci as int, pi as int),
                        forall|k: int, cj: int, pj: int|
                            #![trigger slot_of(points as int, k, cj, pj)]
                            0 <= pj < points && ((0 <= k < code && 0 <= cj < 2) || (k == code && 0
                                <= cj < ci) || (k == code && cj == ci && pj < pi)) ==> {
                                let slot = slot_of(points as int, k, cj, pj);
                                let p = dims.point_of(pj);
                                &&& succ@[slot] == succ_gen(dims, suicide, k as nat, color_of(cj), p)
                                &&& word_bit(playable@[slot / 64], (slot % 64) as u64)
                                    == playable_gen(dims, suicide, k as nat, color_of(cj), p)
                            },
                        forall|j: int|
                            slot_of(points as int, code as int, ci as int, pi as int) <= j < nwords
                                * 64 ==> !#[trigger] word_bit(playable@[j / 64], (j % 64) as u64),
                    decreases points - pi,
                {
                    proof {
                        lemma_slot_bounds(points as int, codes as int, code as int, ci as int, pi as int);
                    }
                    let p = dims.point_at(pi);
                    let after = resolve_under(&b, c, p, suicide);
                    let slot = succ.len();
                    let ghost succ_before = succ@;
                    let ghost play_before = playable@;
                    succ.push(encode(&after).0);
                    let can = playable_at(&b, c, p, suicide);
                    if can {
                        let wi = slot / 64;
                        let k = (slot % 64) as u64;
                        let word = playable[wi];
                        let ghost before = playable@;
                        playable.set(wi, word | (1u64 << k));
                        proof {
                            assert forall|j: int| 0 <= j < nwords * 64 && j != slot implies #[trigger] word_bit(
                                playable@[j / 64],
                                (j % 64) as u64,
                            ) == word_bit(before[j / 64], (j % 64) as u64) by {
                                if j / 64 == wi as int {
                                    lemma_bit_or(word, k, (j % 64) as u64);
                                }
                            }
                            lemma_bit_or(word, k, k);
                        }
                    }
                    proof {
                        if !can {
                            assert(playable@ == play_before);
                        }
                        assert(word_bit(playable@[slot as int / 64], (slot as int % 64) as u64) == can);
                        assert forall|j: int| 0 <= j < nwords * 64 && j != slot implies #[trigger] word_bit(
                            playable@[j / 64],
                            (j % 64) as u64,
                        ) == word_bit(play_before[j / 64], (j % 64) as u64) by {
                            if can {
                                let wi = slot / 64;
                                if j / 64 == wi as int {
                                    lemma_bit_or(play_before[wi as int], (slot % 64) as u64, (j % 64) as u64);
                                }
                            }
                        }
                    }
                    pi += 1;
                    proof {
                        assert forall|k: int, cj: int, pj: int|
                            #![trigger slot_of(points as int, k, cj, pj)]
                            0 <= pj < points && ((0 <= k < code && 0 <= cj < 2) || (k == code && 0
                                <= cj < ci) || (k == code && cj == ci && pj < pi)) implies {
                                let slot = slot_of(points as int, k, cj, pj);
                                let p = dims.point_of(pj);
                                &&& succ@[slot] == succ_gen(dims, suicide, k as nat, color_of(cj), p)
                                &&& word_bit(playable@[slot / 64], (slot % 64) as u64)
                                    == playable_gen(dims, suicide, k as nat, color_of(cj), p)
                            } by {
                            if !(k == code && cj == ci && pj == pi - 1) {
                                lemma_slot_order(points as int, k, cj, pj, code as int, ci as int, (pi - 1) as int);
                                lemma_slot_bounds(points as int, codes as int, k, cj, pj);
                            }
                        }
                        assert forall|j: int|
                            slot_of(points as int, code as int, ci as int, pi as int) <= j < nwords * 64
                                implies !#[trigger] word_bit(playable@[j / 64], (j % 64) as u64) by {
                            assert(j != slot);
                            assert(word_bit(playable@[j / 64], (j % 64) as u64) == word_bit(play_before[j / 64], (j % 64) as u64));
                        }
                    }
                }
                proof {
                    lemma_slot_bounds(points as int, codes as int, code as int, ci as int, 0);
                    assert(slot_of(points as int, code as int, ci as int, points as int) == slot_of(points as int, code as int, ci + 1, 0)) by (nonlinear_arith);
                }
                ci += 1;
            }
            proof {
                assert(slot_of(points as int, code as int, 2, 0) == (code + 1) * 2 * points) by (nonlinear_arith);
            }
            code += 1;
        }
        Ok(RuleTable { dims, suicide, points, succ, playable, areas })
    }
}

impl RuleTable {
    /// The board this table covers.
    pub fn dims(&self) -> (r: Dims)
        requires
            self.wf(),
        ensures
            r == self@.dims,
            r.wf(),
            r.size() <= MAX_TABLE_POINTS,
    {
        self.dims
    }

    /// The suicide convention this table was built under.
    pub fn suicide(&self) -> (r: Suicide)
        ensures
            r == self@.suicide,
    {
        self.suicide
    }

    /// The number of position codes, `3^(m·n)`.
    pub fn code_count(&self) -> (r: usize)
        requires
            self.wf(),
        ensures
            r == pow3(self@.dims.size()),
    {
        self.areas.len()
    }

    fn slot(&self, code: PosCode, c: Color, p: Point) -> (r: usize)
        requires
            self.wf(),
            (code.0 as nat) < pow3(self@.dims.size()),
            self@.dims.has(p),
        ensures
            r == slot_of(self.points as int, code.0 as int, color_index(c), self.dims.index_of(p)),
            r < self.succ@.len(),
    {
        let ci: usize = match c {
            Color::Black => 0,
            Color::White => 1,
        };
        let pi = self.dims.index(p);
        let _total = self.succ.len();
        proof {
            lemma_slot_bounds(self.points as int, self.areas@.len() as int, code.0 as int, ci as int, pi as int);
            let x = code.0 as int * 2 + ci;
            assert(x <= x * self.points) by (nonlinear_arith)
                requires
                    x >= 0,
                    self.points >= 1,
            ;
        }
        (code.0 as usize * 2 + ci) * self.points + pi
    }

    /// The code of the position after `c` plays at `p`, whether or not the
    /// play is allowed.
    pub fn succ(&self, code: PosCode, c: Color, p: Point) -> (r: PosCode)
        requires
            self.wf(),
            (code.0 as nat) < pow3(self@.dims.size()),
            self@.dims.has(p),
        ensures
            r.0 == succ_gen(self@.dims, self@.suicide, code.0 as nat, c, p),
    {
        let slot = self.slot(code, c, p);
        proof {
            crate::config::lemma_grid(self.dims);
            let pi = self.dims.index_of(p);
            assert(slot_of(self.points as int, code.0 as int, color_index(c), pi) == slot);
            assert(color_of(color_index(c)) == c);
        }
        PosCode(self.succ[slot])
    }

    /// Whether `c` may play at `p` on the board conditions alone — the
    /// repetition rule is the caller's business.
    pub fn playable(&self, code: PosCode, c: Color, p: Point) -> (r: bool)
        requires
            self.wf(),
            (code.0 as nat) < pow3(self@.dims.size()),
            self@.dims.has(p),
        ensures
            r == playable_gen(self@.dims, self@.suicide, code.0 as nat, c, p),
    {
        let slot = self.slot(code, c, p);
        let k = (slot % 64) as u64;
        let w = self.playable[slot / 64];
        proof {
            crate::config::lemma_grid(self.dims);
            let pi = self.dims.index_of(p);
            assert(slot_of(self.points as int, code.0 as int, color_index(c), pi) == slot);
            assert(color_of(color_index(c)) == c);
            lemma_bit_or(w, k, k);
        }
        w & (1u64 << k) != 0
    }

    /// Where the slots of a code and a color begin: the slot of its point
    /// `pi` is this plus `pi`.
    #[inline]
    pub fn row_of(&self, code: PosCode, c: Color) -> (r: usize)
        requires
            self.wf(),
            (code.0 as nat) < pow3(self@.dims.size()),
        ensures
            r == slot_of(self@.dims.size() as int, code.0 as int, color_index(c), 0),
    {
        let ci: usize = match c {
            Color::Black => 0,
            Color::White => 1,
        };
        let _n = self.succ.len();
        proof {
            let d = self.dims;
            assert(d.size() >= 1) by (nonlinear_arith)
                requires
                    d.rows > 0,
                    d.cols > 0,
                    d.size() == d.rows * d.cols,
            ;
            lemma_slot_bounds(self.points as int, self.areas@.len() as int, code.0 as int, ci as int, 0);
            let x = code.0 as int * 2 + ci;
            assert(x <= x * self.points) by (nonlinear_arith)
                requires
                    x >= 0,
                    self.points >= 1,
            ;
            assert((code.0 as int * 2 + ci + 1) * self.points <= self.areas@.len() * 2 * self.points) by (nonlinear_arith)
                requires
                    code.0 < self.areas@.len(),
                    0 <= ci < 2,
                    self.points >= 1,
            ;
            assert((code.0 as int * 2 + ci + 1) * self.points == (code.0 as int * 2 + ci) * self.points + self.points) by (nonlinear_arith);
        }
        (code.0 as usize * 2 + ci) * self.points
    }

    /// The successor of `c` playing at the point of index `pi`, when the
    /// board conditions allow the play, read off the slot `row + pi` that
    /// [`RuleTable::row_of`] begins.
    #[inline]
    pub fn transition_at(&self, code: PosCode, c: Color, row: usize, pi: usize) -> (r: Option<PosCode>)
        requires
            self.wf(),
            (code.0 as nat) < pow3(self@.dims.size()),
            row == slot_of(self@.dims.size() as int, code.0 as int, color_index(c), 0),
            pi < self@.dims.size(),
        ensures
            r == if playable_gen(self@.dims, self@.suicide, code.0 as nat, c, self@.dims.point_of(pi as int)) {
                Some(PosCode(succ_gen(self@.dims, self@.suicide, code.0 as nat, c, self@.dims.point_of(pi as int)) as u32))
            } else {
                None
            },
    {
        let ghost ci = color_index(c);
        let _n = self.succ.len();
        proof {
            lemma_slot_bounds(self.points as int, self.areas@.len() as int, code.0 as int, ci, pi as int);
            assert(slot_of(self.points as int, code.0 as int, ci, pi as int) == row + pi);
            assert(color_of(ci) == c);
        }
        let slot = row + pi;
        let k = (slot % 64) as u64;
        let w = self.playable[slot / 64];
        proof {
            lemma_bit_or(w, k, k);
        }
        if w & (1u64 << k) != 0 {
            Some(PosCode(self.succ[slot]))
        } else {
            None
        }
    }

    /// The successor of `c` playing at `p`, when the board conditions allow
    /// the play, read off one slot.
    pub fn transition(&self, code: PosCode, c: Color, p: Point) -> (r: Option<PosCode>)
        requires
            self.wf(),
            (code.0 as nat) < pow3(self@.dims.size()),
            self@.dims.has(p),
        ensures
            r == if playable_gen(self@.dims, self@.suicide, code.0 as nat, c, p) {
                Some(PosCode(succ_gen(self@.dims, self@.suicide, code.0 as nat, c, p) as u32))
            } else {
                None
            },
    {
        let slot = self.slot(code, c, p);
        let k = (slot % 64) as u64;
        let w = self.playable[slot / 64];
        proof {
            crate::config::lemma_grid(self.dims);
            let pi = self.dims.index_of(p);
            assert(slot_of(self.points as int, code.0 as int, color_index(c), pi) == slot);
            assert(color_of(color_index(c)) == c);
            lemma_bit_or(w, k, k);
        }
        if w & (1u64 << k) != 0 {
            Some(PosCode(self.succ[slot]))
        } else {
            None
        }
    }

    /// The area score of `c` at this position.
    #[inline]
    pub fn area(&self, code: PosCode, c: Color) -> (r: u32)
        requires
            self.wf(),
            (code.0 as nat) < pow3(self@.dims.size()),
        ensures
            r == area_gen(self@.dims, code.0 as nat, c),
    {
        let i = code.0 as usize;
        let ci: usize = match c {
            Color::Black => 0,
            Color::White => 1,
        };
        assert(color_of(ci as int) == c);
        self.areas[i][ci] as u32
    }

    /// The position a code names, for a caller that has a code and wants
    /// the board back.
    pub fn position(&self, code: PosCode) -> (r: Position)
        requires
            self.wf(),
            (code.0 as nat) < pow3(self@.dims.size()),
        ensures
            r@ == pos_of(self@.dims, code.0 as nat),
            r@.wf(),
    {
        decode(self.dims, code)
    }
}

/// A successor code is a code of the board.
pub proof fn lemma_succ_gen_bound(d: Dims, s: Suicide, code: nat, c: Color, p: Point)
    requires
        d.wf(),
        d.has(p),
    ensures
        succ_gen(d, s, code, c, p) < pow3(d.size()),
{
    crate::code::lemma_cells_of_len(d.size(), code);
    let b = pos_of(d, code);
    let r = resolve_under_spec(b, c, p, s);
    crate::config::lemma_index_in_range(d, p);
    let placed = b.put(p, Some(c));
    assert(placed.cells.len() == d.size());
    let once = crate::reference::clear_spec(placed, c.opp());
    assert(once.cells.len() == d.size());
    match s {
        Suicide::Forbid => {},
        Suicide::RemoveOwn => {
            assert(crate::reference::clear_spec(once, c).cells.len() == d.size());
        },
    }
    assert(r.cells.len() == d.size());
    crate::code::lemma_code_bound(r.cells);
}

/// Slots are ordered as their indices are, lexicographically.
proof fn lemma_slot_order(points: int, k: int, cj: int, pj: int, code: int, ci: int, pi: int)
    requires
        0 <= pj < points,
        0 <= pi < points,
        0 <= cj < 2,
        0 <= ci < 2,
        0 <= k,
        0 <= code,
        (k < code) || (k == code && cj < ci) || (k == code && cj == ci && pj < pi),
    ensures
        slot_of(points, k, cj, pj) < slot_of(points, code, ci, pi),
{
    assert(slot_of(points, k, cj, pj) < slot_of(points, code, ci, pi)) by (nonlinear_arith)
        requires
            0 <= pj < points,
            0 <= pi < points,
            0 <= cj < 2,
            0 <= ci < 2,
            0 <= k,
            0 <= code,
            (k < code) || (k == code && cj < ci) || (k == code && cj == ci && pj < pi),
    ;
}

} // verus!
