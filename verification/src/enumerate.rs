//! The fast enumerator: depth-first over history-carrying states, with make
//! and unmake over a dense archive.
//!
//! There is no memoization: two states with the same position and different
//! histories do not have the same continuations. The inner loop runs no
//! rule; it reads the transition table, whose contract says every entry is
//! what the rules give, and a per-code occupancy mask read off the same
//! positions. A play whose successor is archived is skipped, not removed
//! from a move list: superko forbids a resulting situation, not a move.
//!
//! A **game** is a legal alternating sequence of moves from the root, ending
//! at the second consecutive pass. A **node** is a state the search visited.
//!
//! Under situational superko the archive key is the situation: the
//! successor's position code and the player to move. Under positional
//! superko the rule reads a position's two bits together, so the archive is
//! indexed by position and the key's color is fixed to Black.

use vstd::prelude::*;
use vstd::set_lib::{lemma_int_range, lemma_len_subset, set_int_range};

use crate::archive::{key_bit, Archive, ArchiveKey};
use crate::code::{cells_of, code_of, code_space, decode, encode, pow3, PosCode};
use crate::config::{Dims, Repetition, Suicide};
use crate::reference::{all_moves, all_moves_spec, Color, Move, Position};
use crate::table::{playable_gen, pos_of, succ_gen, RuleTable, TooLarge, MAX_TABLE_POINTS};
use crate::text::key_value;

verus! {

/// What an enumeration found, as integers.
pub struct ReportModel {
    /// Games: states reached with two consecutive passes behind them.
    pub games: int,
    /// States visited.
    pub nodes: int,
    /// States abandoned at a depth cap.
    pub truncated: int,
    /// The greatest depth reached.
    pub max_depth: int,
    /// The largest archive held.
    pub max_archive: int,
    /// Plays refused because the point carried a stone.
    pub refused_occupied: int,
    /// Plays refused as suicide.
    pub refused_suicide: int,
    /// Plays refused by the repetition rule.
    pub refused_repetition: int,
}

/// The empty report.
pub open spec fn rzero() -> ReportModel {
    ReportModel {
        games: 0,
        nodes: 0,
        truncated: 0,
        max_depth: 0,
        max_archive: 0,
        refused_occupied: 0,
        refused_suicide: 0,
        refused_repetition: 0,
    }
}

/// Two reports of disjoint parts of one search, added: counts add, maxima
/// take the larger.
pub open spec fn rmerge(a: ReportModel, b: ReportModel) -> ReportModel {
    ReportModel {
        games: a.games + b.games,
        nodes: a.nodes + b.nodes,
        truncated: a.truncated + b.truncated,
        max_depth: if a.max_depth >= b.max_depth {
            a.max_depth
        } else {
            b.max_depth
        },
        max_archive: if a.max_archive >= b.max_archive {
            a.max_archive
        } else {
            b.max_archive
        },
        refused_occupied: a.refused_occupied + b.refused_occupied,
        refused_suicide: a.refused_suicide + b.refused_suicide,
        refused_repetition: a.refused_repetition + b.refused_repetition,
    }
}

/// Every field is non-negative.
pub open spec fn rnonneg(a: ReportModel) -> bool {
    a.games >= 0 && a.nodes >= 0 && a.truncated >= 0 && a.max_depth >= 0 && a.max_archive >= 0
        && a.refused_occupied >= 0 && a.refused_suicide >= 0 && a.refused_repetition >= 0
}

/// Every count fits a `u64` and every maximum a `usize`.
pub open spec fn rfits(a: ReportModel) -> bool {
    rnonneg(a) && a.games <= u64::MAX && a.nodes <= u64::MAX && a.truncated <= u64::MAX
        && a.max_depth <= usize::MAX && a.max_archive <= usize::MAX && a.refused_occupied
        <= u64::MAX && a.refused_suicide <= u64::MAX && a.refused_repetition <= u64::MAX
}

/// Merging is associative and commutative, and the empty report is its
/// unit.
pub proof fn law_merge_monoid(a: ReportModel, b: ReportModel, c: ReportModel)
    requires
        rnonneg(a),
    ensures
        rmerge(rmerge(a, b), c) == rmerge(a, rmerge(b, c)),
        rmerge(a, b) == rmerge(b, a),
        rmerge(a, rzero()) == a,
{
}

/// A merged report that fits has parts that fit.
pub proof fn lemma_merge_fits(a: ReportModel, b: ReportModel)
    requires
        rnonneg(a),
        rnonneg(b),
        rfits(rmerge(a, b)),
    ensures
        rfits(a),
        rfits(b),
        rnonneg(rmerge(a, b)),
{
}

/// What an enumeration found.
#[derive(Clone, Copy, Debug, Default, PartialEq, Eq, Structural)]
pub struct Report {
    /// Games: states reached with two consecutive passes behind them.
    pub games: u64,
    /// States visited, the root included.
    pub nodes: u64,
    /// States abandoned at a depth cap, counted separately from games.
    pub truncated: u64,
    /// The greatest number of moves from the root the search reached.
    pub max_depth: usize,
    /// The largest archive the search held, in keys: situations under SSK,
    /// positions under PSK.
    pub max_archive: usize,
    /// Plays refused because the point carried a stone.
    pub refused_occupied: u64,
    /// Plays refused because the player's own chain would have no liberty and
    /// the convention in force forbids that.
    pub refused_suicide: u64,
    /// Plays refused because the resulting situation (SSK) or position (PSK)
    /// was archived.
    pub refused_repetition: u64,
}

impl View for Report {
    type V = ReportModel;

    open spec fn view(&self) -> ReportModel {
        ReportModel {
            games: self.games as int,
            nodes: self.nodes as int,
            truncated: self.truncated as int,
            max_depth: self.max_depth as int,
            max_archive: self.max_archive as int,
            refused_occupied: self.refused_occupied as int,
            refused_suicide: self.refused_suicide as int,
            refused_repetition: self.refused_repetition as int,
        }
    }
}

impl Report {
    /// The empty report.
    pub fn zero() -> (r: Self)
        ensures
            r@ == rzero(),
    {
        Report {
            games: 0,
            nodes: 0,
            truncated: 0,
            max_depth: 0,
            max_archive: 0,
            refused_occupied: 0,
            refused_suicide: 0,
            refused_repetition: 0,
        }
    }

    /// The body lines a results file carries, in a fixed order. The depth
    /// cap and the truncated-leaf count are not here: a capped run is not a
    /// finished count.
    pub fn lines(&self) -> (r: Vec<String>)
        ensures
            r@.len() == 7,
            r@[0]@ == "games="@ + crate::text::dec(self.games as nat),
            r@[1]@ == "nodes="@ + crate::text::dec(self.nodes as nat),
            r@[2]@ == "max-depth="@ + crate::text::dec(self.max_depth as nat),
            r@[3]@ == "max-archive="@ + crate::text::dec(self.max_archive as nat),
            r@[4]@ == "refused-occupied="@ + crate::text::dec(self.refused_occupied as nat),
            r@[5]@ == "refused-suicide="@ + crate::text::dec(self.refused_suicide as nat),
            r@[6]@ == "refused-repetition="@ + crate::text::dec(self.refused_repetition as nat),
    {
        let mut out: Vec<String> = Vec::new();
        out.push(key_value("games", self.games));
        out.push(key_value("nodes", self.nodes));
        out.push(key_value("max-depth", self.max_depth as u64));
        out.push(key_value("max-archive", self.max_archive as u64));
        out.push(key_value("refused-occupied", self.refused_occupied));
        out.push(key_value("refused-suicide", self.refused_suicide));
        out.push(key_value("refused-repetition", self.refused_repetition));
        proof {
            reveal_strlit("games");
            reveal_strlit("games=");
            reveal_strlit("nodes");
            reveal_strlit("nodes=");
            reveal_strlit("max-depth");
            reveal_strlit("max-depth=");
            reveal_strlit("max-archive");
            reveal_strlit("max-archive=");
            reveal_strlit("refused-occupied");
            reveal_strlit("refused-occupied=");
            reveal_strlit("refused-suicide");
            reveal_strlit("refused-suicide=");
            reveal_strlit("refused-repetition");
            reveal_strlit("refused-repetition=");
            assert("games"@ + seq!['='] =~= "games="@);
            assert("nodes"@ + seq!['='] =~= "nodes="@);
            assert("max-depth"@ + seq!['='] =~= "max-depth="@);
            assert("max-archive"@ + seq!['='] =~= "max-archive="@);
            assert("refused-occupied"@ + seq!['='] =~= "refused-occupied="@);
            assert("refused-suicide"@ + seq!['='] =~= "refused-suicide="@);
            assert("refused-repetition"@ + seq!['='] =~= "refused-repetition="@);
        }
        out
    }

    /// Two reports of disjoint parts of one search, added: counts add, the
    /// two maxima take the larger. Every sum must fit.
    pub fn merge(self, other: Self) -> (r: Self)
        requires
            rfits(rmerge(self@, other@)),
        ensures
            r@ == rmerge(self@, other@),
    {
        Report {
            games: self.games + other.games,
            nodes: self.nodes + other.nodes,
            truncated: self.truncated + other.truncated,
            max_depth: if self.max_depth >= other.max_depth {
                self.max_depth
            } else {
                other.max_depth
            },
            max_archive: if self.max_archive >= other.max_archive {
                self.max_archive
            } else {
                other.max_archive
            },
            refused_occupied: self.refused_occupied + other.refused_occupied,
            refused_suicide: self.refused_suicide + other.refused_suicide,
            refused_repetition: self.refused_repetition + other.refused_repetition,
        }
    }
}

/// How an enumeration is run. Neither field changes what is counted.
#[derive(Clone, Copy, Debug, PartialEq, Eq, Structural)]
pub struct Options {
    /// Stop at this many moves from the root, counting the abandoned states
    /// as truncated rather than as games. `None` runs to the end of every
    /// game.
    pub depth_cap: Option<usize>,
    /// How many threads to count on.
    pub threads: usize,
}

impl Default for Options {
    fn default() -> (r: Self)
        ensures
            r == (Options { depth_cap: None, threads: 1 }),
    {
        Options { depth_cap: None, threads: 1 }
    }
}


/// The greatest depth a split is made at.
pub const MAX_SPLIT_DEPTH: usize = 6;

/// What a search is run under: the board, the suicide convention, the
/// repetition rule, the depth cap, and the depth a split stops at.
pub struct Rules {
    /// The board.
    pub dims: Dims,
    /// The suicide convention.
    pub suicide: Suicide,
    /// The repetition rule.
    pub rep: Repetition,
    /// The depth at which a state is abandoned rather than expanded.
    pub cap: Option<nat>,
    /// The depth at which a state is recorded as a prefix rather than counted.
    pub split: Option<nat>,
}

/// A state of the search: a position code, the player to move, the passes
/// immediately behind, and the archived bits.
pub struct Node {
    /// The position code.
    pub code: nat,
    /// The player to move.
    pub to_move: Color,
    /// How many passes immediately precede.
    pub passes: nat,
    /// The archive, as the bits a dense archive sets.
    pub bits: Set<int>,
}

/// What a move does to a state.
pub enum Verdict {
    /// The point carries a stone.
    Occupied,
    /// The play is suicide and the convention forbids it.
    Suicide,
    /// The resulting situation (SSK) or position (PSK) is archived.
    Repeated,
    /// The move is legal and leads to this position code.
    Legal(nat),
}

/// The number of position codes of a board.
pub open spec fn codes(d: Dims) -> nat {
    pow3(d.size())
}

/// The bit the archive sets for a situation under a repetition rule: under
/// positional superko the color is fixed to Black.
pub open spec fn arch_key(rep: Repetition, code: nat, c: Color) -> int {
    match rep {
        Repetition::Ssk => 2 * code as int + match c {
            Color::Black => 0int,
            Color::White => 1int,
        },
        Repetition::Psk => 2 * code as int,
    }
}

/// Whether the archive refuses a successor: the situation under SSK, the
/// position under either color under PSK.
pub open spec fn archived(rep: Repetition, bits: Set<int>, code: nat, c: Color) -> bool {
    match rep {
        Repetition::Ssk => bits.contains(arch_key(rep, code, c)),
        Repetition::Psk => bits.contains(2 * code as int) || bits.contains(2 * code as int + 1),
    }
}

/// What a move does, tested in the priority occupied, suicide, repetition.
pub open spec fn verdict(r: Rules, n: Node, mv: Move) -> Verdict {
    match mv {
        Move::Pass => Verdict::Legal(n.code),
        Move::Play(p) => {
            if cells_of(r.dims.size(), n.code)[r.dims.index_of(p)] is Some {
                Verdict::Occupied
            } else if !playable_gen(r.dims, r.suicide, n.code, n.to_move, p) {
                Verdict::Suicide
            } else {
                let s = succ_gen(r.dims, r.suicide, n.code, n.to_move, p);
                if archived(r.rep, n.bits, s, n.to_move.opp()) {
                    Verdict::Repeated
                } else {
                    Verdict::Legal(s)
                }
            }
        },
    }
}

/// The state a legal move leads to: the successor is archived on every
/// move, passes included.
pub open spec fn child(r: Rules, n: Node, mv: Move, s: nat) -> Node {
    Node {
        code: s,
        to_move: n.to_move.opp(),
        passes: match mv {
            Move::Pass => n.passes + 1,
            Move::Play(_) => 0,
        },
        bits: n.bits.insert(arch_key(r.rep, s, n.to_move.opp())),
    }
}

/// A state the search can stand in: a code on the board,
/// at most two passes, and a finite archive of bits below `2 · codes`.
pub open spec fn node_ok(r: Rules, n: Node) -> bool {
    &&& r.dims.wf()
    &&& n.code < codes(r.dims)
    &&& n.passes <= 2
    &&& n.bits.finite()
    &&& forall|b: int| #[trigger] n.bits.contains(b) ==> 0 <= b < 2 * codes(r.dims)
}

/// What decreases along every move: an unarchived key, or a pass.
pub open spec fn measure(r: Rules, n: Node) -> int {
    3 * (2 * codes(r.dims) - n.bits.len()) + (2 - n.passes)
}

/// The report of one refusal.
pub open spec fn refusal_rep(v: Verdict) -> ReportModel {
    ReportModel {
        refused_occupied: if v is Occupied {
            1
        } else {
            0
        },
        refused_suicide: if v is Suicide {
            1
        } else {
            0
        },
        refused_repetition: if v is Repeated {
            1
        } else {
            0
        },
        ..rzero()
    }
}

/// The report of standing at a state: one node, its depth, its archive.
pub open spec fn visit_rep(n: Node, depth: nat) -> ReportModel {
    ReportModel { nodes: 1, max_depth: depth as int, max_archive: n.bits.len() as int, ..rzero() }
}

/// The report of the search below a state `depth` moves from the root:
/// nothing at the split depth; one game at two passes; one truncated leaf
/// at the cap; otherwise the state and every move from it, in order.
pub open spec fn node_rep(r: Rules, n: Node, depth: nat) -> ReportModel
    decreases measure(r, n), 1int, 0int,
    when node_ok(r, n)
{
    if r.split == Some(depth) {
        rzero()
    } else if n.passes >= 2 {
        ReportModel { games: 1, ..visit_rep(n, depth) }
    } else if r.cap == Some(depth) {
        ReportModel { truncated: 1, ..visit_rep(n, depth) }
    } else {
        rmerge(visit_rep(n, depth), moves_rep(r, n, depth, 0))
    }
}

/// The report of the moves from the `i`-th on, in the order of
/// [`all_moves`].
pub open spec fn moves_rep(r: Rules, n: Node, depth: nat, i: int) -> ReportModel
    decreases measure(r, n), 0int, all_moves_spec(r.dims).len() - i,
    when node_ok(r, n) && n.passes < 2 && 0 <= i
{
    let moves = all_moves_spec(r.dims);
    if i >= moves.len() {
        rzero()
    } else {
        let mv = moves[i];
        let here = match verdict(r, n, mv) {
            Verdict::Legal(s) => {
                proof {
                    lemma_child_ok(r, n, mv, s);
                }
                node_rep(r, child(r, n, mv, s), depth + 1)
            },
            v => refusal_rep(v),
        };
        rmerge(here, moves_rep(r, n, depth, i + 1))
    }
}

/// The report of one move from a state: the count below its successor, or
/// its refusal.
pub open spec fn move_rep(r: Rules, n: Node, depth: nat, mv: Move) -> ReportModel {
    match verdict(r, n, mv) {
        Verdict::Legal(s) => node_rep(r, child(r, n, mv, s), depth + 1),
        v => refusal_rep(v),
    }
}

/// The moves from the `i`-th on are the `i`-th merged with the rest.
pub proof fn lemma_moves_unfold(r: Rules, n: Node, depth: nat, i: int)
    requires
        node_ok(r, n),
        n.passes < 2,
        0 <= i < all_moves_spec(r.dims).len(),
    ensures
        moves_rep(r, n, depth, i) == rmerge(
            move_rep(r, n, depth, all_moves_spec(r.dims)[i]),
            moves_rep(r, n, depth, i + 1),
        ),
{
    let moves = all_moves_spec(r.dims);
    let mv = moves[i];
    assert(moves.contains(mv));
    if let Verdict::Legal(s) = verdict(r, n, mv) {
        lemma_child_ok(r, n, mv, s);
    }
    let here = match verdict(r, n, mv) {
        Verdict::Legal(s) => node_rep(r, child(r, n, mv, s), depth + 1),
        v => refusal_rep(v),
    };
    assert(moves_rep(r, n, depth, i) == rmerge(here, moves_rep(r, n, depth, i + 1)));
}

/// A legal move leads to a state the search can stand in, with a smaller
/// measure.
pub proof fn lemma_child_ok(r: Rules, n: Node, mv: Move, s: nat)
    requires
        node_ok(r, n),
        n.passes < 2,
        all_moves_spec(r.dims).contains(mv),
        verdict(r, n, mv) == Verdict::Legal(s),
    ensures
        node_ok(r, child(r, n, mv, s)),
        measure(r, child(r, n, mv, s)) < measure(r, n),
        0 <= measure(r, child(r, n, mv, s)),
        mv is Play ==> !n.bits.contains(arch_key(r.rep, s, n.to_move.opp())),
{
    let c = child(r, n, mv, s);
    let k = arch_key(r.rep, s, n.to_move.opp());
    let top: int = 2 * codes(r.dims) as int;
    if let Move::Play(p) = mv {
        let i = choose|i: int| 0 <= i < all_moves_spec(r.dims).len() && all_moves_spec(r.dims)[i] == mv;
        assert(i >= 1);
        assert(p == r.dims.point_of(i - 1));
        crate::config::lemma_point_of_in_range(r.dims, i - 1);
        crate::table::lemma_succ_gen_bound(r.dims, r.suicide, n.code, n.to_move, p);
    }
    assert(s < codes(r.dims));
    assert(0 <= k < top);
    assert forall|b: int| #[trigger] c.bits.contains(b) implies 0 <= b < top by {}
    lemma_int_range(0, top);
    lemma_len_subset(c.bits, set_int_range(0, top));
    assert(c.bits.len() <= top);
    lemma_len_subset(n.bits, set_int_range(0, top));
    if n.bits.contains(k) {
        assert(c.bits =~= n.bits);
    } else {
        assert(c.bits.len() == n.bits.len() + 1);
    }
}


/// Whether bit `i` of an occupancy mask is set.
pub open spec fn mask_bit(w: u32, i: int) -> bool {
    (w >> (i as u32)) & 1 == 1
}

proof fn lemma_mask_or(w: u32, k: u32, j: u32)
    requires
        k < 32,
        j < 32,
    ensures
        ((w | (1u32 << k)) >> j) & 1 == 1 <==> (j == k || (w >> j) & 1 == 1),
        (w & (1u32 << k) != 0) <==> (w >> k) & 1 == 1,
{
    assert(((w | (1u32 << k)) >> j) & 1 == 1 <==> (j == k || (w >> j) & 1 == 1)) by (bit_vector)
        requires
            k < 32,
            j < 32,
    ;
    assert((w & (1u32 << k) != 0) <==> (w >> k) & 1 == 1) by (bit_vector)
        requires
            k < 32,
    ;
}

proof fn lemma_mask_zero(j: u32)
    requires
        j < 32,
    ensures
        !((0u32 >> j) & 1 == 1),
{
    assert(!((0u32 >> j) & 1 == 1)) by (bit_vector)
        requires
            j < 32,
    ;
}

/// The cells of code 0 are all empty.
pub proof fn lemma_code_zero_empty(n: nat)
    ensures
        cells_of(n, 0).len() == n,
        forall|i: int| 0 <= i < n ==> #[trigger] cells_of(n, 0)[i] is None,
    decreases n,
{
    if n > 0 {
        lemma_code_zero_empty((n - 1) as nat);
    }
}

/// An empty board has code 0.
pub proof fn lemma_empty_code(s: Seq<Option<Color>>)
    requires
        forall|i: int| 0 <= i < s.len() ==> #[trigger] s[i] is None,
    ensures
        code_of(s) == 0,
    decreases s.len(),
{
    if s.len() > 0 {
        assert(s[0] is None);
        lemma_empty_code(s.drop_first());
    }
}

/// What a board is: its dimensions and its suicide convention.
pub struct BoardModel {
    /// The board.
    pub dims: Dims,
    /// The suicide convention the table was built under.
    pub suicide: Suicide,
}

/// Everything about a board that does not change during a search: the
/// transition table, an occupancy mask per position code, the move order,
/// and the root.
#[derive(Clone, Debug)]
pub struct Board {
    dims: Dims,
    suicide: Suicide,
    table: RuleTable,
    occupied: Vec<u32>,
    moves: Vec<Move>,
    root: PosCode,
}

impl View for Board {
    type V = BoardModel;

    closed spec fn view(&self) -> BoardModel {
        BoardModel { dims: self.dims, suicide: self.suicide }
    }
}

impl Board {
    /// The table is the rules', each mask is its position's occupancy, the
    /// moves are every move in order, and the root is the empty position.
    pub closed spec fn wf(&self) -> bool {
        &&& self.dims.wf()
        &&& self.dims.size() <= MAX_TABLE_POINTS
        &&& self.table.wf()
        &&& self.table@.dims == self.dims
        &&& self.table@.suicide == self.suicide
        &&& self.occupied@.len() == codes(self.dims)
        &&& forall|k: int, i: int|
            0 <= k < codes(self.dims) && 0 <= i < self.dims.size() ==> #[trigger] mask_bit(
                self.occupied@[k],
                i,
            ) == (cells_of(self.dims.size(), k as nat)[i] is Some)
        &&& self.moves@ == all_moves_spec(self.dims)
        &&& self.root.0 == 0
    }

    /// Build the table and the occupancy masks for a board. The mask of a
    /// code is read off the position the code names, one bit per point in
    /// row-major order. A board the table refuses is refused.
    pub fn new(dims: Dims, suicide: Suicide) -> (r: Result<Self, TooLarge>)
        requires
            dims.wf(),
        ensures
            match r {
                Ok(b) => b.wf() && b@ == (BoardModel { dims, suicide }),
                Err(e) => e == (TooLarge { dims, limit: MAX_TABLE_POINTS }),
            },
            r is Ok <==> dims.size() <= MAX_TABLE_POINTS,
    {
        let table = match RuleTable::build(dims, suicide) {
            Ok(t) => t,
            Err(e) => {
                return Err(e);
            },
        };
        let n = code_space(dims);
        let mut occupied: Vec<u32> = Vec::new();
        let mut code: u32 = 0;
        proof {
            crate::code::lemma_pow3_monotone(dims.size(), 20);
            crate::code::lemma_pow3_20();
        }
        while code < n
            invariant
                dims.wf(),
                dims.size() <= MAX_TABLE_POINTS,
                n == pow3(dims.size()),
                code <= n,
                occupied@.len() == code,
                forall|k: int, i: int|
                    0 <= k < code && 0 <= i < dims.size() ==> #[trigger] mask_bit(occupied@[k], i)
                        == (cells_of(dims.size(), k as nat)[i] is Some),
            decreases n - code,
        {
            let b = decode(dims, PosCode(code));
            let cells = b.cells();
            let mut mask: u32 = 0;
            let mut i: usize = 0;
            proof {
                assert forall|j: int| 0 <= j < 32 implies !#[trigger] mask_bit(0u32, j) by {
                    lemma_mask_zero(j as u32);
                }
            }
            while i < cells.len()
                invariant
                    cells@ == b@.cells,
                    b@.cells == cells_of(dims.size(), code as nat),
                    cells@.len() == dims.size(),
                    dims.size() <= MAX_TABLE_POINTS,
                    i <= cells@.len(),
                    forall|j: int| 0 <= j < i ==> #[trigger] mask_bit(mask, j) == (cells@[j] is Some),
                    forall|j: int| i <= j < 32 ==> !#[trigger] mask_bit(mask, j),
                decreases cells@.len() - i,
            {
                let ghost old_mask = mask;
                if cells[i].is_some() {
                    mask = mask | (1u32 << (i as u32));
                    proof {
                        assert forall|j: int| 0 <= j < 32 implies #[trigger] mask_bit(mask, j) == (
                        j == i || mask_bit(old_mask, j)) by {
                            lemma_mask_or(old_mask, i as u32, j as u32);
                        }
                    }
                }
                i += 1;
            }
            proof {
                crate::code::lemma_cells_of_len(dims.size(), code as nat);
            }
            occupied.push(mask);
            code += 1;
        }
        let empty = Position::empty(dims);
        proof {
            lemma_empty_code(empty@.cells);
        }
        let root = encode(&empty);
        Ok(Board { dims, suicide, table, occupied, moves: all_moves(dims), root })
    }

    /// The board.
    pub fn dims(&self) -> (r: Dims)
        ensures
            r == self@.dims,
    {
        self.dims
    }

    /// The suicide convention the table was built under.
    pub fn suicide(&self) -> (r: Suicide)
        ensures
            r == self@.suicide,
    {
        self.suicide
    }

    /// The root of play: the empty position.
    pub fn root(&self) -> (r: Position)
        requires
            self.wf(),
        ensures
            r@.wf(),
            r@.dims == self@.dims,
            forall|i: int| 0 <= i < self@.dims.size() ==> #[trigger] r@.cells[i] is None,
    {
        proof {
            lemma_code_zero_empty(self.dims.size());
            crate::code::lemma_pow3_monotone(0, self.dims.size());
        }
        decode(self.dims, self.root)
    }
}


/// A depth bound as a number.
pub open spec fn opt_nat(o: Option<usize>) -> Option<nat> {
    match o {
        Some(d) => Some(d as nat),
        None => None,
    }
}

/// The rules of a count on a board: no split.
pub open spec fn game_rules(b: BoardModel, rep: Repetition, cap: Option<usize>) -> Rules {
    Rules { dims: b.dims, suicide: b.suicide, rep, cap: opt_nat(cap), split: None }
}

/// The root of play: the empty position, Black to move, its own situation
/// archived.
pub open spec fn root_node(rep: Repetition) -> Node {
    Node { code: 0, to_move: Color::Black, passes: 0, bits: Set::empty().insert(arch_key(rep, 0, Color::Black)) }
}

/// What a whole count reports.
pub open spec fn games_rep(b: BoardModel, rep: Repetition, cap: Option<usize>) -> ReportModel {
    node_rep(game_rules(b, rep, cap), root_node(rep), 0)
}

/// The state a sequence of moves leads to from `n`, if every move is legal
/// where it is made and no move follows the end of a game.
pub open spec fn replay(r: Rules, n: Node, path: Seq<Move>) -> Option<Node>
    decreases path.len(),
{
    if path.len() == 0 {
        Some(n)
    } else {
        match replay(r, n, path.drop_last()) {
            Some(m) => {
                let mv = path.last();
                match verdict(r, m, mv) {
                    Verdict::Legal(s) => if m.passes < 2 && all_moves_spec(r.dims).contains(mv) {
                        Some(child(r, m, mv, s))
                    } else {
                        None
                    },
                    _ => None,
                }
            },
            None => None,
        }
    }
}

/// The paths of the states recorded at the split depth, with the states
/// they lead to, in the order the search meets them.
pub open spec fn node_prefixes(r: Rules, n: Node, depth: nat, path: Seq<Move>) -> Seq<(Seq<Move>, Node)>
    decreases measure(r, n), 1int, 0int,
    when node_ok(r, n)
{
    if r.split == Some(depth) {
        seq![(path, n)]
    } else if n.passes >= 2 || r.cap == Some(depth) {
        Seq::empty()
    } else {
        moves_prefixes(r, n, depth, path, 0)
    }
}

/// The recorded prefixes below the moves from the `i`-th on.
pub open spec fn moves_prefixes(r: Rules, n: Node, depth: nat, path: Seq<Move>, i: int) -> Seq<(Seq<Move>, Node)>
    decreases measure(r, n), 0int, all_moves_spec(r.dims).len() - i,
    when node_ok(r, n) && n.passes < 2 && 0 <= i
{
    let moves = all_moves_spec(r.dims);
    if i >= moves.len() {
        Seq::empty()
    } else {
        let mv = moves[i];
        let here = match verdict(r, n, mv) {
            Verdict::Legal(s) => {
                proof {
                    lemma_child_ok(r, n, mv, s);
                }
                node_prefixes(r, child(r, n, mv, s), depth + 1, path.push(mv))
            },
            _ => Seq::empty(),
        };
        here + moves_prefixes(r, n, depth, path, i + 1)
    }
}

/// The paths of recorded prefixes.
pub open spec fn paths_of(s: Seq<(Seq<Move>, Node)>) -> Seq<Seq<Move>> {
    s.map_values(|e: (Seq<Move>, Node)| e.0)
}

/// The views of a list of move lists.
pub open spec fn pviews(s: Seq<Vec<Move>>) -> Seq<Seq<Move>> {
    s.map_values(|v: Vec<Move>| v@)
}

/// The counts below each recorded state, merged in order.
pub open spec fn parts_rep(r: Rules, s: Seq<(Seq<Move>, Node)>, depth: nat) -> ReportModel
    decreases s.len(),
{
    if s.len() == 0 {
        rzero()
    } else {
        rmerge(parts_rep(r, s.drop_last(), depth), node_rep(r, s.last().1, depth))
    }
}

/// What a move is taken back with.
#[derive(Clone, Copy, Debug)]
struct Undo {
    key: ArchiveKey,
    was_new: bool,
    code: PosCode,
    to_move: Color,
    passes: u32,
}

/// One depth-first search over one board.
struct Search {
    rep: Repetition,
    archive: Archive,
    code: PosCode,
    to_move: Color,
    passes: u32,
    depth_cap: Option<usize>,
    split_at: Option<usize>,
    path: Vec<Move>,
    prefixes: Vec<Vec<Move>>,
    report: Report,
}

impl Search {
    spec fn rules(&self, b: &Board) -> Rules {
        Rules { dims: b@.dims, suicide: b@.suicide, rep: self.rep, cap: opt_nat(self.depth_cap), split: opt_nat(self.split_at) }
    }

    spec fn node(&self) -> Node {
        Node { code: self.code.0 as nat, to_move: self.to_move, passes: self.passes as nat, bits: self.archive@.bits }
    }

    spec fn inv(&self, b: &Board) -> bool {
        &&& b.wf()
        &&& self.archive.wf()
        &&& self.archive@.codes == codes(b@.dims)
        &&& node_ok(self.rules(b), self.node())
        &&& self.archive@.bits.contains(arch_key(self.rep, self.code.0 as nat, self.to_move))
        &&& rnonneg(self.report@)
    }

    /// A search at the root of play, its own situation archived.
    fn new(board: &Board, rep: Repetition, depth_cap: Option<usize>) -> (r: Self)
        requires
            board.wf(),
        ensures
            r.inv(board),
            r.node() == root_node(rep),
            r.rep == rep,
            r.depth_cap == depth_cap,
            r.split_at is None,
            r.path@.len() == 0,
            r.prefixes@.len() == 0,
            r.report@ == rzero(),
    {
        proof {
            crate::code::lemma_pow3_monotone(board.dims.size(), MAX_TABLE_POINTS as nat);
            assert(pow3(12) == 531441) by {
                reveal_with_fuel(pow3, 13);
            }
            crate::code::lemma_pow3_monotone(0, board.dims.size());
        }
        let mut search = Search {
            rep,
            archive: Archive::new(board.dims),
            code: board.root,
            to_move: Color::Black,
            passes: 0,
            depth_cap,
            split_at: None,
            path: Vec::new(),
            prefixes: Vec::new(),
            report: Report::zero(),
        };
        let root_key = search.key(board.root, Color::Black);
        let was_new = search.archive.insert(root_key);
        assert(was_new);
        proof {
            let bits = search.archive@.bits;
            assert(bits =~= Set::empty().insert(arch_key(rep, 0, Color::Black)));
            lemma_int_range(0, 2 * codes(board.dims) as int);
        }
        search
    }

    /// The archive key of a situation, under the rule in force.
    fn key(&self, code: PosCode, to_move: Color) -> (r: ArchiveKey)
        ensures
            r.code == code,
            key_bit(r) == arch_key(self.rep, code.0 as nat, to_move),
    {
        match self.rep {
            Repetition::Ssk => ArchiveKey::new(code, to_move),
            Repetition::Psk => ArchiveKey::new(code, Color::Black),
        }
    }
}


/// Every report of a search is non-negative, and a state not at the split
/// depth counts itself at its depth.
pub proof fn lemma_rep_nonneg(r: Rules, n: Node, depth: nat)
    requires
        node_ok(r, n),
    ensures
        rnonneg(node_rep(r, n, depth)),
        r.split != Some(depth) ==> node_rep(r, n, depth).nodes >= 1 && node_rep(r, n, depth).max_depth
            >= depth,
    decreases measure(r, n), 1int, 0int,
{
    if r.split != Some(depth) && n.passes < 2 && r.cap != Some(depth) {
        lemma_moves_nonneg(r, n, depth, 0);
    }
}

/// Every report of the moves from a state is non-negative.
pub proof fn lemma_moves_nonneg(r: Rules, n: Node, depth: nat, i: int)
    requires
        node_ok(r, n),
        n.passes < 2,
        0 <= i,
    ensures
        rnonneg(moves_rep(r, n, depth, i)),
    decreases measure(r, n), 0int, all_moves_spec(r.dims).len() - i,
{
    let moves = all_moves_spec(r.dims);
    if i < moves.len() {
        let mv = moves[i];
        if let Verdict::Legal(s) = verdict(r, n, mv) {
            lemma_child_ok(r, n, mv, s);
            lemma_rep_nonneg(r, child(r, n, mv, s), depth + 1);
        }
        lemma_moves_nonneg(r, n, depth, i + 1);
    }
}

/// Without a split depth nothing is recorded.
pub proof fn lemma_no_split(r: Rules, n: Node, depth: nat, path: Seq<Move>)
    requires
        node_ok(r, n),
        r.split is None,
    ensures
        node_prefixes(r, n, depth, path) == Seq::<(Seq<Move>, Node)>::empty(),
    decreases measure(r, n), 1int, 0int,
{
    if n.passes < 2 && r.cap != Some(depth) {
        lemma_no_split_moves(r, n, depth, path, 0);
    }
}

/// Without a split depth nothing is recorded below any move.
pub proof fn lemma_no_split_moves(r: Rules, n: Node, depth: nat, path: Seq<Move>, i: int)
    requires
        node_ok(r, n),
        n.passes < 2,
        0 <= i,
        r.split is None,
    ensures
        moves_prefixes(r, n, depth, path, i) == Seq::<(Seq<Move>, Node)>::empty(),
    decreases measure(r, n), 0int, all_moves_spec(r.dims).len() - i,
{
    let moves = all_moves_spec(r.dims);
    if i < moves.len() {
        let mv = moves[i];
        if let Verdict::Legal(s) = verdict(r, n, mv) {
            lemma_child_ok(r, n, mv, s);
            lemma_no_split(r, child(r, n, mv, s), depth + 1, path.push(mv));
        }
        lemma_no_split_moves(r, n, depth, path, i + 1);
        assert(moves_prefixes(r, n, depth, path, i) =~= Seq::<(Seq<Move>, Node)>::empty());
    }
}

/// Every prefix of a legal sequence is legal.
pub proof fn lemma_replay_prefix(r: Rules, n: Node, p: Seq<Move>, i: int)
    requires
        replay(r, n, p) is Some,
        0 <= i <= p.len(),
    ensures
        replay(r, n, p.take(i)) is Some,
    decreases p.len() - i,
{
    if i < p.len() {
        lemma_replay_prefix(r, n, p, i + 1);
        assert(p.take(i + 1).drop_last() =~= p.take(i));
    } else {
        assert(p.take(i) =~= p);
    }
}

impl Search {
    /// Decide a move: the successor of a legal one, or `None` for a
    /// refusal, which is counted.
    fn classify(&mut self, board: &Board, mv: Move) -> (r: Option<PosCode>)
        requires
            old(self).inv(board),
            all_moves_spec(board@.dims).contains(mv),
            rfits(rmerge(old(self).report@, refusal_rep(verdict(old(self).rules(board), old(self).node(), mv)))),
        ensures
            final(self).inv(board),
            final(self).rep == old(self).rep,
            final(self).archive == old(self).archive,
            final(self).code == old(self).code,
            final(self).to_move == old(self).to_move,
            final(self).passes == old(self).passes,
            final(self).depth_cap == old(self).depth_cap,
            final(self).split_at == old(self).split_at,
            final(self).path == old(self).path,
            final(self).prefixes == old(self).prefixes,
            final(self).report@ == rmerge(old(self).report@, refusal_rep(verdict(old(self).rules(board), old(self).node(), mv))),
            match verdict(old(self).rules(board), old(self).node(), mv) {
                Verdict::Legal(s) => r is Some && r.unwrap().0 as nat == s,
                _ => r is None,
            },
    {
        let ghost r0 = self.rules(board);
        let ghost n0 = self.node();
        let p = match mv {
            Move::Pass => {
                proof {
                    law_merge_monoid(self.report@, rzero(), rzero());
                }
                return Some(self.code);
            },
            Move::Play(p) => p,
        };
        proof {
            let i = choose|i: int| 0 <= i < all_moves_spec(r0.dims).len() && all_moves_spec(r0.dims)[i] == mv;
            assert(i >= 1);
            crate::config::lemma_point_of_in_range(r0.dims, i - 1);
        }
        let point = board.dims.index(p);
        let w = board.occupied[self.code.0 as usize];
        proof {
            lemma_mask_or(w, point as u32, point as u32);
            assert(w == board.occupied@[self.code.0 as int]);
            assert(mask_bit(board.occupied@[self.code.0 as int], point as int) == (cells_of(r0.dims.size(), (self.code.0 as int) as nat)[point as int] is Some));
        }
        if w & (1u32 << (point as u32)) != 0 {
            self.report.refused_occupied = self.report.refused_occupied + 1;
            return None;
        }
        if !board.table.playable(self.code, self.to_move, p) {
            self.report.refused_suicide = self.report.refused_suicide + 1;
            return None;
        }
        let succ = board.table.succ(self.code, self.to_move, p);
        proof {
            crate::table::lemma_succ_gen_bound(r0.dims, r0.suicide, n0.code, n0.to_move, p);
        }
        let key = self.key(succ, self.to_move.other());
        if self.archive.contains(key, self.rep) {
            self.report.refused_repetition = self.report.refused_repetition + 1;
            return None;
        }
        proof {
            law_merge_monoid(self.report@, rzero(), rzero());
        }
        Some(succ)
    }

    /// Take a legal move, and return what undoes it.
    fn make(&mut self, board: &Board, mv: Move, succ: PosCode) -> (undo: Undo)
        requires
            old(self).inv(board),
            all_moves_spec(board@.dims).contains(mv),
            old(self).passes < 2,
            verdict(old(self).rules(board), old(self).node(), mv) == Verdict::Legal(succ.0 as nat),
        ensures
            final(self).inv(board),
            final(self).node() == child(old(self).rules(board), old(self).node(), mv, succ.0 as nat),
            final(self).rep == old(self).rep,
            final(self).archive@.dims == old(self).archive@.dims,
            final(self).depth_cap == old(self).depth_cap,
            final(self).split_at == old(self).split_at,
            final(self).path == old(self).path,
            final(self).prefixes == old(self).prefixes,
            final(self).report == old(self).report,
            undo.code == old(self).code,
            undo.to_move == old(self).to_move,
            undo.passes == old(self).passes,
            undo.key.code == succ,
            key_bit(undo.key) == arch_key(old(self).rep, succ.0 as nat, old(self).to_move.opp()),
            undo.was_new == !old(self).archive@.bits.contains(key_bit(undo.key)),
            mv is Play ==> undo.was_new,
            (old(self).rep is Psk && mv is Pass) ==> !undo.was_new,
    {
        let ghost r0 = self.rules(board);
        let ghost n0 = self.node();
        proof {
            lemma_child_ok(r0, n0, mv, succ.0 as nat);
        }
        let key = self.key(succ, self.to_move.other());
        let code = self.code;
        let to_move = self.to_move;
        let passes = self.passes;
        let was_new = self.archive.insert(key);
        self.code = succ;
        self.to_move = self.to_move.other();
        self.passes = match mv {
            Move::Pass => self.passes + 1,
            Move::Play(_) => 0,
        };
        proof {
            assert(self.node().bits == n0.bits.insert(arch_key(r0.rep, succ.0 as nat, n0.to_move.opp())));
        }
        Undo { key, was_new, code, to_move, passes }
    }

    /// Take a move back, clearing only what its insert set.
    fn unmake(&mut self, undo: Undo)
        requires
            old(self).archive.wf(),
            (undo.key.code.0 as nat) < old(self).archive@.codes,
            undo.was_new ==> old(self).archive@.bits.contains(key_bit(undo.key)),
        ensures
            final(self).archive.wf(),
            final(self).archive@.dims == old(self).archive@.dims,
            final(self).archive@.codes == old(self).archive@.codes,
            final(self).archive@.bits == if undo.was_new {
                old(self).archive@.bits.remove(key_bit(undo.key))
            } else {
                old(self).archive@.bits
            },
            final(self).code == undo.code,
            final(self).to_move == undo.to_move,
            final(self).passes == undo.passes,
            final(self).rep == old(self).rep,
            final(self).depth_cap == old(self).depth_cap,
            final(self).split_at == old(self).split_at,
            final(self).path == old(self).path,
            final(self).prefixes == old(self).prefixes,
            final(self).report == old(self).report,
    {
        self.archive.undo(undo.key, undo.was_new);
        self.code = undo.code;
        self.to_move = undo.to_move;
        self.passes = undo.passes;
    }

    /// Replay a prefix of legal moves without counting anything: what a
    /// worker does before it counts at the state its prefix names.
    fn seed(&mut self, board: &Board, path: &Vec<Move>)
        requires
            old(self).inv(board),
            replay(old(self).rules(board), old(self).node(), path@) is Some,
        ensures
            final(self).inv(board),
            final(self).node() == replay(old(self).rules(board), old(self).node(), path@).unwrap(),
            final(self).rep == old(self).rep,
            final(self).archive@.dims == old(self).archive@.dims,
            final(self).depth_cap == old(self).depth_cap,
            final(self).split_at == old(self).split_at,
            final(self).path == old(self).path,
            final(self).prefixes == old(self).prefixes,
            final(self).report@ == rzero(),
    {
        let ghost r0 = self.rules(board);
        let ghost n0 = self.node();
        self.report = Report::zero();
        let mut i: usize = 0;
        while i < path.len()
            invariant
                self.inv(board),
                self.rules(board) == r0,
                self.rep == old(self).rep,
                self.archive@.dims == old(self).archive@.dims,
                self.depth_cap == old(self).depth_cap,
                self.split_at == old(self).split_at,
                self.path == old(self).path,
                self.prefixes == old(self).prefixes,
                self.report@ == rzero(),
                replay(r0, n0, path@) is Some,
                0 <= i <= path@.len(),
                replay(r0, n0, path@.take(i as int)) == Some(self.node()),
            decreases path@.len() - i,
        {
            let mv = path[i];
            proof {
                lemma_replay_prefix(r0, n0, path@, i + 1);
                assert(path@.take(i + 1).drop_last() =~= path@.take(i as int));
                assert(path@.take(i + 1).last() == mv);
                law_merge_monoid(rzero(), rzero(), rzero());
            }
            let got = self.classify(board, mv);
            let succ = match got {
                Some(s) => s,
                None => {
                    proof {
                        assert(false);
                    }
                    return;
                },
            };
            let _ = self.make(board, mv, succ);
            i += 1;
        }
        proof {
            assert(path@.take(i as int) =~= path@);
        }
    }
}


impl Search {
    /// Visit the state now standing, `depth` moves from the root: record it
    /// at the split depth; count a game at two passes; count a truncated
    /// leaf at the cap; otherwise count it and search every move from it.
    fn visit(&mut self, board: &Board, depth: usize)
        requires
            old(self).inv(board),
            rfits(rmerge(old(self).report@, node_rep(old(self).rules(board), old(self).node(), depth as nat))),
        ensures
            final(self).inv(board),
            final(self).rep == old(self).rep,
            final(self).archive@ == old(self).archive@,
            final(self).code == old(self).code,
            final(self).to_move == old(self).to_move,
            final(self).passes == old(self).passes,
            final(self).depth_cap == old(self).depth_cap,
            final(self).split_at == old(self).split_at,
            final(self).path@ == old(self).path@,
            final(self).report@ == rmerge(old(self).report@, node_rep(old(self).rules(board), old(self).node(), depth as nat)),
            pviews(final(self).prefixes@) == pviews(old(self).prefixes@) + paths_of(
                node_prefixes(old(self).rules(board), old(self).node(), depth as nat, old(self).path@),
            ),
        decreases measure(old(self).rules(board), old(self).node()),
    {
        let ghost r0 = self.rules(board);
        let ghost n0 = self.node();
        let ghost a0 = self.archive@;
        let ghost path0 = self.path@;
        let ghost prefixes0 = pviews(self.prefixes@);
        let ghost total = rmerge(self.report@, node_rep(r0, n0, depth as nat));
        let ghost ptotal = prefixes0 + paths_of(node_prefixes(r0, n0, depth as nat, path0));
        proof {
            lemma_rep_nonneg(r0, n0, depth as nat);
            law_merge_monoid(self.report@, rzero(), rzero());
        }
        if let Some(d) = self.split_at {
            if d == depth {
                let here = self.path.clone();
                self.prefixes.push(here);
                proof {
                    assert(pviews(self.prefixes@) =~= ptotal);
                }
                return;
            }
        }
        self.report.nodes = self.report.nodes + 1;
        if depth > self.report.max_depth {
            self.report.max_depth = depth;
        }
        let held = self.archive.len();
        if held > self.report.max_archive {
            self.report.max_archive = held;
        }
        if self.passes >= 2 {
            self.report.games = self.report.games + 1;
            proof {
                assert(pviews(self.prefixes@) =~= ptotal);
            }
            return;
        }
        if let Some(cap) = self.depth_cap {
            if cap == depth {
                self.report.truncated = self.report.truncated + 1;
                proof {
                    assert(pviews(self.prefixes@) =~= ptotal);
                }
                return;
            }
        }
        proof {
            lemma_moves_nonneg(r0, n0, depth as nat, 0);
            law_merge_monoid(old(self).report@, visit_rep(n0, depth as nat), moves_rep(r0, n0, depth as nat, 0));
            assert(self.report@ == rmerge(old(self).report@, visit_rep(n0, depth as nat)));
        }
        let mut i: usize = 0;
        while i < board.moves.len()
            invariant
                self.inv(board),
                self.rules(board) == r0,
                self.node() == n0,
                r0 == old(self).rules(board),
                n0 == old(self).node(),
                self.archive@ == a0,
                self.rep == old(self).rep,
                self.code == old(self).code,
                self.to_move == old(self).to_move,
                self.passes == old(self).passes,
                self.depth_cap == old(self).depth_cap,
                self.split_at == old(self).split_at,
                self.path@ == path0,
                n0.passes < 2,
                r0.cap != Some(depth as nat),
                r0.split != Some(depth as nat),
                board.moves@ == all_moves_spec(r0.dims),
                0 <= i <= board.moves@.len(),
                rmerge(self.report@, moves_rep(r0, n0, depth as nat, i as int)) == total,
                rfits(total),
                pviews(self.prefixes@) + paths_of(moves_prefixes(r0, n0, depth as nat, path0, i as int)) == ptotal,
            decreases board.moves@.len() - i,
        {
            let mv = board.moves[i];
            let ghost before = self.report@;
            let ghost pbefore = pviews(self.prefixes@);
            let ghost v = verdict(r0, n0, mv);
            let ghost rest = moves_rep(r0, n0, depth as nat, i + 1);
            let ghost prest = moves_prefixes(r0, n0, depth as nat, path0, i + 1);
            proof {
                assert(all_moves_spec(r0.dims)[i as int] == mv);
                lemma_moves_nonneg(r0, n0, depth as nat, i + 1);
                if let Verdict::Legal(s) = v {
                    lemma_child_ok(r0, n0, mv, s);
                    lemma_rep_nonneg(r0, child(r0, n0, mv, s), depth as nat + 1);
                }
                let here = match v {
                    Verdict::Legal(s) => node_rep(r0, child(r0, n0, mv, s), depth as nat + 1),
                    w => refusal_rep(w),
                };
                assert(moves_rep(r0, n0, depth as nat, i as int) == rmerge(here, rest));
                law_merge_monoid(before, here, rest);
                lemma_merge_fits(rmerge(before, here), rest);
                lemma_merge_fits(before, here);
                law_merge_monoid(before, rzero(), rzero());
            }
            let got = self.classify(board, mv);
            match got {
                None => {
                    proof {
                        assert(moves_prefixes(r0, n0, depth as nat, path0, i as int) =~= prest);
                    }
                },
                Some(succ) => {
                    let ghost s = succ.0 as nat;
                    let ghost c = child(r0, n0, mv, s);
                    let undo = self.make(board, mv, succ);
                    if self.split_at.is_some() {
                        self.path.push(mv);
                    }
                    proof {
                        if r0.split is None {
                            lemma_no_split(r0, c, depth as nat + 1, self.path@);
                            lemma_no_split(r0, c, depth as nat + 1, path0.push(mv));
                        }
                        if r0.split != Some(depth as nat + 1) {
                            assert(node_rep(r0, c, depth as nat + 1).max_depth >= depth + 1);
                        }
                        assert(self.rules(board) == r0);
                        assert(self.node() == c);
                        assert(0 <= measure(self.rules(board), self.node()) < measure(r0, n0));
                    }
                    self.visit(board, depth + 1);
                    if self.split_at.is_some() {
                        self.path.pop();
                    }
                    self.unmake(undo);
                    proof {
                        assert(self.archive@.bits =~= a0.bits);
                        let hp = node_prefixes(r0, c, depth as nat + 1, path0.push(mv));
                        assert(moves_prefixes(r0, n0, depth as nat, path0, i as int) == hp + prest);
                        assert(paths_of(hp + prest) =~= paths_of(hp) + paths_of(prest));
                        assert(pviews(self.prefixes@) + paths_of(prest) =~= pbefore + paths_of(
                            moves_prefixes(r0, n0, depth as nat, path0, i as int),
                        ));
                    }
                },
            }
            i += 1;
        }
        proof {
            assert(moves_rep(r0, n0, depth as nat, i as int) == rzero());
            assert(moves_prefixes(r0, n0, depth as nat, path0, i as int) =~= Seq::<(Seq<Move>, Node)>::empty());
            assert(paths_of(Seq::<(Seq<Move>, Node)>::empty()) =~= Seq::<Seq<Move>>::empty());
            assert(pviews(self.prefixes@) =~= ptotal);
            law_merge_monoid(self.report@, rzero(), rzero());
        }
    }
}


/// The same rules with a split depth.
pub open spec fn with_split(r: Rules, d: nat) -> Rules {
    Rules { split: Some(d), ..r }
}

/// Merging is associative.
pub proof fn lemma_merge_assoc(a: ReportModel, b: ReportModel, c: ReportModel)
    ensures
        rmerge(rmerge(a, b), c) == rmerge(a, rmerge(b, c)),
{
}

/// The maxima of merged parts are never negative.
pub proof fn lemma_parts_max(r: Rules, s: Seq<(Seq<Move>, Node)>, d: nat)
    ensures
        parts_rep(r, s, d).max_depth >= 0,
        parts_rep(r, s, d).max_archive >= 0,
    decreases s.len(),
{
    if s.len() > 0 {
        lemma_parts_max(r, s.drop_last(), d);
    }
}

/// Merging the parts of two lists in turn is merging the parts of both.
pub proof fn lemma_parts_concat(r: Rules, a: Seq<(Seq<Move>, Node)>, b: Seq<(Seq<Move>, Node)>, d: nat)
    ensures
        parts_rep(r, a + b, d) == rmerge(parts_rep(r, a, d), parts_rep(r, b, d)),
    decreases b.len(),
{
    lemma_parts_max(r, a, d);
    if b.len() == 0 {
        assert(a + b =~= a);
    } else {
        assert((a + b).drop_last() =~= a + b.drop_last());
        assert((a + b).last() == b.last());
        lemma_parts_concat(r, a, b.drop_last(), d);
        lemma_merge_assoc(parts_rep(r, a, d), parts_rep(r, b.drop_last(), d), node_rep(r, b.last().1, d));
    }
}

/// The parts of states the search can stand in are non-negative.
pub proof fn lemma_parts_nonneg(r: Rules, s: Seq<(Seq<Move>, Node)>, d: nat)
    requires
        forall|k: int| 0 <= k < s.len() ==> node_ok(r, #[trigger] s[k].1),
    ensures
        rnonneg(parts_rep(r, s, d)),
    decreases s.len(),
{
    if s.len() > 0 {
        lemma_parts_nonneg(r, s.drop_last(), d);
        lemma_rep_nonneg(r, s.last().1, d);
    }
}

/// A search split at depth `d` counts, above the split, what the whole
/// search counts less what lies below the recorded states: the whole count
/// is the split count merged with the counts below every recorded state.
pub proof fn lemma_split_node(r: Rules, n: Node, depth: nat, path: Seq<Move>, d: nat)
    requires
        node_ok(r, n),
        r.split is None,
        depth <= d,
    ensures
        node_rep(r, n, depth) == rmerge(
            node_rep(with_split(r, d), n, depth),
            parts_rep(r, node_prefixes(with_split(r, d), n, depth, path), d),
        ),
    decreases measure(r, n), 1int, 0int,
{
    let rs = with_split(r, d);
    lemma_rep_nonneg(r, n, depth);
    if depth == d {
        let one = node_prefixes(rs, n, depth, path);
        assert(one == seq![(path, n)]);
        assert(one.drop_last() =~= Seq::<(Seq<Move>, Node)>::empty());
        assert(parts_rep(r, one.drop_last(), d) == rzero());
        assert(one.last().1 == n);
        assert(parts_rep(r, one, d) == rmerge(rzero(), node_rep(r, n, d)));
    } else if n.passes >= 2 || r.cap == Some(depth) {
        assert(node_rep(r, n, depth) == node_rep(rs, n, depth));
    } else {
        lemma_split_moves(r, n, depth, path, d, 0);
        lemma_moves_nonneg(r, n, depth, 0);
        lemma_merge_assoc(
            visit_rep(n, depth),
            moves_rep(rs, n, depth, 0),
            parts_rep(r, moves_prefixes(rs, n, depth, path, 0), d),
        );
    }
}

/// The split law for the moves from the `i`-th on.
pub proof fn lemma_split_moves(r: Rules, n: Node, depth: nat, path: Seq<Move>, d: nat, i: int)
    requires
        node_ok(r, n),
        n.passes < 2,
        0 <= i,
        r.split is None,
        depth < d,
    ensures
        moves_rep(r, n, depth, i) == rmerge(
            moves_rep(with_split(r, d), n, depth, i),
            parts_rep(r, moves_prefixes(with_split(r, d), n, depth, path, i), d),
        ),
    decreases measure(r, n), 0int, all_moves_spec(r.dims).len() - i,
{
    let rs = with_split(r, d);
    let moves = all_moves_spec(r.dims);
    if i < moves.len() {
        let mv = moves[i];
        let ph: Seq<(Seq<Move>, Node)> = match verdict(r, n, mv) {
            Verdict::Legal(s) => node_prefixes(rs, child(r, n, mv, s), depth + 1, path.push(mv)),
            _ => Seq::empty(),
        };
        let pr = moves_prefixes(rs, n, depth, path, i + 1);
        if let Verdict::Legal(s) = verdict(r, n, mv) {
            lemma_child_ok(r, n, mv, s);
            lemma_split_node(r, child(r, n, mv, s), depth + 1, path.push(mv), d);
        }
        lemma_split_moves(r, n, depth, path, d, i + 1);
        assert(moves_prefixes(rs, n, depth, path, i) == ph + pr);
        lemma_parts_concat(r, ph, pr, d);
    }
}

/// Replaying under rules that differ only in their cap and split gives the
/// same states.
pub proof fn lemma_replay_rules(r1: Rules, r2: Rules, n: Node, p: Seq<Move>)
    requires
        r1.dims == r2.dims,
        r1.suicide == r2.suicide,
        r1.rep == r2.rep,
    ensures
        replay(r1, n, p) == replay(r2, n, p),
    decreases p.len(),
{
    if p.len() > 0 {
        lemma_replay_rules(r1, r2, n, p.drop_last());
    }
}

/// Each recorded prefix is a legal sequence of `d` moves from the root,
/// and leads to the state recorded with it.
pub proof fn lemma_prefix_replay(rs: Rules, n0: Node, n: Node, depth: nat, path: Seq<Move>, d: nat)
    requires
        node_ok(rs, n),
        rs.split == Some(d),
        depth <= d,
        path.len() == depth,
        replay(rs, n0, path) == Some(n),
    ensures
        forall|k: int|
            0 <= k < node_prefixes(rs, n, depth, path).len() ==> {
                let e = #[trigger] node_prefixes(rs, n, depth, path)[k];
                &&& replay(rs, n0, e.0) == Some(e.1)
                &&& e.0.len() == d
                &&& node_ok(rs, e.1)
            },
    decreases measure(rs, n), 1int, 0int,
{
    if depth != d && n.passes < 2 && rs.cap != Some(depth) {
        lemma_prefix_replay_moves(rs, n0, n, depth, path, d, 0);
    }
}

/// Each prefix recorded below the moves from the `i`-th on replays to its
/// state.
pub proof fn lemma_prefix_replay_moves(rs: Rules, n0: Node, n: Node, depth: nat, path: Seq<Move>, d: nat, i: int)
    requires
        node_ok(rs, n),
        n.passes < 2,
        0 <= i,
        rs.split == Some(d),
        depth < d,
        path.len() == depth,
        replay(rs, n0, path) == Some(n),
    ensures
        forall|k: int|
            0 <= k < moves_prefixes(rs, n, depth, path, i).len() ==> {
                let e = #[trigger] moves_prefixes(rs, n, depth, path, i)[k];
                &&& replay(rs, n0, e.0) == Some(e.1)
                &&& e.0.len() == d
                &&& node_ok(rs, e.1)
            },
    decreases measure(rs, n), 0int, all_moves_spec(rs.dims).len() - i,
{
    let moves = all_moves_spec(rs.dims);
    if i < moves.len() {
        let mv = moves[i];
        let ph: Seq<(Seq<Move>, Node)> = match verdict(rs, n, mv) {
            Verdict::Legal(s) => node_prefixes(rs, child(rs, n, mv, s), depth + 1, path.push(mv)),
            _ => Seq::empty(),
        };
        let pr = moves_prefixes(rs, n, depth, path, i + 1);
        if let Verdict::Legal(s) = verdict(rs, n, mv) {
            lemma_child_ok(rs, n, mv, s);
            assert(path.push(mv).drop_last() =~= path);
            assert(moves.contains(mv));
            assert(replay(rs, n0, path.push(mv)) == Some(child(rs, n, mv, s)));
            lemma_prefix_replay(rs, n0, child(rs, n, mv, s), depth + 1, path.push(mv), d);
        }
        lemma_prefix_replay_moves(rs, n0, n, depth, path, d, i + 1);
        let all = moves_prefixes(rs, n, depth, path, i);
        assert(all == ph + pr);
        assert forall|k: int| 0 <= k < all.len() implies {
            let e = #[trigger] all[k];
            &&& replay(rs, n0, e.0) == Some(e.1)
            &&& e.0.len() == d
            &&& node_ok(rs, e.1)
        } by {
            if k < ph.len() {
                assert(all[k] == ph[k]);
            } else {
                assert(all[k] == pr[k - ph.len()]);
            }
        }
    }
}


/// The root is a state the search can stand in.
pub proof fn lemma_root_ok(r: Rules)
    requires
        r.dims.wf(),
        r.dims.size() <= MAX_TABLE_POINTS,
    ensures
        node_ok(r, root_node(r.rep)),
{
    crate::code::lemma_pow3_monotone(0, r.dims.size());
    let b = root_node(r.rep).bits;
    assert(b.finite());
}

/// Splitting a search changes nothing it counts: at any split depth, the
/// whole count is the count above the split merged with the counts below
/// every recorded state, in the order the search records them.
pub proof fn law_split_total(b: BoardModel, rep: Repetition, cap: Option<usize>, d: nat)
    requires
        b.dims.wf(),
        b.dims.size() <= MAX_TABLE_POINTS,
    ensures
        games_rep(b, rep, cap) == rmerge(
            node_rep(with_split(game_rules(b, rep, cap), d), root_node(rep), 0),
            parts_rep(
                game_rules(b, rep, cap),
                node_prefixes(with_split(game_rules(b, rep, cap), d), root_node(rep), 0, Seq::empty()),
                d,
            ),
        ),
{
    lemma_root_ok(game_rules(b, rep, cap));
    lemma_split_node(game_rules(b, rep, cap), root_node(rep), 0, Seq::empty(), d);
}

/// The single-threaded search.
fn serial(board: &Board, rep: Repetition, depth_cap: Option<usize>) -> (r: Report)
    requires
        board.wf(),
        rfits(games_rep(board@, rep, depth_cap)),
    ensures
        r@ == games_rep(board@, rep, depth_cap),
{
    let mut search = Search::new(board, rep, depth_cap);
    proof {
        lemma_rep_nonneg(search.rules(board), search.node(), 0);
        law_merge_monoid(node_rep(search.rules(board), search.node(), 0), rzero(), rzero());
        law_merge_monoid(rzero(), node_rep(search.rules(board), search.node(), 0), rzero());
    }
    search.visit(board, 0);
    search.report
}

/// Walk the tree to `depth` and return what was counted above that depth
/// together with the legal prefixes reaching it, in move order.
pub fn split(board: &Board, rep: Repetition, depth_cap: Option<usize>, depth: usize) -> (r: (Report, Vec<Vec<Move>>))
    requires
        board.wf(),
        rfits(node_rep(with_split(game_rules(board@, rep, depth_cap), depth as nat), root_node(rep), 0)),
    ensures
        r.0@ == node_rep(with_split(game_rules(board@, rep, depth_cap), depth as nat), root_node(rep), 0),
        pviews(r.1@) == paths_of(
            node_prefixes(with_split(game_rules(board@, rep, depth_cap), depth as nat), root_node(rep), 0, Seq::empty()),
        ),
{
    let mut search = Search::new(board, rep, depth_cap);
    search.split_at = Some(depth);
    proof {
        lemma_rep_nonneg(search.rules(board), search.node(), 0);
        law_merge_monoid(rzero(), node_rep(search.rules(board), search.node(), 0), rzero());
        assert(pviews(search.prefixes@) =~= Seq::<Seq<Move>>::empty());
        assert(search.path@ =~= Seq::<Move>::empty());
    }
    search.visit(board, 0);
    proof {
        assert(pviews(search.prefixes@) =~= paths_of(
            node_prefixes(with_split(game_rules(board@, rep, depth_cap), depth as nat), root_node(rep), 0, Seq::empty()),
        ));
    }
    (search.report, search.prefixes)
}

/// Count below the state a prefix of legal moves leads to, as a worker
/// does: replay the prefix from the root, then search from there.
pub fn count_prefix(board: &Board, rep: Repetition, depth_cap: Option<usize>, prefix: &Vec<Move>) -> (r: Report)
    requires
        board.wf(),
        replay(game_rules(board@, rep, depth_cap), root_node(rep), prefix@) is Some,
        rfits(
            node_rep(
                game_rules(board@, rep, depth_cap),
                replay(game_rules(board@, rep, depth_cap), root_node(rep), prefix@).unwrap(),
                prefix@.len(),
            ),
        ),
    ensures
        r@ == node_rep(
            game_rules(board@, rep, depth_cap),
            replay(game_rules(board@, rep, depth_cap), root_node(rep), prefix@).unwrap(),
            prefix@.len(),
        ),
{
    let mut search = Search::new(board, rep, depth_cap);
    search.seed(board, prefix);
    proof {
        lemma_rep_nonneg(search.rules(board), search.node(), prefix@.len());
        law_merge_monoid(rzero(), node_rep(search.rules(board), search.node(), prefix@.len()), rzero());
    }
    search.visit(board, prefix.len());
    search.report
}

/// Merge the counts below each prefix onto the count above them, in prefix
/// order.
fn sum_prefixes(
    board: &Board,
    rep: Repetition,
    depth_cap: Option<usize>,
    depth: usize,
    stem: Report,
    prefixes: &Vec<Vec<Move>>,
) -> (r: Report)
    requires
        board.wf(),
        pviews(prefixes@) == paths_of(
            node_prefixes(with_split(game_rules(board@, rep, depth_cap), depth as nat), root_node(rep), 0, Seq::empty()),
        ),
        stem@ == node_rep(with_split(game_rules(board@, rep, depth_cap), depth as nat), root_node(rep), 0),
        rfits(games_rep(board@, rep, depth_cap)),
    ensures
        r@ == games_rep(board@, rep, depth_cap),
{
    let ghost g = game_rules(board@, rep, depth_cap);
    let ghost rs = with_split(g, depth as nat);
    let ghost entries = node_prefixes(rs, root_node(rep), 0, Seq::empty());
    proof {
        lemma_root_ok(g);
        law_split_total(board@, rep, depth_cap, depth as nat);
        lemma_replay_rules(rs, g, root_node(rep), Seq::empty());
        lemma_prefix_replay(rs, root_node(rep), root_node(rep), 0, Seq::empty(), depth as nat);
        lemma_rep_nonneg(rs, root_node(rep), 0);
        lemma_parts_nonneg(g, entries, depth as nat);
        assert(prefixes@.len() == entries.len()) by {
            assert(pviews(prefixes@).len() == prefixes@.len());
            assert(paths_of(entries).len() == entries.len());
        }
        assert(entries.take(0) =~= Seq::<(Seq<Move>, Node)>::empty());
        law_merge_monoid(stem@, rzero(), rzero());
    }
    let mut total = stem;
    let mut i: usize = 0;
    while i < prefixes.len()
        invariant
            board.wf(),
            g == game_rules(board@, rep, depth_cap),
            rs == with_split(g, depth as nat),
            entries == node_prefixes(rs, root_node(rep), 0, Seq::empty()),
            pviews(prefixes@) == paths_of(entries),
            prefixes@.len() == entries.len(),
            0 <= i <= prefixes@.len(),
            rnonneg(stem@),
            games_rep(board@, rep, depth_cap) == rmerge(stem@, parts_rep(g, entries, depth as nat)),
            rfits(games_rep(board@, rep, depth_cap)),
            total@ == rmerge(stem@, parts_rep(g, entries.take(i as int), depth as nat)),
            forall|k: int|
                0 <= k < entries.len() ==> {
                    let e = #[trigger] entries[k];
                    &&& replay(rs, root_node(rep), e.0) == Some(e.1)
                    &&& e.0.len() == depth
                    &&& node_ok(rs, e.1)
                },
        decreases prefixes@.len() - i,
    {
        let prefix = &prefixes[i as usize];
        proof {
            let e = entries[i as int];
            assert(pviews(prefixes@)[i as int] == prefix@);
            assert(paths_of(entries)[i as int] == e.0);
            lemma_replay_rules(rs, g, root_node(rep), e.0);
            let head = entries.take(i + 1);
            let tail = entries.skip(i + 1);
            assert(head + tail =~= entries);
            lemma_parts_concat(g, head, tail, depth as nat);
            assert(head.drop_last() =~= entries.take(i as int));
            assert(head.last() == e);
            assert forall|k: int| 0 <= k < head.len() implies node_ok(g, #[trigger] head[k].1) by {
                assert(head[k] == entries[k]);
            }
            assert forall|k: int| 0 <= k < tail.len() implies node_ok(g, #[trigger] tail[k].1) by {
                assert(tail[k] == entries[k + i + 1]);
            }
            lemma_parts_nonneg(g, head, depth as nat);
            lemma_parts_nonneg(g, tail, depth as nat);
            lemma_parts_nonneg(g, entries.take(i as int), depth as nat);
            lemma_rep_nonneg(g, e.1, depth as nat);
            lemma_merge_assoc(stem@, parts_rep(g, head, depth as nat), parts_rep(g, tail, depth as nat));
            lemma_merge_fits(rmerge(stem@, parts_rep(g, head, depth as nat)), parts_rep(g, tail, depth as nat));
            lemma_merge_fits(stem@, parts_rep(g, head, depth as nat));
            lemma_merge_fits(parts_rep(g, entries.take(i as int), depth as nat), node_rep(g, e.1, depth as nat));
            lemma_merge_assoc(stem@, parts_rep(g, entries.take(i as int), depth as nat), node_rep(g, e.1, depth as nat));
        }
        let part = count_prefix(board, rep, depth_cap, prefix);
        total = total.merge(part);
        i += 1;
    }
    proof {
        assert(entries.take(i as int) =~= entries);
    }
    total
}

/// Choose the split depth of a parallel run: the shallowest depth, from 1,
/// that yields at least four prefixes per thread, to a fixed ceiling; and
/// return it with the count above it and the prefixes reaching it.
pub fn plan(board: &Board, rep: Repetition, opts: Options) -> (r: (usize, Report, Vec<Vec<Move>>))
    requires
        board.wf(),
        rfits(games_rep(board@, rep, opts.depth_cap)),
    ensures
        1 <= r.0 <= MAX_SPLIT_DEPTH,
        r.1@ == node_rep(with_split(game_rules(board@, rep, opts.depth_cap), r.0 as nat), root_node(rep), 0),
        pviews(r.2@) == paths_of(
            node_prefixes(with_split(game_rules(board@, rep, opts.depth_cap), r.0 as nat), root_node(rep), 0, Seq::empty()),
        ),
{
    let ghost g = game_rules(board@, rep, opts.depth_cap);
    let threads = opts.threads;
    let mut depth: usize = 1;
    proof {
        lemma_stem_fits(board@, rep, opts.depth_cap, 1);
    }
    let first = split(board, rep, opts.depth_cap, depth);
    let mut stem = first.0;
    let mut prefixes = first.1;
    while prefixes.len() > 0 && prefixes.len() / 4 < threads && depth < MAX_SPLIT_DEPTH
        invariant
            board.wf(),
            g == game_rules(board@, rep, opts.depth_cap),
            rfits(games_rep(board@, rep, opts.depth_cap)),
            1 <= depth <= MAX_SPLIT_DEPTH,
            stem@ == node_rep(with_split(g, depth as nat), root_node(rep), 0),
            pviews(prefixes@) == paths_of(node_prefixes(with_split(g, depth as nat), root_node(rep), 0, Seq::empty())),
        decreases MAX_SPLIT_DEPTH - depth,
    {
        depth += 1;
        proof {
            lemma_stem_fits(board@, rep, opts.depth_cap, depth as nat);
        }
        let deeper = split(board, rep, opts.depth_cap, depth);
        stem = deeper.0;
        prefixes = deeper.1;
    }
    (depth, stem, prefixes)
}

/// The count above any split depth fits wherever the whole count does.
proof fn lemma_stem_fits(b: BoardModel, rep: Repetition, cap: Option<usize>, d: nat)
    requires
        b.dims.wf(),
        b.dims.size() <= MAX_TABLE_POINTS,
        rfits(games_rep(b, rep, cap)),
    ensures
        rfits(node_rep(with_split(game_rules(b, rep, cap), d), root_node(rep), 0)),
{
    let g = game_rules(b, rep, cap);
    let rs = with_split(g, d);
    lemma_root_ok(g);
    law_split_total(b, rep, cap, d);
    lemma_prefix_replay(rs, root_node(rep), root_node(rep), 0, Seq::empty(), d);
    let entries = node_prefixes(rs, root_node(rep), 0, Seq::empty());
    assert forall|k: int| 0 <= k < entries.len() implies node_ok(g, #[trigger] entries[k].1) by {}
    lemma_parts_nonneg(g, entries, d);
    lemma_rep_nonneg(rs, root_node(rep), 0);
    lemma_merge_fits(node_rep(rs, root_node(rep), 0), parts_rep(g, entries, d));
}

/// The prefix-split search, its parts counted one after another and
/// merged in prefix order.
fn parallel(board: &Board, rep: Repetition, opts: Options) -> (r: Report)
    requires
        board.wf(),
        rfits(games_rep(board@, rep, opts.depth_cap)),
    ensures
        r@ == games_rep(board@, rep, opts.depth_cap),
{
    let (depth, stem, prefixes) = plan(board, rep, opts);
    sum_prefixes(board, rep, opts.depth_cap, depth, stem, &prefixes)
}

/// Count the games of a board already built, from the empty position with
/// Black to move. The thread count changes nothing that is counted.
pub fn count_on(board: &Board, rep: Repetition, opts: Options) -> (r: Report)
    requires
        board.wf(),
        rfits(games_rep(board@, rep, opts.depth_cap)),
    ensures
        r@ == games_rep(board@, rep, opts.depth_cap),
{
    if opts.threads <= 1 {
        return serial(board, rep, opts.depth_cap);
    }
    parallel(board, rep, opts)
}

/// Count the games of a board under a repetition rule and a suicide
/// convention, from the empty position with Black to move. A board the
/// transition table refuses is refused.
pub fn count_games(dims: Dims, rep: Repetition, suicide: Suicide, opts: Options) -> (r: Result<Report, TooLarge>)
    requires
        dims.wf(),
        dims.size() <= MAX_TABLE_POINTS ==> rfits(games_rep(BoardModel { dims, suicide }, rep, opts.depth_cap)),
    ensures
        r is Ok <==> dims.size() <= MAX_TABLE_POINTS,
        match r {
            Ok(report) => report@ == games_rep(BoardModel { dims, suicide }, rep, opts.depth_cap),
            Err(e) => e == (TooLarge { dims, limit: MAX_TABLE_POINTS }),
        },
{
    let board = match Board::new(dims, suicide) {
        Ok(b) => b,
        Err(e) => {
            return Err(e);
        },
    };
    Ok(count_on(&board, rep, opts))
}

} // verus!
