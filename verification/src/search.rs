//! The fast path: alpha-beta over the transition table, with make and unmake
//! on a dense archive.
//!
//! The inner loop runs no rule. It reads [`RuleTable`], whose contract says
//! every entry is what the rules give, and it archives and un-archives one
//! key per move rather than cloning a history.
//!
//! Alpha-beta returns the minimax value of the tree whatever order it visits
//! moves in, so the value of [`solve`] does not depend on the order and its
//! node count does. The default order, [`MoveOrder::Heuristic`], keeps the
//! pass where the move list puts it and sorts the plays on either side of it
//! by the area difference of the position they lead to, best for the mover
//! first, the move list's order breaking ties. [`MoveOrder::Static`] is the
//! move list itself.
//!
//! The window is the whole score range, `-(m · n) - 1` to `m · n + 1`, so the
//! value returned is exact rather than a bound: area scoring counts every
//! point for at most one color.
//!
//! There is no transposition table: two states with the same position and
//! different archives do not have the same continuations.
//!
//! A search may be given a node budget. Exceeding it abandons the search and
//! returns no value, because a partial alpha-beta result is a bound whose
//! direction depends on where the search stopped.

use vstd::prelude::*;

use crate::archive::{key_bit, Archive, ArchiveKey};
use crate::code::{code_of, encode, pow3, PosCode};
use crate::config::{Dims, Repetition, Suicide};
use crate::enumerate::{arch_key, child, codes, lemma_child_ok, measure, node_ok, replay, verdict, Node, Rules, Verdict};
use crate::naive::{better, best_from, play_rules, root_state, value_spec, wins_from_move, wins_spec};
use crate::reference::{
    all_moves, all_moves_spec, diff_spec, lemma_areas_disjoint, lemma_legality_is_permits, permits_spec,
    step_spec, winner_z_spec, Color, Move, Position, StateModel,
};
use crate::table::{area_gen, pos_of, RuleTable, TooLarge, MAX_TABLE_POINTS};
use crate::walk::{abs, lemma_abs_ok, lemma_sim_step, walk_ok};

verus! {

/// The area difference of the position a code names.
pub open spec fn diff_gen(d: Dims, code: nat) -> int {
    diff_spec(pos_of(d, code))
}

/// The minimax area difference below a search state: a finished game is
/// worth its area difference; otherwise the mover takes the best of the
/// moves the archive does not refuse.
pub open spec fn nvalue(r: Rules, n: Node) -> int
    decreases measure(r, n), 1int, 0int,
    when node_ok(r, n)
{
    if n.passes >= 2 {
        diff_gen(r.dims, n.code)
    } else {
        match nbest(r, n, 0) {
            Some(v) => v,
            None => 0,
        }
    }
}

/// The best value among the legal moves from the `i`-th on.
pub open spec fn nbest(r: Rules, n: Node, i: int) -> Option<int>
    decreases measure(r, n), 0int, all_moves_spec(r.dims).len() - i,
    when node_ok(r, n) && n.passes < 2 && 0 <= i
{
    let moves = all_moves_spec(r.dims);
    if i >= moves.len() {
        None
    } else {
        let mv = moves[i];
        let rest = nbest(r, n, i + 1);
        match verdict(r, n, mv) {
            Verdict::Legal(s) => {
                proof {
                    lemma_child_ok(r, n, mv, s);
                }
                better(n.to_move == Color::Black, Some(nvalue(r, child(r, n, mv, s))), rest)
            },
            _ => rest,
        }
    }
}

/// Whether `c` has a winning strategy below a search state at a komi floor.
pub open spec fn nwins(r: Rules, n: Node, k: int, c: Color) -> bool
    decreases measure(r, n), 1int, 0int,
    when node_ok(r, n)
{
    if n.passes >= 2 {
        winner_z_spec(pos_of(r.dims, n.code), k) == c
    } else {
        nwins_from(r, n, k, c, 0)
    }
}

/// The verdict over the legal moves from the `i`-th on: for the mover,
/// whether one of them wins; for the other color, whether all of them do.
pub open spec fn nwins_from(r: Rules, n: Node, k: int, c: Color, i: int) -> bool
    decreases measure(r, n), 0int, all_moves_spec(r.dims).len() - i,
    when node_ok(r, n) && n.passes < 2 && 0 <= i
{
    let moves = all_moves_spec(r.dims);
    let mover = n.to_move == c;
    if i >= moves.len() {
        !mover
    } else {
        let mv = moves[i];
        let rest = nwins_from(r, n, k, c, i + 1);
        match verdict(r, n, mv) {
            Verdict::Legal(s) => {
                proof {
                    lemma_child_ok(r, n, mv, s);
                }
                let won = nwins(r, child(r, n, mv, s), k, c);
                if mover {
                    won || rest
                } else {
                    won && rest
                }
            },
            _ => rest,
        }
    }
}

/// The best value from the `i`-th move on is that move's value, when it is
/// legal, bettered by the rest.
proof fn lemma_nbest_unfold(r: Rules, n: Node, i: int)
    requires
        node_ok(r, n),
        n.passes < 2,
        0 <= i < all_moves_spec(r.dims).len(),
    ensures
        nbest(r, n, i) == match verdict(r, n, all_moves_spec(r.dims)[i]) {
            Verdict::Legal(s) => better(
                n.to_move == Color::Black,
                Some(nvalue(r, child(r, n, all_moves_spec(r.dims)[i], s))),
                nbest(r, n, i + 1),
            ),
            _ => nbest(r, n, i + 1),
        },
{
    let mv = all_moves_spec(r.dims)[i];
    assert(all_moves_spec(r.dims).contains(mv));
    if let Verdict::Legal(s) = verdict(r, n, mv) {
        lemma_child_ok(r, n, mv, s);
    }
}

/// The verdict from the `i`-th move on is that move's verdict, when it is
/// legal, joined with the rest.
proof fn lemma_nwins_unfold(r: Rules, n: Node, k: int, c: Color, i: int)
    requires
        node_ok(r, n),
        n.passes < 2,
        0 <= i < all_moves_spec(r.dims).len(),
    ensures
        nwins_from(r, n, k, c, i) == match verdict(r, n, all_moves_spec(r.dims)[i]) {
            Verdict::Legal(s) => if n.to_move == c {
                nwins(r, child(r, n, all_moves_spec(r.dims)[i], s), k, c) || nwins_from(r, n, k, c, i + 1)
            } else {
                nwins(r, child(r, n, all_moves_spec(r.dims)[i], s), k, c) && nwins_from(r, n, k, c, i + 1)
            },
            _ => nwins_from(r, n, k, c, i + 1),
        },
{
    let mv = all_moves_spec(r.dims)[i];
    assert(all_moves_spec(r.dims).contains(mv));
    if let Verdict::Legal(s) = verdict(r, n, mv) {
        lemma_child_ok(r, n, mv, s);
    }
}


/// Whether a move is legal from `n`.
pub open spec fn legal(r: Rules, n: Node, mv: Move) -> bool {
    verdict(r, n, mv) is Legal
}

/// The value below the state a legal move leads to.
pub open spec fn succ_value(r: Rules, n: Node, mv: Move) -> int {
    match verdict(r, n, mv) {
        Verdict::Legal(s) => nvalue(r, child(r, n, mv, s)),
        _ => 0,
    }
}

/// Whether `c` wins below the state a legal move leads to.
pub open spec fn succ_wins(r: Rules, n: Node, k: int, c: Color, mv: Move) -> bool {
    match verdict(r, n, mv) {
        Verdict::Legal(s) => nwins(r, child(r, n, mv, s), k, c),
        _ => false,
    }
}

/// The best value from the `i`-th move on bounds every legal move's value
/// from there for the mover and is attained by one of them; there is none
/// when no move from there is legal.
proof fn lemma_nbest_char(r: Rules, n: Node, i: int)
    requires
        node_ok(r, n),
        n.passes < 2,
        0 <= i <= all_moves_spec(r.dims).len(),
    ensures
        match nbest(r, n, i) {
            None => forall|j: int| i <= j < all_moves_spec(r.dims).len() ==> !legal(r, n, #[trigger] all_moves_spec(r.dims)[j]),
            Some(v) => {
                &&& forall|j: int|
                    i <= j < all_moves_spec(r.dims).len() && legal(r, n, #[trigger] all_moves_spec(r.dims)[j]) ==> if n.to_move
                        == Color::Black {
                        succ_value(r, n, all_moves_spec(r.dims)[j]) <= v
                    } else {
                        succ_value(r, n, all_moves_spec(r.dims)[j]) >= v
                    }
                &&& exists|j: int|
                    i <= j < all_moves_spec(r.dims).len() && legal(r, n, #[trigger] all_moves_spec(r.dims)[j]) && succ_value(
                        r,
                        n,
                        all_moves_spec(r.dims)[j],
                    ) == v
            },
        },
    decreases all_moves_spec(r.dims).len() - i,
{
    let moves = all_moves_spec(r.dims);
    if i < moves.len() {
        lemma_nbest_char(r, n, i + 1);
        lemma_nbest_unfold(r, n, i);
        let mv = moves[i];
        if legal(r, n, mv) {
            let v = succ_value(r, n, mv);
            match nbest(r, n, i + 1) {
                None => {
                    assert(nbest(r, n, i) == Some(v));
                },
                Some(w) => {
                    let jw = choose|j: int|
                        i + 1 <= j < moves.len() && legal(r, n, #[trigger] moves[j]) && succ_value(r, n, moves[j]) == w;
                    let b = nbest(r, n, i).unwrap();
                    if b == v {
                        assert(legal(r, n, moves[i]));
                    } else {
                        assert(legal(r, n, moves[jw]));
                    }
                },
            }
        }
    }
}

/// The value below a state that has not ended bounds the value of every
/// legal move for the mover, and some legal move attains it.
pub proof fn lemma_nvalue_char(r: Rules, n: Node)
    requires
        node_ok(r, n),
        n.passes < 2,
    ensures
        forall|mv: Move|
            all_moves_spec(r.dims).contains(mv) && #[trigger] legal(r, n, mv) ==> if n.to_move == Color::Black {
                succ_value(r, n, mv) <= nvalue(r, n)
            } else {
                succ_value(r, n, mv) >= nvalue(r, n)
            },
        exists|mv: Move| all_moves_spec(r.dims).contains(mv) && #[trigger] legal(r, n, mv) && succ_value(r, n, mv) == nvalue(r, n),
{
    let moves = all_moves_spec(r.dims);
    lemma_nbest_char(r, n, 0);
    assert(moves[0] == Move::Pass);
    assert(legal(r, n, moves[0]));
    let v = nbest(r, n, 0).unwrap();
    assert(nvalue(r, n) == v);
    assert forall|mv: Move| moves.contains(mv) && #[trigger] legal(r, n, mv) implies if n.to_move == Color::Black {
        succ_value(r, n, mv) <= v
    } else {
        succ_value(r, n, mv) >= v
    } by {
        let j = choose|j: int| 0 <= j < moves.len() && moves[j] == mv;
        assert(legal(r, n, moves[j]));
    }
    let j = choose|j: int| 0 <= j < moves.len() && legal(r, n, #[trigger] moves[j]) && succ_value(r, n, moves[j]) == v;
    assert(moves.contains(moves[j]));
}

/// The verdict from the `i`-th move on: for the mover, whether some legal
/// move from there wins; for the other color, whether every one does.
proof fn lemma_nwins_char(r: Rules, n: Node, k: int, c: Color, i: int)
    requires
        node_ok(r, n),
        n.passes < 2,
        0 <= i <= all_moves_spec(r.dims).len(),
    ensures
        nwins_from(r, n, k, c, i) == if n.to_move == c {
            exists|j: int|
                i <= j < all_moves_spec(r.dims).len() && legal(r, n, #[trigger] all_moves_spec(r.dims)[j]) && succ_wins(
                    r,
                    n,
                    k,
                    c,
                    all_moves_spec(r.dims)[j],
                )
        } else {
            forall|j: int|
                i <= j < all_moves_spec(r.dims).len() && legal(r, n, #[trigger] all_moves_spec(r.dims)[j]) ==> succ_wins(
                    r,
                    n,
                    k,
                    c,
                    all_moves_spec(r.dims)[j],
                )
        },
    decreases all_moves_spec(r.dims).len() - i,
{
    let moves = all_moves_spec(r.dims);
    if i < moves.len() {
        lemma_nwins_char(r, n, k, c, i + 1);
        lemma_nwins_unfold(r, n, k, c, i);
        if n.to_move == c {
            if nwins_from(r, n, k, c, i + 1) {
                let j = choose|j: int|
                    i + 1 <= j < moves.len() && legal(r, n, #[trigger] moves[j]) && succ_wins(r, n, k, c, moves[j]);
                assert(legal(r, n, moves[j]));
            }
        } else {
            if !nwins_from(r, n, k, c, i + 1) {
                let j = choose|j: int|
                    i + 1 <= j < moves.len() && legal(r, n, #[trigger] moves[j]) && !succ_wins(r, n, k, c, moves[j]);
                assert(legal(r, n, moves[j]));
            }
        }
    }
}

/// Below a state that has not ended, the mover wins when some legal move
/// wins, and the other color wins when every legal move does.
pub proof fn lemma_nwins_moves(r: Rules, n: Node, k: int, c: Color)
    requires
        node_ok(r, n),
        n.passes < 2,
    ensures
        nwins(r, n, k, c) == if n.to_move == c {
            exists|mv: Move| all_moves_spec(r.dims).contains(mv) && #[trigger] legal(r, n, mv) && succ_wins(r, n, k, c, mv)
        } else {
            forall|mv: Move| all_moves_spec(r.dims).contains(mv) && #[trigger] legal(r, n, mv) ==> succ_wins(r, n, k, c, mv)
        },
{
    let moves = all_moves_spec(r.dims);
    lemma_nwins_char(r, n, k, c, 0);
    if n.to_move == c {
        if nwins(r, n, k, c) {
            let j = choose|j: int| 0 <= j < moves.len() && legal(r, n, #[trigger] moves[j]) && succ_wins(r, n, k, c, moves[j]);
            assert(moves.contains(moves[j]));
        }
        if exists|mv: Move| moves.contains(mv) && #[trigger] legal(r, n, mv) && succ_wins(r, n, k, c, mv) {
            let mv = choose|mv: Move| moves.contains(mv) && #[trigger] legal(r, n, mv) && succ_wins(r, n, k, c, mv);
            let j = choose|j: int| 0 <= j < moves.len() && moves[j] == mv;
            assert(legal(r, n, moves[j]));
        }
    } else {
        if nwins(r, n, k, c) {
            assert forall|mv: Move| moves.contains(mv) && #[trigger] legal(r, n, mv) implies succ_wins(r, n, k, c, mv) by {
                let j = choose|j: int| 0 <= j < moves.len() && moves[j] == mv;
                assert(legal(r, n, moves[j]));
            }
        } else {
            let j = choose|j: int| 0 <= j < moves.len() && legal(r, n, #[trigger] moves[j]) && !succ_wins(r, n, k, c, moves[j]);
            assert(moves.contains(moves[j]));
            assert(legal(r, n, moves[j]));
        }
    }
}


/// The area difference of a position is bounded by its number of points.
proof fn lemma_diff_bound(d: Dims, code: nat)
    ensures
        -(d.size() as int) <= diff_gen(d, code) <= d.size(),
{
    let b = pos_of(d, code);
    crate::code::lemma_cells_of_len(d.size(), code);
    lemma_areas_disjoint(b, b.cells.len() as int);
}

/// The value below any state is bounded by the number of points.
pub proof fn lemma_nvalue_bound(r: Rules, n: Node)
    requires
        node_ok(r, n),
    ensures
        -(r.dims.size() as int) <= nvalue(r, n) <= r.dims.size(),
    decreases measure(r, n),
{
    if n.passes >= 2 {
        lemma_diff_bound(r.dims, n.code);
    } else {
        lemma_nvalue_char(r, n);
        let mv = choose|mv: Move| all_moves_spec(r.dims).contains(mv) && #[trigger] legal(r, n, mv) && succ_value(r, n, mv)
            == nvalue(r, n);
        if let Verdict::Legal(s) = verdict(r, n, mv) {
            lemma_child_ok(r, n, mv, s);
            lemma_nvalue_bound(r, child(r, n, mv, s));
        }
    }
}

/// A finished game's position is the one its code names.
proof fn lemma_board_of_code(r: Rules, st: StateModel)
    requires
        walk_ok(r.dims, st),
    ensures
        pos_of(r.dims, abs(r.rep, st).code) == st.now.board,
{
    crate::code::law_decode_encode(st.now.board.cells);
    assert(pos_of(r.dims, abs(r.rep, st).code) =~= st.now.board);
}

/// The best value of the naive recursion from the `i`-th move on is the
/// best value of the search state the state of play stands for.
proof fn lemma_best_agrees(r: Rules, st: StateModel, i: int)
    requires
        walk_ok(r.dims, st),
        st.passes < 2,
        0 <= i <= all_moves_spec(r.dims).len(),
    ensures
        best_from(r, st, i) == nbest(r, abs(r.rep, st), i),
    decreases measure(r, abs(r.rep, st)), 0int, all_moves_spec(r.dims).len() - i,
{
    let moves = all_moves_spec(r.dims);
    let n = abs(r.rep, st);
    lemma_abs_ok(r, st);
    if i < moves.len() {
        let mv = moves[i];
        assert(moves.contains(mv));
        lemma_sim_step(r, st, mv);
        lemma_legality_is_permits(st, mv, r.rep, r.suicide);
        crate::naive::lemma_best_unfold(r, st, i);
        lemma_nbest_unfold(r, n, i);
        lemma_best_agrees(r, st, i + 1);
        if permits_spec(st, mv, r.rep, r.suicide) {
            law_value_agrees(r, step_spec(st, mv, r.suicide));
        }
    }
}

/// The verdict of the naive recursion from the `i`-th move on is the
/// verdict of the search state the state of play stands for.
proof fn lemma_wins_agree(r: Rules, st: StateModel, k: int, c: Color, i: int)
    requires
        walk_ok(r.dims, st),
        st.passes < 2,
        0 <= i <= all_moves_spec(r.dims).len(),
    ensures
        wins_from_move(r, st, k, c, i) == nwins_from(r, abs(r.rep, st), k, c, i),
    decreases measure(r, abs(r.rep, st)), 0int, all_moves_spec(r.dims).len() - i,
{
    let moves = all_moves_spec(r.dims);
    let n = abs(r.rep, st);
    lemma_abs_ok(r, st);
    if i < moves.len() {
        let mv = moves[i];
        assert(moves.contains(mv));
        lemma_sim_step(r, st, mv);
        lemma_legality_is_permits(st, mv, r.rep, r.suicide);
        crate::naive::lemma_wins_unfold(r, st, k, c, i);
        lemma_nwins_unfold(r, n, k, c, i);
        lemma_wins_agree(r, st, k, c, i + 1);
        if permits_spec(st, mv, r.rep, r.suicide) {
            law_verdict_agrees(r, step_spec(st, mv, r.suicide), k, c);
        }
    }
}

/// The minimax value the rules define over states of play is the one the
/// search defines over search states: the fast engine's value is the
/// arbiter's, on every state of every board under both rules.
pub proof fn law_value_agrees(r: Rules, st: StateModel)
    requires
        walk_ok(r.dims, st),
    ensures
        value_spec(r, st) == nvalue(r, abs(r.rep, st)),
    decreases measure(r, abs(r.rep, st)), 1int, 0int,
{
    lemma_abs_ok(r, st);
    if st.passes >= 2 {
        lemma_board_of_code(r, st);
    } else {
        lemma_best_agrees(r, st, 0);
    }
}

/// Whether a color wins by the rules' recursion over states of play is
/// whether it wins by the search's recursion over search states, at every
/// komi floor.
pub proof fn law_verdict_agrees(r: Rules, st: StateModel, k: int, c: Color)
    requires
        walk_ok(r.dims, st),
    ensures
        wins_spec(r, st, k, c) == nwins(r, abs(r.rep, st), k, c),
    decreases measure(r, abs(r.rep, st)), 1int, 0int,
{
    lemma_abs_ok(r, st);
    if st.passes >= 2 {
        lemma_board_of_code(r, st);
    } else {
        lemma_wins_agree(r, st, k, c, 0);
    }
}


/// The order a search visits the moves of a node in.
///
/// Alpha-beta returns the minimax value whatever order it visits moves in,
/// and its cutoffs depend on the order entirely, so this is a performance
/// choice.
#[derive(Clone, Copy, Debug, PartialEq, Eq, Structural)]
pub enum MoveOrder {
    /// The pass where the move list puts it, then the plays best for the
    /// mover first by a one-ply area count. The default.
    Heuristic,
    /// The move list's own order: the pass, then each point row-major.
    Static,
}

impl Default for MoveOrder {
    fn default() -> (r: Self)
        ensures
            r == MoveOrder::Heuristic,
    {
        MoveOrder::Heuristic
    }
}

/// What a score search found.
#[derive(Clone, Copy, Debug, PartialEq, Eq)]
pub struct Solution {
    /// The minimax area difference, or `None` when the node budget stopped
    /// the search before it had one.
    pub value: Option<i32>,
    /// States visited, the root included.
    pub nodes: u64,
    /// The greatest number of moves from the root the search reached.
    pub max_depth: usize,
    /// Plays positional superko would have refused that the search made,
    /// counted when made; always zero under positional superko.
    pub ssk_only: u64,
    /// Plays skipped as mirror images of earlier ones: none, since this
    /// solver visits every legal play.
    pub mirrored_skips: u64,
}

/// What a verdict search found.
#[derive(Clone, Copy, Debug, PartialEq, Eq)]
pub struct Decision {
    /// Whether the named color has a winning strategy, or `None` when the
    /// node budget stopped the search.
    pub wins: Option<bool>,
    /// States visited, the root included.
    pub nodes: u64,
    /// The greatest number of moves from the root the search reached.
    pub max_depth: usize,
    /// Plays skipped as mirror images of earlier ones: none, since this
    /// solver visits every legal play.
    pub mirrored_skips: u64,
}

/// What a solver is: its board, its suicide convention, its repetition
/// rule, its budget, its move order and whether its move list is reversed.
pub struct SolverModel {
    /// The board.
    pub dims: Dims,
    /// The suicide convention of the table.
    pub suicide: Suicide,
    /// The repetition rule searched under.
    pub rep: Repetition,
    /// The node budget of each search.
    pub budget: Option<u64>,
    /// The order moves are visited in.
    pub order: MoveOrder,
    /// Whether the move list runs from the last point to the pass.
    pub reversed: bool,
}

/// The state a search is seated at: a root of play, its own situation
/// archived.
pub open spec fn seat_node(rep: Repetition, code: nat, c: Color) -> Node {
    Node { code, to_move: c, passes: 0, bits: Set::empty().insert(arch_key(rep, code, c)) }
}

/// Whether a successor is one positional superko would have refused while
/// situational superko permits it.
pub open spec fn gap_spec(r: Rules, n: Node, mv: Move, s: nat) -> bool {
    mv is Play && r.rep is Ssk && (n.bits.contains(2 * s as int) || n.bits.contains(2 * s as int + 1))
}

/// A move of an ordered move list: the move, its successor, and whether
/// only situational superko permits it.
pub type Entry = (Move, PosCode, bool);

/// An entry is a legal move with its successor and gap.
pub open spec fn entry_ok(r: Rules, n: Node, e: Entry) -> bool {
    &&& all_moves_spec(r.dims).contains(e.0)
    &&& verdict(r, n, e.0) == Verdict::Legal(e.1.0 as nat)
    &&& e.2 == gap_spec(r, n, e.0, e.1.0 as nat)
}

/// The entry of a legal move.
pub open spec fn entry_of(r: Rules, n: Node, mv: Move) -> Entry {
    let s = verdict(r, n, mv)->Legal_0;
    (mv, PosCode(s as u32), gap_spec(r, n, mv, s))
}

/// An ordered move list holds legal moves only, and every legal one.
pub open spec fn list_ok(r: Rules, n: Node, l: Seq<Entry>) -> bool {
    &&& forall|k: int| 0 <= k < l.len() ==> entry_ok(r, n, #[trigger] l[k])
    &&& forall|mv: Move| all_moves_spec(r.dims).contains(mv) && #[trigger] legal(r, n, mv) ==> l.contains(entry_of(r, n, mv))
}

/// The value below the state an entry leads to.
pub open spec fn entry_value(r: Rules, n: Node, e: Entry) -> int {
    nvalue(r, child(r, n, e.0, e.1.0 as nat))
}

/// Whether `c` wins below the state an entry leads to.
pub open spec fn entry_wins(r: Rules, n: Node, k: int, c: Color, e: Entry) -> bool {
    nwins(r, child(r, n, e.0, e.1.0 as nat), k, c)
}

/// The fail-soft window property: a result at or below the window bounds
/// the value from above, one at or above it bounds it from below, and one
/// inside it is the value.
pub open spec fn fail_soft(v: int, value: int, alpha: int, beta: int) -> bool {
    &&& v <= alpha ==> value <= v
    &&& v >= beta ==> value >= v
    &&& alpha < v < beta ==> v == value
}

/// Exchanging two elements keeps the elements.
proof fn lemma_swap_contains<T>(s: Seq<T>, a: int, b: int)
    requires
        0 <= a < s.len(),
        0 <= b < s.len(),
    ensures
        forall|x: T| s.contains(x) <==> #[trigger] s.update(a, s[b]).update(b, s[a]).contains(x),
{
    let t = s.update(a, s[b]).update(b, s[a]);
    assert forall|x: T| s.contains(x) <==> #[trigger] t.contains(x) by {
        if s.contains(x) {
            let i = choose|i: int| 0 <= i < s.len() && s[i] == x;
            if i == a {
                assert(t[b] == x);
            } else if i == b {
                assert(t[a] == x);
            } else {
                assert(t[i] == x);
            }
        }
        if t.contains(x) {
            let i = choose|i: int| 0 <= i < t.len() && t[i] == x;
            if i == a {
                assert(s[b] == x);
            } else if i == b {
                assert(s[a] == x);
            } else {
                assert(s[i] == x);
            }
        }
    }
}

/// Reversing a sequence keeps its elements.
proof fn lemma_reverse_contains<T>(s: Seq<T>)
    ensures
        forall|x: T| s.contains(x) <==> #[trigger] s.reverse().contains(x),
{
    assert forall|x: T| s.contains(x) <==> #[trigger] s.reverse().contains(x) by {
        if s.contains(x) {
            let i = choose|i: int| 0 <= i < s.len() && s[i] == x;
            assert(s.reverse()[s.len() - 1 - i] == x);
        }
        if s.reverse().contains(x) {
            let i = choose|i: int| 0 <= i < s.len() && s.reverse()[i] == x;
            assert(s[s.len() - 1 - i] == x);
        }
    }
}

/// The point index of every play of a move list, kept beside it.
pub open spec fn points_ok(d: Dims, moves: Seq<Move>, points: Seq<usize>) -> bool {
    &&& points.len() == moves.len()
    &&& forall|i: int|
        0 <= i < moves.len() && (#[trigger] moves[i]) is Play ==> points[i] == d.index_of(moves[i]->Play_0)
}

/// The point index of every play of a move list of the board.
fn points_of(dims: Dims, moves: &Vec<Move>) -> (r: Vec<usize>)
    requires
        dims.wf(),
        forall|i: int| 0 <= i < moves@.len() ==> all_moves_spec(dims).contains(#[trigger] moves@[i]),
    ensures
        points_ok(dims, moves@, r@),
{
    let mut out: Vec<usize> = Vec::new();
    let mut i: usize = 0;
    while i < moves.len()
        invariant
            dims.wf(),
            forall|i: int| 0 <= i < moves@.len() ==> all_moves_spec(dims).contains(#[trigger] moves@[i]),
            i <= moves@.len(),
            out@.len() == i,
            forall|j: int| 0 <= j < i && (#[trigger] moves@[j]) is Play ==> out@[j] == dims.index_of(moves@[j]->Play_0),
        decreases moves@.len() - i,
    {
        let mv = moves[i];
        match mv {
            Move::Pass => out.push(0),
            Move::Play(p) => {
                proof {
                    assert(all_moves_spec(dims).contains(moves@[i as int]));
                    let j = choose|j: int| 0 <= j < all_moves_spec(dims).len() && all_moves_spec(dims)[j] == mv;
                    assert(j >= 1);
                    crate::config::lemma_point_of_in_range(dims, j - 1);
                }
                out.push(dims.index(p));
            },
        }
        i += 1;
    }
    out
}

/// One search over one board under one repetition rule, reusable across
/// roots: every make is paired with an unmake, so a completed or abandoned
/// search leaves the archive empty.
pub struct Solver<'t> {
    table: &'t RuleTable,
    rep: Repetition,
    archive: Archive,
    moves: Vec<Move>,
    move_points: Vec<usize>,
    span: i32,
    code: PosCode,
    to_move: Color,
    passes: u32,
    depth: usize,
    order: MoveOrder,
    budget: Option<u64>,
    nodes: u64,
    max_depth: usize,
    ssk_only: u64,
    over_budget: bool,
    mirrored_skips: u64,
    stack: Vec<Entry>,
}

/// What undoes a move.
#[derive(Clone, Copy, Debug)]
struct Undo {
    key: ArchiveKey,
    was_new: bool,
    code: PosCode,
    to_move: Color,
    passes: u32,
}

impl<'t> View for Solver<'t> {
    type V = SolverModel;

    closed spec fn view(&self) -> SolverModel {
        SolverModel {
            dims: self.table@.dims,
            suicide: self.table@.suicide,
            rep: self.rep,
            budget: self.budget,
            order: self.order,
            reversed: self.moves@ != all_moves_spec(self.table@.dims),
        }
    }
}

impl<'t> Solver<'t> {
    /// The rules the solver searches under.
    pub open spec fn rules(&self) -> Rules {
        play_rules(self@.dims, self@.rep, self@.suicide)
    }

    /// The configuration a search leaves as it found it.
    spec fn frame(&self) -> (RuleTable, Repetition, Seq<Move>, Seq<usize>, i32, MoveOrder, Option<u64>) {
        (*self.table, self.rep, self.moves@, self.move_points@, self.span, self.order, self.budget)
    }

    spec fn node(&self) -> Node {
        Node { code: self.code.0 as nat, to_move: self.to_move, passes: self.passes as nat, bits: self.archive@.bits }
    }

    /// The table and the archive are sound, and the move list is every
    /// move, forwards or backwards.
    spec fn sound(&self) -> bool {
        &&& self.table.wf()
        &&& self.archive.wf()
        &&& self.archive@.codes == codes(self.table@.dims)
        &&& self.span as int == self.table@.dims.size()
        &&& codes(self.table@.dims) <= 531441
        &&& self.table@.dims.size() <= MAX_TABLE_POINTS
        &&& (self.moves@ == all_moves_spec(self.table@.dims) || self.moves@ == all_moves_spec(
            self.table@.dims,
        ).reverse())
        &&& points_ok(self.table@.dims, self.moves@, self.move_points@)
    }

    /// The counters agree with the budget: an abandoned search ran out of
    /// nodes, and a running one has not.
    spec fn budget_ok(&self) -> bool {
        &&& self.over_budget <==> (self.budget is Some && self.nodes > self.budget.unwrap())
        &&& self.over_budget ==> self.nodes == self.budget.unwrap() + 1
        &&& self.rep is Psk ==> self.ssk_only == 0
    }

    /// Between roots: sound, with an empty archive.
    pub closed spec fn wf(&self) -> bool {
        &&& self.sound()
        &&& self.archive@.bits == Set::<int>::empty()
    }

    /// During a search: sound, at a state the search can stand in, its own
    /// key archived, the depth bounded by what is left of the measure.
    spec fn searching(&self) -> bool {
        &&& self.sound()
        &&& node_ok(self.rules(), self.node())
        &&& self.archive@.bits.contains(arch_key(self.rep, self.code.0 as nat, self.to_move))
        &&& self.depth + measure(self.rules(), self.node()) <= 6 * codes(self.table@.dims) + 2
        &&& self.budget_ok()
        &&& self.rep is Psk ==> forall|b: int| #[trigger] self.archive@.bits.contains(b) ==> b % 2 == 0
    }

    /// A solver over a board's transition table under a repetition rule:
    /// no budget, the heuristic order, the move list forwards.
    pub fn new(table: &'t RuleTable, rep: Repetition) -> (r: Self)
        requires
            table.wf(),
        ensures
            r.wf(),
            r@ == (SolverModel {
                dims: table@.dims,
                suicide: table@.suicide,
                rep,
                budget: None,
                order: MoveOrder::Heuristic,
                reversed: false,
            }),
    {
        let dims = table.dims();
        proof {
            crate::code::lemma_pow3_monotone(dims.size(), MAX_TABLE_POINTS as nat);
            assert(pow3(12) == 531441) by {
                reveal_with_fuel(pow3, 13);
            }
        }
        let span = dims.point_count() as i32;
        let moves = all_moves(dims);
        let move_points = points_of(dims, &moves);
        Solver {
            table,
            rep,
            archive: Archive::new(dims),
            moves,
            move_points,
            span,
            code: PosCode(0),
            to_move: Color::Black,
            passes: 0,
            depth: 0,
            order: MoveOrder::Heuristic,
            budget: None,
            nodes: 0,
            max_depth: 0,
            ssk_only: 0,
            over_budget: false,
            mirrored_skips: 0,
            stack: Vec::new(),
        }
    }

    /// Stop a search that visits more than this many nodes, and report it
    /// unresolved rather than returning a partial answer.
    pub fn with_budget(self, budget: Option<u64>) -> (r: Self)
        requires
            self.wf(),
        ensures
            r.wf(),
            r@ == (SolverModel { budget, ..self@ }),
    {
        let mut s = self;
        s.budget = budget;
        s
    }

    /// Visit moves in the named order.
    pub fn with_order(self, order: MoveOrder) -> (r: Self)
        requires
            self.wf(),
        ensures
            r.wf(),
            r@ == (SolverModel { order, ..self@ }),
    {
        let mut s = self;
        s.order = order;
        s
    }

    /// Reverse the underlying move list: each point in reverse row-major
    /// order, then the pass. The value does not move; the node count does.
    pub fn with_reversed_moves(self) -> (r: Self)
        requires
            self.wf(),
        ensures
            r.wf(),
            r@ == (SolverModel { reversed: !self@.reversed, ..self@ }),
    {
        let mut s = self;
        let _dims = s.table.dims();
        let n = s.moves.len();
        let mut rev: Vec<Move> = Vec::new();
        let mut i: usize = 0;
        while i < n
            invariant
                n == s.moves@.len(),
                i <= n,
                rev@ == s.moves@.subrange(n - i, n as int).reverse(),
            decreases n - i,
        {
            rev.push(s.moves[n - 1 - i]);
            i += 1;
            assert(rev@ =~= s.moves@.subrange(n - i, n as int).reverse());
        }
        proof {
            let all = all_moves_spec(s.table@.dims);
            assert(s.moves@.subrange(0, n as int) =~= s.moves@);
            assert(all.reverse().reverse() =~= all);
            assert(all[0] == Move::Pass);
            assert(all.reverse()[all.len() - 1] == Move::Pass);
            if s.moves@ == all {
                assert(rev@ != all) by {
                    assert(rev@[rev@.len() - 1] == Move::Pass);
                    let d = s.table@.dims;
                    assert(d.size() >= 1) by (nonlinear_arith)
                        requires
                            d.rows > 0,
                            d.cols > 0,
                            d.size() == d.rows * d.cols,
                    ;
                    assert(all.len() == d.size() + 1);
                    assert(all[all.len() - 1] == Move::Play(d.point_of(d.size() - 1)));
                }
            }
        }
        proof {
            lemma_reverse_contains(all_moves_spec(s.table@.dims));
            assert forall|i: int| 0 <= i < rev@.len() implies all_moves_spec(s.table@.dims).contains(#[trigger] rev@[i]) by {
                assert(rev@.contains(rev@[i]));
            }
        }
        let points = points_of(s.table.dims(), &rev);
        s.moves = rev;
        s.move_points = points;
        s
    }

    /// The board this solver is over.
    pub fn dims(&self) -> (r: Dims)
        requires
            self.wf(),
        ensures
            r == self@.dims,
            r.wf(),
            r.size() <= MAX_TABLE_POINTS,
    {
        self.table.dims()
    }
}


/// Moving along a legal move keeps the depth within the measure.
proof fn lemma_area_fits(d: Dims, code: nat, c: Color)
    ensures
        area_gen(d, code, c) <= d.size(),
{
    crate::code::lemma_cells_of_len(d.size(), code);
    crate::reference::lemma_area_prefix_bound(pos_of(d, code), c, d.size() as int);
}

impl<'t> Solver<'t> {
    /// The archive key of a situation under the rule in force: positional
    /// superko fixes the color.
    fn key(&self, code: PosCode, to_move: Color) -> (r: ArchiveKey)
        ensures
            r.code == code,
            key_bit(r) == arch_key(self.rep, code.0 as nat, to_move),
    {
        match self.rep {
            Repetition::Ssk => ArchiveKey::new(code, to_move),
            Repetition::Psk => ArchiveKey::new(code, Color::Black),
        }
    }

    /// The area difference of a position named by its code.
    #[inline]
    fn diff_at(&self, code: PosCode) -> (r: i32)
        requires
            self.table.wf(),
            (code.0 as nat) < codes(self.table@.dims),
        ensures
            r == diff_gen(self.table@.dims, code.0 as nat),
    {
        let d = self.table.dims();
        proof {
            lemma_area_fits(d, code.0 as nat, Color::Black);
            lemma_area_fits(d, code.0 as nat, Color::White);
        }
        let black = self.table.area(code, Color::Black);
        let white = self.table.area(code, Color::White);
        black as i32 - white as i32
    }

    /// The successor of a move the rules permit, with whether only
    /// situational superko permits it, or `None` when it is refused.
    #[inline]
    fn legal_succ(&self, mv: Move, pi: usize, row: usize) -> (r: Option<(PosCode, bool)>)
        requires
            self.searching(),
            all_moves_spec(self.rules().dims).contains(mv),
            mv is Play ==> pi == self.rules().dims.index_of(mv->Play_0),
            row == crate::table::slot_of(self.rules().dims.size() as int, self.code.0 as int, crate::table::color_index(self.to_move), 0),
        ensures
            match verdict(self.rules(), self.node(), mv) {
                Verdict::Legal(s) => r == Some((PosCode(s as u32), gap_spec(self.rules(), self.node(), mv, s))),
                _ => r is None,
            },
    {
        let ghost r0 = self.rules();
        let ghost n0 = self.node();
        match mv {
            Move::Pass => Some((self.code, false)),
            Move::Play(p) => {
                proof {
                    let i = choose|i: int| 0 <= i < all_moves_spec(r0.dims).len() && all_moves_spec(r0.dims)[i] == mv;
                    assert(i >= 1);
                    crate::config::lemma_point_of_in_range(r0.dims, i - 1);
                    crate::config::lemma_grid(r0.dims);
                    crate::code::lemma_cells_of_len(r0.dims.size(), n0.code);
                }
                let succ = match self.table.transition_at(self.code, self.to_move, row, pi) {
                    Some(s) => s,
                    None => {
                        return None;
                    },
                };
                proof {
                    crate::table::lemma_succ_gen_bound(r0.dims, r0.suicide, n0.code, n0.to_move, p);
                }
                match self.rep {
                    Repetition::Psk => {
                        if self.archive.contains_ssk(ArchiveKey::new(succ, Color::Black)) {
                            return None;
                        }
                        proof {
                            assert(!n0.bits.contains(2 * succ.0 + 1)) by {
                                if n0.bits.contains(2 * succ.0 + 1) {
                                    assert((2 * succ.0 + 1) % 2 == 1);
                                }
                            }
                        }
                        Some((succ, false))
                    },
                    Repetition::Ssk => {
                        let (black, white) = self.archive.pair(succ);
                        let seen = match self.to_move {
                            Color::Black => white,
                            Color::White => black,
                        };
                        if seen {
                            return None;
                        }
                        Some((succ, black || white))
                    },
                }
            },
        }
    }

    /// Take a legal move, and return what undoes it.
    #[inline]
    fn make(&mut self, mv: Move, succ: PosCode) -> (undo: Undo)
        requires
            old(self).searching(),
            old(self).passes < 2,
            all_moves_spec(old(self).rules().dims).contains(mv),
            verdict(old(self).rules(), old(self).node(), mv) == Verdict::Legal(succ.0 as nat),
        ensures
            final(self).searching(),
            final(self).node() == child(old(self).rules(), old(self).node(), mv, succ.0 as nat),
            final(self).frame() == old(self).frame(),
            final(self).depth == old(self).depth + 1,
            final(self).nodes == old(self).nodes,
            final(self).max_depth == old(self).max_depth,
            final(self).ssk_only == old(self).ssk_only,
            final(self).over_budget == old(self).over_budget,
            final(self).mirrored_skips == old(self).mirrored_skips,
            final(self).stack == old(self).stack,
            undo.code == old(self).code,
            undo.to_move == old(self).to_move,
            undo.passes == old(self).passes,
            undo.key.code == succ,
            key_bit(undo.key) == arch_key(old(self).rep, succ.0 as nat, old(self).to_move.opp()),
            undo.was_new == !old(self).archive@.bits.contains(key_bit(undo.key)),
    {
        let ghost r0 = self.rules();
        let ghost n0 = self.node();
        proof {
            lemma_child_ok(r0, n0, mv, succ.0 as nat);
            lemma_child_ok(r0, n0, mv, succ.0 as nat);
        }
        let key = self.key(succ, self.to_move.other());
        let code = self.code;
        let to_move = self.to_move;
        let passes = self.passes;
        let was_new = self.archive.insert(key);
        self.code = succ;
        self.to_move = self.to_move.other();
        self.passes = match mv {
            Move::Pass => self.passes + 1,
            Move::Play(_) => 0,
        };
        self.depth = self.depth + 1;
        proof {
            assert(self.node().bits == n0.bits.insert(arch_key(r0.rep, succ.0 as nat, n0.to_move.opp())));
            assert(self.node() == child(r0, n0, mv, succ.0 as nat));
        }
        Undo { key, was_new, code, to_move, passes }
    }

    /// Take a move back, clearing only what its insert set.
    #[inline]
    fn unmake(&mut self, undo: Undo)
        requires
            old(self).archive.wf(),
            old(self).depth >= 1,
            (undo.key.code.0 as nat) < old(self).archive@.codes,
            undo.was_new ==> old(self).archive@.bits.contains(key_bit(undo.key)),
        ensures
            final(self).archive.wf(),
            final(self).archive@.codes == old(self).archive@.codes,
            final(self).archive@.bits == if undo.was_new {
                old(self).archive@.bits.remove(key_bit(undo.key))
            } else {
                old(self).archive@.bits
            },
            final(self).code == undo.code,
            final(self).to_move == undo.to_move,
            final(self).passes == undo.passes,
            final(self).depth == old(self).depth - 1,
            final(self).frame() == old(self).frame(),
            final(self).nodes == old(self).nodes,
            final(self).max_depth == old(self).max_depth,
            final(self).ssk_only == old(self).ssk_only,
            final(self).over_budget == old(self).over_budget,
            final(self).mirrored_skips == old(self).mirrored_skips,
            final(self).stack == old(self).stack,
    {
        self.archive.undo(undo.key, undo.was_new);
        self.code = undo.code;
        self.to_move = undo.to_move;
        self.passes = undo.passes;
        self.depth = self.depth - 1;
    }

    /// Count this node, and say whether the budget has run out. The count
    /// saturates at the largest `u64`.
    #[inline]
    fn enter(&mut self) -> (over: bool)
        requires
            old(self).searching(),
            !old(self).over_budget,
        ensures
            final(self).searching(),
            final(self).node() == old(self).node(),
            final(self).frame() == old(self).frame(),
            final(self).depth == old(self).depth,
            final(self).ssk_only == old(self).ssk_only,
            final(self).mirrored_skips == old(self).mirrored_skips,
            final(self).nodes >= old(self).nodes,
            final(self).stack == old(self).stack,
            over == final(self).over_budget,
            final(self).nodes == if old(self).nodes < u64::MAX {
                old(self).nodes + 1
            } else {
                old(self).nodes as int
            },
            final(self).max_depth == if old(self).depth > old(self).max_depth {
                old(self).depth
            } else {
                old(self).max_depth
            },
            over <==> (old(self).budget matches Some(b) && final(self).nodes > b),
    {
        self.nodes = self.nodes.saturating_add(1);
        if self.depth > self.max_depth {
            self.max_depth = self.depth;
        }
        if let Some(b) = self.budget {
            if self.nodes > b {
                self.over_budget = true;
            }
        }
        self.over_budget
    }

    /// The area difference of the position standing now.
    #[inline]
    fn leaf(&self) -> (r: i32)
        requires
            self.searching(),
        ensures
            r == diff_gen(self.rules().dims, self.code.0 as nat),
    {
        self.diff_at(self.code)
    }

    /// Black wins at a finished game when the komi floor is below the area
    /// difference; a tie goes to White.
    fn winner_at(&self, komi_floor: i64) -> (r: Color)
        requires
            self.searching(),
        ensures
            r == winner_z_spec(pos_of(self.rules().dims, self.code.0 as nat), komi_floor as int),
    {
        if (komi_floor as i128) < self.leaf() as i128 {
            Color::Black
        } else {
            Color::White
        }
    }
}


/// The key an entry is sorted by: the area difference of its successor,
/// negated when Black moves so that the best for the mover comes first.
pub open spec fn entry_key(d: Dims, maximizing: bool, e: Entry) -> int {
    if maximizing {
        -diff_gen(d, e.1.0 as nat)
    } else {
        diff_gen(d, e.1.0 as nat)
    }
}

/// The key an entry is sorted by: the area difference its successor leads
/// to, negated for Black so that the best for the mover comes first.
fn sort_key(table: &RuleTable, e: Entry, maximizing: bool) -> (r: i32)
    requires
        table.wf(),
        (e.1.0 as nat) < codes(table@.dims),
    ensures
        r == entry_key(table@.dims, maximizing, e),
{
    let dims = table.dims();
    proof {
        lemma_area_fits(dims, e.1.0 as nat, Color::Black);
        lemma_area_fits(dims, e.1.0 as nat, Color::White);
        lemma_diff_bound(dims, e.1.0 as nat);
    }
    let d = table.area(e.1, Color::Black) as i32 - table.area(e.1, Color::White) as i32;
    if maximizing {
        -d
    } else {
        d
    }
}

/// The entries of a sorted run with one more inserted after every entry
/// whose key is no greater than its own: the step of a stable insertion
/// sort.
pub open spec fn insert_sorted(d: Dims, maximizing: bool, s: Seq<Entry>, x: Entry) -> Seq<Entry>
    decreases s.len(),
{
    if s.len() == 0 {
        seq![x]
    } else if entry_key(d, maximizing, s.last()) <= entry_key(d, maximizing, x) {
        s.push(x)
    } else {
        insert_sorted(d, maximizing, s.drop_last(), x).push(s.last())
    }
}

/// A run sorted by [`entry_key`], stably: each entry in turn inserted after
/// the sorted entries before it whose keys are no greater.
pub open spec fn stable_sort(d: Dims, maximizing: bool, s: Seq<Entry>) -> Seq<Entry>
    decreases s.len(),
{
    if s.len() == 0 {
        s
    } else {
        insert_sorted(d, maximizing, stable_sort(d, maximizing, s.drop_last()), s.last())
    }
}

/// Inserting an entry lands it after the first `k` entries, when the `k`-th
/// has a key no greater than its own and every later one a greater key.
proof fn lemma_insert_at(d: Dims, maximizing: bool, s: Seq<Entry>, x: Entry, k: int)
    requires
        0 <= k <= s.len(),
        k == 0 || entry_key(d, maximizing, s[k - 1]) <= entry_key(d, maximizing, x),
        forall|t: int| k <= t < s.len() ==> entry_key(d, maximizing, #[trigger] s[t]) > entry_key(d, maximizing, x),
    ensures
        insert_sorted(d, maximizing, s, x) == s.take(k).push(x) + s.skip(k),
    decreases s.len(),
{
    if k == s.len() {
        if s.len() == 0 {
            assert(s.take(k).push(x) + s.skip(k) =~= seq![x]);
        } else {
            assert(s.take(k).push(x) + s.skip(k) =~= s.push(x));
        }
    } else {
        let t = s.drop_last();
        assert(entry_key(d, maximizing, s[s.len() - 1]) > entry_key(d, maximizing, x));
        assert forall|u: int| k <= u < t.len() implies entry_key(d, maximizing, #[trigger] t[u]) > entry_key(
            d,
            maximizing,
            x,
        ) by {
            assert(t[u] == s[u]);
        }
        if k > 0 {
            assert(t[k - 1] == s[k - 1]);
        }
        lemma_insert_at(d, maximizing, t, x, k);
        assert(t.take(k) =~= s.take(k));
        assert((s.take(k).push(x) + t.skip(k)).push(s.last()) =~= s.take(k).push(x) + s.skip(k));
    }
}

/// Sort the entries at `lo .. hi` by [`sort_key`], stably, by insertion;
/// the entries themselves are kept, and nothing outside the run moves.
fn sort_run(table: &RuleTable, out: &mut Vec<Entry>, lo: usize, hi: usize, maximizing: bool)
    requires
        table.wf(),
        lo <= hi <= old(out)@.len(),
        forall|k: int| lo <= k < hi ==> (#[trigger] old(out)@[k].1.0 as nat) < codes(table@.dims),
    ensures
        final(out)@.len() == old(out)@.len(),
        forall|k: int| 0 <= k < old(out)@.len() && !(lo <= k < hi) ==> #[trigger] final(out)@[k] == old(out)@[k],
        forall|x: Entry|
            old(out)@.subrange(lo as int, hi as int).contains(x) <==> #[trigger] final(out)@.subrange(
                lo as int,
                hi as int,
            ).contains(x),
        final(out)@.subrange(lo as int, hi as int) == stable_sort(
            table@.dims,
            maximizing,
            old(out)@.subrange(lo as int, hi as int),
        ),
{
    let ghost d = table@.dims;
    let ghost src = old(out)@;
    if lo >= hi {
        assert(out@.subrange(lo as int, hi as int) =~= Seq::<Entry>::empty());
        return;
    }
    proof {
        let one = src.subrange(lo as int, lo + 1);
        assert(one.drop_last() =~= Seq::<Entry>::empty());
        assert(stable_sort(d, maximizing, one.drop_last()).len() == 0);
        assert(one.last() == src[lo as int]);
        assert(insert_sorted(d, maximizing, stable_sort(d, maximizing, one.drop_last()), one.last()) =~= seq![
            src[lo as int],
        ]);
        assert(stable_sort(d, maximizing, one) =~= seq![src[lo as int]]);
        assert(out@.subrange(lo as int, lo + 1) =~= one);
    }
    let mut i = lo + 1;
    while i < hi
        invariant
            table.wf(),
            d == table@.dims,
            src == old(out)@,
            lo < i <= hi,
            lo <= hi <= out@.len(),
            out@.len() == old(out)@.len(),
            forall|k: int| 0 <= k < out@.len() && !(lo <= k < hi) ==> #[trigger] out@[k] == old(out)@[k],
            forall|x: Entry|
                old(out)@.subrange(lo as int, hi as int).contains(x) <==> #[trigger] out@.subrange(
                    lo as int,
                    hi as int,
                ).contains(x),
            forall|k: int| lo <= k < hi ==> (#[trigger] out@[k].1.0 as nat) < codes(table@.dims),
            out@.subrange(lo as int, i as int) == stable_sort(d, maximizing, src.subrange(lo as int, i as int)),
            forall|k: int| i <= k < hi ==> #[trigger] out@[k] == src[k],
        decreases hi - i,
    {
        let ghost sorted = out@.subrange(lo as int, i as int);
        let ghost x = out@[i as int];
        let mut j = i;
        while j > lo
            invariant
                table.wf(),
                d == table@.dims,
                src == old(out)@,
                lo <= j <= i < hi <= out@.len(),
                out@.len() == old(out)@.len(),
                forall|k: int| 0 <= k < out@.len() && !(lo <= k < hi) ==> #[trigger] out@[k] == old(out)@[k],
                forall|x: Entry|
                    old(out)@.subrange(lo as int, hi as int).contains(x) <==> #[trigger] out@.subrange(
                        lo as int,
                        hi as int,
                    ).contains(x),
                forall|k: int| lo <= k < hi ==> (#[trigger] out@[k].1.0 as nat) < codes(table@.dims),
                sorted.len() == i - lo,
                out@[j as int] == x,
                out@.subrange(lo as int, j as int) == sorted.take(j - lo),
                out@.subrange(j + 1, i + 1) == sorted.skip(j - lo),
                forall|t: int|
                    j - lo <= t < sorted.len() ==> entry_key(d, maximizing, #[trigger] sorted[t]) > entry_key(
                        d,
                        maximizing,
                        x,
                    ),
                forall|k: int| i < k < hi ==> #[trigger] out@[k] == src[k],
            ensures
                lo <= j <= i,
                out@.len() == old(out)@.len(),
                forall|k: int| 0 <= k < out@.len() && !(lo <= k < hi) ==> #[trigger] out@[k] == old(out)@[k],
                forall|x: Entry|
                    old(out)@.subrange(lo as int, hi as int).contains(x) <==> #[trigger] out@.subrange(
                        lo as int,
                        hi as int,
                    ).contains(x),
                forall|k: int| lo <= k < hi ==> (#[trigger] out@[k].1.0 as nat) < codes(table@.dims),
                out@[j as int] == x,
                out@.subrange(lo as int, j as int) == sorted.take(j - lo),
                out@.subrange(j + 1, i + 1) == sorted.skip(j - lo),
                forall|t: int|
                    j - lo <= t < sorted.len() ==> entry_key(d, maximizing, #[trigger] sorted[t]) > entry_key(
                        d,
                        maximizing,
                        x,
                    ),
                forall|k: int| i < k < hi ==> #[trigger] out@[k] == src[k],
                j == lo || entry_key(d, maximizing, sorted[j - lo - 1]) <= entry_key(d, maximizing, x),
            decreases j,
        {
            let a = out[j - 1];
            let b = out[j];
            proof {
                assert(a == out@.subrange(lo as int, j as int)[j - 1 - lo]);
                assert(a == sorted[j - lo - 1]);
            }
            if sort_key(table, a, maximizing) <= sort_key(table, b, maximizing) {
                break;
            }
            let ghost before = out@;
            let ghost run = before.subrange(lo as int, hi as int);
            proof {
                lemma_swap_contains(run, j - 1 - lo, j - lo);
            }
            out.set(j - 1, b);
            out.set(j, a);
            proof {
                assert(out@.subrange(lo as int, hi as int) =~= run.update(j - 1 - lo, run[j - lo]).update(
                    j - lo,
                    run[j - 1 - lo],
                ));
                assert forall|k: int| lo <= k < hi implies (#[trigger] out@[k].1.0 as nat) < codes(table@.dims) by {
                    if k != j - 1 && k != j {
                        assert(out@[k] == before[k]);
                    }
                }
                assert(out@.subrange(lo as int, j - 1) =~= sorted.take(j - 1 - lo)) by {
                    assert forall|t: int| #![trigger out@.subrange(lo as int, j - 1)[t]] 0 <= t < j - 1 - lo implies out@.subrange(lo as int, j - 1)[t]
                        == sorted.take(j - 1 - lo)[t] by {
                        assert(out@[lo + t] == before[lo + t]);
                        assert(before.subrange(lo as int, j as int)[t] == sorted.take(j - lo)[t]);
                    }
                }
                assert(out@.subrange(j as int, i + 1) =~= sorted.skip(j - 1 - lo)) by {
                    assert forall|t: int| #![trigger out@.subrange(j as int, i + 1)[t]] 0 <= t < i + 1 - j implies out@.subrange(j as int, i + 1)[t]
                        == sorted.skip(j - 1 - lo)[t] by {
                        if t > 0 {
                            assert(out@[j + t] == before[j + t]);
                            assert(before.subrange(j + 1, i + 1)[t - 1] == sorted.skip(j - lo)[t - 1]);
                        }
                    }
                }
                assert forall|k: int| i < k < hi implies #[trigger] out@[k] == src[k] by {
                    assert(out@[k] == before[k]);
                }
            }
            j -= 1;
        }
        proof {
            let k = j - lo;
            lemma_insert_at(d, maximizing, sorted, x, k);
            let grown = src.subrange(lo as int, i + 1);
            assert(grown.drop_last() =~= src.subrange(lo as int, i as int));
            assert(grown.last() == x);
            assert(out@.subrange(lo as int, i + 1) =~= sorted.take(k).push(x) + sorted.skip(k)) by {
                assert forall|t: int| #![trigger out@.subrange(lo as int, i + 1)[t]] 0 <= t < i + 1 - lo implies out@.subrange(lo as int, i + 1)[t]
                    == (sorted.take(k).push(x) + sorted.skip(k))[t] by {
                    if t < k {
                        assert(out@.subrange(lo as int, j as int)[t] == sorted.take(k)[t]);
                    } else if t > k {
                        assert(out@.subrange(j + 1, i + 1)[t - k - 1] == sorted.skip(k)[t - k - 1]);
                    }
                }
            }
        }
        i += 1;
    }
    proof {
        assert(i == hi);
    }
}

impl<'t> Solver<'t> {
    /// The legal moves from the state standing now, in the order the search
    /// visits them, each with its successor and gap, pushed onto the
    /// solver's entry stack: the stack's first `base` entries are kept, and
    /// the `len` after them are the list. Under the heuristic order the pass
    /// keeps its place and the plays on either side of it are sorted, best
    /// for the mover first, the move list breaking ties.
    #[verifier::spinoff_prover]
    #[verifier::rlimit(100)]
    fn ordered_moves(&mut self) -> (r: (usize, usize))
        requires
            old(self).searching(),
            old(self).passes < 2,
        ensures
            final(self).searching(),
            final(self).node() == old(self).node(),
            final(self).frame() == old(self).frame(),
            final(self).depth == old(self).depth,
            final(self).nodes == old(self).nodes,
            final(self).ssk_only == old(self).ssk_only,
            final(self).over_budget == old(self).over_budget,
            final(self).mirrored_skips == old(self).mirrored_skips,
            r.0 == old(self).stack@.len(),
            r.1 <= 13,
            final(self).stack@.len() == r.0 + r.1,
            final(self).stack@.subrange(0, r.0 as int) == old(self).stack@,
            list_ok(old(self).rules(), old(self).node(), final(self).stack@.subrange(r.0 as int, r.0 + r.1)),
    {
        let ghost r0 = self.rules();
        let ghost n0 = self.node();
        let ghost s0 = self.stack@;
        let base = self.stack.len();
        let row = self.table.row_of(self.code, self.to_move);
        let mut i: usize = 0;
        proof {
            lemma_reverse_contains(all_moves_spec(r0.dims));
            assert(self.moves@.len() == all_moves_spec(r0.dims).len());
            assert(all_moves_spec(r0.dims).len() <= 13);
            assert(self.stack@.subrange(0, base as int) =~= s0);
        }
        while i < self.moves.len()
            invariant
                self.searching(),
                self.passes < 2,
                r0 == self.rules(),
                n0 == self.node(),
                self.frame() == old(self).frame(),
                self.depth == old(self).depth,
                self.nodes == old(self).nodes,
                self.ssk_only == old(self).ssk_only,
                self.over_budget == old(self).over_budget,
                self.mirrored_skips == old(self).mirrored_skips,
                base == s0.len(),
                s0 == old(self).stack@,
                self.moves@.len() <= 13,
                row == crate::table::slot_of(r0.dims.size() as int, self.code.0 as int, crate::table::color_index(self.to_move), 0),
                i <= self.moves@.len(),
                base <= self.stack@.len() <= base + i,
                self.stack@.subrange(0, base as int) == s0,
                forall|mv: Move| all_moves_spec(r0.dims).contains(mv) <==> #[trigger] self.moves@.contains(mv),
                forall|k: int| base <= k < self.stack@.len() ==> entry_ok(r0, n0, #[trigger] self.stack@[k]),
                forall|k: int| base <= k < self.stack@.len() ==> (#[trigger] self.stack@[k].1.0 as nat) < codes(r0.dims),
                forall|k: int| 0 <= k < i && legal(r0, n0, #[trigger] self.moves@[k]) ==> self.stack@.subrange(base as int, self.stack@.len() as int).contains(entry_of(r0, n0, self.moves@[k])),
            decreases self.moves@.len() - i,
        {
            let mv = self.moves[i];
            let pi = self.move_points[i];
            assert(self.moves@.contains(mv));
            if let Some((succ, gap)) = self.legal_succ(mv, pi, row) {
                let ghost before = self.stack@.subrange(base as int, self.stack@.len() as int);
                let ghost old_stack = self.stack@;
                proof {
                    let sv = verdict(r0, n0, mv)->Legal_0;
                    lemma_child_ok(r0, n0, mv, sv);
                }
                self.stack.push((mv, succ, gap));
                proof {
                    let top = self.stack@.len() as int;
                    assert(self.stack@.subrange(0, base as int) =~= old_stack.subrange(0, base as int));
                    assert(self.stack@[top - 1] == entry_of(r0, n0, mv));
                    assert(entry_ok(r0, n0, self.stack@[top - 1]));
                    assert forall|k: int| base <= k < top implies (#[trigger] self.stack@[k].1.0 as nat) < codes(r0.dims) by {
                        if k < top - 1 {
                            assert(self.stack@[k] == old_stack[k]);
                            assert((old_stack[k].1.0 as nat) < codes(r0.dims));
                        } else {
                            let sv = verdict(r0, n0, mv)->Legal_0;
                            lemma_child_ok(r0, n0, mv, sv);
                            assert(sv < codes(r0.dims));
                            assert(self.stack@[k].1 == PosCode(sv as u32));
                            assert((PosCode(sv as u32).0 as nat) == sv);
                        }
                    }
                    let now = self.stack@.subrange(base as int, top);
                    assert forall|k: int| 0 <= k < i + 1 && legal(r0, n0, #[trigger] self.moves@[k]) implies now.contains(
                        entry_of(r0, n0, self.moves@[k]),
                    ) by {
                        if k < i {
                            let x = choose|x: int| 0 <= x < before.len() && before[x] == entry_of(r0, n0, self.moves@[k]);
                            assert(now[x] == before[x]);
                        } else {
                            assert(now[top - 1 - base] == entry_of(r0, n0, self.moves@[k]));
                        }
                    }
                }
            }
            i += 1;
        }
        let len = self.stack.len() - base;
        proof {
            let l = self.stack@.subrange(base as int, base + len);
            assert forall|mv: Move| all_moves_spec(r0.dims).contains(mv) && #[trigger] legal(r0, n0, mv) implies l.contains(
                entry_of(r0, n0, mv),
            ) by {
                assert(self.moves@.contains(mv));
                let k = choose|k: int| 0 <= k < self.moves@.len() && self.moves@[k] == mv;
                assert(legal(r0, n0, self.moves@[k]));
            }
        }
        if self.order == MoveOrder::Heuristic {
            let maximizing = self.to_move == Color::Black;
            let mut at: usize = base;
            proof {
                assert(all_moves_spec(r0.dims)[0] == Move::Pass);
                assert(all_moves_spec(r0.dims).contains(Move::Pass));
                assert(legal(r0, n0, Move::Pass));
            }
            let top = self.stack.len();
            while at < top && !matches!(self.stack[at].0, Move::Pass)
                invariant
                    base <= at <= base + len,
                    top == base + len,
                    self.stack@.len() == base + len,
                    forall|k: int| base <= k < at ==> !(#[trigger] self.stack@[k].0 is Pass),
                decreases base + len - at,
            {
                at += 1;
            }
            proof {
                if at == base + len {
                    let l = self.stack@.subrange(base as int, base + len);
                    let x = choose|x: int| 0 <= x < len && l[x] == entry_of(r0, n0, Move::Pass);
                    assert(self.stack@[base + x].0 is Pass);
                }
            }
            let ghost unsorted = self.stack@;
            let table = self.table;
            sort_run(table, &mut self.stack, base, at, maximizing);
            let ghost half = self.stack@;
            sort_run(table, &mut self.stack, at + 1, base + len, maximizing);
            proof {
                let t0 = unsorted.subrange(base as int, base + len);
                let t1 = self.stack@.subrange(base as int, base + len);
                let u0 = unsorted.subrange(base as int, at as int);
                let h0 = half.subrange(base as int, at as int);
                let h1 = half.subrange(at + 1, base + len);
                let o1 = self.stack@.subrange(at + 1, base + len);
                assert(self.stack@[at as int] == unsorted[at as int]);
                assert(self.stack@.subrange(0, base as int) =~= s0) by {
                    assert forall|k: int| 0 <= k < base implies self.stack@[k] == unsorted[k] by {}
                }
                assert forall|x: Entry| t0.contains(x) <==> #[trigger] t1.contains(x) by {
                    if t0.contains(x) {
                        let k = choose|k: int| 0 <= k < len && t0[k] == x;
                        if base + k < at {
                            assert(u0[k] == x);
                            assert(u0.contains(x));
                            assert(h0.contains(x));
                            let m = choose|m: int| 0 <= m < h0.len() && #[trigger] h0[m] == x;
                            assert(self.stack@[base + m] == half[base + m]);
                            assert(t1[m] == x);
                        } else if base + k == at {
                            assert(t1[k] == x);
                        } else {
                            assert(half[base + k] == unsorted[base + k]);
                            assert(h1[base + k - at - 1] == x);
                            assert(h1.contains(x));
                            assert(o1.contains(x));
                            let m = choose|m: int| 0 <= m < o1.len() && #[trigger] o1[m] == x;
                            assert(t1[m + at + 1 - base] == x);
                        }
                    }
                    if t1.contains(x) {
                        let k = choose|k: int| 0 <= k < len && t1[k] == x;
                        if base + k < at {
                            assert(self.stack@[base + k] == half[base + k]);
                            assert(h0[k] == x);
                            assert(h0.contains(x));
                            assert(u0.contains(x));
                            let m = choose|m: int| 0 <= m < u0.len() && #[trigger] u0[m] == x;
                            assert(t0[m] == x);
                        } else if base + k == at {
                            assert(t0[k] == x);
                        } else {
                            assert(o1[base + k - at - 1] == x);
                            assert(o1.contains(x));
                            assert(h1.contains(x));
                            let m = choose|m: int| 0 <= m < h1.len() && #[trigger] h1[m] == x;
                            assert(half[m + at + 1] == unsorted[m + at + 1]);
                            assert(t0[m + at + 1 - base] == x);
                        }
                    }
                }
                assert forall|k: int| 0 <= k < len implies entry_ok(r0, n0, #[trigger] t1[k]) by {
                    assert(t1.contains(t1[k]));
                    let x = choose|x: int| 0 <= x < len && t0[x] == t1[k];
                    assert(entry_ok(r0, n0, unsorted[base + x]));
                }
                assert forall|mv: Move| all_moves_spec(r0.dims).contains(mv) && #[trigger] legal(r0, n0, mv) implies t1.contains(
                    entry_of(r0, n0, mv),
                ) by {
                    assert(t0.contains(entry_of(r0, n0, mv)));
                }
            }
        } else {
            proof {
                let l = self.stack@.subrange(base as int, base + len);
                assert forall|k: int| 0 <= k < len implies entry_ok(r0, n0, #[trigger] l[k]) by {
                    assert(entry_ok(r0, n0, self.stack@[base + k]));
                }
            }
        }
        (base, len)
    }
}


/// An entry of a legal list stands for its move: the move is legal and its
/// value and verdicts are the move's.
proof fn lemma_entry(r: Rules, n: Node, e: Entry)
    requires
        node_ok(r, n),
        n.passes < 2,
        entry_ok(r, n, e),
    ensures
        legal(r, n, e.0),
        succ_value(r, n, e.0) == entry_value(r, n, e),
        forall|k: int, c: Color| #[trigger] succ_wins(r, n, k, c, e.0) == entry_wins(r, n, k, c, e),
        node_ok(r, child(r, n, e.0, e.1.0 as nat)),
        measure(r, child(r, n, e.0, e.1.0 as nat)) < measure(r, n),
        0 <= measure(r, child(r, n, e.0, e.1.0 as nat)),
{
    lemma_child_ok(r, n, e.0, e.1.0 as nat);
}

/// The entry of a legal move is a legal entry.
proof fn lemma_entry_of(r: Rules, n: Node, mv: Move)
    requires
        node_ok(r, n),
        n.passes < 2,
        all_moves_spec(r.dims).contains(mv),
        legal(r, n, mv),
        codes(r.dims) <= 531441,
    ensures
        entry_ok(r, n, entry_of(r, n, mv)),
        entry_of(r, n, mv).0 == mv,
{
    let s = verdict(r, n, mv)->Legal_0;
    lemma_child_ok(r, n, mv, s);
}

impl<'t> Solver<'t> {
    /// Fail-soft alpha-beta from the state standing now. With a window
    /// holding the whole score range the value returned is exact.
    fn alphabeta(&mut self, alpha0: i32, beta0: i32) -> (v: i32)
        requires
            old(self).searching(),
            !old(self).over_budget,
            alpha0 < beta0,
            -old(self).span - 1 <= alpha0,
            beta0 <= old(self).span + 1,
        ensures
            final(self).searching(),
            final(self).node() == old(self).node(),
            final(self).frame() == old(self).frame(),
            final(self).depth == old(self).depth,
            final(self).nodes >= old(self).nodes,
            final(self).mirrored_skips == old(self).mirrored_skips,
            final(self).stack@ == old(self).stack@,
            !final(self).over_budget ==> fail_soft(
                v as int,
                nvalue(old(self).rules(), old(self).node()),
                alpha0 as int,
                beta0 as int,
            ),
            -old(self).span - 2 <= v <= old(self).span + 2,
        decreases measure(old(self).rules(), old(self).node()),
    {
        if self.order == MoveOrder::Static {
            return self.alphabeta_static(alpha0, beta0);
        }
        let ghost r0 = self.rules();
        let ghost n0 = self.node();
        let ghost f0 = self.frame();
        let ghost nodes0 = self.nodes;
        let ghost skips0 = self.mirrored_skips;
        let ghost span = self.span as int;
        if self.enter() {
            return alpha0;
        }
        if self.passes >= 2 {
            proof {
                lemma_diff_bound(r0.dims, n0.code);
            }
            return self.leaf();
        }
        let maximizing = self.to_move == Color::Black;
        let mut alpha = alpha0;
        let mut beta = beta0;
        let mut best: i32 = if maximizing {
            alpha0 - 1
        } else {
            beta0 + 1
        };
        let (base, len) = self.ordered_moves();
        let top = self.stack.len();
        let ghost list = self.stack@.subrange(base as int, base + len);
        let mut j: usize = 0;
        while j < len
            invariant
                self.searching(),
                r0 == self.rules(),
                n0 == self.node(),
                r0 == old(self).rules(),
                n0 == old(self).node(),
                f0 == self.frame(),
                f0 == old(self).frame(),
                nodes0 == old(self).nodes,
                skips0 == old(self).mirrored_skips,
                span == self.span,
                span == old(self).span,
                -span - 1 <= alpha0,
                beta0 <= span + 1,
                self.depth == old(self).depth,
                !self.over_budget,
                self.nodes >= nodes0,
                self.mirrored_skips == skips0,
                n0.passes < 2,
                list_ok(r0, n0, list),
                len <= 13,
                base == old(self).stack@.len(),
                top == base + len,
                self.stack@.len() == base + len,
                self.stack@.subrange(base as int, base + len) == list,
                self.stack@.subrange(0, base as int) == old(self).stack@,
                j <= len,
                maximizing == (n0.to_move == Color::Black),
                alpha0 <= alpha < beta <= beta0,
                -span - 2 <= best <= span + 2,
                maximizing ==> beta == beta0,
                maximizing ==> alpha == if best > alpha0 {
                    best
                } else {
                    alpha0
                },
                maximizing ==> forall|k: int| 0 <= k < j ==> entry_value(r0, n0, #[trigger] list[k]) <= best,
                maximizing ==> (best > alpha0 ==> exists|k: int|
                    0 <= k < j && entry_value(r0, n0, #[trigger] list[k]) == best),
                !maximizing ==> alpha == alpha0,
                !maximizing ==> beta == if best < beta0 {
                    best
                } else {
                    beta0
                },
                !maximizing ==> forall|k: int| 0 <= k < j ==> entry_value(r0, n0, #[trigger] list[k]) >= best,
                !maximizing ==> (best < beta0 ==> exists|k: int|
                    0 <= k < j && entry_value(r0, n0, #[trigger] list[k]) == best),
            decreases len - j,
        {
            let e = self.stack[base + j];
            let (mv, succ, gap) = e;
            proof {
                assert(list[j as int] == self.stack@[base + j]);
                assert(entry_ok(r0, n0, list[j as int]));
                lemma_entry(r0, n0, e);
            }
            let undo = self.make(mv, succ);
            if gap {
                self.ssk_only = self.ssk_only.saturating_add(1);
            }
            let ghost best_before = best;
            let v = self.alphabeta(alpha, beta);
            self.unmake(undo);
            proof {
                if undo.was_new {
                    assert(self.archive@.bits =~= n0.bits);
                } else {
                    assert(self.archive@.bits =~= n0.bits);
                }
                assert(self.node() == n0);
            }
            if self.over_budget {
                self.stack.truncate(base);
                proof {
                    assert(self.stack@ =~= old(self).stack@);
                }
                return best;
            }
            let ghost vj = entry_value(r0, n0, e);
            if maximizing {
                if v > best {
                    best = v;
                }
                if best > alpha {
                    alpha = best;
                }
            } else {
                if v < best {
                    best = v;
                }
                if best < beta {
                    beta = best;
                }
            }
            if beta <= alpha {
                proof {
                    lemma_nvalue_char(r0, n0);
                    assert(list[j as int] == e);
                    assert(all_moves_spec(r0.dims).contains(mv));
                    assert(legal(r0, n0, mv));
                }
                self.stack.truncate(base);
                proof {
                    assert(self.stack@ =~= old(self).stack@);
                }
                return best;
            }
            proof {
                assert(list[j as int] == e);
            }
            j += 1;
        }
        proof {
            lemma_nvalue_char(r0, n0);
            let value = nvalue(r0, n0);
            let mv = choose|mv: Move| all_moves_spec(r0.dims).contains(mv) && #[trigger] legal(r0, n0, mv) && succ_value(r0, n0, mv) == value;
            lemma_entry_of(r0, n0, mv);
            let x = choose|x: int| 0 <= x < list.len() && list[x] == entry_of(r0, n0, mv);
            lemma_entry(r0, n0, list[x]);
            if maximizing && best > alpha0 {
                let k = choose|k: int| 0 <= k < j && entry_value(r0, n0, #[trigger] list[k]) == best;
                lemma_entry(r0, n0, list[k]);
                assert(all_moves_spec(r0.dims).contains(list[k].0));
            }
            if !maximizing && best < beta0 {
                let k = choose|k: int| 0 <= k < j && entry_value(r0, n0, #[trigger] list[k]) == best;
                lemma_entry(r0, n0, list[k]);
                assert(all_moves_spec(r0.dims).contains(list[k].0));
            }
        }
        self.stack.truncate(base);
        proof {
            assert(self.stack@ =~= old(self).stack@);
        }
        best
    }
}


impl<'t> Solver<'t> {
    /// Fail-soft alpha-beta from the state standing now, visiting the moves
    /// in the order of the move list and deciding each one's legality only
    /// when it is reached, so that a cutoff spares the rest.
    fn alphabeta_static(&mut self, alpha0: i32, beta0: i32) -> (v: i32)
        requires
            old(self).searching(),
            !old(self).over_budget,
            alpha0 < beta0,
            -old(self).span - 1 <= alpha0,
            beta0 <= old(self).span + 1,
        ensures
            final(self).searching(),
            final(self).node() == old(self).node(),
            final(self).frame() == old(self).frame(),
            final(self).depth == old(self).depth,
            final(self).nodes >= old(self).nodes,
            final(self).mirrored_skips == old(self).mirrored_skips,
            final(self).stack@ == old(self).stack@,
            !final(self).over_budget ==> fail_soft(
                v as int,
                nvalue(old(self).rules(), old(self).node()),
                alpha0 as int,
                beta0 as int,
            ),
            -old(self).span - 2 <= v <= old(self).span + 2,
        decreases measure(old(self).rules(), old(self).node()),
    {
        let ghost r0 = self.rules();
        let ghost n0 = self.node();
        let ghost f0 = self.frame();
        let ghost nodes0 = self.nodes;
        let ghost skips0 = self.mirrored_skips;
        let ghost span = self.span as int;
        if self.enter() {
            return alpha0;
        }
        if self.passes >= 2 {
            proof {
                lemma_diff_bound(r0.dims, n0.code);
            }
            return self.leaf();
        }
        let maximizing = self.to_move == Color::Black;
        let mut alpha = alpha0;
        let mut beta = beta0;
        let mut best: i32 = if maximizing {
            alpha0 - 1
        } else {
            beta0 + 1
        };
        let row = self.table.row_of(self.code, self.to_move);
        proof {
            lemma_reverse_contains(all_moves_spec(r0.dims));
            assert(self.moves@.len() == all_moves_spec(r0.dims).len());
        }
        let mut i: usize = 0;
        while i < self.moves.len()
            invariant
                self.searching(),
                r0 == self.rules(),
                n0 == self.node(),
                r0 == old(self).rules(),
                n0 == old(self).node(),
                f0 == self.frame(),
                f0 == old(self).frame(),
                nodes0 == old(self).nodes,
                skips0 == old(self).mirrored_skips,
                span == self.span,
                span == old(self).span,
                -span - 1 <= alpha0,
                beta0 <= span + 1,
                self.depth == old(self).depth,
                !self.over_budget,
                self.nodes >= nodes0,
                self.mirrored_skips == skips0,
                self.stack@ == old(self).stack@,
                n0.passes < 2,
                row == crate::table::slot_of(r0.dims.size() as int, self.code.0 as int, crate::table::color_index(self.to_move), 0),
                forall|mv: Move| all_moves_spec(r0.dims).contains(mv) <==> #[trigger] self.moves@.contains(mv),
                i <= self.moves@.len(),
                maximizing == (n0.to_move == Color::Black),
                alpha0 <= alpha < beta <= beta0,
                -span - 2 <= best <= span + 2,
                maximizing ==> beta == beta0,
                maximizing ==> alpha == if best > alpha0 {
                    best
                } else {
                    alpha0
                },
                maximizing ==> forall|k: int|
                    0 <= k < i && legal(r0, n0, #[trigger] self.moves@[k]) ==> succ_value(r0, n0, self.moves@[k]) <= best,
                maximizing ==> (best > alpha0 ==> exists|k: int|
                    0 <= k < i && legal(r0, n0, #[trigger] self.moves@[k]) && succ_value(r0, n0, self.moves@[k]) == best),
                !maximizing ==> alpha == alpha0,
                !maximizing ==> beta == if best < beta0 {
                    best
                } else {
                    beta0
                },
                !maximizing ==> forall|k: int|
                    0 <= k < i && legal(r0, n0, #[trigger] self.moves@[k]) ==> succ_value(r0, n0, self.moves@[k]) >= best,
                !maximizing ==> (best < beta0 ==> exists|k: int|
                    0 <= k < i && legal(r0, n0, #[trigger] self.moves@[k]) && succ_value(r0, n0, self.moves@[k]) == best),
            decreases self.moves@.len() - i,
        {
            let mv = self.moves[i];
            let pi = self.move_points[i];
            assert(self.moves@.contains(mv));
            if let Some((succ, gap)) = self.legal_succ(mv, pi, row) {
                proof {
                    let sv = verdict(r0, n0, mv)->Legal_0;
                    lemma_child_ok(r0, n0, mv, sv);
                    assert(legal(r0, n0, self.moves@[i as int]));
                }
                let undo = self.make(mv, succ);
                if gap {
                    self.ssk_only = self.ssk_only.saturating_add(1);
                }
                let v = self.alphabeta_static(alpha, beta);
                self.unmake(undo);
                proof {
                    assert(self.archive@.bits =~= n0.bits);
                    assert(self.node() == n0);
                }
                if self.over_budget {
                    return best;
                }
                if maximizing {
                    if v > best {
                        best = v;
                    }
                    if best > alpha {
                        alpha = best;
                    }
                } else {
                    if v < best {
                        best = v;
                    }
                    if best < beta {
                        beta = best;
                    }
                }
                if beta <= alpha {
                    proof {
                        lemma_nvalue_char(r0, n0);
                        assert(all_moves_spec(r0.dims).contains(mv));
                        assert(legal(r0, n0, mv));
                    }
                    return best;
                }
            }
            i += 1;
        }
        proof {
            lemma_nvalue_char(r0, n0);
            let value = nvalue(r0, n0);
            let mv = choose|mv: Move| all_moves_spec(r0.dims).contains(mv) && #[trigger] legal(r0, n0, mv) && succ_value(r0, n0, mv) == value;
            assert(self.moves@.contains(mv));
            let x = choose|x: int| 0 <= x < self.moves@.len() && self.moves@[x] == mv;
            assert(legal(r0, n0, self.moves@[x]));
            if maximizing && best > alpha0 {
                let k = choose|k: int|
                    0 <= k < i && legal(r0, n0, #[trigger] self.moves@[k]) && succ_value(r0, n0, self.moves@[k]) == best;
                assert(self.moves@.contains(self.moves@[k]));
            }
            if !maximizing && best < beta0 {
                let k = choose|k: int|
                    0 <= k < i && legal(r0, n0, #[trigger] self.moves@[k]) && succ_value(r0, n0, self.moves@[k]) == best;
                assert(self.moves@.contains(self.moves@[k]));
            }
        }
        best
    }
}

impl<'t> Solver<'t> {
    /// The verdict recursion: whether `c` wins at a komi floor from the
    /// state standing now. The mover needs one winning move; the other color
    /// needs every move to win.
    fn verdict(&mut self, komi_floor: i64, c: Color) -> (won: bool)
        requires
            old(self).searching(),
            !old(self).over_budget,
        ensures
            final(self).searching(),
            final(self).node() == old(self).node(),
            final(self).frame() == old(self).frame(),
            final(self).depth == old(self).depth,
            final(self).nodes >= old(self).nodes,
            final(self).mirrored_skips == old(self).mirrored_skips,
            final(self).stack@ == old(self).stack@,
            !final(self).over_budget ==> won == nwins(old(self).rules(), old(self).node(), komi_floor as int, c),
        decreases measure(old(self).rules(), old(self).node()),
    {
        let ghost r0 = self.rules();
        let ghost n0 = self.node();
        let ghost f0 = self.frame();
        let ghost nodes0 = self.nodes;
        let ghost skips0 = self.mirrored_skips;
        let ghost k = komi_floor as int;
        if self.enter() {
            return false;
        }
        if self.passes >= 2 {
            return self.winner_at(komi_floor) == c;
        }
        let mover = self.to_move == c;
        let (base, len) = self.ordered_moves();
        let top = self.stack.len();
        let ghost list = self.stack@.subrange(base as int, base + len);
        let mut j: usize = 0;
        while j < len
            invariant
                self.searching(),
                r0 == self.rules(),
                n0 == self.node(),
                r0 == old(self).rules(),
                n0 == old(self).node(),
                f0 == self.frame(),
                f0 == old(self).frame(),
                nodes0 == old(self).nodes,
                skips0 == old(self).mirrored_skips,
                k == komi_floor as int,
                self.depth == old(self).depth,
                !self.over_budget,
                self.nodes >= nodes0,
                self.mirrored_skips == skips0,
                n0.passes < 2,
                list_ok(r0, n0, list),
                len <= 13,
                base == old(self).stack@.len(),
                top == base + len,
                self.stack@.len() == base + len,
                self.stack@.subrange(base as int, base + len) == list,
                self.stack@.subrange(0, base as int) == old(self).stack@,
                j <= len,
                mover == (n0.to_move == c),
                mover ==> forall|x: int| 0 <= x < j ==> !entry_wins(r0, n0, k, c, #[trigger] list[x]),
                !mover ==> forall|x: int| 0 <= x < j ==> entry_wins(r0, n0, k, c, #[trigger] list[x]),
            decreases len - j,
        {
            let e = self.stack[base + j];
            let (mv, succ, gap) = e;
            proof {
                assert(list[j as int] == self.stack@[base + j]);
                assert(entry_ok(r0, n0, list[j as int]));
                lemma_entry(r0, n0, e);
            }
            let undo = self.make(mv, succ);
            if gap {
                self.ssk_only = self.ssk_only.saturating_add(1);
            }
            let won = self.verdict(komi_floor, c);
            self.unmake(undo);
            proof {
                assert(self.archive@.bits =~= n0.bits);
                assert(self.node() == n0);
                assert(list[j as int] == e);
            }
            if self.over_budget {
                self.stack.truncate(base);
                proof {
                    assert(self.stack@ =~= old(self).stack@);
                }
                return false;
            }
            if mover {
                if won {
                    proof {
                        lemma_nwins_moves(r0, n0, k, c);
                        assert(all_moves_spec(r0.dims).contains(mv));
                        assert(legal(r0, n0, mv));
                        assert(succ_wins(r0, n0, k, c, mv));
                    }
                    self.stack.truncate(base);
                    proof {
                        assert(self.stack@ =~= old(self).stack@);
                    }
                    return true;
                }
            } else if !won {
                proof {
                    lemma_nwins_moves(r0, n0, k, c);
                    assert(all_moves_spec(r0.dims).contains(mv));
                    assert(legal(r0, n0, mv));
                    assert(!succ_wins(r0, n0, k, c, mv));
                }
                self.stack.truncate(base);
                proof {
                    assert(self.stack@ =~= old(self).stack@);
                }
                return false;
            }
            j += 1;
        }
        proof {
            lemma_nwins_moves(r0, n0, k, c);
            if mover {
                assert forall|mv: Move| all_moves_spec(r0.dims).contains(mv) && #[trigger] legal(r0, n0, mv) implies !succ_wins(
                    r0,
                    n0,
                    k,
                    c,
                    mv,
                ) by {
                    lemma_entry_of(r0, n0, mv);
                    let x = choose|x: int| 0 <= x < list.len() && list[x] == entry_of(r0, n0, mv);
                    lemma_entry(r0, n0, list[x]);
                }
            } else {
                assert forall|mv: Move| all_moves_spec(r0.dims).contains(mv) && #[trigger] legal(r0, n0, mv) implies succ_wins(
                    r0,
                    n0,
                    k,
                    c,
                    mv,
                ) by {
                    lemma_entry_of(r0, n0, mv);
                    let x = choose|x: int| 0 <= x < list.len() && list[x] == entry_of(r0, n0, mv);
                    lemma_entry(r0, n0, list[x]);
                }
            }
        }
        self.stack.truncate(base);
        proof {
            assert(self.stack@ =~= old(self).stack@);
        }
        !mover
    }
}


/// What a score search reports for a root: the exact value when it resolved
/// within the budget, and no value exactly when it ran out of nodes.
pub open spec fn solution_ok(r: Rules, n: Node, budget: Option<u64>, sol: Solution) -> bool {
    &&& match sol.value {
        Some(v) => v == nvalue(r, n) && (budget is Some ==> sol.nodes <= budget.unwrap()),
        None => budget is Some && sol.nodes == budget.unwrap() + 1,
    }
    &&& r.rep is Psk ==> sol.ssk_only == 0
    &&& sol.mirrored_skips == 0
}

/// What a verdict search reports for a root: the exact verdict when it
/// resolved within the budget, and none exactly when it ran out of nodes.
pub open spec fn decision_ok(r: Rules, n: Node, k: int, c: Color, budget: Option<u64>, d: Decision) -> bool {
    &&& match d.wins {
        Some(w) => w == nwins(r, n, k, c) && (budget is Some ==> d.nodes <= budget.unwrap()),
        None => budget is Some && d.nodes == budget.unwrap() + 1,
    }
    &&& d.mirrored_skips == 0
}

impl<'t> Solver<'t> {
    /// Seat the solver at a root of play: its own situation archived and
    /// nothing else, every counter at zero.
    fn seat(&mut self, code: PosCode, to_move: Color) -> (undo: Undo)
        requires
            old(self).wf(),
            (code.0 as nat) < codes(old(self)@.dims),
        ensures
            final(self).searching(),
            final(self).node() == seat_node(old(self).rep, code.0 as nat, to_move),
            final(self).frame() == old(self).frame(),
            final(self).depth == 0,
            final(self).nodes == 0,
            final(self).ssk_only == 0,
            final(self).mirrored_skips == 0,
            !final(self).over_budget,
            undo.key.code == code,
            key_bit(undo.key) == arch_key(old(self).rep, code.0 as nat, to_move),
            undo.was_new,
    {
        let _dims = self.table.dims();
        self.code = code;
        self.to_move = to_move;
        self.passes = 0;
        self.depth = 0;
        self.nodes = 0;
        self.max_depth = 0;
        self.ssk_only = 0;
        self.mirrored_skips = 0;
        self.over_budget = false;
        let key = self.key(code, to_move);
        let was_new = self.archive.insert(key);
        proof {
            let n = self.node();
            let r = self.rules();
            assert(n.bits =~= Set::empty().insert(arch_key(self.rep, code.0 as nat, to_move)));
            assert(n == seat_node(self.rep, code.0 as nat, to_move));
            assert(n.bits.len() == 1);
            assert forall|b: int| #[trigger] n.bits.contains(b) implies 0 <= b < 2 * codes(r.dims) by {}
            assert(node_ok(r, n));
            assert(measure(r, n) == 6 * codes(r.dims) - 1);
        }
        Undo { key, was_new, code, to_move, passes: 0 }
    }

    /// Undo the seating, leaving the archive empty for the next root.
    fn unmake_seed(&mut self, seed: Undo)
        requires
            old(self).sound(),
            old(self).archive@.bits == Set::<int>::empty().insert(key_bit(seed.key)),
            (seed.key.code.0 as nat) < old(self).archive@.codes,
            seed.was_new,
        ensures
            final(self).wf(),
            final(self).frame() == old(self).frame(),
            final(self).nodes == old(self).nodes,
            final(self).max_depth == old(self).max_depth,
            final(self).ssk_only == old(self).ssk_only,
            final(self).over_budget == old(self).over_budget,
            final(self).mirrored_skips == old(self).mirrored_skips,
    {
        self.archive.undo(seed.key, seed.was_new);
        proof {
            assert(self.archive@.bits =~= Set::<int>::empty());
        }
    }

    /// The minimax area difference from a root of play, or no value when
    /// the node budget ran out first.
    pub fn solve_root(&mut self, code: PosCode, to_move: Color) -> (r: Solution)
        requires
            old(self).wf(),
            (code.0 as nat) < codes(old(self)@.dims),
        ensures
            final(self).wf(),
            final(self)@ == old(self)@,
            solution_ok(old(self).rules(), seat_node(old(self)@.rep, code.0 as nat, to_move), old(self)@.budget, r),
    {
        let ghost r0 = self.rules();
        let seed = self.seat(code, to_move);
        let ghost n0 = self.node();
        proof {
            lemma_nvalue_bound(r0, n0);
        }
        let value = self.alphabeta(-self.span - 1, self.span + 1);
        proof {
            assert(self.archive@.bits =~= Set::<int>::empty().insert(key_bit(seed.key)));
        }
        self.unmake_seed(seed);
        Solution {
            value: if self.over_budget {
                None
            } else {
                Some(value)
            },
            nodes: self.nodes,
            max_depth: self.max_depth,
            ssk_only: self.ssk_only,
            mirrored_skips: self.mirrored_skips,
        }
    }

    /// Whether `c` wins from a root of play at this komi floor, or no
    /// verdict when the node budget ran out first.
    pub fn decide_root(&mut self, code: PosCode, to_move: Color, komi_floor: i64, c: Color) -> (r: Decision)
        requires
            old(self).wf(),
            (code.0 as nat) < codes(old(self)@.dims),
        ensures
            final(self).wf(),
            final(self)@ == old(self)@,
            decision_ok(
                old(self).rules(),
                seat_node(old(self)@.rep, code.0 as nat, to_move),
                komi_floor as int,
                c,
                old(self)@.budget,
                r,
            ),
    {
        let seed = self.seat(code, to_move);
        let wins = self.verdict(komi_floor, c);
        proof {
            assert(self.archive@.bits =~= Set::<int>::empty().insert(key_bit(seed.key)));
        }
        self.unmake_seed(seed);
        Decision {
            wins: if self.over_budget {
                None
            } else {
                Some(wins)
            },
            nodes: self.nodes,
            max_depth: self.max_depth,
            mirrored_skips: self.mirrored_skips,
        }
    }
}

/// The state a position taken as the root of play stands for in the search
/// is the seated one.
pub proof fn lemma_root_node(b: crate::reference::PositionModel, to_move: Color, rep: Repetition)
    requires
        b.wf(),
    ensures
        abs(rep, root_state(b, to_move)) == seat_node(rep, code_of(b.cells), to_move),
        walk_ok(b.dims, root_state(b, to_move)),
{
    let st = root_state(b, to_move);
    let f = |m: crate::reference::SitModel| crate::walk::sit_key(rep, m);
    let x = arch_key(rep, code_of(b.cells), to_move);
    assert forall|y: int| st.seen.map(f).contains(y) <==> Set::<int>::empty().insert(x).contains(y) by {
        if y == x {
            assert(st.seen.contains(st.now) && f(st.now) == y);
        }
    }
    assert(st.seen.map(f) =~= Set::<int>::empty().insert(x));
}

/// A verdict search and a score search from the same root agree, and both
/// agree with the rules' own recursions: at every komi floor, Black wins
/// exactly when the minimax value exceeds the floor, and White exactly when
/// it does not.
pub proof fn law_verdict_is_threshold(
    b: crate::reference::PositionModel,
    to_move: Color,
    rep: Repetition,
    suicide: Suicide,
    k: int,
    c: Color,
)
    requires
        b.wf(),
    ensures
        ({
            let r = play_rules(b.dims, rep, suicide);
            let n = seat_node(rep, code_of(b.cells), to_move);
            &&& nwins(r, n, k, c) == (if c is Black {
                nvalue(r, n) > k
            } else {
                nvalue(r, n) <= k
            })
            &&& nvalue(r, n) == value_spec(r, root_state(b, to_move))
            &&& nwins(r, n, k, c) == wins_spec(r, root_state(b, to_move), k, c)
        }),
{
    let r = play_rules(b.dims, rep, suicide);
    let st = root_state(b, to_move);
    lemma_root_node(b, to_move, rep);
    law_value_agrees(r, st);
    law_verdict_agrees(r, st, k, c);
    law_verdict_agrees(r, st, k, Color::Black);
    crate::naive::law_threshold(r, st, k);
    crate::naive::law_determinacy(r, st, k);
}

/// The minimax area difference from a position taken as the root of play:
/// the value the rules define, when the search resolved within the budget.
pub fn solve(b: &Position, to_move: Color, rep: Repetition, suicide: Suicide, budget: Option<u64>) -> (r: Result<
    Solution,
    TooLarge,
>)
    requires
        b@.wf(),
    ensures
        r is Ok <==> b@.dims.size() <= MAX_TABLE_POINTS,
        r is Err ==> r->Err_0 == (TooLarge { dims: b@.dims, limit: MAX_TABLE_POINTS }),
        r is Ok ==> solution_ok(
            play_rules(b@.dims, rep, suicide),
            abs(rep, root_state(b@, to_move)),
            budget,
            r->Ok_0,
        ),
        r is Ok && r->Ok_0.value is Some ==> r->Ok_0.value == Some(
            value_spec(play_rules(b@.dims, rep, suicide), root_state(b@, to_move)) as i32,
        ),
{
    let table = match RuleTable::build(b.dims(), suicide) {
        Ok(t) => t,
        Err(e) => {
            return Err(e);
        },
    };
    let mut solver = Solver::new(&table, rep).with_budget(budget);
    let code = encode(b);
    proof {
        lemma_root_node(b@, to_move, rep);
        law_value_agrees(play_rules(b@.dims, rep, suicide), root_state(b@, to_move));
    }
    Ok(solver.solve_root(code, to_move))
}

/// Whether `c` wins from a position taken as the root of play at this komi
/// floor: the verdict the rules define, when the search resolved within the
/// budget.
pub fn decide(
    b: &Position,
    to_move: Color,
    rep: Repetition,
    suicide: Suicide,
    komi_floor: i64,
    c: Color,
    budget: Option<u64>,
) -> (r: Result<Decision, TooLarge>)
    requires
        b@.wf(),
    ensures
        r is Ok <==> b@.dims.size() <= MAX_TABLE_POINTS,
        r is Err ==> r->Err_0 == (TooLarge { dims: b@.dims, limit: MAX_TABLE_POINTS }),
        r is Ok ==> decision_ok(
            play_rules(b@.dims, rep, suicide),
            abs(rep, root_state(b@, to_move)),
            komi_floor as int,
            c,
            budget,
            r->Ok_0,
        ),
        r is Ok && r->Ok_0.wins is Some ==> r->Ok_0.wins == Some(
            wins_spec(play_rules(b@.dims, rep, suicide), root_state(b@, to_move), komi_floor as int, c),
        ),
{
    let table = match RuleTable::build(b.dims(), suicide) {
        Ok(t) => t,
        Err(e) => {
            return Err(e);
        },
    };
    let mut solver = Solver::new(&table, rep).with_budget(budget);
    let code = encode(b);
    proof {
        lemma_root_node(b@, to_move, rep);
        law_verdict_agrees(play_rules(b@.dims, rep, suicide), root_state(b@, to_move), komi_floor as int, c);
    }
    Ok(solver.decide_root(code, to_move, komi_floor, c))
}


impl<'t> Solver<'t> {
    /// Make each move of a line from the seated root, each successor
    /// archived, and stand at the state the line leads to.
    fn play_line(&mut self, line: &[Move])
        requires
            old(self).searching(),
            !old(self).over_budget,
            replay(old(self).rules(), old(self).node(), line@) is Some,
        ensures
            final(self).searching(),
            !final(self).over_budget,
            final(self).node() == replay(old(self).rules(), old(self).node(), line@).unwrap(),
            final(self).frame() == old(self).frame(),
            final(self).nodes == old(self).nodes,
            final(self).ssk_only == old(self).ssk_only,
            final(self).mirrored_skips == old(self).mirrored_skips,
    {
        let ghost r0 = self.rules();
        let ghost n0 = self.node();
        let mut i: usize = 0;
        while i < line.len()
            invariant
                self.searching(),
                !self.over_budget,
                r0 == self.rules(),
                self.frame() == old(self).frame(),
                self.nodes == old(self).nodes,
                self.ssk_only == old(self).ssk_only,
                self.mirrored_skips == old(self).mirrored_skips,
                replay(r0, n0, line@) is Some,
                i <= line@.len(),
                replay(r0, n0, line@.take(i as int)) == Some(self.node()),
            decreases line@.len() - i,
        {
            let mv = line[i];
            proof {
                crate::enumerate::lemma_replay_prefix(r0, n0, line@, i + 1);
                assert(line@.take(i + 1).drop_last() =~= line@.take(i as int));
                assert(line@.take(i + 1).last() == mv);
            }
            proof {
                let m = self.node();
                assert(replay(r0, n0, line@.take(i + 1)) == match verdict(r0, m, mv) {
                    Verdict::Legal(s) => if m.passes < 2 && all_moves_spec(r0.dims).contains(mv) {
                        Some(child(r0, m, mv, s))
                    } else {
                        None
                    },
                    _ => None,
                });
                let sv = verdict(r0, m, mv)->Legal_0;
                lemma_child_ok(r0, m, mv, sv);
            }
            let d = self.table.dims();
            let pi = match mv {
                Move::Pass => 0,
                Move::Play(p) => {
                    proof {
                        let j = choose|j: int| 0 <= j < all_moves_spec(d).len() && all_moves_spec(d)[j] == mv;
                        assert(j >= 1);
                        crate::config::lemma_point_of_in_range(d, j - 1);
                    }
                    d.index(p)
                },
            };
            let row = self.table.row_of(self.code, self.to_move);
            let got = self.legal_succ(mv, pi, row);
            let succ = match got {
                Some((succ, _)) => succ,
                None => {
                    proof {
                        assert(false);
                    }
                    return;
                },
            };
            self.make(mv, succ);
            i += 1;
        }
        proof {
            assert(line@.take(i as int) =~= line@);
        }
    }

    /// Forget the archive after a search from a line.
    fn clear_seat(&mut self)
        requires
            old(self).sound(),
        ensures
            final(self).wf(),
            final(self).frame() == old(self).frame(),
            final(self).nodes == old(self).nodes,
            final(self).max_depth == old(self).max_depth,
            final(self).ssk_only == old(self).ssk_only,
            final(self).over_budget == old(self).over_budget,
            final(self).mirrored_skips == old(self).mirrored_skips,
    {
        self.archive.clear();
        proof {
            assert(self.archive@.bits =~= Set::<int>::empty());
        }
    }

    /// The minimax area difference after a line of moves from a root of
    /// play, each move's situation archived as it is made; no value when
    /// the node budget ran out first. The moves of the line are not counted
    /// as nodes.
    pub fn solve_line(&mut self, code: PosCode, to_move: Color, line: &[Move]) -> (r: Solution)
        requires
            old(self).wf(),
            (code.0 as nat) < codes(old(self)@.dims),
            replay(old(self).rules(), seat_node(old(self)@.rep, code.0 as nat, to_move), line@) is Some,
        ensures
            final(self).wf(),
            final(self)@ == old(self)@,
            solution_ok(
                old(self).rules(),
                replay(old(self).rules(), seat_node(old(self)@.rep, code.0 as nat, to_move), line@).unwrap(),
                old(self)@.budget,
                r,
            ),
    {
        let _seed = self.seat(code, to_move);
        self.play_line(line);
        let ghost n0 = self.node();
        proof {
            lemma_nvalue_bound(self.rules(), n0);
        }
        let value = self.alphabeta(-self.span - 1, self.span + 1);
        self.clear_seat();
        Solution {
            value: if self.over_budget {
                None
            } else {
                Some(value)
            },
            nodes: self.nodes,
            max_depth: self.max_depth,
            ssk_only: self.ssk_only,
            mirrored_skips: self.mirrored_skips,
        }
    }

    /// Whether `c` wins at this komi floor after a line of moves from a
    /// root of play; no verdict when the node budget ran out first.
    pub fn decide_line(&mut self, code: PosCode, to_move: Color, line: &[Move], komi_floor: i64, c: Color) -> (r:
        Decision)
        requires
            old(self).wf(),
            (code.0 as nat) < codes(old(self)@.dims),
            replay(old(self).rules(), seat_node(old(self)@.rep, code.0 as nat, to_move), line@) is Some,
        ensures
            final(self).wf(),
            final(self)@ == old(self)@,
            decision_ok(
                old(self).rules(),
                replay(old(self).rules(), seat_node(old(self)@.rep, code.0 as nat, to_move), line@).unwrap(),
                komi_floor as int,
                c,
                old(self)@.budget,
                r,
            ),
    {
        let _seed = self.seat(code, to_move);
        self.play_line(line);
        let wins = self.verdict(komi_floor, c);
        self.clear_seat();
        Decision {
            wins: if self.over_budget {
                None
            } else {
                Some(wins)
            },
            nodes: self.nodes,
            max_depth: self.max_depth,
            mirrored_skips: self.mirrored_skips,
        }
    }
}

} // verus!
