//! The arbiter of the solvers: exact minimax over
//! [`crate::reference::State`], with nothing done for speed.
//!
//! Every node builds a fresh state, every legality question calls the rule
//! predicate itself, and nothing is pruned. Two recursions are kept apart:
//! [`wins_for`] is a two-valued game at a fixed komi floor, whether a named
//! color has a winning strategy; [`value`] is the minimax area difference,
//! Black maximizing and White minimizing. Neither is computed from the
//! other; [`law_threshold`] states that they agree, and [`law_determinacy`]
//! that exactly one color wins.

use vstd::prelude::*;

use crate::config::{Dims, Repetition, Suicide};
use crate::enumerate::{measure, node_ok, Rules};
use crate::reference::{
    all_moves, all_moves_spec, area, diff_spec, ended, lemma_legality_is_permits, permits_spec, permitted_after,
    step_spec, winner_z, winner_z_spec, Color, Move, Position, PositionModel, SitModel, State, StateModel,
};
use crate::walk::{abs, lemma_abs_ok, lemma_sim_step, walk_ok};

verus! {

/// The rules a state of play is searched under.
pub open spec fn play_rules(d: Dims, rep: Repetition, s: Suicide) -> Rules {
    Rules { dims: d, suicide: s, rep, cap: None, split: None }
}

/// A state the solvers take: a well-formed state on a board whose area
/// difference fits an `i32`.
pub open spec fn solvable(st: StateModel) -> bool {
    &&& st.wf()
    &&& st.now.board.dims.size() <= i32::MAX
}

/// The better of two optional values for the mover: the larger for Black,
/// the smaller for White.
pub open spec fn better(maximizing: bool, a: Option<int>, b: Option<int>) -> Option<int> {
    match (a, b) {
        (None, _) => b,
        (_, None) => a,
        (Some(x), Some(y)) => Some(
            if maximizing == (x >= y) {
                x
            } else {
                y
            },
        ),
    }
}

/// The minimax area difference from a state: a finished game is worth its
/// area difference; otherwise the mover takes the best of the moves the
/// rule permits.
pub open spec fn value_spec(r: Rules, st: StateModel) -> int
    decreases measure(r, abs(r.rep, st)), 1int, 0int,
    when walk_ok(r.dims, st)
{
    if st.passes >= 2 {
        diff_spec(st.now.board)
    } else {
        match best_from(r, st, 0) {
            Some(v) => v,
            None => 0,
        }
    }
}

/// The best value among the permitted moves from the `i`-th on.
pub open spec fn best_from(r: Rules, st: StateModel, i: int) -> Option<int>
    decreases measure(r, abs(r.rep, st)), 0int, all_moves_spec(r.dims).len() - i,
    when walk_ok(r.dims, st) && st.passes < 2 && 0 <= i
{
    let moves = all_moves_spec(r.dims);
    if i >= moves.len() {
        None
    } else {
        let mv = moves[i];
        let rest = best_from(r, st, i + 1);
        if permits_spec(st, mv, r.rep, r.suicide) {
            proof {
                lemma_sim_step(r, st, mv);
                lemma_legality_is_permits(st, mv, r.rep, r.suicide);
            }
            better(st.now.to_move == Color::Black, Some(value_spec(r, step_spec(st, mv, r.suicide))), rest)
        } else {
            rest
        }
    }
}

/// Whether `c` has a winning strategy from a state at a komi floor: at a
/// finished game, whether `c` is the winner; otherwise, when `c` moves,
/// whether some permitted move wins, and when the other color moves,
/// whether every permitted move does.
pub open spec fn wins_spec(r: Rules, st: StateModel, k: int, c: Color) -> bool
    decreases measure(r, abs(r.rep, st)), 1int, 0int,
    when walk_ok(r.dims, st)
{
    if st.passes >= 2 {
        winner_z_spec(st.now.board, k) == c
    } else {
        wins_from_move(r, st, k, c, 0)
    }
}

/// The verdict over the permitted moves from the `i`-th on: for the mover,
/// whether one of them wins; for the other color, whether all of them do.
pub open spec fn wins_from_move(r: Rules, st: StateModel, k: int, c: Color, i: int) -> bool
    decreases measure(r, abs(r.rep, st)), 0int, all_moves_spec(r.dims).len() - i,
    when walk_ok(r.dims, st) && st.passes < 2 && 0 <= i
{
    let moves = all_moves_spec(r.dims);
    let mover = st.now.to_move == c;
    if i >= moves.len() {
        !mover
    } else {
        let mv = moves[i];
        let rest = wins_from_move(r, st, k, c, i + 1);
        if permits_spec(st, mv, r.rep, r.suicide) {
            proof {
                lemma_sim_step(r, st, mv);
                lemma_legality_is_permits(st, mv, r.rep, r.suicide);
            }
            let won = wins_spec(r, step_spec(st, mv, r.suicide), k, c);
            if mover {
                won || rest
            } else {
                won && rest
            }
        } else {
            rest
        }
    }
}

/// Black's area less White's.
pub fn score(b: &Position) -> (r: i32)
    requires
        b@.wf(),
        b@.dims.size() <= i32::MAX,
    ensures
        r == diff_spec(b@),
{
    let black = area(b, Color::Black);
    let white = area(b, Color::White);
    black as i32 - white as i32
}


/// The better of two values is one of them, and choosing is associative.
proof fn lemma_better_assoc(m: bool, a: Option<int>, b: Option<int>, c: Option<int>)
    ensures
        better(m, better(m, a, b), c) == better(m, a, better(m, b, c)),
{
}

/// The best value from the `i`-th move on is that move's value, when it is
/// permitted, bettered by the rest.
pub proof fn lemma_best_unfold(r: Rules, st: StateModel, i: int)
    requires
        walk_ok(r.dims, st),
        st.passes < 2,
        0 <= i < all_moves_spec(r.dims).len(),
    ensures
        best_from(r, st, i) == if permits_spec(st, all_moves_spec(r.dims)[i], r.rep, r.suicide) {
            better(
                st.now.to_move == Color::Black,
                Some(value_spec(r, step_spec(st, all_moves_spec(r.dims)[i], r.suicide))),
                best_from(r, st, i + 1),
            )
        } else {
            best_from(r, st, i + 1)
        },
{
    let mv = all_moves_spec(r.dims)[i];
    assert(all_moves_spec(r.dims).contains(mv));
    lemma_sim_step(r, st, mv);
    lemma_legality_is_permits(st, mv, r.rep, r.suicide);
}

/// The verdict from the `i`-th move on is that move's verdict, when it is
/// permitted, joined with the rest.
pub proof fn lemma_wins_unfold(r: Rules, st: StateModel, k: int, c: Color, i: int)
    requires
        walk_ok(r.dims, st),
        st.passes < 2,
        0 <= i < all_moves_spec(r.dims).len(),
    ensures
        wins_from_move(r, st, k, c, i) == if permits_spec(st, all_moves_spec(r.dims)[i], r.rep, r.suicide) {
            if st.now.to_move == c {
                wins_spec(r, step_spec(st, all_moves_spec(r.dims)[i], r.suicide), k, c) || wins_from_move(r, st, k, c, i + 1)
            } else {
                wins_spec(r, step_spec(st, all_moves_spec(r.dims)[i], r.suicide), k, c) && wins_from_move(r, st, k, c, i + 1)
            }
        } else {
            wins_from_move(r, st, k, c, i + 1)
        },
{
    let mv = all_moves_spec(r.dims)[i];
    assert(all_moves_spec(r.dims).contains(mv));
    lemma_sim_step(r, st, mv);
    lemma_legality_is_permits(st, mv, r.rep, r.suicide);
}

/// The rules of a state's own board.
pub open spec fn rules_of(st: StateModel, rep: Repetition, s: Suicide) -> Rules {
    play_rules(st.now.board.dims, rep, s)
}

/// A well-formed state with at most two passes behind it is one the walk
/// stands in.
proof fn lemma_ok(st: StateModel, rep: Repetition, s: Suicide)
    requires
        st.wf(),
        st.passes <= 2,
    ensures
        walk_ok(st.now.board.dims, st),
{
}

/// The minimax area difference from a state: Black maximizes, White
/// minimizes, and a finished game is worth its area difference. A pass is
/// always permitted, so a state that has not ended always has a move.
pub fn value(st: &State, rep: Repetition, suicide: Suicide) -> (r: i32)
    requires
        solvable(st@),
    ensures
        st@.passes >= 2 ==> r == diff_spec(st@.now.board),
        st@.passes < 2 ==> r == value_spec(rules_of(st@, rep, suicide), st@),
{
    let mut work = st.duplicate();
    value_in(&mut work, rep, suicide)
}

/// The minimax value, computed in place: the state is the same after.
fn value_in(st: &mut State, rep: Repetition, suicide: Suicide) -> (r: i32)
    requires
        solvable(old(st)@),
    ensures
        old(st)@.passes >= 2 ==> r == diff_spec(old(st)@.now.board),
        old(st)@.passes < 2 ==> r == value_spec(rules_of(old(st)@, rep, suicide), old(st)@),
        final(st).same_as(*old(st)),
    decreases measure(rules_of(old(st)@, rep, suicide), abs(rep, old(st)@)),
{
    let ghost st0 = *st;
    proof {
        State::lemma_same(st0, st0, st0);
    }
    if ended(st) {
        return score(&st.now().board);
    }
    let ghost r = rules_of(st@, rep, suicide);
    let dims = st.now().board.dims();
    let maximizing = st.now().to_move == Color::Black;
    let moves = all_moves(dims);
    let mut best: Option<i32> = None;
    let mut i: usize = 0;
    proof {
        lemma_ok(st@, rep, suicide);
        lemma_abs_ok(r, st@);
    }
    while i < moves.len()
        invariant
            solvable(st@),
            st@.passes < 2,
            st.same_as(st0),
            st@ == st0@,
            st0 == *old(st),
            r == rules_of(st@, rep, suicide),
            dims == r.dims,
            walk_ok(r.dims, st@),
            maximizing == (st@.now.to_move == Color::Black),
            moves@ == all_moves_spec(dims),
            0 <= i <= moves@.len(),
            i > 0 ==> best is Some,
            better(maximizing, match best {
                Some(b) => Some(b as int),
                None => None,
            }, best_from(r, st@, i as int)) == best_from(r, st@, 0),
        decreases moves@.len() - i,
    {
        let mv = moves[i];
        let ghost before = match best {
            Some(b) => Some(b as int),
            None => None,
        };
        proof {
            assert(all_moves_spec(dims)[i as int] == mv);
            lemma_sim_step(r, st@, mv);
            lemma_best_unfold(r, st@, i as int);
        }
        let permitted = permitted_after(st, mv, rep, suicide);
        if let Some(after) = permitted {
            proof {
                lemma_legality_is_permits(st@, mv, rep, suicide);
            }
            let ghost prior = *st;
            let undo = st.advance_to(mv, after, suicide);
            let ghost advanced = *st;
            proof {
                assert(prior@ == st0@);
                assert(advanced@ == step_spec(prior@, mv, suicide));
                assert(rules_of(advanced@, rep, suicide) == r);
            }
            let v = value_in(st, rep, suicide);
            proof {
                State::lemma_same(*st, advanced, advanced);
                undo.lemma_undoes_same(advanced, *st, prior);
            }
            st.retreat(undo, Ghost(prior));
            proof {
                State::lemma_same(*st, prior, st0);
                State::lemma_same(advanced, advanced, advanced);
                assert(rules_of(advanced@, rep, suicide) == r);
                assert(v == value_spec(r, step_spec(st@, mv, suicide)));
                lemma_better_assoc(maximizing, before, Some(v as int), best_from(r, st@, i + 1));
            }
            best = Some(
                match best {
                    None => v,
                    Some(b) => if maximizing {
                        if b >= v {
                            b
                        } else {
                            v
                        }
                    } else {
                        if b >= v {
                            v
                        } else {
                            b
                        }
                    },
                },
            );
        } else {
            proof {
                assert(mv is Play);
            }
        }
        i += 1;
    }
    proof {
        assert(best_from(r, st@, i as int) == None::<int>);
    }
    match best {
        Some(b) => b,
        None => 0,
    }
}


/// Whether `c` has a winning strategy from this state at this komi floor:
/// the mover needs one permitted move that wins, the waiter needs every
/// permitted move to win. A finished game is won by the color the integer
/// winner test names.
pub fn wins_for(st: &State, rep: Repetition, suicide: Suicide, komi_floor: i64, c: Color) -> (r: bool)
    requires
        solvable(st@),
    ensures
        st@.passes >= 2 ==> r == (winner_z_spec(st@.now.board, komi_floor as int) == c),
        st@.passes < 2 ==> r == wins_spec(rules_of(st@, rep, suicide), st@, komi_floor as int, c),
{
    let mut work = st.duplicate();
    wins_in(&mut work, rep, suicide, komi_floor, c)
}

/// The verdict, computed in place: the state is the same after.
fn wins_in(st: &mut State, rep: Repetition, suicide: Suicide, komi_floor: i64, c: Color) -> (r: bool)
    requires
        solvable(old(st)@),
    ensures
        old(st)@.passes >= 2 ==> r == (winner_z_spec(old(st)@.now.board, komi_floor as int) == c),
        old(st)@.passes < 2 ==> r == wins_spec(rules_of(old(st)@, rep, suicide), old(st)@, komi_floor as int, c),
        final(st).same_as(*old(st)),
    decreases measure(rules_of(old(st)@, rep, suicide), abs(rep, old(st)@)),
{
    let ghost st0 = *st;
    proof {
        State::lemma_same(st0, st0, st0);
    }
    if ended(st) {
        proof {
            crate::reference::lemma_areas_disjoint(st@.now.board, st@.now.board.cells.len() as int);
        }
        return winner_z(&st.now().board, komi_floor) == c;
    }
    let ghost r = rules_of(st@, rep, suicide);
    let ghost k = komi_floor as int;
    let dims = st.now().board.dims();
    let mover = st.now().to_move == c;
    let moves = all_moves(dims);
    let mut i: usize = 0;
    proof {
        lemma_ok(st@, rep, suicide);
        lemma_abs_ok(r, st@);
    }
    while i < moves.len()
        invariant
            solvable(st@),
            st@.passes < 2,
            st.same_as(st0),
            st@ == st0@,
            st0 == *old(st),
            r == rules_of(st@, rep, suicide),
            k == komi_floor as int,
            dims == r.dims,
            walk_ok(r.dims, st@),
            mover == (st@.now.to_move == c),
            moves@ == all_moves_spec(dims),
            0 <= i <= moves@.len(),
            wins_from_move(r, st@, k, c, i as int) == wins_from_move(r, st@, k, c, 0),
        decreases moves@.len() - i,
    {
        let mv = moves[i];
        proof {
            assert(all_moves_spec(dims)[i as int] == mv);
            lemma_sim_step(r, st@, mv);
            lemma_wins_unfold(r, st@, k, c, i as int);
        }
        let permitted = permitted_after(st, mv, rep, suicide);
        if let Some(after) = permitted {
            proof {
                lemma_legality_is_permits(st@, mv, rep, suicide);
            }
            let ghost prior = *st;
            let undo = st.advance_to(mv, after, suicide);
            let ghost advanced = *st;
            proof {
                assert(prior@ == st0@);
                assert(advanced@ == step_spec(prior@, mv, suicide));
                assert(rules_of(advanced@, rep, suicide) == r);
            }
            let won = wins_in(st, rep, suicide, komi_floor, c);
            proof {
                State::lemma_same(*st, advanced, advanced);
                undo.lemma_undoes_same(advanced, *st, prior);
            }
            st.retreat(undo, Ghost(prior));
            proof {
                State::lemma_same(*st, prior, st0);
                State::lemma_same(advanced, advanced, advanced);
                assert(rules_of(advanced@, rep, suicide) == r);
                assert(won == wins_spec(r, step_spec(st@, mv, suicide), k, c));
            }
            if mover {
                if won {
                    return true;
                }
            } else if !won {
                return false;
            }
        }
        i += 1;
    }
    !mover
}

/// The state play begins in from a position taken as the root: its own
/// situation archived, no pass behind it.
pub open spec fn root_state(b: PositionModel, to_move: Color) -> StateModel {
    StateModel {
        now: SitModel { board: b, to_move },
        seen: set![SitModel { board: b, to_move }],
        passes: 0,
    }
}

/// The minimax area difference from a position taken as the root of play.
pub fn value_from(b: &Position, to_move: Color, rep: Repetition, suicide: Suicide) -> (r: i32)
    requires
        b@.wf(),
        b@.dims.size() <= i32::MAX,
    ensures
        r == value_spec(play_rules(b@.dims, rep, suicide), root_state(b@, to_move)),
{
    value(&State::start(b, to_move), rep, suicide)
}

/// Whether `c` wins from a position taken as the root of play at a komi
/// floor.
pub fn wins_from(
    b: &Position,
    to_move: Color,
    rep: Repetition,
    suicide: Suicide,
    komi_floor: i64,
    c: Color,
) -> (r: bool)
    requires
        b@.wf(),
        b@.dims.size() <= i32::MAX,
    ensures
        r == wins_spec(play_rules(b@.dims, rep, suicide), root_state(b@, to_move), komi_floor as int, c),
{
    wins_for(&State::start(b, to_move), rep, suicide, komi_floor, c)
}

/// Exactly one color has a winning strategy from every state, at every
/// komi floor.
pub proof fn law_determinacy(r: Rules, st: StateModel, k: int)
    requires
        walk_ok(r.dims, st),
    ensures
        wins_spec(r, st, k, Color::Black) != wins_spec(r, st, k, Color::White),
    decreases measure(r, abs(r.rep, st)), 1int, 0int,
{
    if st.passes < 2 {
        lemma_determinacy_moves(r, st, k, 0);
    }
}

/// Determinacy over the permitted moves from the `i`-th on: one color's
/// disjunction is the negation of the other's conjunction.
proof fn lemma_determinacy_moves(r: Rules, st: StateModel, k: int, i: int)
    requires
        walk_ok(r.dims, st),
        st.passes < 2,
        0 <= i,
    ensures
        wins_from_move(r, st, k, Color::Black, i) != wins_from_move(r, st, k, Color::White, i),
    decreases measure(r, abs(r.rep, st)), 0int, all_moves_spec(r.dims).len() - i,
{
    let moves = all_moves_spec(r.dims);
    if i < moves.len() {
        let mv = moves[i];
        assert(moves.contains(mv));
        lemma_sim_step(r, st, mv);
        lemma_legality_is_permits(st, mv, r.rep, r.suicide);
        lemma_wins_unfold(r, st, k, Color::Black, i);
        lemma_wins_unfold(r, st, k, Color::White, i);
        if permits_spec(st, mv, r.rep, r.suicide) {
            law_determinacy(r, step_spec(st, mv, r.suicide), k);
        }
        lemma_determinacy_moves(r, st, k, i + 1);
    }
}

/// Black wins at a komi floor exactly when the minimax area difference
/// exceeds it: the two recursions agree at every floor.
pub proof fn law_threshold(r: Rules, st: StateModel, k: int)
    requires
        walk_ok(r.dims, st),
    ensures
        wins_spec(r, st, k, Color::Black) == (value_spec(r, st) > k),
    decreases measure(r, abs(r.rep, st)), 1int, 0int,
{
    if st.passes < 2 {
        lemma_threshold_moves(r, st, k, 0);
        lemma_pass_first(r, st);
    }
}

/// The pass is always permitted, so there is always a best move.
proof fn lemma_pass_first(r: Rules, st: StateModel)
    requires
        walk_ok(r.dims, st),
        st.passes < 2,
    ensures
        best_from(r, st, 0) is Some,
{
    lemma_best_unfold(r, st, 0);
    assert(all_moves_spec(r.dims)[0] == Move::Pass);
}

/// The threshold agreement over the permitted moves from the `i`-th on:
/// for Black to move, some move wins exactly when the best value exceeds
/// the floor; for White to move, every move wins exactly when it does.
proof fn lemma_threshold_moves(r: Rules, st: StateModel, k: int, i: int)
    requires
        walk_ok(r.dims, st),
        st.passes < 2,
        0 <= i,
    ensures
        wins_from_move(r, st, k, Color::Black, i) == match best_from(r, st, i) {
            Some(v) => v > k,
            None => st.now.to_move != Color::Black,
        },
    decreases measure(r, abs(r.rep, st)), 0int, all_moves_spec(r.dims).len() - i,
{
    let moves = all_moves_spec(r.dims);
    if i < moves.len() {
        let mv = moves[i];
        assert(moves.contains(mv));
        lemma_sim_step(r, st, mv);
        lemma_legality_is_permits(st, mv, r.rep, r.suicide);
        lemma_wins_unfold(r, st, k, Color::Black, i);
        lemma_best_unfold(r, st, i);
        if permits_spec(st, mv, r.rep, r.suicide) {
            law_threshold(r, step_spec(st, mv, r.suicide), k);
        }
        lemma_threshold_moves(r, st, k, i + 1);
    }
}

} // verus!
