//! The naive enumerator, and the arbiter.
//!
//! This walks [`crate::reference::State`] directly: a fresh state built at
//! every node, and [`crate::reference::legality`] asked about every move. It
//! shares no control flow with [`crate::enumerate`] — not a helper, not a
//! move loop, not an archive — so that an agreement between the two is
//! evidence about the rules and not about one piece of code called twice.
//! [`law_walk_agrees`] states that agreement for every board, rule and cap.

use vstd::prelude::*;
use vstd::relations::injective_on;
use vstd::set_lib::{lemma_map_size};

use crate::code::{cells_of, code_of, law_decode_encode, lemma_code_bound, pow3};
use crate::config::{Dims, Repetition, Suicide};
use crate::enumerate::{
    arch_key, child, codes, law_merge_monoid, lemma_child_ok, lemma_merge_fits, measure, node_ok,
    node_rep, moves_rep, opt_nat, refusal_rep, rfits, rmerge, rnonneg, root_node, rzero, visit_rep,
    verdict, BoardModel, Node, Report, ReportModel, Rules, Verdict, games_rep, game_rules,
};
use crate::reference::{
    after_spec, all_moves, all_moves_spec, clear_spec, ended, legality, legality_spec, sit_set, step,
    step_spec, Color, Move, Position, PositionModel, Refusal, SitModel, Situation, State, StateModel,
};

verus! {

/// A state the walk can stand in: a board, a well-formed state on it, at
/// most two passes.
pub open spec fn walk_ok(d: Dims, st: StateModel) -> bool {
    &&& d.wf()
    &&& st.wf()
    &&& st.now.board.dims == d
    &&& st.passes <= 2
}

/// The archive bit of a situation under a repetition rule.
pub open spec fn sit_key(rep: Repetition, m: SitModel) -> int {
    arch_key(rep, code_of(m.board.cells), m.to_move)
}

/// The search state a state of play stands for: its code, its player, its
/// passes, and the bits of every situation it has seen.
pub open spec fn abs(rep: Repetition, st: StateModel) -> Node {
    Node {
        code: code_of(st.now.board.cells),
        to_move: st.now.to_move,
        passes: st.passes,
        bits: st.seen.map(|m: SitModel| sit_key(rep, m)),
    }
}

/// The size of the archive the rule in force reads: the situations under
/// SSK, the positions under PSK.
pub open spec fn archive_size_spec(st: StateModel, rep: Repetition) -> nat {
    match rep {
        Repetition::Ssk => st.seen.len(),
        Repetition::Psk => st.seen.map(|m: SitModel| m.board).len(),
    }
}

/// The report of one refusal.
pub open spec fn refused_rep(e: Refusal) -> ReportModel {
    ReportModel {
        refused_occupied: if e is Occupied {
            1
        } else {
            0
        },
        refused_suicide: if e is Suicide {
            1
        } else {
            0
        },
        refused_repetition: if e is Repetition {
            1
        } else {
            0
        },
        ..rzero()
    }
}

/// The report of standing at a state of play.
pub open spec fn walk_visit_rep(st: StateModel, rep: Repetition, depth: nat) -> ReportModel {
    ReportModel {
        nodes: 1,
        max_depth: depth as int,
        max_archive: archive_size_spec(st, rep) as int,
        ..rzero()
    }
}

/// The report of the walk below a state of play `depth` moves from the
/// root: one game at two passes, one truncated leaf at the cap, otherwise
/// the state and every move from it, each asked of the rules.
pub open spec fn walk_rep(r: Rules, st: StateModel, depth: nat) -> ReportModel
    decreases measure(r, abs(r.rep, st)), 1int, 0int,
    when walk_ok(r.dims, st)
{
    if st.passes >= 2 {
        ReportModel { games: 1, ..walk_visit_rep(st, r.rep, depth) }
    } else if r.cap == Some(depth) {
        ReportModel { truncated: 1, ..walk_visit_rep(st, r.rep, depth) }
    } else {
        rmerge(walk_visit_rep(st, r.rep, depth), walk_moves(r, st, depth, 0))
    }
}

/// The report of the moves from the `i`-th on.
pub open spec fn walk_moves(r: Rules, st: StateModel, depth: nat, i: int) -> ReportModel
    decreases measure(r, abs(r.rep, st)), 0int, all_moves_spec(r.dims).len() - i,
    when walk_ok(r.dims, st) && st.passes < 2 && 0 <= i
{
    let moves = all_moves_spec(r.dims);
    if i >= moves.len() {
        rzero()
    } else {
        let mv = moves[i];
        let here = match legality_spec(st, mv, r.rep, r.suicide) {
            Ok(()) => {
                proof {
                    lemma_sim_step(r, st, mv);
                }
                walk_rep(r, step_spec(st, mv, r.suicide), depth + 1)
            },
            Err(e) => refused_rep(e),
        };
        rmerge(here, walk_moves(r, st, depth, i + 1))
    }
}

/// The board after a move is on the same board as before.
pub proof fn lemma_after_wf(s: SitModel, mv: Move, suicide: Suicide)
    requires
        s.board.wf(),
        mv matches Move::Play(p) ==> s.board.dims.has(p),
    ensures
        after_spec(s, mv, suicide).board.wf(),
        after_spec(s, mv, suicide).board.dims == s.board.dims,
{
    if let Move::Play(p) = mv {
        let d = s.board.dims;
        crate::config::lemma_index_in_range(d, p);
        let placed = s.board.put(p, Some(s.to_move));
        assert(placed.cells.len() == d.size());
        let once = clear_spec(placed, s.to_move.opp());
        assert(once.cells.len() == d.size());
        assert(clear_spec(once, s.to_move).cells.len() == d.size());
    }
}

/// Two boards of one size with one code are one board.
pub proof fn lemma_code_injective(a: PositionModel, b: PositionModel)
    requires
        a.wf(),
        b.wf(),
        a.dims == b.dims,
        code_of(a.cells) == code_of(b.cells),
    ensures
        a == b,
{
    law_decode_encode(a.cells);
    law_decode_encode(b.cells);
    assert(a.cells =~= b.cells);
}

/// The search state of a state of play is one the search can stand in, and
/// its archive has as many bits as the rule in force reads.
pub proof fn lemma_abs_ok(r: Rules, st: StateModel)
    requires
        walk_ok(r.dims, st),
    ensures
        node_ok(r, abs(r.rep, st)),
        abs(r.rep, st).bits.len() == archive_size_spec(st, r.rep),
        forall|m: SitModel| #[trigger] st.seen.contains(m) ==> abs(r.rep, st).bits.contains(sit_key(r.rep, m)),
        forall|b: int|
            #[trigger] abs(r.rep, st).bits.contains(b) ==> exists|m: SitModel| st.seen.contains(m) && sit_key(r.rep, m) == b,
{
    let n = abs(r.rep, st);
    let key = |m: SitModel| sit_key(r.rep, m);
    lemma_code_bound(st.now.board.cells);
    st.seen.lemma_map_finite(key);
    assert forall|b: int| #[trigger] n.bits.contains(b) implies 0 <= b < 2 * codes(r.dims) by {
        let m = choose|m: SitModel| st.seen.contains(m) && key(m) == b;
        lemma_code_bound(m.board.cells);
    }
    assert forall|m: SitModel| #[trigger] st.seen.contains(m) implies n.bits.contains(sit_key(r.rep, m)) by {
        assert(key(m) == sit_key(r.rep, m));
    }
    match r.rep {
        Repetition::Ssk => {
            assert(injective_on(key, st.seen)) by {
                assert forall|x1: SitModel, x2: SitModel|
                    st.seen.contains(x1) && st.seen.contains(x2) && #[trigger] key(x1) == #[trigger] key(x2) implies x1
                        == x2 by {
                    lemma_code_injective(x1.board, x2.board);
                }
            }
            lemma_map_size(st.seen, n.bits, key);
        },
        Repetition::Psk => {
            let boards = st.seen.map(|m: SitModel| m.board);
            let bkey = |b: PositionModel| 2 * code_of(b.cells) as int;
            st.seen.lemma_map_finite(|m: SitModel| m.board);
            assert(boards.map(bkey) =~= n.bits) by {
                assert forall|b: int| boards.map(bkey).contains(b) implies n.bits.contains(b) by {
                    let x = choose|x: PositionModel| boards.contains(x) && bkey(x) == b;
                    let m = choose|m: SitModel| st.seen.contains(m) && m.board == x;
                    assert(key(m) == b);
                }
                assert forall|b: int| n.bits.contains(b) implies boards.map(bkey).contains(b) by {
                    let m = choose|m: SitModel| st.seen.contains(m) && key(m) == b;
                    assert(boards.contains(m.board));
                    assert(bkey(m.board) == b);
                }
            }
            assert(injective_on(bkey, boards)) by {
                assert forall|x1: PositionModel, x2: PositionModel|
                    boards.contains(x1) && boards.contains(x2) && #[trigger] bkey(x1) == #[trigger] bkey(x2) implies x1
                        == x2 by {
                    let m1 = choose|m: SitModel| st.seen.contains(m) && m.board == x1;
                    let m2 = choose|m: SitModel| st.seen.contains(m) && m.board == x2;
                    lemma_code_injective(x1, x2);
                }
            }
            lemma_map_size(boards, n.bits, bkey);
        },
    }
}

/// One move of the walk is one move of the search: the rules refuse it for
/// the reason the search refuses it, and a legal move leads to the state of
/// play whose search state the search moves to.
pub proof fn lemma_sim_step(r: Rules, st: StateModel, mv: Move)
    requires
        walk_ok(r.dims, st),
        st.passes < 2,
        all_moves_spec(r.dims).contains(mv),
    ensures
        node_ok(r, abs(r.rep, st)),
        crate::reference::on_board(r.dims, mv),
        match legality_spec(st, mv, r.rep, r.suicide) {
            Ok(()) => {
                &&& verdict(r, abs(r.rep, st), mv) == Verdict::Legal(code_of(after_spec(st.now, mv, r.suicide).board.cells))
                &&& abs(r.rep, step_spec(st, mv, r.suicide)) == child(
                    r,
                    abs(r.rep, st),
                    mv,
                    code_of(after_spec(st.now, mv, r.suicide).board.cells),
                )
                &&& walk_ok(r.dims, step_spec(st, mv, r.suicide))
                &&& measure(r, abs(r.rep, step_spec(st, mv, r.suicide))) < measure(r, abs(r.rep, st))
                &&& 0 <= measure(r, abs(r.rep, step_spec(st, mv, r.suicide)))
            },
            Err(e) => refusal_rep(verdict(r, abs(r.rep, st), mv)) == refused_rep(e) && !(verdict(
                r,
                abs(r.rep, st),
                mv,
            ) is Legal),
        },
{
    lemma_abs_ok(r, st);
    let d = r.dims;
    let n = abs(r.rep, st);
    let b = st.now.board;
    let c = st.now.to_move;
    if let Move::Play(p) = mv {
        let j = choose|j: int| 0 <= j < all_moves_spec(d).len() && all_moves_spec(d)[j] == mv;
        assert(j >= 1);
        crate::config::lemma_point_of_in_range(d, j - 1);
    }
    lemma_after_wf(st.now, mv, r.suicide);
    let after = after_spec(st.now, mv, r.suicide);
    law_decode_encode(b.cells);
    assert(cells_of(d.size(), n.code) == b.cells);
    assert(crate::table::pos_of(d, n.code) == b);
    let s = code_of(after.board.cells);
    if let Move::Play(p) = mv {
        assert(crate::table::succ_gen(d, r.suicide, n.code, c, p) == s);
    }
    // The repetition conjunct reads the same archive in both.
    let refused_here = match r.rep {
        Repetition::Ssk => st.seen.contains(after),
        Repetition::Psk => exists|m: SitModel| #[trigger] st.seen.contains(m) && m.board == after.board,
    };
    assert(refused_here == crate::enumerate::archived(r.rep, n.bits, s, c.opp())) by {
        match r.rep {
            Repetition::Ssk => {
                if st.seen.contains(after) {
                    assert(n.bits.contains(sit_key(r.rep, after)));
                }
                if n.bits.contains(arch_key(r.rep, s, c.opp())) {
                    let m = choose|m: SitModel| st.seen.contains(m) && sit_key(r.rep, m) == arch_key(r.rep, s, c.opp());
                    lemma_code_injective(m.board, after.board);
                }
            },
            Repetition::Psk => {
                if refused_here {
                    let m = choose|m: SitModel| #[trigger] st.seen.contains(m) && m.board == after.board;
                    assert(n.bits.contains(sit_key(r.rep, m)));
                }
                if n.bits.contains(2 * s as int) {
                    let m = choose|m: SitModel| st.seen.contains(m) && sit_key(r.rep, m) == 2 * s as int;
                    lemma_code_injective(m.board, after.board);
                    assert(st.seen.contains(m) && m.board == after.board);
                }
                if n.bits.contains(2 * s as int + 1) {
                    let m = choose|m: SitModel| st.seen.contains(m) && sit_key(r.rep, m) == 2 * s as int + 1;
                }
            },
        }
    }
    if legality_spec(st, mv, r.rep, r.suicide) is Ok {
        let nx = step_spec(st, mv, r.suicide);
        assert(verdict(r, n, mv) == Verdict::Legal(s));
        let key = |m: SitModel| sit_key(r.rep, m);
        assert(abs(r.rep, nx).bits =~= n.bits.insert(arch_key(r.rep, s, c.opp()))) by {
            assert forall|x: int| abs(r.rep, nx).bits.contains(x) implies n.bits.insert(arch_key(r.rep, s, c.opp())).contains(x) by {
                let m = choose|m: SitModel| nx.seen.contains(m) && key(m) == x;
                if m != after {
                    assert(st.seen.contains(m));
                    assert(n.bits.contains(key(m)));
                }
            }
            assert forall|x: int| n.bits.insert(arch_key(r.rep, s, c.opp())).contains(x) implies abs(r.rep, nx).bits.contains(x) by {
                if x == arch_key(r.rep, s, c.opp()) {
                    assert(nx.seen.contains(after) && key(after) == x);
                } else {
                    let m = choose|m: SitModel| st.seen.contains(m) && key(m) == x;
                    assert(nx.seen.contains(m));
                }
            }
        }
        assert(abs(r.rep, nx) == child(r, n, mv, s));
        assert(walk_ok(d, nx));
        lemma_child_ok(r, n, mv, s);
    }
}


/// The walk below a state of play reports what the search reports below the
/// search state it stands for.
pub proof fn lemma_walk_agrees(r: Rules, st: StateModel, depth: nat)
    requires
        walk_ok(r.dims, st),
        r.split is None,
    ensures
        walk_rep(r, st, depth) == node_rep(r, abs(r.rep, st), depth),
    decreases measure(r, abs(r.rep, st)), 1int, 0int,
{
    lemma_abs_ok(r, st);
    if st.passes < 2 && r.cap != Some(depth) {
        lemma_walk_moves_agree(r, st, depth, 0);
    }
}

/// The walk and the search agree on the moves from the `i`-th on.
pub proof fn lemma_walk_moves_agree(r: Rules, st: StateModel, depth: nat, i: int)
    requires
        walk_ok(r.dims, st),
        st.passes < 2,
        0 <= i,
        r.split is None,
    ensures
        walk_moves(r, st, depth, i) == moves_rep(r, abs(r.rep, st), depth, i),
    decreases measure(r, abs(r.rep, st)), 0int, all_moves_spec(r.dims).len() - i,
{
    lemma_abs_ok(r, st);
    let moves = all_moves_spec(r.dims);
    if i < moves.len() {
        let mv = moves[i];
        let n = abs(r.rep, st);
        lemma_sim_step(r, st, mv);
        let wh = match legality_spec(st, mv, r.rep, r.suicide) {
            Ok(()) => walk_rep(r, step_spec(st, mv, r.suicide), depth + 1),
            Err(e) => refused_rep(e),
        };
        let nh = match verdict(r, n, mv) {
            Verdict::Legal(s) => node_rep(r, child(r, n, mv, s), depth + 1),
            v => refusal_rep(v),
        };
        if legality_spec(st, mv, r.rep, r.suicide) is Ok {
            lemma_walk_agrees(r, step_spec(st, mv, r.suicide), depth + 1);
        }
        assert(wh == nh);
        lemma_walk_moves_agree(r, st, depth, i + 1);
        assert(walk_moves(r, st, depth, i) == rmerge(wh, walk_moves(r, st, depth, i + 1)));
        crate::enumerate::lemma_moves_unfold(r, n, depth, i);
    }
}

/// The empty position of a board.
pub open spec fn empty_model(d: Dims) -> PositionModel {
    PositionModel { dims: d, cells: Seq::new(d.size(), |i: int| None) }
}

/// The state play begins in: the empty position, Black to move, its own
/// situation archived.
pub open spec fn start_state(d: Dims) -> StateModel {
    StateModel {
        now: SitModel { board: empty_model(d), to_move: Color::Black },
        seen: set![SitModel { board: empty_model(d), to_move: Color::Black }],
        passes: 0,
    }
}

/// What the naive walk reports from the empty position.
pub open spec fn naive_rep(dims: Dims, rep: Repetition, suicide: Suicide, cap: Option<usize>) -> ReportModel {
    walk_rep(game_rules(BoardModel { dims, suicide }, rep, cap), start_state(dims), 0)
}

/// The arbiter agrees: on every board, under both repetition rules, both
/// suicide conventions and any depth cap, the naive walk over states of
/// play reports exactly what the fast search reports, field by field.
pub proof fn law_walk_agrees(dims: Dims, rep: Repetition, suicide: Suicide, cap: Option<usize>)
    requires
        dims.wf(),
    ensures
        naive_rep(dims, rep, suicide, cap) == games_rep(BoardModel { dims, suicide }, rep, cap),
{
    let r = game_rules(BoardModel { dims, suicide }, rep, cap);
    let st = start_state(dims);
    assert(st.wf());
    lemma_walk_agrees(r, st, 0);
    crate::enumerate::lemma_empty_code(empty_model(dims).cells);
    assert(abs(rep, st).bits =~= set![arch_key(rep, 0, Color::Black)]) by {
        let key = |m: SitModel| sit_key(rep, m);
        assert(key(st.now) == arch_key(rep, 0, Color::Black));
    }
    assert(abs(rep, st) == root_node(rep));
}

/// The walk and the search agree below any state of play: a bridge for the
/// walk's own bounds.
proof fn lemma_walk_nonneg(r: Rules, st: StateModel, depth: nat)
    requires
        walk_ok(r.dims, st),
        r.split is None,
    ensures
        rnonneg(walk_rep(r, st, depth)),
        walk_rep(r, st, depth).nodes >= 1,
        walk_rep(r, st, depth).max_depth >= depth,
{
    lemma_walk_agrees(r, st, depth);
    lemma_abs_ok(r, st);
    crate::enumerate::lemma_rep_nonneg(r, abs(r.rep, st), depth);
}

/// The situations among the first `i` of a list, or their positions.
spec fn distinct_upto(v: Seq<Situation>, i: int, boards: bool) -> nat {
    if boards {
        sit_set(v.take(i)).map(|m: SitModel| m.board).len()
    } else {
        sit_set(v.take(i)).len()
    }
}

/// How many distinct situations a list holds, or distinct positions.
fn count_distinct(v: &Vec<Situation>, boards: bool) -> (r: usize)
    ensures
        r == distinct_upto(v@, v@.len() as int, boards),
{
    let mut count: usize = 0;
    let mut i: usize = 0;
    proof {
        assert(sit_set(v@.take(0)) =~= Set::empty());
        assert(sit_set(v@.take(0)).map(|m: SitModel| m.board) =~= Set::empty());
    }
    while i < v.len()
        invariant
            i <= v@.len(),
            count <= i,
            count == distinct_upto(v@, i as int, boards),
        decreases v@.len() - i,
    {
        let mut fresh = true;
        let mut j: usize = 0;
        while j < i
            invariant
                j <= i,
                i < v@.len(),
                fresh == (forall|k: int|
                    0 <= k < j ==> if boards {
                        v@[k].board@ != v@[i as int].board@
                    } else {
                        v@[k]@ != v@[i as int]@
                    }),
            decreases i - j,
        {
            let hit = if boards {
                v[j].board.same(&v[i].board)
            } else {
                v[j].same(&v[i])
            };
            if hit {
                fresh = false;
            }
            j += 1;
        }
        proof {
            let before = v@.take(i as int);
            let after = v@.take(i + 1);
            let bd = |m: SitModel| m.board;
            crate::reference::lemma_sit_set_finite(before);
            assert(sit_set(after) =~= sit_set(before).insert(v@[i as int]@)) by {
                assert forall|m: SitModel| sit_set(after).contains(m) implies sit_set(before).insert(v@[i as int]@).contains(m) by {
                    let k = choose|k: int| 0 <= k < after.len() && #[trigger] after[k]@ == m;
                    if k < i {
                        assert(before[k]@ == m);
                    }
                }
                assert forall|m: SitModel| sit_set(before).insert(v@[i as int]@).contains(m) implies sit_set(after).contains(m) by {
                    if m == v@[i as int]@ {
                        assert(after[i as int]@ == m);
                    } else {
                        let k = choose|k: int| 0 <= k < before.len() && #[trigger] before[k]@ == m;
                        assert(after[k]@ == m);
                    }
                }
            }
            sit_set(before).lemma_map_finite(bd);
            assert(sit_set(after).map(bd) =~= sit_set(before).map(bd).insert(v@[i as int].board@)) by {
                assert forall|b: PositionModel| sit_set(after).map(bd).contains(b) implies sit_set(before).map(bd).insert(
                    v@[i as int].board@,
                ).contains(b) by {
                    let m = choose|m: SitModel| sit_set(after).contains(m) && bd(m) == b;
                    if m != v@[i as int]@ {
                        assert(sit_set(before).contains(m));
                    }
                }
                assert forall|b: PositionModel| sit_set(before).map(bd).insert(v@[i as int].board@).contains(b) implies sit_set(
                    after,
                ).map(bd).contains(b) by {
                    if b == v@[i as int].board@ {
                        assert(sit_set(after).contains(v@[i as int]@));
                        assert(bd(v@[i as int]@) == b);
                    } else {
                        let m = choose|m: SitModel| sit_set(before).contains(m) && bd(m) == b;
                        assert(sit_set(after).contains(m));
                    }
                }
            }
            if boards {
                if fresh {
                    assert(!sit_set(before).map(bd).contains(v@[i as int].board@)) by {
                        if sit_set(before).map(bd).contains(v@[i as int].board@) {
                            let m = choose|m: SitModel| sit_set(before).contains(m) && bd(m) == v@[i as int].board@;
                            let k = choose|k: int| 0 <= k < before.len() && #[trigger] before[k]@ == m;
                            assert(v@[k].board@ == v@[i as int].board@);
                        }
                    }
                } else {
                    let k = choose|k: int| 0 <= k < i && !(v@[k].board@ != v@[i as int].board@);
                    assert(sit_set(before).contains(before[k]@));
                    assert(bd(before[k]@) == v@[i as int].board@);
                }
            } else {
                if fresh {
                    assert(!sit_set(before).contains(v@[i as int]@)) by {
                        if sit_set(before).contains(v@[i as int]@) {
                            let k = choose|k: int| 0 <= k < before.len() && #[trigger] before[k]@ == v@[i as int]@;
                            assert(v@[k]@ == v@[i as int]@);
                        }
                    }
                } else {
                    let k = choose|k: int| 0 <= k < i && !(v@[k]@ != v@[i as int]@);
                    assert(sit_set(before).contains(before[k]@));
                }
            }
        }
        if fresh {
            count += 1;
        }
        i += 1;
    }
    proof {
        assert(v@.take(v@.len() as int) =~= v@);
    }
    count
}

/// The size of the archive the rule in force reads.
fn archive_size(st: &State, rep: Repetition) -> (r: usize)
    ensures
        r == archive_size_spec(st@, rep),
{
    let seen = st.seen();
    proof {
        assert(seen@.take(seen@.len() as int) =~= seen@);
    }
    match rep {
        Repetition::Ssk => count_distinct(seen, false),
        Repetition::Psk => count_distinct(seen, true),
    }
}

/// A naive walk over one board.
struct Walk {
    dims: Dims,
    rep: Repetition,
    suicide: Suicide,
    depth_cap: Option<usize>,
    report: Report,
}

impl Walk {
    spec fn rules(&self) -> Rules {
        Rules { dims: self.dims, suicide: self.suicide, rep: self.rep, cap: opt_nat(self.depth_cap), split: None }
    }

    /// Visit a state of play `depth` moves from the root, asking the rules
    /// about every move and building the next state for each legal one.
    fn visit(&mut self, st: &State, depth: usize)
        requires
            walk_ok(old(self).dims, st@),
            rnonneg(old(self).report@),
            rfits(rmerge(old(self).report@, walk_rep(old(self).rules(), st@, depth as nat))),
        ensures
            final(self).dims == old(self).dims,
            final(self).rep == old(self).rep,
            final(self).suicide == old(self).suicide,
            final(self).depth_cap == old(self).depth_cap,
            rnonneg(final(self).report@),
            final(self).report@ == rmerge(old(self).report@, walk_rep(old(self).rules(), st@, depth as nat)),
        decreases measure(old(self).rules(), abs(old(self).rep, st@)),
    {
        let ghost r0 = self.rules();
        let ghost total = rmerge(self.report@, walk_rep(r0, st@, depth as nat));
        proof {
            lemma_walk_nonneg(r0, st@, depth as nat);
            law_merge_monoid(self.report@, rzero(), rzero());
        }
        self.report.nodes = self.report.nodes + 1;
        if depth > self.report.max_depth {
            self.report.max_depth = depth;
        }
        let held = archive_size(st, self.rep);
        if held > self.report.max_archive {
            self.report.max_archive = held;
        }
        if ended(st) {
            self.report.games = self.report.games + 1;
            return;
        }
        if let Some(cap) = self.depth_cap {
            if cap == depth {
                self.report.truncated = self.report.truncated + 1;
                return;
            }
        }
        proof {
            lemma_walk_agrees(r0, st@, depth as nat);
            lemma_abs_ok(r0, st@);
            crate::enumerate::lemma_moves_nonneg(r0, abs(r0.rep, st@), depth as nat, 0);
            lemma_walk_moves_agree(r0, st@, depth as nat, 0);
            law_merge_monoid(old(self).report@, walk_visit_rep(st@, r0.rep, depth as nat), walk_moves(r0, st@, depth as nat, 0));
        }
        let moves = all_moves(self.dims);
        let mut i: usize = 0;
        while i < moves.len()
            invariant
                self.rules() == r0,
                r0 == old(self).rules(),
                self.dims == old(self).dims,
                self.rep == old(self).rep,
                self.suicide == old(self).suicide,
                self.depth_cap == old(self).depth_cap,
                walk_ok(r0.dims, st@),
                st@.passes < 2,
                r0.cap != Some(depth as nat),
                moves@ == all_moves_spec(r0.dims),
                0 <= i <= moves@.len(),
                rnonneg(self.report@),
                rmerge(self.report@, walk_moves(r0, st@, depth as nat, i as int)) == total,
                rfits(total),
            decreases moves@.len() - i,
        {
            let mv = moves[i];
            let ghost before = self.report@;
            let ghost rest = walk_moves(r0, st@, depth as nat, i + 1);
            proof {
                assert(all_moves_spec(r0.dims)[i as int] == mv);
                lemma_sim_step(r0, st@, mv);
                lemma_abs_ok(r0, st@);
                crate::enumerate::lemma_moves_nonneg(r0, abs(r0.rep, st@), depth as nat, i + 1);
                lemma_walk_moves_agree(r0, st@, depth as nat, i + 1);
                let here = match legality_spec(st@, mv, r0.rep, r0.suicide) {
                    Ok(()) => walk_rep(r0, step_spec(st@, mv, r0.suicide), depth as nat + 1),
                    Err(e) => refused_rep(e),
                };
                if legality_spec(st@, mv, r0.rep, r0.suicide) is Ok {
                    lemma_walk_nonneg(r0, step_spec(st@, mv, r0.suicide), depth as nat + 1);
                }
                assert(walk_moves(r0, st@, depth as nat, i as int) == rmerge(here, rest));
                law_merge_monoid(before, here, rest);
                lemma_merge_fits(rmerge(before, here), rest);
                lemma_merge_fits(before, here);
            }
            match legality(st, mv, self.rep, self.suicide) {
                Ok(()) => {
                    let next = step(st, mv, self.suicide);
                    self.visit(&next, depth + 1);
                },
                Err(Refusal::Occupied) => {
                    self.report.refused_occupied = self.report.refused_occupied + 1;
                },
                Err(Refusal::Suicide) => {
                    self.report.refused_suicide = self.report.refused_suicide + 1;
                },
                Err(Refusal::Repetition) => {
                    self.report.refused_repetition = self.report.refused_repetition + 1;
                },
            }
            i += 1;
        }
        proof {
            law_merge_monoid(self.report@, rzero(), rzero());
        }
    }
}

/// Count the games of a board by the naive walk, from the empty position
/// with Black to move. A depth cap abandons a state that many moves from the
/// root and counts it as truncated, never as a game.
pub fn count_games(dims: Dims, rep: Repetition, suicide: Suicide, depth_cap: Option<usize>) -> (r: Report)
    requires
        dims.wf(),
        rfits(naive_rep(dims, rep, suicide, depth_cap)),
    ensures
        r@ == naive_rep(dims, rep, suicide, depth_cap),
{
    let mut walk = Walk { dims, rep, suicide, depth_cap, report: Report::zero() };
    let empty = Position::empty(dims);
    assert(empty@.cells =~= empty_model(dims).cells);
    let start = State::start(&empty, Color::Black);
    proof {
        law_merge_monoid(rzero(), naive_rep(dims, rep, suicide, depth_cap), rzero());
        lemma_walk_nonneg(walk.rules(), start@, 0);
    }
    walk.visit(&start, 0);
    walk.report
}

} // verus!
