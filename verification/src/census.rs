//! Counting legal positions, and counting the position graph.
//!
//! Neither count has any history in it, so both exercise chains, liberties
//! and capture with the repetition rule out of the way. Both are brute
//! force over every position code and call the rules directly.
//!
//! A position is **legal** when no chain on it lacks a liberty. The
//! **position graph** has the legal positions as nodes; an edge `p -> q` is
//! a play of either color the convention permits that carries `p` to a
//! different position `q`, counted once per distinct pair. A play that
//! returns `p` itself is a **self-loop**, counted once per play.

use vstd::prelude::*;

use crate::code::{code_space, decode, encode, pow3, PosCode, MAX_CODED_POINTS};
use crate::config::{Dims, Point, Suicide};
use crate::reference::{
    adj_spec, chain_has, clear_spec, has_liberty, has_liberty_spec, is_walk, liberty_at, link_spec, playable_at,
    playable_spec, resolve_under, resolve_under_spec, Color, Link, Position, PositionModel,
};
use crate::table::{color_of, playable_gen, pos_of, succ_gen};
use crate::text::key_value;

verus! {

/// No chain of the position lacks a liberty.
pub open spec fn legal_spec(b: PositionModel) -> bool {
    forall|i: int|
        0 <= i < b.cells.len() && #[trigger] b.cells[i] is Some ==> has_liberty_spec(
            b,
            b.dims.point_of(i),
        )
}

/// Whether no chain of this position lacks a liberty.
pub fn is_legal(b: &Position) -> (r: bool)
    requires
        b@.wf(),
    ensures
        r == legal_spec(b@),
{
    let d = b.dims();
    let n = d.point_count();
    let mut i: usize = 0;
    while i < n
        invariant
            b@.wf(),
            d == b@.dims,
            n == d.size(),
            i <= n,
            forall|j: int|
                0 <= j < i && #[trigger] b@.cells[j] is Some ==> has_liberty_spec(b@, d.point_of(j)),
        decreases n - i,
    {
        proof {
            crate::config::lemma_grid(d);
        }
        if b.get_at(i).is_some() && !has_liberty(b, d.point_at(i)) {
            return false;
        }
        i += 1;
    }
    true
}

/// How many codes below `k` name legal positions.
pub open spec fn legal_count(d: Dims, k: int) -> nat
    decreases k,
{
    if k <= 0 {
        0
    } else {
        legal_count(d, k - 1) + if legal_spec(pos_of(d, (k - 1) as nat)) {
            1nat
        } else {
            0nat
        }
    }
}

proof fn lemma_legal_count_bound(d: Dims, k: int)
    requires
        k >= 0,
    ensures
        legal_count(d, k) <= k,
    decreases k,
{
    if k > 0 {
        lemma_legal_count_bound(d, k - 1);
    }
}

/// How many positions of the board are legal.
pub fn legal_positions(dims: Dims) -> (r: u64)
    requires
        dims.wf(),
        dims.size() <= MAX_CODED_POINTS,
    ensures
        r == legal_count(dims, pow3(dims.size()) as int),
{
    let codes = code_space(dims);
    let mut count: u64 = 0;
    let mut code: u32 = 0;
    while code < codes
        invariant
            dims.wf(),
            dims.size() <= MAX_CODED_POINTS,
            codes == pow3(dims.size()),
            code <= codes,
            count == legal_count(dims, code as int),
        decreases codes - code,
    {
        proof {
            lemma_legal_count_bound(dims, code as int);
        }
        let b = decode(dims, PosCode(code));
        if is_legal(&b) {
            count += 1;
        }
        code += 1;
    }
    count
}

/// The color of the `t`-th play of a position, `t < 2 · n`: Black's plays
/// first, then White's.
pub open spec fn play_color(n: int, t: int) -> Color {
    if t < n {
        Color::Black
    } else {
        Color::White
    }
}

/// The point index of the `t`-th play of a position.
pub open spec fn play_point(n: int, t: int) -> int {
    if t < n {
        t
    } else {
        t - n
    }
}

/// Whether the `t`-th play is permitted at a code.
pub open spec fn play_ok(d: Dims, s: Suicide, code: nat, t: int) -> bool {
    playable_gen(
        d,
        s,
        code,
        play_color(d.size() as int, t),
        d.point_of(play_point(d.size() as int, t)),
    )
}

/// The code the `t`-th play leads to.
pub open spec fn play_succ(d: Dims, s: Suicide, code: nat, t: int) -> nat {
    succ_gen(d, s, code, play_color(d.size() as int, t), d.point_of(play_point(d.size() as int, t)))
}

/// The distinct positions other than the position itself that the first `t`
/// plays reach.
pub open spec fn reached(d: Dims, s: Suicide, code: nat, t: int) -> Set<nat> {
    Set::new(
        |q: nat|
            q != code && exists|j: int| 0 <= j < t && #[trigger] play_ok(d, s, code, j) && play_succ(d, s, code, j) == q,
    )
}

/// How many of the first `t` plays return the position they were made from.
pub open spec fn loops_upto(d: Dims, s: Suicide, code: nat, t: int) -> nat
    decreases t,
{
    if t <= 0 {
        0
    } else {
        loops_upto(d, s, code, t - 1) + if play_ok(d, s, code, t - 1) && play_succ(d, s, code, t - 1) == code {
            1nat
        } else {
            0nat
        }
    }
}

/// The size of the position graph over the codes below `k`: nodes, edges,
/// self-loops.
pub open spec fn census_upto(d: Dims, s: Suicide, k: int) -> (nat, nat, nat)
    decreases k,
{
    if k <= 0 {
        (0, 0, 0)
    } else {
        let prev = census_upto(d, s, k - 1);
        let code = (k - 1) as nat;
        if legal_spec(pos_of(d, code)) {
            let n = 2 * d.size() as int;
            (prev.0 + 1, prev.1 + reached(d, s, code, n).len(), prev.2 + loops_upto(d, s, code, n))
        } else {
            prev
        }
    }
}

/// The size of the position graph.
#[derive(Clone, Copy, Debug, PartialEq, Eq, Structural)]
pub struct GraphCensus {
    /// Legal positions.
    pub nodes: u64,
    /// Distinct pairs `p -> q` with `q != p` that one play of either color
    /// reaches.
    pub edges: u64,
    /// Plays that return the position they were made from, counted per play.
    pub self_loops: u64,
}

impl Default for GraphCensus {
    fn default() -> (r: Self)
        ensures
            r == (GraphCensus { nodes: 0, edges: 0, self_loops: 0 }),
    {
        GraphCensus { nodes: 0, edges: 0, self_loops: 0 }
    }
}

impl GraphCensus {
    /// The body lines a results file carries, in a fixed order.
    pub fn lines(&self) -> (r: Vec<String>)
        ensures
            r@.len() == 3,
            r@[0]@ == "nodes="@ + crate::text::dec(self.nodes as nat),
            r@[1]@ == "edges="@ + crate::text::dec(self.edges as nat),
            r@[2]@ == "self-loops="@ + crate::text::dec(self.self_loops as nat),
    {
        let mut out: Vec<String> = Vec::new();
        out.push(key_value("nodes", self.nodes));
        out.push(key_value("edges", self.edges));
        out.push(key_value("self-loops", self.self_loops));
        proof {
            reveal_strlit("nodes");
            reveal_strlit("nodes=");
            reveal_strlit("edges");
            reveal_strlit("edges=");
            reveal_strlit("self-loops");
            reveal_strlit("self-loops=");
            assert("nodes"@ + seq!['='] =~= "nodes="@);
            assert("edges"@ + seq!['='] =~= "edges="@);
            assert("self-loops"@ + seq!['='] =~= "self-loops="@);
        }
        out
    }
}

/// The successors and self-loops of one position.
#[verifier::rlimit(30)]
#[verifier::spinoff_prover]
fn position_edges(dims: Dims, suicide: Suicide, code: u32, b: &Position) -> (r: (u64, u64))
    requires
        dims.wf(),
        dims.size() <= MAX_CODED_POINTS,
        (code as nat) < pow3(dims.size()),
        b@ == pos_of(dims, code as nat),
        b@.wf(),
    ensures
        r.0 == reached(dims, suicide, code as nat, 2 * dims.size() as int).len(),
        r.1 == loops_upto(dims, suicide, code as nat, 2 * dims.size() as int),
        r.0 <= 2 * dims.size(),
        r.1 <= 2 * dims.size(),
{
    let n = dims.point_count();
    proof {
        crate::code::lemma_pow3_20();
        crate::code::lemma_pow3_monotone(dims.size(), 20);
    }
    let mut seen: Vec<u32> = Vec::new();
    let mut loops: u64 = 0;
    let mut t: usize = 0;
    while t < 2 * n
        invariant
            dims.wf(),
            dims.size() <= MAX_CODED_POINTS,
            n == dims.size(),
            (code as nat) < pow3(dims.size()),
            b@ == pos_of(dims, code as nat),
            b@.wf(),
            t <= 2 * n,
            seen@.no_duplicates(),
            seen@.len() <= t,
            forall|q: u32| seen@.contains(q) <==> reached(dims, suicide, code as nat, t as int).contains(q as nat),
            forall|q: nat| reached(dims, suicide, code as nat, t as int).contains(q) ==> q < pow3(dims.size()),
            pow3(dims.size()) <= 3486784401,
            forall|j: int| 0 <= j < seen@.len() ==> seen@[j] != code,
            loops == loops_upto(dims, suicide, code as nat, t as int),
            loops <= t,
        decreases 2 * n - t,
    {
        let c = if t < n {
            Color::Black
        } else {
            Color::White
        };
        let pi = if t < n {
            t
        } else {
            t - n
        };
        let p = dims.point_at(pi);
        let ghost before = seen@;
        if playable_at(b, c, p, suicide) {
            let q = resolve_under(b, c, p, suicide);
            let qc = encode(&q).0;
            if qc == code {
                loops += 1;
            } else {
                let mut found = false;
                let mut k: usize = 0;
                while k < seen.len()
                    invariant
                        k <= seen@.len(),
                        found == exists|j: int| 0 <= j < k && seen@[j] == qc,
                    decreases seen@.len() - k,
                {
                    if seen[k] == qc {
                        found = true;
                    }
                    k += 1;
                }
                if !found {
                    seen.push(qc);
                    proof {
                        assert forall|j: int, l: int| 0 <= j < l < seen@.len() implies seen@[j] != seen@[l] by {
                            if l == seen@.len() - 1 {
                                assert(seen@[j] == before[j]);
                            }
                        }
                    }
                }
            }
        }
        proof {
            let tt = (t + 1) as int;
            assert forall|qq: u32| seen@.contains(qq) <==> reached(dims, suicide, code as nat, tt).contains(qq as nat) by {
                if reached(dims, suicide, code as nat, tt).contains(qq as nat) {
                    let j = choose|j: int| 0 <= j < tt && #[trigger] play_ok(dims, suicide, code as nat, j) && play_succ(dims, suicide, code as nat, j) == qq as nat;
                    if j < t {
                        assert(reached(dims, suicide, code as nat, t as int).contains(qq as nat));
                        assert(before.contains(qq));
                        let w = choose|w: int| 0 <= w < before.len() && before[w] == qq;
                        assert(seen@[w] == qq);
                    } else {
                        if !before.contains(qq) {
                            assert(seen@[seen@.len() - 1] == qq);
                        } else {
                            let w = choose|w: int| 0 <= w < before.len() && before[w] == qq;
                            assert(seen@[w] == qq);
                        }
                    }
                }
                if seen@.contains(qq) {
                    let w = choose|w: int| 0 <= w < seen@.len() && seen@[w] == qq;
                    if w < before.len() {
                        assert(before.contains(qq));
                        assert(reached(dims, suicide, code as nat, t as int).contains(qq as nat));
                        let j = choose|j: int| 0 <= j < t && #[trigger] play_ok(dims, suicide, code as nat, j) && play_succ(dims, suicide, code as nat, j) == qq as nat;
                        assert(play_ok(dims, suicide, code as nat, j));
                    } else {
                        assert(play_ok(dims, suicide, code as nat, t as int));
                    }
                }
            }
            assert forall|q: nat| reached(dims, suicide, code as nat, tt).contains(q) implies q < pow3(dims.size()) by {
                let j = choose|j: int| 0 <= j < tt && #[trigger] play_ok(dims, suicide, code as nat, j) && play_succ(dims, suicide, code as nat, j) == q;
                crate::config::lemma_grid(dims);
                assert(0 <= play_point(n as int, j) < n);
                crate::table::lemma_succ_gen_bound(dims, suicide, code as nat, play_color(n as int, j), dims.point_of(play_point(n as int, j)));
            }
        }
        t += 1;
    }
    proof {
        let r = reached(dims, suicide, code as nat, 2 * n as int);
        assert(r =~= seen@.to_set().map(|x: u32| x as nat)) by {
            assert forall|q: nat| r.contains(q) implies seen@.to_set().map(|x: u32| x as nat).contains(q) by {
                assert(q < pow3(dims.size()));
                let x = q as u32;
                assert(x as nat == q);
                assert(seen@.contains(x));
                assert(seen@.to_set().contains(x));
            }
            assert forall|q: nat| seen@.to_set().map(|x: u32| x as nat).contains(q) implies r.contains(q) by {
                let x = choose|x: u32| seen@.to_set().contains(x) && x as nat == q;
                assert(seen@.contains(x));
            }
        }
        seen@.unique_seq_to_set();
        lemma_map_u32_len(seen@.to_set());
    }
    (seen.len() as u64, loops)
}

/// Widening the elements of a finite set of `u32` keeps its size.
proof fn lemma_map_u32_len(s: Set<u32>)
    requires
        s.finite(),
    ensures
        s.map(|x: u32| x as nat).len() == s.len(),
        s.map(|x: u32| x as nat).finite(),
    decreases s.len(),
{
    if s.len() == 0 {
        assert(s.map(|x: u32| x as nat) =~= Set::<nat>::empty());
    } else {
        let a = s.choose();
        lemma_map_u32_len(s.remove(a));
        assert(s.map(|x: u32| x as nat) =~= s.remove(a).map(|x: u32| x as nat).insert(a as nat));
        assert(!s.remove(a).map(|x: u32| x as nat).contains(a as nat));
    }
}

/// Census the position graph under a suicide convention.
pub fn position_graph(dims: Dims, suicide: Suicide) -> (r: GraphCensus)
    requires
        dims.wf(),
        dims.size() <= MAX_CODED_POINTS,
    ensures
        (r.nodes as nat, r.edges as nat, r.self_loops as nat) == census_upto(
            dims,
            suicide,
            pow3(dims.size()) as int,
        ),
{
    let codes = code_space(dims);
    let n = dims.point_count();
    let mut census = GraphCensus { nodes: 0, edges: 0, self_loops: 0 };
    let mut code: u32 = 0;
    proof {
        crate::code::lemma_pow3_20();
        crate::code::lemma_pow3_monotone(dims.size(), 20);
    }
    while code < codes
        invariant
            dims.wf(),
            dims.size() <= MAX_CODED_POINTS,
            n == dims.size(),
            codes == pow3(dims.size()),
            codes <= 3486784401,
            code <= codes,
            (census.nodes as nat, census.edges as nat, census.self_loops as nat) == census_upto(
                dims,
                suicide,
                code as int,
            ),
            census.nodes <= code,
            census.edges <= code * 40,
            census.self_loops <= code * 40,
        decreases codes - code,
    {
        let b = decode(dims, PosCode(code));
        if is_legal(&b) {
            let (edges, loops) = position_edges(dims, suicide, code, &b);
            census.nodes = census.nodes + 1;
            census.edges = census.edges + edges;
            census.self_loops = census.self_loops + loops;
        }
        code += 1;
    }
    census
}

/// A chain walk read backwards is a chain walk.
proof fn lemma_walk_reverse(b: PositionModel, w: Seq<Point>)
    requires
        is_walk(b, Link::Joined, w),
    ensures
        is_walk(b, Link::Joined, w.reverse()),
{
    let r = w.reverse();
    assert forall|i: int| 0 <= i < r.len() implies b.dims.has(#[trigger] r[i]) by {
        assert(r[i] == w[w.len() - 1 - i]);
    }
    assert forall|i: int| 0 <= i < r.len() - 1 implies link_spec(b, Link::Joined, #[trigger] r[i], r[i + 1]) by {
        let j = w.len() - 2 - i;
        assert(r[i] == w[j + 1] && r[i + 1] == w[j]);
        assert(link_spec(b, Link::Joined, w[j], w[j + 1]));
    }
}

/// Chain membership is symmetric.
proof fn lemma_chain_sym(b: PositionModel, p: Point, q: Point)
    requires
        chain_has(b, p, q),
    ensures
        chain_has(b, q, p),
{
    let w = choose|w: Seq<Point>| #[trigger] is_walk(b, Link::Joined, w) && w[0] == p && w.last() == q;
    lemma_walk_reverse(b, w);
    let r = w.reverse();
    assert(r[0] == q && r.last() == p);
}

/// Chain membership is transitive.
proof fn lemma_chain_trans(b: PositionModel, p: Point, q: Point, x: Point)
    requires
        chain_has(b, p, q),
        chain_has(b, q, x),
    ensures
        chain_has(b, p, x),
{
    let w1 = choose|w: Seq<Point>| #[trigger] is_walk(b, Link::Joined, w) && w[0] == p && w.last() == q;
    let w2 = choose|w: Seq<Point>| #[trigger] is_walk(b, Link::Joined, w) && w[0] == q && w.last() == x;
    let t = w2.subrange(1, w2.len() as int);
    let w = w1 + t;
    let n = w1.len() as int;
    assert forall|i: int| 0 <= i < w.len() implies b.dims.has(#[trigger] w[i]) by {
        if i >= n {
            assert(w[i] == w2[i - n + 1]);
        }
    }
    assert forall|i: int| 0 <= i < w.len() - 1 implies link_spec(b, Link::Joined, #[trigger] w[i], w[i + 1]) by {
        if i < n - 1 {
            assert(w[i] == w1[i] && w[i + 1] == w1[i + 1]);
        } else if i == n - 1 {
            assert(w[i] == w2[0] && w[i + 1] == w2[1]);
        } else {
            assert(w[i] == w2[i - n + 1] && w[i + 1] == w2[i - n + 2]);
        }
    }
    if w2.len() == 1 {
        assert(w =~= w1);
    } else {
        assert(w.last() == w2.last());
    }
    assert(is_walk(b, Link::Joined, w) && w[0] == p);
}

/// Every stone of a chain has a liberty exactly when the chain does.
proof fn lemma_chain_liberty(b: PositionModel, p: Point, q: Point)
    requires
        chain_has(b, p, q),
        has_liberty_spec(b, p),
    ensures
        has_liberty_spec(b, q),
{
    let x = choose|x: Point| b.dims.has(x) && #[trigger] chain_has(b, p, x) && liberty_at(b, x);
    lemma_chain_sym(b, p, q);
    lemma_chain_trans(b, q, p, x);
}

/// Every point of a chain walk is a stone of the walk's first point's
/// color, and of its chain.
proof fn lemma_walk_points(b: PositionModel, w: Seq<Point>, i: int)
    requires
        is_walk(b, Link::Joined, w),
        0 <= i < w.len(),
    ensures
        b.at(w[i]) == b.at(w[0]),
        chain_has(b, w[0], w[i]),
    decreases i,
{
    let t = w.take(i + 1);
    assert forall|j: int| 0 <= j < t.len() - 1 implies link_spec(b, Link::Joined, #[trigger] t[j], t[j + 1]) by {
        assert(t[j] == w[j] && t[j + 1] == w[j + 1]);
    }
    assert(is_walk(b, Link::Joined, t) && t[0] == w[0] && t.last() == w[i]);
    if i > 0 {
        lemma_walk_points(b, w, i - 1);
        assert(link_spec(b, Link::Joined, w[i - 1], w[i]));
    }
}

/// What stands at a point after the chains of `k` without a liberty are
/// removed.
proof fn lemma_clear_at(x: PositionModel, k: Color, z: Point)
    requires
        x.wf(),
        x.dims.has(z),
    ensures
        clear_spec(x, k).wf(),
        clear_spec(x, k).dims == x.dims,
        clear_spec(x, k).at(z) == (if x.at(z) == Some(k) && !has_liberty_spec(x, z) {
            None
        } else {
            x.at(z)
        }),
{
    crate::config::lemma_index_in_range(x.dims, z);
}

/// What stands at a point after a stone is placed.
proof fn lemma_put_at(b: PositionModel, p: Point, v: Option<Color>, z: Point)
    requires
        b.wf(),
        b.dims.has(p),
        b.dims.has(z),
    ensures
        b.put(p, v).wf(),
        b.put(p, v).at(z) == (if z == p {
            v
        } else {
            b.at(z)
        }),
{
    crate::config::lemma_index_in_range(b.dims, p);
    crate::config::lemma_index_in_range(b.dims, z);
    if z != p {
        if b.dims.index_of(z) == b.dims.index_of(p) {
            crate::config::lemma_index_injective(b.dims, z, p);
        }
    }
}

/// A stone that stands after a removal, and whose chain had a liberty
/// before it, still has one: its chain's stones all stand, and an empty
/// point stays empty.
proof fn lemma_clear_keeps(x: PositionModel, k: Color, y: Point)
    requires
        x.wf(),
        x.dims.has(y),
        clear_spec(x, k).at(y) is Some,
        has_liberty_spec(x, y),
    ensures
        has_liberty_spec(clear_spec(x, k), y),
{
    let c = clear_spec(x, k);
    lemma_clear_at(x, k, y);
    let q = choose|q: Point| x.dims.has(q) && #[trigger] chain_has(x, y, q) && liberty_at(x, q);
    let r = choose|r: Point| x.dims.has(r) && #[trigger] adj_spec(q, r) && x.at(r) is None;
    let w = choose|w: Seq<Point>| #[trigger] is_walk(x, Link::Joined, w) && w[0] == y && w.last() == q;
    assert forall|i: int| 0 <= i < w.len() implies #[trigger] c.at(w[i]) == x.at(w[i]) by {
        lemma_walk_points(x, w, i);
        lemma_clear_at(x, k, w[i]);
        lemma_chain_liberty(x, y, w[i]);
    }
    assert forall|i: int| 0 <= i < w.len() - 1 implies link_spec(c, Link::Joined, #[trigger] w[i], w[i + 1]) by {
        assert(link_spec(x, Link::Joined, w[i], w[i + 1]));
        assert(c.at(w[i]) == x.at(w[i]));
        assert(c.at(w[i + 1]) == x.at(w[i + 1]));
    }
    assert forall|i: int| 0 <= i < w.len() implies c.dims.has(#[trigger] w[i]) by {
        assert(x.dims.has(w[i]));
    }
    assert(is_walk(c, Link::Joined, w));
    assert(chain_has(c, y, q));
    lemma_clear_at(x, k, r);
    assert(c.at(r) is None);
    assert(c.dims.has(r) && adj_spec(q, r));
    assert(liberty_at(c, q));
    assert(c.dims.has(q));
}

/// A play the board conditions permit, from a position on which every chain
/// has a liberty, leaves a position on which every chain has a liberty,
/// under either suicide convention.
pub proof fn law_play_keeps_legal(b: PositionModel, c: Color, p: Point, s: Suicide)
    requires
        b.wf(),
        b.dims.has(p),
        legal_spec(b),
        playable_spec(b, c, p, s),
    ensures
        legal_spec(resolve_under_spec(b, c, p, s)),
{
    let placed = b.put(p, Some(c));
    let o = c.opp();
    let after = resolve_under_spec(b, c, p, s);
    lemma_put_at(b, p, Some(c), p);
    let first = clear_spec(placed, o);
    lemma_clear_at(placed, o, p);
    assert forall|i: int| 0 <= i < after.cells.len() && #[trigger] after.cells[i] is Some implies has_liberty_spec(
        after,
        after.dims.point_of(i),
    ) by {
        let z = b.dims.point_of(i);
        crate::config::lemma_point_of_in_range(b.dims, i);
        lemma_put_at(b, p, Some(c), z);
        lemma_clear_at(placed, o, z);
        assert(after.at(z) == after.cells[i]);
        match s {
            Suicide::Forbid => {
                if placed.at(z) == Some(o) {
                    lemma_clear_keeps(placed, o, z);
                } else if z == p {
                } else {
                    assert(b.at(z) == Some(c));
                    assert(b.cells[i] is Some);
                    assert(has_liberty_spec(b, z));
                    let q = choose|q: Point| b.dims.has(q) && #[trigger] chain_has(b, z, q) && liberty_at(b, q);
                    let r = choose|r: Point| b.dims.has(r) && #[trigger] adj_spec(q, r) && b.at(r) is None;
                    let w = choose|w: Seq<Point>| #[trigger] is_walk(b, Link::Joined, w) && w[0] == z && w.last() == q;
                    assert forall|j: int| 0 <= j < w.len() implies #[trigger] first.at(w[j]) == Some(c) by {
                        lemma_walk_points(b, w, j);
                        lemma_put_at(b, p, Some(c), w[j]);
                        lemma_clear_at(placed, o, w[j]);
                    }
                    assert forall|j: int| 0 <= j < w.len() - 1 implies link_spec(first, Link::Joined, #[trigger] w[j], w[j + 1]) by {
                        assert(link_spec(b, Link::Joined, w[j], w[j + 1]));
                        assert(first.at(w[j]) == Some(c));
                        assert(first.at(w[j + 1]) == Some(c));
                    }
                    assert(is_walk(first, Link::Joined, w));
                    assert(chain_has(first, z, q));
                    lemma_walk_points(b, w, w.len() - 1);
                    if r == p {
                        assert(link_spec(first, Link::Joined, q, p));
                        lemma_linked_step_chain(first, z, q, p);
                        lemma_chain_sym(first, z, p);
                        lemma_chain_liberty(first, p, z);
                    } else {
                        lemma_put_at(b, p, Some(c), r);
                        lemma_clear_at(placed, o, r);
                        assert(liberty_at(first, q));
                    }
                }
            },
            Suicide::RemoveOwn => {
                lemma_clear_at(first, c, z);
                if first.at(z) == Some(c) {
                    lemma_clear_keeps(first, c, z);
                } else {
                    assert(first.at(z) == Some(o));
                    assert(placed.at(z) == Some(o));
                    lemma_clear_keeps(placed, o, z);
                    lemma_clear_keeps(first, c, z);
                }
            },
        }
    }
}

/// A chain walk extended by one joined step reaches the new stone.
proof fn lemma_linked_step_chain(b: PositionModel, p: Point, q: Point, y: Point)
    requires
        chain_has(b, p, q),
        b.dims.has(y),
        link_spec(b, Link::Joined, q, y),
    ensures
        chain_has(b, p, y),
{
    let w = choose|w: Seq<Point>| #[trigger] is_walk(b, Link::Joined, w) && w[0] == p && w.last() == q;
    let w2 = w.push(y);
    assert forall|i: int| 0 <= i < w2.len() - 1 implies link_spec(b, Link::Joined, #[trigger] w2[i], w2[i + 1]) by {
        if i < w.len() - 1 {
            assert(w2[i] == w[i] && w2[i + 1] == w[i + 1]);
        }
    }
    assert forall|i: int| 0 <= i < w2.len() implies b.dims.has(#[trigger] w2[i]) by {
        if i < w.len() {
            assert(w2[i] == w[i]);
        }
    }
    assert(is_walk(b, Link::Joined, w2) && w2[0] == p && w2.last() == y);
}

} // verus!
