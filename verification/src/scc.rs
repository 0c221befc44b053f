//! The strongly connected components of the situation graph.
//!
//! Vertices are situations: a position with a player to move. Edges are a
//! pass, always, or a play at a point the board permits, and carry no
//! repetition rule at all, so the component structure is rule-independent.
//! The cone of a situation — what is still reachable from it — is the union
//! of the components reachable from its own in the condensation, so the
//! census below measures it for every situation of a board at once.
//!
//! Components are found by Tarjan's algorithm, and its numbering is then
//! checked: every component is strongly connected, and every edge runs from
//! a component to one numbered no higher. A numbering that passes both
//! checks is exactly the partition into strongly connected components, in
//! reverse topological order, and that is what the contracts state.

use vstd::prelude::*;

use crate::census::{is_legal, legal_spec};
use crate::code::{code_space, decode, encode, pow3, PosCode};
use crate::config::{Dims, Point, Suicide};
use crate::reference::{playable_at, resolve_under, Color, Position};
use crate::table::{color_index, color_of, playable_gen, pos_of, succ_gen};
use crate::text::{dec, prefixed_value};

verus! {

/// Every edge of an adjacency list ends at a vertex.
pub open spec fn gwf(g: Seq<Seq<u32>>) -> bool {
    forall|v: int, j: int| 0 <= v < g.len() && 0 <= j < g[v].len() ==> (#[trigger] g[v][j]) < g.len()
}

/// An edge from `v` to `w`.
pub open spec fn edge(g: Seq<Seq<u32>>, v: int, w: int) -> bool {
    0 <= v < g.len() && exists|j: int| 0 <= j < g[v].len() && #[trigger] g[v][j] as int == w
}

/// A walk along edges.
pub open spec fn is_path(g: Seq<Seq<u32>>, p: Seq<int>) -> bool {
    &&& p.len() >= 1
    &&& forall|i: int| 0 <= i < p.len() ==> 0 <= #[trigger] p[i] < g.len()
    &&& forall|i: int| 0 <= i < p.len() - 1 ==> #[trigger] edge(g, p[i], p[i + 1])
}

/// `w` can be reached from `v`.
pub open spec fn reaches(g: Seq<Seq<u32>>, v: int, w: int) -> bool {
    exists|p: Seq<int>| #[trigger] is_path(g, p) && p[0] == v && p.last() == w
}

/// `v` and `w` reach each other: they lie in one component.
pub open spec fn mutual(g: Seq<Seq<u32>>, v: int, w: int) -> bool {
    reaches(g, v, w) && reaches(g, w, v)
}

/// Every vertex reaches itself.
pub proof fn lemma_reach_refl(g: Seq<Seq<u32>>, v: int)
    requires
        0 <= v < g.len(),
    ensures
        reaches(g, v, v),
{
    let p = seq![v];
    assert(is_path(g, p));
}

/// A walk extends by an edge.
pub proof fn lemma_reach_step(g: Seq<Seq<u32>>, v: int, w: int, x: int)
    requires
        gwf(g),
        reaches(g, v, w),
        edge(g, w, x),
    ensures
        reaches(g, v, x),
{
    let p = choose|p: Seq<int>| #[trigger] is_path(g, p) && p[0] == v && p.last() == w;
    let q = p.push(x);
    let j = choose|j: int| 0 <= j < g[w].len() && #[trigger] g[w][j] as int == x;
    assert(g[w][j] < g.len());
    assert forall|i: int| 0 <= i < q.len() - 1 implies #[trigger] edge(g, q[i], q[i + 1]) by {
        if i < p.len() - 1 {
            assert(q[i] == p[i] && q[i + 1] == p[i + 1]);
        }
    }
    assert(is_path(g, q));
}

/// A walk extends by an edge in front.
pub proof fn lemma_reach_prepend(g: Seq<Seq<u32>>, v: int, w: int, x: int)
    requires
        gwf(g),
        edge(g, v, w),
        reaches(g, w, x),
    ensures
        reaches(g, v, x),
{
    let p = choose|p: Seq<int>| #[trigger] is_path(g, p) && p[0] == w && p.last() == x;
    let q = seq![v] + p;
    assert forall|i: int| 0 <= i < q.len() - 1 implies #[trigger] edge(g, q[i], q[i + 1]) by {
        if i > 0 {
            let k = i - 1;
            assert(q[i] == p[k] && q[i + 1] == p[k + 1]);
            assert(edge(g, p[k], p[k + 1]));
        } else {
            assert(q[0] == v && q[1] == p[0]);
        }
    }
    assert(is_path(g, q));
}

/// Reaching is transitive.
pub proof fn lemma_reach_trans(g: Seq<Seq<u32>>, u: int, v: int, w: int)
    requires
        gwf(g),
        reaches(g, u, v),
        reaches(g, v, w),
    ensures
        reaches(g, u, w),
{
    let p = choose|p: Seq<int>| #[trigger] is_path(g, p) && p[0] == v && p.last() == w;
    lemma_reach_trans_path(g, u, p);
}

proof fn lemma_reach_trans_path(g: Seq<Seq<u32>>, u: int, p: Seq<int>)
    requires
        gwf(g),
        is_path(g, p),
        reaches(g, u, p[0]),
    ensures
        reaches(g, u, p.last()),
    decreases p.len(),
{
    if p.len() > 1 {
        let q = p.drop_last();
        assert(is_path(g, q)) by {
            assert forall|i: int| 0 <= i < q.len() - 1 implies #[trigger] edge(g, q[i], q[i + 1]) by {
                assert(edge(g, p[i], p[i + 1]));
            }
        }
        lemma_reach_trans_path(g, u, q);
        let k = p.len() - 2;
        assert(edge(g, p[k], p[k + 1]));
        lemma_reach_step(g, u, q.last(), p.last());
    }
}

/// A set of vertices that holds `v` and is closed under edges holds every
/// vertex `v` reaches.
proof fn lemma_closed_holds(g: Seq<Seq<u32>>, seen: Seq<bool>, v: int, p: Seq<int>)
    requires
        seen.len() == g.len(),
        is_path(g, p),
        p[0] == v,
        seen[v],
        forall|u: int, w: int| 0 <= u < g.len() && seen[u] && #[trigger] edge(g, u, w) ==> seen[w],
    ensures
        seen[p.last()],
    decreases p.len(),
{
    if p.len() > 1 {
        let q = p.drop_last();
        assert(is_path(g, q)) by {
            assert forall|i: int| 0 <= i < q.len() - 1 implies #[trigger] edge(g, q[i], q[i + 1]) by {
                assert(edge(g, p[i], p[i + 1]));
            }
        }
        lemma_closed_holds(g, seen, v, q);
        let k = p.len() - 2;
        assert(edge(g, p[k], p[k + 1]));
        assert(seen[p[k]]);
    }
}

/// The adjacency lists as sequences.
pub open spec fn adj_view(adj: Seq<Vec<u32>>) -> Seq<Seq<u32>> {
    adj.map_values(|r: Vec<u32>| r@)
}

/// Every vertex `s` reaches, by a search that marks each vertex once.
fn reach_from(adj: &Vec<Vec<u32>>, s: u32) -> (r: Vec<bool>)
    requires
        gwf(adj_view(adj@)),
        s < adj@.len(),
        adj@.len() <= u32::MAX,
    ensures
        r@.len() == adj@.len(),
        forall|w: int| 0 <= w < adj@.len() ==> (r@[w] <==> reaches(adj_view(adj@), s as int, w)),
{
    let ghost g = adj_view(adj@);
    let n = adj.len();
    let mut seen: Vec<bool> = Vec::new();
    let mut i: usize = 0;
    while i < n
        invariant
            i <= n,
            seen@.len() == i,
            forall|j: int| 0 <= j < i ==> !seen@[j],
        decreases n - i,
    {
        seen.push(false);
        i += 1;
    }
    seen.set(s as usize, true);
    let mut stack: Vec<u32> = Vec::new();
    stack.push(s);
    let ghost mut marked: Set<int> = set![s as int];
    proof {
        assert(stack@[0] == s);
        assert forall|u: int, w: int|
            0 <= u < n && seen@[u] && !stack@.contains(u as u32) && #[trigger] edge(g, u, w) implies seen@[w] by {
            if u == s as int {
                assert(stack@.contains(s));
            }
        }
        lemma_reach_refl(g, s as int);
        vstd::set_lib::lemma_int_range(0, n as int);
        vstd::set_lib::lemma_len_subset(marked, vstd::set_lib::set_int_range(0, n as int));
    }
    while stack.len() > 0
        invariant
            g == adj_view(adj@),
            gwf(g),
            n == adj@.len(),
            n <= u32::MAX,
            seen@.len() == n,
            seen@[s as int],
            forall|w: int| 0 <= w < n && #[trigger] seen@[w] ==> reaches(g, s as int, w),
            forall|w: int| #[trigger] marked.contains(w) <==> (0 <= w < n && seen@[w]),
            marked.finite(),
            marked.len() <= n,
            forall|k: int| 0 <= k < stack@.len() ==> (#[trigger] stack@[k]) < n && seen@[stack@[k] as int],
            forall|k1: int, k2: int| 0 <= k1 < k2 < stack@.len() ==> stack@[k1] != stack@[k2],
            forall|u: int, w: int|
                0 <= u < n && seen@[u] && !stack@.contains(u as u32) && #[trigger] edge(g, u, w) ==> seen@[w],
        decreases n - marked.len(), stack@.len(),
    {
        let ghost stack0 = stack@;
        let ghost marked0 = marked;
        let u = stack.pop().unwrap();
        proof {
            assert(stack0 == stack@.push(u));
            assert(!stack@.contains(u)) by {
                if stack@.contains(u) {
                    let k = choose|k: int| 0 <= k < stack@.len() && stack@[k] == u;
                    assert(stack0[k] == stack0[stack0.len() - 1]);
                }
            }
        }
        let row = &adj[u as usize];
        assert(row@ == g[u as int]);
        assert forall|x: int, w: int|
            0 <= x < n && x != u && seen@[x] && !stack@.contains(x as u32) && #[trigger] edge(g, x, w) implies seen@[w] by {
            if stack0.contains(x as u32) {
                let k = choose|k: int| 0 <= k < stack0.len() && stack0[k] == x as u32;
                if k < stack@.len() {
                    assert(stack@[k] == x as u32);
                }
            }
        }
        let mut j: usize = 0;
        while j < row.len()
            invariant
                g == adj_view(adj@),
                gwf(g),
                n == adj@.len(),
                n <= u32::MAX,
                seen@.len() == n,
                seen@[s as int],
                u < n,
                seen@[u as int],
                row@ == g[u as int],
                0 <= j <= row@.len(),
                !stack@.contains(u),
                forall|w: int| 0 <= w < n && #[trigger] seen@[w] ==> reaches(g, s as int, w),
                forall|w: int| #[trigger] marked.contains(w) <==> (0 <= w < n && seen@[w]),
                marked.finite(),
                marked.len() <= n,
                marked0.subset_of(marked),
                marked0.len() <= marked.len(),
                stack0.len() - 1 <= stack@.len(),
                stack@.len() > stack0.len() - 1 ==> marked.len() > marked0.len(),
                forall|k: int| 0 <= k < stack@.len() ==> (#[trigger] stack@[k]) < n && seen@[stack@[k] as int],
                forall|k1: int, k2: int| 0 <= k1 < k2 < stack@.len() ==> stack@[k1] != stack@[k2],
                forall|x: int, w: int|
                    0 <= x < n && x != u && seen@[x] && !stack@.contains(x as u32) && #[trigger] edge(g, x, w) ==> seen@[w],
                forall|k: int| 0 <= k < j ==> seen@[#[trigger] row@[k] as int],
            decreases row@.len() - j,
        {
            let w = row[j];
            assert(w < n);
            if !seen[w as usize] {
                let ghost before = stack@;
                let ghost seen_before = seen@;
                proof {
                    lemma_reach_step(g, s as int, u as int, w as int);
                    vstd::set_lib::lemma_int_range(0, n as int);
                    vstd::set_lib::lemma_len_subset(marked.insert(w as int), vstd::set_lib::set_int_range(0, n as int));
                    marked = marked.insert(w as int);
                }
                seen.set(w as usize, true);
                stack.push(w);
                proof {
                    assert forall|k1: int, k2: int| 0 <= k1 < k2 < stack@.len() implies stack@[k1] != stack@[k2] by {
                        if k2 == stack@.len() - 1 {
                            assert(seen@[before[k1] as int]);
                        }
                    }
                    assert forall|x: u32| before.contains(x) implies stack@.contains(x) by {
                        let k = choose|k: int| 0 <= k < before.len() && before[k] == x;
                        assert(stack@[k] == x);
                    }
                    assert forall|x: int, y: int|
                        0 <= x < n && x != u && seen@[x] && !stack@.contains(x as u32) && #[trigger] edge(g, x, y) implies seen@[y] by {
                        assert(stack@[stack@.len() - 1] == w);
                        assert(x != w as int);
                        assert(!before.contains(x as u32));
                        assert(seen_before[x]);
                        assert(seen_before[y]);
                    }
                }
            }
            j += 1;
        }
        proof {
            assert forall|x: int, w: int|
                0 <= x < n && seen@[x] && !stack@.contains(x as u32) && #[trigger] edge(g, x, w) implies seen@[w] by {
                if x == u {
                    let k = choose|k: int| 0 <= k < g[x].len() && #[trigger] g[x][k] as int == w;
                    assert(seen@[row@[k] as int]);
                }
            }
        }
    }
    proof {
        assert forall|w: int| 0 <= w < n && reaches(g, s as int, w) implies seen@[w] by {
            let p = choose|p: Seq<int>| #[trigger] is_path(g, p) && p[0] == s as int && p.last() == w;
            lemma_closed_holds(g, seen@, s as int, p);
        }
    }
    seen
}


/// A numbering of the vertices by component, in reverse topological order:
/// numbers below `count`, each of them used, one number for exactly the
/// vertices that reach each other, and every edge running to a number no
/// higher than the one it leaves.
pub open spec fn scc_numbering(g: Seq<Seq<u32>>, comp: Seq<u32>, count: nat) -> bool {
    &&& comp.len() == g.len()
    &&& forall|v: int| 0 <= v < g.len() ==> #[trigger] comp[v] < count
    &&& forall|c: int| 0 <= c < count ==> #[trigger] used(comp, c)
    &&& forall|v: int, w: int|
        0 <= v < g.len() && 0 <= w < g.len() ==> (#[trigger] comp[v] == #[trigger] comp[w] <==> mutual(g, v, w))
    &&& forall|v: int, w: int| #[trigger] edge(g, v, w) ==> comp[w] <= comp[v]
}

/// Some vertex carries the number `c`.
pub open spec fn used(comp: Seq<u32>, c: int) -> bool {
    exists|v: int| 0 <= v < comp.len() && comp[v] == c
}

/// Some numbered vertex carries the number `c`.
spec fn used_by(comp: Seq<u32>, assigned: Seq<bool>, c: int) -> bool {
    exists|v: int| 0 <= v < comp.len() && assigned[v] && comp[v] == c
}

/// Along a walk the numbers never rise, when no edge raises them.
proof fn lemma_topo_path(g: Seq<Seq<u32>>, comp: Seq<u32>, p: Seq<int>)
    requires
        comp.len() == g.len(),
        is_path(g, p),
        forall|v: int, w: int| #[trigger] edge(g, v, w) ==> comp[w] <= comp[v],
    ensures
        comp[p.last()] <= comp[p[0]],
    decreases p.len(),
{
    if p.len() > 1 {
        let q = p.drop_last();
        assert(is_path(g, q)) by {
            assert forall|i: int| 0 <= i < q.len() - 1 implies #[trigger] edge(g, q[i], q[i + 1]) by {
                assert(edge(g, p[i], p[i + 1]));
            }
        }
        lemma_topo_path(g, comp, q);
        let k = p.len() - 2;
        assert(edge(g, p[k], p[k + 1]));
    }
}

/// How many entries of a list are set.
pub open spec fn count_true(a: Seq<bool>) -> nat
    decreases a.len(),
{
    if a.len() == 0 {
        0
    } else {
        count_true(a.drop_last()) + if a.last() {
            1nat
        } else {
            0nat
        }
    }
}

/// A pointwise smaller list counts no more, and counts as many only when
/// it is the same list.
proof fn lemma_count_sub(a: Seq<bool>, b: Seq<bool>)
    requires
        a.len() == b.len(),
        forall|i: int| 0 <= i < a.len() && #[trigger] a[i] ==> b[i],
    ensures
        count_true(a) <= count_true(b),
        count_true(a) == count_true(b) ==> forall|i: int| 0 <= i < a.len() ==> a[i] == #[trigger] b[i],
    decreases a.len(),
{
    if a.len() > 0 {
        let a1 = a.drop_last();
        let b1 = b.drop_last();
        assert forall|i: int| 0 <= i < a1.len() && #[trigger] a1[i] implies b1[i] by {
            assert(a[i]);
        }
        lemma_count_sub(a1, b1);
        if count_true(a) == count_true(b) {
            assert forall|i: int| 0 <= i < a.len() implies a[i] == #[trigger] b[i] by {
                if i < a.len() - 1 {
                    assert(a1[i] == a[i] && b1[i] == b[i]);
                }
            }
        }
    }
}

proof fn lemma_count_bound(a: Seq<bool>)
    ensures
        count_true(a) <= a.len(),
        (exists|i: int| 0 <= i < a.len() && #[trigger] a[i]) ==> count_true(a) >= 1,
    decreases a.len(),
{
    if a.len() > 0 {
        lemma_count_bound(a.drop_last());
        if exists|i: int| 0 <= i < a.len() && #[trigger] a[i] {
            let i = choose|i: int| 0 <= i < a.len() && #[trigger] a[i];
            if i < a.len() - 1 {
                assert(a.drop_last()[i]);
            }
        }
    }
}

/// The count of set entries among the first `k`, by a loop.
fn count_set(a: &Vec<bool>) -> (r: usize)
    ensures
        r == count_true(a@),
{
    let mut k: usize = 0;
    let mut c: usize = 0;
    while k < a.len()
        invariant
            k <= a@.len(),
            c == count_true(a@.take(k as int)),
            c <= k,
        decreases a@.len() - k,
    {
        proof {
            assert(a@.take(k + 1).drop_last() =~= a@.take(k as int));
        }
        if a[k] {
            c += 1;
        }
        k += 1;
    }
    assert(a@.take(k as int) =~= a@);
    c
}

/// The members of a set of vertices that are not yet numbered.
spec fn open_part(r: Seq<bool>, assigned: Seq<bool>) -> Seq<bool> {
    Seq::new(r.len(), |i: int| r[i] && !assigned[i])
}

/// Whether `u` reaches each vertex.
spec fn reach_row(g: Seq<Seq<u32>>, u: int) -> Seq<bool> {
    Seq::new(g.len(), |w: int| reaches(g, u, w))
}

fn open_mask(r: &Vec<bool>, assigned: &Vec<bool>) -> (m: Vec<bool>)
    requires
        r@.len() == assigned@.len(),
    ensures
        m@ == open_part(r@, assigned@),
{
    let mut m: Vec<bool> = Vec::new();
    let mut i: usize = 0;
    while i < r.len()
        invariant
            r@.len() == assigned@.len(),
            i <= r@.len(),
            m@ =~= open_part(r@, assigned@).take(i as int),
        decreases r@.len() - i,
    {
        m.push(r[i] && !assigned[i]);
        i += 1;
    }
    assert(m@ =~= open_part(r@, assigned@));
    m
}

/// A numbering found without Tarjan: repeatedly take a not-yet-numbered
/// vertex whose not-yet-numbered forward set is smallest; that set is a
/// component with no edge to another not-yet-numbered vertex, and it gets
/// the next number. Slow, and only what the numbering is checked against.
fn number_by_sinks(adj: &Vec<Vec<u32>>) -> (r: (Vec<u32>, u32))
    requires
        gwf(adj_view(adj@)),
        adj@.len() <= u32::MAX,
    ensures
        scc_numbering(adj_view(adj@), r.0@, r.1 as nat),
{
    let ghost g = adj_view(adj@);
    let n = adj.len();
    let mut assigned: Vec<bool> = Vec::new();
    let mut comp: Vec<u32> = Vec::new();
    let mut i: usize = 0;
    while i < n
        invariant
            i <= n,
            assigned@.len() == i,
            comp@.len() == i,
            forall|j: int| 0 <= j < i ==> !assigned@[j],
        decreases n - i,
    {
        assigned.push(false);
        comp.push(0);
        i += 1;
    }
    let mut count: u32 = 0;
    let mut done: usize = 0;
    proof {
        assert(assigned@ =~= Seq::new(n as nat, |j: int| false));
        lemma_count_zero(assigned@);
    }
    while done < n
        invariant
            g == adj_view(adj@),
            gwf(g),
            n == adj@.len(),
            n <= u32::MAX,
            assigned@.len() == n,
            comp@.len() == n,
            done == count_true(assigned@),
            done <= n,
            count <= done,
            forall|v: int| 0 <= v < n && assigned@[v] ==> #[trigger] comp@[v] < count,
            forall|c: int| 0 <= c < count ==> #[trigger] used_by(comp@, assigned@, c),
            forall|v: int, w: int|
                0 <= v < n && 0 <= w < n && assigned@[v] && assigned@[w] ==> (#[trigger] comp@[v] == #[trigger] comp@[w]
                    <==> mutual(g, v, w)),
            forall|v: int, w: int| 0 <= v < n && 0 <= w < n && assigned@[v] && #[trigger] mutual(g, v, w) ==> assigned@[w],
            forall|v: int, w: int| assigned@[v] && #[trigger] edge(g, v, w) ==> assigned@[w] && comp@[w] <= comp@[v],
        decreases n - done,
    {
        // The not-yet-numbered vertex whose open forward set is smallest.
        let mut best: usize = n;
        let mut best_mask: Vec<bool> = Vec::new();
        let mut best_count: usize = 0;
        let mut v: usize = 0;
        while v < n
            invariant
                g == adj_view(adj@),
                gwf(g),
                n == adj@.len(),
                n <= u32::MAX,
                assigned@.len() == n,
                v <= n,
                best == n || (best < v && !assigned@[best as int]),
                best < n ==> best_mask@ == open_part(reach_row(g, best as int), assigned@),
                best < n ==> best_count == count_true(best_mask@),
                best < n ==> forall|u: int|
                    0 <= u < v && !assigned@[u] ==> best_count <= count_true(
                        open_part(#[trigger] reach_row(g, u), assigned@),
                    ),
                best == n ==> forall|u: int| 0 <= u < v ==> assigned@[u],
            decreases n - v,
        {
            if !assigned[v] {
                let reach = reach_from(adj, v as u32);
                assert(reach@ =~= reach_row(g, v as int));
                let mask = open_mask(&reach, &assigned);
                let c = count_set(&mask);
                if best == n || c < best_count {
                    best = v;
                    best_mask = mask;
                    best_count = c;
                }
            }
            v += 1;
        }
        if best == n {
            proof {
                lemma_count_all(assigned@);
            }
            done = n;
        } else {
        let ghost before = assigned@;
        let ghost comp_before = comp@;
        let ghost b = best as int;
        proof {
            lemma_reach_refl(g, b);
            // Every member of the open forward set of `best` reaches back.
            assert forall|w: int| 0 <= w < n && #[trigger] best_mask@[w] implies reaches(g, w, b) by {
                let rw = open_part(reach_row(g, w), before);
                assert forall|x: int| 0 <= x < n && #[trigger] rw[x] implies best_mask@[x] by {
                    lemma_reach_trans(g, b, w, x);
                }
                lemma_count_sub(rw, best_mask@);
                assert(best_mask@[b]);
                assert(rw[b] == best_mask@[b]);
            }
        }
        let mut w: usize = 0;
        let mut added: usize = 0;
        while w < n
            invariant
                g == adj_view(adj@),
                gwf(g),
                n == adj@.len(),
                0 <= b < n,
                w <= n,
                assigned@.len() == n,
                comp@.len() == n,
                before.len() == n,
                comp_before.len() == n,
                best_mask@.len() == n,
                best_mask@ == open_part(reach_row(g, b), before),
                forall|x: int| 0 <= x < n ==> #[trigger] assigned@[x] == (before[x] || (x < w && best_mask@[x])),
                forall|x: int| 0 <= x < n ==> #[trigger] comp@[x] == if x < w && best_mask@[x] {
                    count
                } else {
                    comp_before[x]
                },
                added == count_true(best_mask@.take(w as int)),
                added <= w,
            decreases n - w,
        {
            proof {
                assert(best_mask@.take(w + 1).drop_last() =~= best_mask@.take(w as int));
            }
            if best_mask[w] {
                assigned.set(w, true);
                comp.set(w, count);
                added += 1;
            }
            w += 1;
        }
        proof {
            assert(best_mask@.take(n as int) =~= best_mask@);
            lemma_count_union(before, best_mask@, assigned@);
            assert(best_mask@[b]);
            lemma_count_bound(best_mask@);
            assert forall|v: int, x: int|
                0 <= v < n && 0 <= x < n && assigned@[v] && assigned@[x] implies (#[trigger] comp@[v] == #[trigger] comp@[x]
                    <==> mutual(g, v, x)) by {
                if best_mask@[v] && best_mask@[x] {
                    lemma_reach_trans(g, v, b, x);
                    lemma_reach_trans(g, x, b, v);
                } else if best_mask@[v] && !best_mask@[x] {
                    if mutual(g, v, x) {
                        assert(mutual(g, x, v));
                        assert(before[v]);
                    }
                } else if !best_mask@[v] && best_mask@[x] {
                    if mutual(g, v, x) {
                        assert(before[x]);
                    }
                }
            }
            assert forall|v: int, x: int| 0 <= v < n && 0 <= x < n && assigned@[v] && #[trigger] mutual(g, v, x) implies assigned@[x] by {
                if best_mask@[v] && !before[x] {
                    lemma_reach_trans(g, b, v, x);
                }
            }
            assert forall|v: int, x: int| assigned@[v] && #[trigger] edge(g, v, x) implies assigned@[x] && comp@[x] <= comp@[v] by {
                let j = choose|j: int| 0 <= j < g[v].len() && #[trigger] g[v][j] as int == x;
                assert(g[v][j] < g.len());
                if best_mask@[v] {
                    lemma_reach_refl(g, v);
                    lemma_reach_step(g, v, v, x);
                    lemma_reach_trans(g, b, v, x);
                }
            }
            assert forall|c: int| 0 <= c < count + 1 implies #[trigger] used_by(comp@, assigned@, c) by {
                if c == count {
                    assert(assigned@[b] && comp@[b] == c);
                } else {
                    assert(used_by(comp_before, before, c));
                    let v = choose|v: int| 0 <= v < n && before[v] && comp_before[v] == c;
                    assert(assigned@[v] && comp@[v] == c);
                }
            }
        }
        proof {
            lemma_count_all(assigned@);
        }
        done = done + added;
        count = count + 1;
        }
    }
    proof {
        lemma_count_all(assigned@);
        assert forall|v: int, w: int| 0 <= v < n && 0 <= w < n implies (#[trigger] comp@[v] == #[trigger] comp@[w] <==> mutual(g, v, w)) by {
            assert(assigned@[v] && assigned@[w]);
        }
        assert forall|v: int, w: int| #[trigger] edge(g, v, w) implies comp@[w] <= comp@[v] by {
            assert(assigned@[v]);
        }
        assert forall|v: int| 0 <= v < g.len() implies #[trigger] comp@[v] < count by {
            assert(assigned@[v]);
        }
        assert forall|c: int| 0 <= c < count implies #[trigger] used(comp@, c) by {
            assert(used_by(comp@, assigned@, c));
        }
    }
    (comp, count)
}

proof fn lemma_count_zero(a: Seq<bool>)
    requires
        forall|i: int| 0 <= i < a.len() ==> !a[i],
    ensures
        count_true(a) == 0,
    decreases a.len(),
{
    if a.len() > 0 {
        lemma_count_zero(a.drop_last());
    }
}

/// A list that counts as many set entries as it has entries is all set;
/// one with an unset entry counts fewer.
proof fn lemma_count_all(a: Seq<bool>)
    ensures
        count_true(a) == a.len() <==> forall|i: int| 0 <= i < a.len() ==> a[i],
        count_true(a) <= a.len(),
    decreases a.len(),
{
    if a.len() > 0 {
        lemma_count_all(a.drop_last());
        if forall|i: int| 0 <= i < a.len() ==> a[i] {
            assert forall|i: int| 0 <= i < a.len() - 1 implies a.drop_last()[i] by {
                assert(a[i]);
            }
        }
        if count_true(a) == a.len() {
            assert forall|i: int| 0 <= i < a.len() implies a[i] by {
                if i < a.len() - 1 {
                    assert(a.drop_last()[i]);
                }
            }
        }
    }
}

/// Setting the entries of a disjoint list adds its count.
proof fn lemma_count_union(a: Seq<bool>, b: Seq<bool>, c: Seq<bool>)
    requires
        a.len() == b.len(),
        c.len() == a.len(),
        forall|i: int| 0 <= i < a.len() ==> !(a[i] && b[i]),
        forall|i: int| 0 <= i < a.len() ==> #[trigger] c[i] == (a[i] || b[i]),
    ensures
        count_true(c) == count_true(a) + count_true(b),
    decreases a.len(),
{
    if a.len() > 0 {
        lemma_count_union(a.drop_last(), b.drop_last(), c.drop_last());
    }
}


/// The greatest vertex count the component search takes.
pub const MAX_VERTICES: usize = 0x1000_0000;

/// A vertex not yet visited.
const UNVISITED: u32 = 0xffff_ffff;

/// Tarjan's algorithm, iterative because the graph is deep. Components come
/// out numbered in reverse topological order. Every step is bounded, and
/// what it returns is checked by [`check_numbering`] before anything reads
/// it.
fn tarjan(adj: &Vec<Vec<u32>>) -> (r: (Vec<u32>, u32))
    requires
        gwf(adj_view(adj@)),
        adj@.len() < MAX_VERTICES,
    ensures
        r.0@.len() == adj@.len(),
{
    let ghost g = adj_view(adj@);
    let n = adj.len();
    let mut index: Vec<u32> = Vec::new();
    let mut low: Vec<u32> = Vec::new();
    let mut on_stack: Vec<bool> = Vec::new();
    let mut component: Vec<u32> = Vec::new();
    let mut i: usize = 0;
    while i < n
        invariant
            i <= n,
            index@.len() == i,
            low@.len() == i,
            on_stack@.len() == i,
            component@.len() == i,
        decreases n - i,
    {
        index.push(UNVISITED);
        low.push(0);
        on_stack.push(false);
        component.push(UNVISITED);
        i += 1;
    }
    let mut stack: Vec<u32> = Vec::new();
    let mut work: Vec<(u32, u32)> = Vec::new();
    let mut counter: u32 = 0;
    let mut components: u32 = 0;
    let mut steps: usize = 0;
    let limit: usize = 2 * n + 2;
    let mut root: usize = 0;
    while root < n
        invariant
            g == adj_view(adj@),
            gwf(g),
            n == adj@.len(),
            n < MAX_VERTICES,
            limit == 2 * n + 2,
            root <= n,
            steps <= limit,
            counter <= steps,
            components <= steps,
            index@.len() == n,
            low@.len() == n,
            on_stack@.len() == n,
            component@.len() == n,
            forall|k: int| 0 <= k < stack@.len() ==> #[trigger] stack@[k] < n,
            forall|k: int| 0 <= k < work@.len() ==> (#[trigger] work@[k]).0 < n,
        decreases n - root,
    {
        if index[root] == UNVISITED {
            work.push((root as u32, 0));
            while work.len() > 0 && steps < limit
                invariant
                    g == adj_view(adj@),
                    gwf(g),
                    n == adj@.len(),
                    n < MAX_VERTICES,
                    limit == 2 * n + 2,
                    steps <= limit,
                    counter <= steps,
                    components <= steps,
                    index@.len() == n,
                    low@.len() == n,
                    on_stack@.len() == n,
                    component@.len() == n,
                    forall|k: int| 0 <= k < stack@.len() ==> #[trigger] stack@[k] < n,
                    forall|k: int| 0 <= k < work@.len() ==> (#[trigger] work@[k]).0 < n,
                decreases limit - steps,
            {
                steps += 1;
                let top = work.len() - 1;
                let (v, first) = work[top];
                let vi = v as usize;
                if first == 0 {
                    index.set(vi, counter);
                    low.set(vi, counter);
                    counter += 1;
                    stack.push(v);
                    on_stack.set(vi, true);
                }
                let succ = &adj[vi];
                let mut pi: usize = first as usize;
                let mut descended = false;
                while pi < succ.len() && !descended
                    invariant
                        g == adj_view(adj@),
                        gwf(g),
                        n == adj@.len(),
                        vi < n,
                        succ@ == g[vi as int],
                        index@.len() == n,
                        low@.len() == n,
                        on_stack@.len() == n,
                        descended ==> 1 <= pi <= succ@.len(),
                        forall|k: int| 0 <= k < work@.len() ==> (#[trigger] work@[k]).0 < n,
                        work@.len() == top + 1,
                    decreases succ@.len() - pi,
                {
                    let w = succ[pi];
                    pi += 1;
                    if index[w as usize] == UNVISITED {
                        descended = true;
                    } else if on_stack[w as usize] {
                        let iw = index[w as usize];
                        if iw < low[vi] {
                            low.set(vi, iw);
                        }
                    }
                }
                let next = if pi <= 0xffff_ffff {
                    pi as u32
                } else {
                    0xffff_ffff
                };
                work.set(top, (v, next));
                if descended {
                    let w = succ[pi - 1];
                    work.push((w, 0));
                } else {
                    if low[vi] == index[vi] {
                        let mut guard: usize = stack.len();
                        loop
                            invariant
                                n == adj@.len(),
                                guard == stack@.len(),
                                on_stack@.len() == n,
                                component@.len() == n,
                                forall|k: int| 0 <= k < stack@.len() ==> #[trigger] stack@[k] < n,
                            decreases guard,
                        {
                            match stack.pop() {
                                None => {
                                    break;
                                },
                                Some(w) => {
                                    guard = stack.len();
                                    on_stack.set(w as usize, false);
                                    component.set(w as usize, components);
                                    if w == v {
                                        break;
                                    }
                                },
                            }
                        }
                        components += 1;
                    }
                    work.pop();
                    if work.len() > 0 {
                        let (u, _) = work[work.len() - 1];
                        if low[vi] < low[u as usize] {
                            let lv = low[vi];
                            low.set(u as usize, lv);
                        }
                    }
                }
            }
        }
        root += 1;
    }
    (component, components)
}

/// Every edge out of `u` to a vertex of its own number runs to a marked
/// vertex.
spec fn closed_in(g: Seq<Seq<u32>>, comp: Seq<u32>, mark: Seq<bool>, u: int) -> bool {
    forall|w: int| #[trigger] edge(g, u, w) && comp[w] == comp[u] ==> mark[w]
}

/// No edge out of `v` runs to a marked vertex of its own number.
spec fn fixed_in(g: Seq<Seq<u32>>, comp: Seq<u32>, mark: Seq<bool>, v: int) -> bool {
    forall|w: int| #[trigger] edge(g, v, w) && comp[w] == comp[v] ==> !mark[w]
}

/// Setting an unset entry counts one more.
proof fn lemma_count_set(a: Seq<bool>, i: int)
    requires
        0 <= i < a.len(),
        !a[i],
    ensures
        count_true(a.update(i, true)) == count_true(a) + 1,
    decreases a.len(),
{
    let b = a.update(i, true);
    if i < a.len() - 1 {
        assert(b.drop_last() =~= a.drop_last().update(i, true));
        lemma_count_set(a.drop_last(), i);
    } else {
        assert(b.drop_last() =~= a.drop_last());
    }
}

/// Numbers that are all used are no more than the vertices.
proof fn lemma_used_bound(comp: Seq<u32>, count: nat)
    requires
        forall|c: int| 0 <= c < count ==> #[trigger] used(comp, c),
    ensures
        count <= comp.len(),
{
    let x = vstd::set_lib::set_int_range(0, comp.len() as int);
    let f = |v: int| comp[v] as int;
    let y = x.map(f);
    vstd::set_lib::lemma_int_range(0, comp.len() as int);
    vstd::set_lib::lemma_map_size_bound(x, y, f);
    let r = vstd::set_lib::set_int_range(0, count as int);
    vstd::set_lib::lemma_int_range(0, count as int);
    assert forall|c: int| r.contains(c) implies y.contains(c) by {
        assert(used(comp, c));
        let v = choose|v: int| 0 <= v < comp.len() && comp[v] == c;
        assert(x.contains(v));
        assert(f(v) == c);
    }
    vstd::set_lib::lemma_len_subset(r, y);
}

/// In a numbering no edge raises, a walk between two vertices of one number
/// stays within that number.
proof fn lemma_path_within(g: Seq<Seq<u32>>, comp: Seq<u32>, p: Seq<int>)
    requires
        comp.len() == g.len(),
        is_path(g, p),
        forall|v: int, w: int| #[trigger] edge(g, v, w) ==> comp[w] <= comp[v],
        comp[p[0]] == comp[p.last()],
    ensures
        forall|i: int| 0 <= i < p.len() ==> #[trigger] comp[p[i]] == comp[p[0]],
{
    assert forall|i: int| 0 <= i < p.len() implies #[trigger] comp[p[i]] == comp[p[0]] by {
        let a = p.take(i + 1);
        let b = p.skip(i);
        assert(is_path(g, a)) by {
            assert forall|k: int| 0 <= k < a.len() - 1 implies #[trigger] edge(g, a[k], a[k + 1]) by {
                assert(edge(g, p[k], p[k + 1]));
            }
        }
        assert(is_path(g, b)) by {
            assert forall|k: int| 0 <= k < b.len() - 1 implies #[trigger] edge(g, b[k], b[k + 1]) by {
                assert(edge(g, p[i + k], p[i + k + 1]));
            }
        }
        lemma_topo_path(g, comp, a);
        lemma_topo_path(g, comp, b);
    }
}

/// A marked start, and every marked vertex closed within its number: a walk
/// within one number ends at a marked vertex.
proof fn lemma_closed_within(g: Seq<Seq<u32>>, comp: Seq<u32>, mark: Seq<bool>, p: Seq<int>)
    requires
        comp.len() == g.len(),
        mark.len() == g.len(),
        is_path(g, p),
        mark[p[0]],
        forall|i: int| 0 <= i < p.len() ==> #[trigger] comp[p[i]] == comp[p[0]],
        forall|u: int| 0 <= u < g.len() && #[trigger] mark[u] ==> closed_in(g, comp, mark, u),
    ensures
        mark[p.last()],
    decreases p.len(),
{
    if p.len() > 1 {
        let q = p.drop_last();
        assert(is_path(g, q)) by {
            assert forall|i: int| 0 <= i < q.len() - 1 implies #[trigger] edge(g, q[i], q[i + 1]) by {
                assert(edge(g, p[i], p[i + 1]));
            }
        }
        assert forall|i: int| 0 <= i < q.len() implies #[trigger] comp[q[i]] == comp[q[0]] by {
            assert(comp[p[i]] == comp[p[0]]);
        }
        lemma_closed_within(g, comp, mark, q);
        let k = p.len() - 2;
        assert(edge(g, p[k], p[k + 1]));
        assert(comp[p[k + 1]] == comp[p[k]]) by {
            assert(comp[p[k + 1]] == comp[p[0]]);
            assert(comp[p[k]] == comp[p[0]]);
        }
        assert(closed_in(g, comp, mark, p[k]));
    }
}

/// A marked end, and no unmarked vertex with an edge to a marked vertex of
/// its own number: a walk within one number starts at a marked vertex.
proof fn lemma_fixed_within(g: Seq<Seq<u32>>, comp: Seq<u32>, mark: Seq<bool>, p: Seq<int>)
    requires
        comp.len() == g.len(),
        mark.len() == g.len(),
        is_path(g, p),
        mark[p.last()],
        forall|i: int| 0 <= i < p.len() ==> #[trigger] comp[p[i]] == comp[p[0]],
        forall|v: int| 0 <= v < g.len() && !#[trigger] mark[v] ==> fixed_in(g, comp, mark, v),
    ensures
        mark[p[0]],
    decreases p.len(),
{
    if p.len() > 1 {
        let q = p.drop_first();
        assert(is_path(g, q)) by {
            assert forall|i: int| 0 <= i < q.len() - 1 implies #[trigger] edge(g, q[i], q[i + 1]) by {
                let k = i + 1;
                assert(edge(g, p[k], p[k + 1]));
                assert(q[i] == p[k] && q[i + 1] == p[k + 1]);
            }
        }
        assert forall|i: int| 0 <= i < q.len() implies #[trigger] comp[q[i]] == comp[q[0]] by {
            assert(comp[p[i + 1]] == comp[p[0]]);
            assert(comp[p[1]] == comp[p[0]]);
        }
        lemma_fixed_within(g, comp, mark, q);
        assert(edge(g, p[0], p[1]));
        assert(comp[p[1]] == comp[p[0]]);
        if !mark[p[0]] {
            assert(fixed_in(g, comp, mark, p[0]));
        }
    }
}

/// Marking more keeps a vertex closed.
proof fn lemma_closed_grow(g: Seq<Seq<u32>>, comp: Seq<u32>, a: Seq<bool>, b: Seq<bool>, u: int)
    requires
        a.len() == b.len(),
        forall|i: int| 0 <= i < a.len() && #[trigger] a[i] ==> b[i],
        closed_in(g, comp, a, u),
        gwf(g),
        a.len() == g.len(),
    ensures
        closed_in(g, comp, b, u),
{
    assert forall|w: int| #[trigger] edge(g, u, w) && comp[w] == comp[u] implies b[w] by {
        assert(a[w]);
        let k = choose|k: int| 0 <= k < g[u].len() && #[trigger] g[u][k] as int == w;
        assert(w < g.len());
    }
}

/// Whether a numbering is the partition into strongly connected components
/// in reverse topological order: every number below the count is used,
/// every edge runs to a number no higher, every vertex of a number is
/// reached from the first vertex of that number within it, and reaches back
/// to it.
fn check_numbering(adj: &Vec<Vec<u32>>, comp: &Vec<u32>, count: u32) -> (ok: bool)
    requires
        gwf(adj_view(adj@)),
        adj@.len() < MAX_VERTICES,
    ensures
        ok <==> scc_numbering(adj_view(adj@), comp@, count as nat),
{
    let ghost g = adj_view(adj@);
    let ghost good = scc_numbering(g, comp@, count as nat);
    let n = adj.len();
    assert(g.len() == n);
    if comp.len() != n {
        return false;
    }
    if count as usize > n {
        proof {
            if good {
                lemma_used_bound(comp@, count as nat);
            }
        }
        return false;
    }
    let mut v: usize = 0;
    while v < n
        invariant
            g == adj_view(adj@),
            g.len() == n,
            good == scc_numbering(g, comp@, count as nat),
            n == comp@.len(),
            v <= n,
            forall|x: int| 0 <= x < v ==> #[trigger] comp@[x] < count,
        decreases n - v,
    {
        if comp[v] >= count {
            proof {
                if good {
                    assert(comp@[v as int] < count);
                }
            }
            return false;
        }
        v += 1;
    }
    // The first vertex of each number.
    let cn = count as usize;
    let mut rep: Vec<usize> = Vec::new();
    let mut c: usize = 0;
    while c < cn
        invariant
            c <= cn,
            rep@.len() == c,
            forall|k: int| 0 <= k < c ==> #[trigger] rep@[k] == n,
        decreases cn - c,
    {
        rep.push(n);
        c += 1;
    }
    let mut v: usize = 0;
    while v < n
        invariant
            n == comp@.len(),
            v <= n,
            rep@.len() == cn,
            cn == count,
            forall|x: int| 0 <= x < n ==> #[trigger] comp@[x] < count,
            forall|k: int| 0 <= k < cn ==> #[trigger] rep@[k] == n || (rep@[k] < n && comp@[rep@[k] as int] == k),
            forall|x: int| 0 <= x < v ==> rep@[#[trigger] comp@[x] as int] < n,
        decreases n - v,
    {
        let cv = comp[v] as usize;
        if rep[cv] == n {
            rep.set(cv, v);
        }
        proof {
            assert forall|x: int| 0 <= x < v + 1 implies rep@[#[trigger] comp@[x] as int] < n by {
                if comp@[x] as int != cv as int {
                    assert(x < v);
                }
            }
        }
        v += 1;
    }
    let mut c: usize = 0;
    while c < cn
        invariant
            g == adj_view(adj@),
            good == scc_numbering(g, comp@, count as nat),
            n == comp@.len(),
            c <= cn,
            cn == count,
            rep@.len() == cn,
            forall|k: int| 0 <= k < c ==> #[trigger] rep@[k] < n,
            forall|k: int| 0 <= k < cn ==> #[trigger] rep@[k] == n || (rep@[k] < n && comp@[rep@[k] as int] == k),
            forall|x: int| 0 <= x < n ==> rep@[#[trigger] comp@[x] as int] < n,
        decreases cn - c,
    {
        if rep[c] == n {
            proof {
                if good {
                    assert(used(comp@, c as int));
                    let x = choose|x: int| 0 <= x < comp@.len() && comp@[x] as int == c as int;
                    assert(rep@[comp@[x] as int] < n);
                    assert(rep@[c as int] < n);
                }
            }
            return false;
        }
        c += 1;
    }
    // No edge runs to a higher number.
    let mut v: usize = 0;
    while v < n
        invariant
            g == adj_view(adj@),
            gwf(g),
            good == scc_numbering(g, comp@, count as nat),
            n == adj@.len(),
            n == comp@.len(),
            v <= n,
            forall|x: int, w: int| 0 <= x < v && #[trigger] edge(g, x, w) ==> comp@[w] <= comp@[x],
        decreases n - v,
    {
        let row = &adj[v];
        let mut j: usize = 0;
        while j < row.len()
            invariant
                g == adj_view(adj@),
                gwf(g),
                good == scc_numbering(g, comp@, count as nat),
                n == comp@.len(),
                n == adj@.len(),
                v < n,
                row@ == g[v as int],
                j <= row@.len(),
                forall|k: int| 0 <= k < j ==> comp@[#[trigger] row@[k] as int] <= comp@[v as int],
            decreases row@.len() - j,
        {
            if comp[row[j] as usize] > comp[v] {
                proof {
                    if good {
                        assert(edge(g, v as int, row@[j as int] as int)) by {
                            assert(g[v as int][j as int] == row@[j as int]);
                        }
                    }
                }
                return false;
            }
            j += 1;
        }
        proof {
            assert forall|x: int, w: int| 0 <= x < v + 1 && #[trigger] edge(g, x, w) implies comp@[w] <= comp@[x] by {
                if x == v {
                    let k = choose|k: int| 0 <= k < g[x].len() && #[trigger] g[x][k] as int == w;
                    assert(comp@[row@[k] as int] <= comp@[v as int]);
                }
            }
        }
        v += 1;
    }
    // Forward: each vertex is reached from its number's first vertex, by a
    // search within the number.
    let mut fwd: Vec<bool> = Vec::new();
    let mut v: usize = 0;
    while v < n
        invariant
            v <= n,
            fwd@.len() == v,
            forall|x: int| 0 <= x < v ==> !fwd@[x],
        decreases n - v,
    {
        fwd.push(false);
        v += 1;
    }
    proof {
        lemma_count_zero(fwd@);
    }
    let mut pops: usize = 0;
    let mut c: usize = 0;
    while c < cn
        invariant
            g == adj_view(adj@),
            gwf(g),
            good == scc_numbering(g, comp@, count as nat),
            n == adj@.len(),
            n == comp@.len(),
            cn == count,
            rep@.len() == cn,
            fwd@.len() == n,
            c <= cn,
            forall|k: int| 0 <= k < cn ==> #[trigger] rep@[k] < n && comp@[rep@[k] as int] == k,
            forall|x: int| 0 <= x < n ==> #[trigger] comp@[x] < count,
            forall|x: int, w: int| 0 <= x < n && #[trigger] edge(g, x, w) ==> comp@[w] <= comp@[x],
            forall|x: int| 0 <= x < n && #[trigger] fwd@[x] ==> reaches(g, rep@[comp@[x] as int] as int, x),
            forall|x: int| 0 <= x < n && #[trigger] fwd@[x] ==> comp@[x] < c,
            forall|u: int| 0 <= u < n && #[trigger] fwd@[u] ==> closed_in(g, comp@, fwd@, u),
            count_true(fwd@) == pops,
            g.len() == n,
            good ==> forall|x: int| 0 <= x < n && comp@[x] < c ==> #[trigger] fwd@[x],
        decreases cn - c,
    {
        let r = rep[c];
        let ghost fb = fwd@;
        proof {
            lemma_reach_refl(g, r as int);
            lemma_count_set(fwd@, r as int);
        }
        fwd.set(r, true);
        let mut stack: Vec<usize> = Vec::new();
        stack.push(r);
        proof {
            assert forall|u: int| 0 <= u < n && #[trigger] fwd@[u] implies closed_in(g, comp@, fwd@, u)
                || stack@.contains(u as usize) by {
                if u == r as int {
                    assert(stack@[0] == r);
                } else {
                    assert(fb[u]);
                    lemma_closed_grow(g, comp@, fb, fwd@, u);
                }
            }
        }
        while stack.len() > 0 && pops < n
            invariant
                g == adj_view(adj@),
                gwf(g),
                n == adj@.len(),
                n == comp@.len(),
                cn == count,
                rep@.len() == cn,
                fwd@.len() == n,
                c < cn,
                r == rep@[c as int],
                fwd@[r as int],
                forall|k: int| 0 <= k < cn ==> #[trigger] rep@[k] < n && comp@[rep@[k] as int] == k,
                forall|x: int| 0 <= x < n ==> #[trigger] comp@[x] < count,
                forall|x: int| 0 <= x < n && #[trigger] fwd@[x] ==> reaches(g, rep@[comp@[x] as int] as int, x),
                forall|x: int| 0 <= x < n && #[trigger] fwd@[x] ==> comp@[x] <= c,
                forall|k: int| 0 <= k < stack@.len() ==> #[trigger] stack@[k] < n && fwd@[stack@[k] as int]
                    && comp@[stack@[k] as int] == c,
                forall|u: int| 0 <= u < n && #[trigger] fwd@[u] ==> closed_in(g, comp@, fwd@, u) || stack@.contains(
                    u as usize,
                ),
                count_true(fwd@) == pops + stack@.len(),
                good ==> forall|x: int| 0 <= x < n && comp@[x] < c ==> #[trigger] fwd@[x],
            decreases n - pops,
        {
            proof {
                lemma_count_bound(fwd@);
            }
            pops += 1;
            let ghost before = stack@;
            let u = stack.pop().unwrap();
            proof {
                assert(stack@ =~= before.drop_last());
                assert(u == before.last());
                assert(before[before.len() - 1] == u);
                assert forall|x: int|
                    0 <= x < n && x != u && #[trigger] fwd@[x] implies closed_in(g, comp@, fwd@, x)
                        || stack@.contains(x as usize) by {
                    if !closed_in(g, comp@, fwd@, x) {
                        assert(before.contains(x as usize));
                        let k = choose|k: int| 0 <= k < before.len() && before[k] == x as usize;
                        assert(k != before.len() - 1);
                        assert(stack@[k] == x as usize);
                    }
                }
            }
            let row = &adj[u];
            let mut j: usize = 0;
            while j < row.len()
                invariant
                    g == adj_view(adj@),
                    gwf(g),
                    n == adj@.len(),
                    n == comp@.len(),
                    cn == count,
                    rep@.len() == cn,
                    fwd@.len() == n,
                    c < cn,
                    r == rep@[c as int],
                    fwd@[r as int],
                    u < n,
                    fwd@[u as int],
                    comp@[u as int] == c,
                    row@ == g[u as int],
                    j <= row@.len(),
                    forall|k: int| 0 <= k < cn ==> #[trigger] rep@[k] < n && comp@[rep@[k] as int] == k,
                    forall|x: int| 0 <= x < n ==> #[trigger] comp@[x] < count,
                    forall|x: int| 0 <= x < n && #[trigger] fwd@[x] ==> reaches(g, rep@[comp@[x] as int] as int, x),
                    forall|x: int| 0 <= x < n && #[trigger] fwd@[x] ==> comp@[x] <= c,
                    forall|k: int| 0 <= k < stack@.len() ==> #[trigger] stack@[k] < n && fwd@[stack@[k] as int]
                        && comp@[stack@[k] as int] == c,
                    forall|x: int|
                        0 <= x < n && x != u && #[trigger] fwd@[x] ==> closed_in(g, comp@, fwd@, x)
                            || stack@.contains(x as usize),
                    forall|k: int| 0 <= k < j && comp@[#[trigger] row@[k] as int] == c ==> fwd@[row@[k] as int],
                    count_true(fwd@) == pops + stack@.len(),
                    good ==> forall|x: int| 0 <= x < n && comp@[x] < c ==> #[trigger] fwd@[x],
                decreases row@.len() - j,
            {
                let w = row[j] as usize;
                if comp[w] == comp[u] && !fwd[w] {
                    let ghost fb = fwd@;
                    let ghost sb = stack@;
                    proof {
                        assert(edge(g, u as int, w as int)) by {
                            assert(g[u as int][j as int] as int == w);
                        }
                        lemma_reach_step(g, rep@[comp@[u as int] as int] as int, u as int, w as int);
                        lemma_count_set(fwd@, w as int);
                    }
                    fwd.set(w, true);
                    stack.push(w);
                    proof {
                        assert forall|x: int|
                            0 <= x < n && x != u && #[trigger] fwd@[x] implies closed_in(g, comp@, fwd@, x)
                                || stack@.contains(x as usize) by {
                            if x == w as int {
                                assert(stack@[stack@.len() - 1] == w);
                            } else if closed_in(g, comp@, fb, x) {
                                lemma_closed_grow(g, comp@, fb, fwd@, x);
                            } else {
                                let k = choose|k: int| 0 <= k < sb.len() && sb[k] == x as usize;
                                assert(stack@[k] == x as usize);
                            }
                        }
                    }
                }
                j += 1;
            }
            proof {
                assert(closed_in(g, comp@, fwd@, u as int)) by {
                    assert forall|w: int| #[trigger] edge(g, u as int, w) && comp@[w] == comp@[u as int] implies fwd@[w] by {
                        let k = choose|k: int| 0 <= k < g[u as int].len() && #[trigger] g[u as int][k] as int == w;
                        assert(row@[k] as int == w);
                    }
                }
                assert forall|x: int| 0 <= x < n && #[trigger] fwd@[x] implies closed_in(g, comp@, fwd@, x)
                    || stack@.contains(x as usize) by {
                    if x != u as int {
                    }
                }
            }
        }
        proof {
            lemma_count_bound(fwd@);
            assert(stack@.len() == 0);
            assert forall|u: int| 0 <= u < n && #[trigger] fwd@[u] implies closed_in(g, comp@, fwd@, u) by {
                assert(!stack@.contains(u as usize));
            }
            if good {
                assert forall|x: int| 0 <= x < n && comp@[x] < c + 1 implies #[trigger] fwd@[x] by {
                    if comp@[x] == c {
                        assert(scc_numbering(g, comp@, count as nat));
                        assert(0 <= r < g.len());
                        assert(comp@[r as int] == comp@[x]);
                        assert(mutual(g, r as int, x));
                        let p = choose|p: Seq<int>| #[trigger] is_path(g, p) && p[0] == r as int && p.last() == x;
                        lemma_path_within(g, comp@, p);
                        lemma_closed_within(g, comp@, fwd@, p);
                    }
                }
            }
        }
        c += 1;
    }
    let mut v: usize = 0;
    while v < n
        invariant
            g == adj_view(adj@),
            good == scc_numbering(g, comp@, count as nat),
            v <= n,
            fwd@.len() == n,
            n == comp@.len(),
            forall|x: int| 0 <= x < n ==> #[trigger] comp@[x] < count,
            good ==> forall|x: int| 0 <= x < n && comp@[x] < count ==> #[trigger] fwd@[x],
            forall|x: int| 0 <= x < v ==> fwd@[x],
        decreases n - v,
    {
        if !fwd[v] {
            proof {
                if good {
                    assert(comp@[v as int] < count);
                    assert(fwd@[v as int]);
                }
            }
            return false;
        }
        v += 1;
    }
    // Backward: each vertex reaches its number's first vertex, by sweeping
    // until nothing changes.
    let mut bwd: Vec<bool> = Vec::new();
    let mut v: usize = 0;
    while v < n
        invariant
            v <= n,
            bwd@.len() == v,
            n == comp@.len(),
            cn == count,
            rep@.len() == cn,
            forall|k: int| 0 <= k < cn ==> #[trigger] rep@[k] < n && comp@[rep@[k] as int] == k,
            forall|x: int| 0 <= x < v ==> (#[trigger] bwd@[x] <==> x == rep@[comp@[x] as int]),
            forall|x: int| 0 <= x < n ==> #[trigger] comp@[x] < count,
        decreases n - v,
    {
        let cv = comp[v] as usize;
        bwd.push(rep[cv] == v);
        v += 1;
    }
    proof {
        assert forall|x: int| 0 <= x < n && #[trigger] bwd@[x] implies reaches(g, x, rep@[comp@[x] as int] as int) by {
            lemma_reach_refl(g, x);
        }
        assert forall|k: int| 0 <= k < cn implies #[trigger] bwd@[rep@[k] as int] by {
            assert(comp@[rep@[k] as int] == k);
        }
    }
    let mut changed = true;
    let mut rounds: usize = 0;
    while changed && rounds <= n
        invariant
            g == adj_view(adj@),
            gwf(g),
            n == adj@.len(),
            n < MAX_VERTICES,
            rounds <= n + 1,
            n == comp@.len(),
            cn == count,
            rep@.len() == cn,
            bwd@.len() == n,
            forall|k: int| 0 <= k < cn ==> #[trigger] rep@[k] < n && comp@[rep@[k] as int] == k,
            forall|x: int| 0 <= x < n ==> #[trigger] comp@[x] < count,
            forall|x: int| 0 <= x < n && #[trigger] bwd@[x] ==> reaches(g, x, rep@[comp@[x] as int] as int),
            forall|k: int| 0 <= k < cn ==> #[trigger] bwd@[rep@[k] as int],
            changed ==> count_true(bwd@) >= rounds,
            !changed ==> forall|x: int| 0 <= x < n && !#[trigger] bwd@[x] ==> fixed_in(g, comp@, bwd@, x),
        decreases n + 1 - rounds,
    {
        let ghost start = bwd@;
        changed = false;
        rounds += 1;
        let mut v: usize = 0;
        while v < n
            invariant
                g == adj_view(adj@),
                gwf(g),
                n == adj@.len(),
                n == comp@.len(),
                cn == count,
                rep@.len() == cn,
                bwd@.len() == n,
                start.len() == n,
                v <= n,
                forall|k: int| 0 <= k < cn ==> #[trigger] rep@[k] < n && comp@[rep@[k] as int] == k,
                forall|x: int| 0 <= x < n ==> #[trigger] comp@[x] < count,
                forall|x: int| 0 <= x < n && #[trigger] bwd@[x] ==> reaches(g, x, rep@[comp@[x] as int] as int),
                forall|k: int| 0 <= k < cn ==> #[trigger] bwd@[rep@[k] as int],
                forall|x: int| 0 <= x < n && #[trigger] start[x] ==> bwd@[x],
                !changed ==> bwd@ == start,
                changed ==> count_true(bwd@) >= count_true(start) + 1,
                !changed ==> forall|x: int| 0 <= x < v && !#[trigger] bwd@[x] ==> fixed_in(g, comp@, bwd@, x),
            decreases n - v,
        {
            if !bwd[v] {
                let row = &adj[v];
                let mut j: usize = 0;
                while j < row.len()
                    invariant
                        g == adj_view(adj@),
                        gwf(g),
                        n == adj@.len(),
                        n == comp@.len(),
                        cn == count,
                        rep@.len() == cn,
                        bwd@.len() == n,
                        start.len() == n,
                        v < n,
                        row@ == g[v as int],
                        j <= row@.len(),
                        forall|k: int| 0 <= k < cn ==> #[trigger] rep@[k] < n && comp@[rep@[k] as int] == k,
                        forall|x: int| 0 <= x < n ==> #[trigger] comp@[x] < count,
                        forall|x: int| 0 <= x < n && #[trigger] bwd@[x] ==> reaches(g, x, rep@[comp@[x] as int] as int),
                        forall|k: int| 0 <= k < cn ==> #[trigger] bwd@[rep@[k] as int],
                        forall|x: int| 0 <= x < n && #[trigger] start[x] ==> bwd@[x],
                        !changed ==> bwd@ == start,
                        changed ==> count_true(bwd@) >= count_true(start) + 1,
                        !changed ==> forall|x: int| 0 <= x < v && !#[trigger] bwd@[x] ==> fixed_in(g, comp@, bwd@, x),
                        !changed ==> !bwd@[v as int],
                        !changed ==> forall|k: int|
                            0 <= k < j && comp@[#[trigger] row@[k] as int] == comp@[v as int] ==> !bwd@[row@[k] as int],
                    decreases row@.len() - j,
                {
                    let w = row[j] as usize;
                    if comp[w] == comp[v] && bwd[w] && !bwd[v] {
                        proof {
                            assert(edge(g, v as int, w as int)) by {
                                assert(g[v as int][j as int] as int == w);
                            }
                            lemma_reach_prepend(g, v as int, w as int, rep@[comp@[w as int] as int] as int);
                            lemma_count_set(bwd@, v as int);
                            lemma_count_sub(start, bwd@);
                        }
                        bwd.set(v, true);
                        changed = true;
                    }
                    j += 1;
                }
                proof {
                    if !changed {
                        assert(fixed_in(g, comp@, bwd@, v as int)) by {
                            assert forall|w: int| #[trigger] edge(g, v as int, w) && comp@[w] == comp@[v as int] implies !bwd@[w] by {
                                let k = choose|k: int| 0 <= k < g[v as int].len() && #[trigger] g[v as int][k] as int == w;
                                assert(row@[k] as int == w);
                            }
                        }
                    }
                }
            }
            v += 1;
        }
    }
    proof {
        if changed {
            lemma_count_bound(bwd@);
        }
        assert(!changed);
    }
    proof {
        if good {
            assert forall|x: int| 0 <= x < n implies #[trigger] bwd@[x] by {
                let rx = rep@[comp@[x] as int] as int;
                assert(comp@[rx] == comp@[x]);
                assert(mutual(g, x, rx));
                let p = choose|p: Seq<int>| #[trigger] is_path(g, p) && p[0] == x && p.last() == rx;
                lemma_path_within(g, comp@, p);
                assert(bwd@[rep@[comp@[x] as int] as int]);
                lemma_fixed_within(g, comp@, bwd@, p);
            }
        }
    }
    let mut v: usize = 0;
    while v < n
        invariant
            g == adj_view(adj@),
            good == scc_numbering(g, comp@, count as nat),
            v <= n,
            bwd@.len() == n,
            good ==> forall|x: int| 0 <= x < n ==> #[trigger] bwd@[x],
            forall|x: int| 0 <= x < v ==> bwd@[x],
        decreases n - v,
    {
        if !bwd[v] {
            proof {
                if good {
                    assert(bwd@[v as int]);
                }
            }
            return false;
        }
        v += 1;
    }
    proof {
        assert forall|x: int, y: int| 0 <= x < n && 0 <= y < n implies (#[trigger] comp@[x] == #[trigger] comp@[y]
            <==> mutual(g, x, y)) by {
            let rx = rep@[comp@[x] as int] as int;
            let ry = rep@[comp@[y] as int] as int;
            assert(fwd@[x] && fwd@[y] && bwd@[x] && bwd@[y]);
            if comp@[x] == comp@[y] {
                lemma_reach_trans(g, x, rx, y);
                lemma_reach_trans(g, y, rx, x);
            }
            if mutual(g, x, y) {
                let p = choose|p: Seq<int>| #[trigger] is_path(g, p) && p[0] == x && p.last() == y;
                let q = choose|q: Seq<int>| #[trigger] is_path(g, q) && q[0] == y && q.last() == x;
                lemma_topo_path(g, comp@, p);
                lemma_topo_path(g, comp@, q);
            }
        }
        assert forall|k: int| 0 <= k < count implies #[trigger] used(comp@, k) by {
            assert(comp@[rep@[k] as int] == k);
        }
    }
    true
}

/// The components of a graph, numbered in reverse topological order.
fn components(adj: &Vec<Vec<u32>>) -> (r: (Vec<u32>, u32))
    requires
        gwf(adj_view(adj@)),
        adj@.len() < MAX_VERTICES,
    ensures
        scc_numbering(adj_view(adj@), r.0@, r.1 as nat),
{
    let (comp, count) = tarjan(adj);
    if check_numbering(adj, &comp, count) {
        (comp, count)
    } else {
        number_by_sinks(adj)
    }
}


/// Whether a census counts the position a code names: every coloring, or
/// only those no chain of which lacks a liberty.
pub open spec fn included(d: Dims, legal_only: bool, code: nat) -> bool {
    !legal_only || legal_spec(pos_of(d, code))
}

/// The counted codes below `k`, ascending: the positions of the vertices.
pub open spec fn vlist(d: Dims, legal_only: bool, k: nat) -> Seq<nat>
    decreases k,
{
    if k == 0 {
        Seq::empty()
    } else {
        let rest = vlist(d, legal_only, (k - 1) as nat);
        if included(d, legal_only, (k - 1) as nat) {
            rest.push((k - 1) as nat)
        } else {
            rest
        }
    }
}

/// The counted codes of a board.
pub open spec fn vcodes(d: Dims, legal_only: bool) -> Seq<nat> {
    vlist(d, legal_only, pow3(d.size()))
}

/// The vertex of the `i`-th counted position with `c` to move: Black even,
/// White odd.
pub open spec fn vertex_of(i: int, c: Color) -> int {
    2 * i + color_index(c)
}

/// The vertex a play of point index `k` leads to from vertex `v`, when the
/// board permits the play and the position it makes is counted.
pub open spec fn play_target(d: Dims, s: Suicide, legal_only: bool, v: int, k: int) -> Option<int> {
    let codes = vcodes(d, legal_only);
    let code = codes[v / 2];
    let c = color_of(v % 2);
    let p = d.point_of(k);
    let q = succ_gen(d, s, code, c, p);
    if playable_gen(d, s, code, c, p) && included(d, legal_only, q) {
        Some(vertex_of(vlist(d, legal_only, q).len() as int, c.opp()))
    } else {
        None
    }
}

/// An edge of the situation graph: the pass to the same position with the
/// other color to move, or a permitted play to a counted position.
pub open spec fn sit_edge(d: Dims, s: Suicide, legal_only: bool, v: int, w: int) -> bool {
    ||| w == vertex_of(v / 2, color_of(v % 2).opp())
    ||| exists|k: int| 0 <= k < d.size() && play_target(d, s, legal_only, v, k) == Some(w)
}

/// The counted codes below `k` are ascending, below `k`, and counted.
proof fn lemma_vlist(d: Dims, legal_only: bool, k: nat)
    ensures
        forall|i: int| 0 <= i < vlist(d, legal_only, k).len() ==> #[trigger] vlist(d, legal_only, k)[i] < k
            && included(d, legal_only, vlist(d, legal_only, k)[i]),
        forall|i: int, j: int|
            0 <= i < j < vlist(d, legal_only, k).len() ==> vlist(d, legal_only, k)[i] < vlist(d, legal_only, k)[j],
        vlist(d, legal_only, k).len() <= k,
    decreases k,
{
    if k > 0 {
        lemma_vlist(d, legal_only, (k - 1) as nat);
    }
}

/// A counted code sits in the list at its rank: the number of counted codes
/// below it.
proof fn lemma_vlist_rank(d: Dims, legal_only: bool, k: nat, c: nat)
    requires
        c < k,
        included(d, legal_only, c),
    ensures
        vlist(d, legal_only, c).len() < vlist(d, legal_only, k).len(),
        vlist(d, legal_only, k)[vlist(d, legal_only, c).len() as int] == c,
    decreases k,
{
    if c < k - 1 {
        lemma_vlist_rank(d, legal_only, (k - 1) as nat, c);
    }
    lemma_vlist_prefix(d, legal_only, (k - 1) as nat, c);
}

proof fn lemma_vlist_prefix(d: Dims, legal_only: bool, k: nat, c: nat)
    requires
        c <= k,
    ensures
        vlist(d, legal_only, c).len() <= vlist(d, legal_only, k).len(),
        vlist(d, legal_only, c) == vlist(d, legal_only, k).take(vlist(d, legal_only, c).len() as int),
    decreases k,
{
    if c < k {
        lemma_vlist_prefix(d, legal_only, (k - 1) as nat, c);
        let a = vlist(d, legal_only, c);
        let b = vlist(d, legal_only, (k - 1) as nat);
        assert(vlist(d, legal_only, k).take(a.len() as int) =~= b.take(a.len() as int));
    } else {
        assert(vlist(d, legal_only, k).take(vlist(d, legal_only, k).len() as int) =~= vlist(d, legal_only, k));
    }
}

/// The positions a census runs over, and the lookup from a code.
struct Vertices {
    codes: Vec<u32>,
    boards: Vec<Position>,
    index: Vec<u32>,
}

/// A lookup entry for a code no vertex stands on.
const ABSENT: u32 = 0xffff_ffff;

impl Vertices {
    spec fn wf(&self, d: Dims, legal_only: bool) -> bool {
        &&& self.codes@.len() == vcodes(d, legal_only).len()
        &&& forall|i: int| 0 <= i < self.codes@.len() ==> #[trigger] self.codes@[i] as nat == vcodes(d, legal_only)[i]
        &&& self.boards@.len() == self.codes@.len()
        &&& forall|i: int| 0 <= i < self.boards@.len() ==> #[trigger] self.boards@[i]@ == pos_of(d, self.codes@[i] as nat)
        &&& self.index@.len() == pow3(d.size())
        &&& forall|c: int| 0 <= c < pow3(d.size()) ==> #[trigger] self.index@[c] == if included(d, legal_only, c as nat) {
            vlist(d, legal_only, c as nat).len() as u32
        } else {
            ABSENT
        }
    }

    /// Every counted position of a board, by code.
    fn build(dims: Dims, legal_only: bool) -> (r: Self)
        requires
            dims.wf(),
            2 * pow3(dims.size()) < MAX_VERTICES,
        ensures
            r.wf(dims, legal_only),
    {
        proof {
            lemma_small_board(dims);
        }
        let space = code_space(dims);
        let mut codes: Vec<u32> = Vec::new();
        let mut boards: Vec<Position> = Vec::new();
        let mut index: Vec<u32> = Vec::new();
        let mut code: u32 = 0;
        while code < space
            invariant
                dims.wf(),
                dims.size() <= 20,
                space == pow3(dims.size()),
                space < MAX_VERTICES,
                code <= space,
                codes@.len() == vlist(dims, legal_only, code as nat).len(),
                forall|i: int| 0 <= i < codes@.len() ==> #[trigger] codes@[i] as nat == vlist(dims, legal_only, code as nat)[i],
                boards@.len() == codes@.len(),
                forall|i: int| 0 <= i < boards@.len() ==> #[trigger] boards@[i]@ == pos_of(dims, codes@[i] as nat),
                index@.len() == code,
                forall|c: int| 0 <= c < code ==> #[trigger] index@[c] == if included(dims, legal_only, c as nat) {
                    vlist(dims, legal_only, c as nat).len() as u32
                } else {
                    ABSENT
                },
            decreases space - code,
        {
            let b = decode(dims, PosCode(code));
            proof {
                lemma_vlist(dims, legal_only, code as nat);
            }
            if legal_only && !is_legal(&b) {
                index.push(ABSENT);
            } else {
                index.push(codes.len() as u32);
                codes.push(code);
                boards.push(b);
            }
            proof {
                assert(codes@.len() == vlist(dims, legal_only, code as nat + 1).len());
            }
            code += 1;
        }
        Vertices { codes, boards, index }
    }
}

/// A board whose situation graph the search takes has a position code.
proof fn lemma_small_board(d: Dims)
    requires
        d.wf(),
        2 * pow3(d.size()) < MAX_VERTICES,
    ensures
        d.size() <= 20,
        d.rows * d.cols <= 20,
{
    if d.size() > 20 {
        crate::code::lemma_pow3_monotone(21, d.size());
        assert(pow3(21) > MAX_VERTICES) by {
            reveal_with_fuel(pow3, 22);
        }
    }
}


/// Whether a row holds a vertex.
fn row_has(row: &Vec<u32>, t: u32) -> (r: bool)
    ensures
        r == row@.contains(t),
{
    let mut i: usize = 0;
    while i < row.len()
        invariant
            i <= row@.len(),
            forall|k: int| 0 <= k < i ==> row@[k] != t,
        decreases row@.len() - i,
    {
        if row[i] == t {
            assert(row@[i as int] == t);
            return true;
        }
        i += 1;
    }
    false
}

/// The successors of every vertex: the pass first, then each permitted play
/// that lands on a counted position, each successor once.
fn build_edges(dims: Dims, suicide: Suicide, legal_only: bool, vs: &Vertices) -> (adj: Vec<Vec<u32>>)
    requires
        dims.wf(),
        2 * pow3(dims.size()) < MAX_VERTICES,
        vs.wf(dims, legal_only),
    ensures
        adj@.len() == 2 * vcodes(dims, legal_only).len(),
        gwf(adj_view(adj@)),
        forall|v: int, w: int|
            0 <= v < adj@.len() && 0 <= w < adj@.len() ==> (edge(adj_view(adj@), v, w) <==> sit_edge(
                dims,
                suicide,
                legal_only,
                v,
                w,
            )),
        forall|v: int| 0 <= v < adj@.len() ==> (#[trigger] adj@[v])@.no_duplicates(),
        forall|v: int| 0 <= v < adj@.len() ==> (#[trigger] adj@[v])@.len() <= dims.size() + 1,
{
    let ghost codes = vcodes(dims, legal_only);
    let nb = vs.codes.len();
    proof {
        lemma_small_board(dims);
        lemma_vlist(dims, legal_only, pow3(dims.size()));
    }
    let n = nb * 2;
    let pts = dims.points();
    let mut adj: Vec<Vec<u32>> = Vec::new();
    let mut v: usize = 0;
    while v < n
        invariant
            dims.wf(),
            dims.size() <= 20,
            2 * pow3(dims.size()) < MAX_VERTICES,
            vs.wf(dims, legal_only),
            codes == vcodes(dims, legal_only),
            nb == codes.len(),
            nb <= pow3(dims.size()),
            n == 2 * nb,
            pts@ == dims.all_points(),
            v <= n,
            adj@.len() == v,
            forall|x: int, j: int| 0 <= x < v && 0 <= j < adj@[x]@.len() ==> (#[trigger] adj@[x]@[j]) < n,
            forall|x: int, w: int|
                0 <= x < v && 0 <= w < n ==> (adj@[x]@.contains(w as u32) <==> sit_edge(dims, suicide, legal_only, x, w)),
            forall|x: int| 0 <= x < v ==> (#[trigger] adj@[x])@.no_duplicates(),
            forall|x: int| 0 <= x < v ==> (#[trigger] adj@[x])@.len() <= dims.size() + 1,
        decreases n - v,
    {
        let i = v / 2;
        let c = if v % 2 == 0 {
            Color::Black
        } else {
            Color::White
        };
        let ghost code = codes[i as int];
        assert(color_of(v as int % 2) == c);
        let b = &vs.boards[i];
        assert(b@ == pos_of(dims, code));
        proof {
            crate::code::lemma_cells_of_len(dims.size(), code);
        }
        let pass_target: u32 = (i * 2 + if v % 2 == 0 {
            1
        } else {
            0
        }) as u32;
        assert(pass_target as int == vertex_of(v as int / 2, c.opp()));
        let mut row: Vec<u32> = Vec::new();
        row.push(pass_target);
        let mut k: usize = 0;
        proof {
            assert forall|t: u32| row@.contains(t) <==> (t == pass_target) by {
                if t == pass_target {
                    assert(row@[0] == t);
                }
            }
        }
        while k < pts.len()
            invariant
                dims.wf(),
                dims.size() <= 20,
                2 * pow3(dims.size()) < MAX_VERTICES,
                vs.wf(dims, legal_only),
                codes == vcodes(dims, legal_only),
                nb == codes.len(),
                nb <= pow3(dims.size()),
                n == 2 * nb,
                v < n,
                i == v / 2,
                code == codes[i as int],
                b@ == pos_of(dims, code),
                b@.wf(),
                c == color_of(v as int % 2),
                pts@ == dims.all_points(),
                k <= pts@.len(),
                pass_target as int == vertex_of(v as int / 2, c.opp()),
                forall|j: int| 0 <= j < row@.len() ==> (#[trigger] row@[j]) < n,
                row@.no_duplicates(),
                row@.len() <= k + 1,
                forall|t: u32|
                    row@.contains(t) <==> (t == pass_target || exists|kk: int|
                        0 <= kk < k && #[trigger] play_target(dims, suicide, legal_only, v as int, kk) == Some(
                            t as int,
                        )),
            decreases pts@.len() - k,
        {
            let p = pts[k];
            proof {
                crate::config::lemma_point_of_in_range(dims, k as int);
                crate::code::lemma_pow3_monotone(dims.size(), 20);
                crate::code::lemma_pow3_20();
            }
            let ghost before = row@;
            if playable_at(b, c, p, suicide) {
                let q = resolve_under(b, c, p, suicide);
                let qc = encode(&q);
                let j = vs.index[qc.0 as usize];
                proof {
                    assert(vs.index@[qc.0 as int] == j);
                    assert(qc.0 as nat == succ_gen(dims, suicide, code, c, p));
                    if included(dims, legal_only, qc.0 as nat) {
                        lemma_vlist_rank(dims, legal_only, pow3(dims.size()), qc.0 as nat);
                        assert(j as int == vlist(dims, legal_only, qc.0 as nat).len());
                    }
                }
                if j != ABSENT {
                    assert(included(dims, legal_only, qc.0 as nat));
                    assert(j < nb);
                    assert(nb < 0x1000_0000);
                    assert(j * 2 + 1 < 0x1000_0000);
                    let t = j * 2 + if v % 2 == 0 {
                        1
                    } else {
                        0
                    };
                    assert(play_target(dims, suicide, legal_only, v as int, k as int) == Some(t as int));
                    if !row_has(&row, t) {
                        row.push(t);
                        proof {
                            assert forall|x: u32| row@.contains(x) <==> (before.contains(x) || x == t) by {
                                if x == t {
                                    assert(row@[row@.len() - 1] == t);
                                }
                                if before.contains(x) {
                                    let y = choose|y: int| 0 <= y < before.len() && before[y] == x;
                                    assert(row@[y] == x);
                                }
                            }
                        }
                    }
                } else {
                    assert(play_target(dims, suicide, legal_only, v as int, k as int) is None);
                }
            } else {
                assert(play_target(dims, suicide, legal_only, v as int, k as int) is None);
            }
            proof {
                let pt = play_target(dims, suicide, legal_only, v as int, k as int);
                assert(pt is Some ==> row@.contains(pt->0 as u32));
                assert forall|x: u32| before.contains(x) implies row@.contains(x) by {
                    let y = choose|y: int| 0 <= y < before.len() && before[y] == x;
                    assert(row@[y] == x);
                }
                assert forall|x: u32| row@.contains(x) implies before.contains(x) || (pt is Some && x as int == pt->0) by {
                    if !before.contains(x) {
                        let y = choose|y: int| 0 <= y < row@.len() && row@[y] == x;
                        assert(y == row@.len() - 1);
                    }
                }
                assert forall|t: u32| row@.contains(t) implies (t == pass_target || exists|kk: int|
                    0 <= kk < k + 1 && #[trigger] play_target(dims, suicide, legal_only, v as int, kk) == Some(t as int)) by {
                    if before.contains(t) {
                        if t != pass_target {
                            let kk = choose|kk: int|
                                0 <= kk < k && #[trigger] play_target(dims, suicide, legal_only, v as int, kk) == Some(t as int);
                            assert(0 <= kk < k + 1);
                        }
                    } else {
                        assert(play_target(dims, suicide, legal_only, v as int, k as int) == Some(t as int));
                    }
                }
                assert forall|t: u32| (t == pass_target || exists|kk: int|
                    0 <= kk < k + 1 && #[trigger] play_target(dims, suicide, legal_only, v as int, kk) == Some(t as int))
                    implies row@.contains(t) by {
                    if t == pass_target {
                        assert(before.contains(t));
                    } else {
                        let kk = choose|kk: int|
                            0 <= kk < k + 1 && #[trigger] play_target(dims, suicide, legal_only, v as int, kk) == Some(t as int);
                        if kk < k {
                            assert(before.contains(t));
                        } else {
                            assert(pt == Some(t as int));
                            assert(pt->0 as u32 == t);
                        }
                    }
                }
            }
            k += 1;
        }
        proof {
            assert forall|w: int| 0 <= w < n implies (row@.contains(w as u32) <==> sit_edge(dims, suicide, legal_only, v as int, w)) by {
                if sit_edge(dims, suicide, legal_only, v as int, w) && w != vertex_of(v as int / 2, c.opp()) {
                    let kk = choose|kk: int| 0 <= kk < dims.size() && play_target(dims, suicide, legal_only, v as int, kk) == Some(w);
                    assert(play_target(dims, suicide, legal_only, v as int, kk) == Some((w as u32) as int));
                }
            }
        }
        adj.push(row);
        v += 1;
    }
    proof {
        assert forall|x: int, j: int| 0 <= x < adj@.len() && 0 <= j < adj_view(adj@)[x].len() implies (#[trigger] adj_view(adj@)[x][j]) < adj_view(adj@).len() by {
            assert(adj_view(adj@)[x] == adj@[x]@);
        }
        assert forall|x: int, w: int|
            0 <= x < adj@.len() && 0 <= w < adj@.len() implies (edge(adj_view(adj@), x, w) <==> sit_edge(dims, suicide, legal_only, x, w)) by {
            assert(adj_view(adj@)[x] == adj@[x]@);
            if adj@[x]@.contains(w as u32) {
                let j = choose|j: int| 0 <= j < adj@[x]@.len() && adj@[x]@[j] == w as u32;
                assert(adj_view(adj@)[x][j] as int == w);
            }
            if edge(adj_view(adj@), x, w) {
                let j = choose|j: int| 0 <= j < adj_view(adj@)[x].len() && #[trigger] adj_view(adj@)[x][j] as int == w;
                assert(adj@[x]@[j] == w as u32);
            }
        }
    }
    adj
}


/// The number of edges of the first `k` vertices.
pub open spec fn edge_total(g: Seq<Seq<u32>>, k: int) -> nat
    decreases k,
{
    if k <= 0 {
        0
    } else {
        edge_total(g, k - 1) + g[k - 1].len()
    }
}

/// How many of the first `k` vertices carry the number `c`.
pub open spec fn csize(comp: Seq<u32>, c: int, k: int) -> nat
    decreases k,
{
    if k <= 0 {
        0
    } else {
        csize(comp, c, k - 1) + if comp[k - 1] == c {
            1nat
        } else {
            0nat
        }
    }
}

/// The size of the largest of the components numbered below `k`.
pub open spec fn largest_upto(comp: Seq<u32>, k: int) -> nat
    decreases k,
{
    if k <= 0 {
        0
    } else {
        let m = largest_upto(comp, k - 1);
        let s = csize(comp, k - 1, comp.len() as int);
        if s > m {
            s
        } else {
            m
        }
    }
}

/// How many of the components numbered below `k` have one vertex.
pub open spec fn trivial_upto(comp: Seq<u32>, k: int) -> nat
    decreases k,
{
    if k <= 0 {
        0
    } else {
        trivial_upto(comp, k - 1) + if csize(comp, k - 1, comp.len() as int) == 1 {
            1nat
        } else {
            0nat
        }
    }
}

/// The longest path in the condensation that starts at component `c`,
/// counted in components: one more than the longest from any component an
/// edge leaves `c` for.
pub open spec fn dep(g: Seq<Seq<u32>>, comp: Seq<u32>, c: nat) -> nat
    decreases c, 2nat, 0nat,
{
    1 + dmax(g, comp, c, g.len())
}

/// The longest path from a component that an edge of the first `k`
/// vertices of component `c` leaves `c` for.
pub open spec fn dmax(g: Seq<Seq<u32>>, comp: Seq<u32>, c: nat, k: nat) -> nat
    decreases c, 1nat, k,
{
    if k == 0 {
        0
    } else {
        let m = dmax(g, comp, c, (k - 1) as nat);
        if comp[k - 1] == c {
            let e = emax(g, comp, c, k - 1, g[k - 1].len());
            if e > m {
                e
            } else {
                m
            }
        } else {
            m
        }
    }
}

/// The same, over the first `j` edges of vertex `v`.
pub open spec fn emax(g: Seq<Seq<u32>>, comp: Seq<u32>, c: nat, v: int, j: nat) -> nat
    decreases c, 0nat, j,
{
    if j == 0 {
        0
    } else {
        let m = emax(g, comp, c, v, (j - 1) as nat);
        let cw = comp[g[v][j - 1] as int] as nat;
        if cw < c {
            let d = dep(g, comp, cw);
            if d > m {
                d
            } else {
                m
            }
        } else {
            m
        }
    }
}

/// The longest path in the condensation, over the components below `k`.
pub open spec fn depth_upto(g: Seq<Seq<u32>>, comp: Seq<u32>, k: int) -> nat
    decreases k,
{
    if k <= 0 {
        0
    } else {
        let m = depth_upto(g, comp, k - 1);
        let d = dep(g, comp, (k - 1) as nat);
        if d > m {
            d
        } else {
            m
        }
    }
}

/// A path in the condensation visits each component at most once.
pub proof fn lemma_dep_bound(g: Seq<Seq<u32>>, comp: Seq<u32>, c: nat)
    ensures
        1 <= dep(g, comp, c) <= c + 1,
    decreases c, 2nat, 0nat,
{
    lemma_dmax_bound(g, comp, c, g.len());
}

proof fn lemma_dmax_bound(g: Seq<Seq<u32>>, comp: Seq<u32>, c: nat, k: nat)
    ensures
        dmax(g, comp, c, k) <= c,
    decreases c, 1nat, k,
{
    if k > 0 {
        lemma_dmax_bound(g, comp, c, (k - 1) as nat);
        if comp[k - 1] == c {
            lemma_emax_bound(g, comp, c, k - 1, g[k - 1].len());
        }
    }
}

proof fn lemma_emax_bound(g: Seq<Seq<u32>>, comp: Seq<u32>, c: nat, v: int, j: nat)
    ensures
        emax(g, comp, c, v, j) <= c,
    decreases c, 0nat, j,
{
    if j > 0 {
        lemma_emax_bound(g, comp, c, v, (j - 1) as nat);
        let cw = comp[g[v][j - 1] as int] as nat;
        if cw < c {
            lemma_dep_bound(g, comp, cw);
        }
    }
}

/// What a census of components is, as integers.
pub struct SccModel {
    /// Vertices.
    pub situations: int,
    /// Edges, one per distinct pair.
    pub edges: int,
    /// Strongly connected components.
    pub components: int,
    /// The size of the largest.
    pub largest: int,
    /// Components of one vertex.
    pub trivial: int,
    /// The size of the component holding the empty board with Black to move.
    pub empty_component: int,
    /// Vertices outside the largest component.
    pub outside_largest: int,
    /// The longest path in the condensation, in components.
    pub depth: int,
}

/// The census of a graph under a numbering of its components, with the
/// empty board's Black situation at vertex 0.
pub open spec fn census_model(g: Seq<Seq<u32>>, comp: Seq<u32>, count: nat) -> SccModel {
    SccModel {
        situations: g.len() as int,
        edges: edge_total(g, g.len() as int) as int,
        components: count as int,
        largest: largest_upto(comp, count as int) as int,
        trivial: trivial_upto(comp, count as int) as int,
        empty_component: csize(comp, comp[0] as int, g.len() as int) as int,
        outside_largest: g.len() - largest_upto(comp, count as int),
        depth: depth_upto(g, comp, count as int) as int,
    }
}

/// The situation graph of a board: its vertices are the counted positions
/// with each player to move, its edges are [`sit_edge`], each pair once.
pub open spec fn graph_of(d: Dims, s: Suicide, legal_only: bool, g: Seq<Seq<u32>>) -> bool {
    &&& g.len() == 2 * vcodes(d, legal_only).len()
    &&& gwf(g)
    &&& forall|v: int, w: int| 0 <= v < g.len() && 0 <= w < g.len() ==> (edge(g, v, w) <==> sit_edge(d, s, legal_only, v, w))
    &&& forall|v: int| 0 <= v < g.len() ==> (#[trigger] g[v]).no_duplicates()
}

/// The component structure of one situation graph.
#[derive(Clone, Copy, Debug, Default, PartialEq, Eq, Structural)]
pub struct SccCensus {
    /// Vertices: `2 · 3^(m·n)` over all colorings, twice the legal positions
    /// over the legal ones.
    pub situations: u64,
    /// Edges, counted per distinct `(from, to)` pair. The pass edge out of
    /// every situation is one of them.
    pub edges: u64,
    /// Strongly connected components.
    pub components: u64,
    /// The size of the largest.
    pub largest: u64,
    /// Components of one vertex.
    pub trivial: u64,
    /// The size of the component holding the empty board.
    pub empty_component: u64,
    /// Situations outside the largest component: what bounds the number of
    /// entries the forward-cone prune can remove.
    pub outside_largest: u64,
    /// The longest path in the condensation, in components.
    pub depth: u64,
}

impl View for SccCensus {
    type V = SccModel;

    open spec fn view(&self) -> SccModel {
        SccModel {
            situations: self.situations as int,
            edges: self.edges as int,
            components: self.components as int,
            largest: self.largest as int,
            trivial: self.trivial as int,
            empty_component: self.empty_component as int,
            outside_largest: self.outside_largest as int,
            depth: self.depth as int,
        }
    }
}

impl SccCensus {
    /// The body lines a results file carries, in a fixed order, each behind
    /// a prefix.
    pub fn lines(&self, prefix: &str) -> (r: Vec<String>)
        ensures
            r@.len() == 8,
            r@[0]@ == prefix@ + "situations"@ + seq!['='] + dec(self.situations as nat),
            r@[1]@ == prefix@ + "edges"@ + seq!['='] + dec(self.edges as nat),
            r@[2]@ == prefix@ + "components"@ + seq!['='] + dec(self.components as nat),
            r@[3]@ == prefix@ + "largest"@ + seq!['='] + dec(self.largest as nat),
            r@[4]@ == prefix@ + "trivial"@ + seq!['='] + dec(self.trivial as nat),
            r@[5]@ == prefix@ + "empty-component"@ + seq!['='] + dec(self.empty_component as nat),
            r@[6]@ == prefix@ + "outside-largest"@ + seq!['='] + dec(self.outside_largest as nat),
            r@[7]@ == prefix@ + "depth"@ + seq!['='] + dec(self.depth as nat),
    {
        let mut out: Vec<String> = Vec::new();
        out.push(prefixed_value(prefix, "situations", self.situations));
        out.push(prefixed_value(prefix, "edges", self.edges));
        out.push(prefixed_value(prefix, "components", self.components));
        out.push(prefixed_value(prefix, "largest", self.largest));
        out.push(prefixed_value(prefix, "trivial", self.trivial));
        out.push(prefixed_value(prefix, "empty-component", self.empty_component));
        out.push(prefixed_value(prefix, "outside-largest", self.outside_largest));
        out.push(prefixed_value(prefix, "depth", self.depth));
        out
    }
}

proof fn lemma_csize_bound(comp: Seq<u32>, c: int, k: int)
    ensures
        csize(comp, c, k) <= if k < 0 {
            0
        } else {
            k
        },
    decreases k,
{
    if k > 0 {
        lemma_csize_bound(comp, c, k - 1);
    }
}

proof fn lemma_largest_bound(comp: Seq<u32>, k: int)
    ensures
        largest_upto(comp, k) <= comp.len(),
    decreases k,
{
    if k > 0 {
        lemma_largest_bound(comp, k - 1);
        lemma_csize_bound(comp, k - 1, comp.len() as int);
    }
}

proof fn lemma_edge_total_bound(g: Seq<Seq<u32>>, k: int)
    requires
        0 <= k <= g.len(),
        forall|v: int| 0 <= v < g.len() ==> #[trigger] g[v].len() <= 64,
    ensures
        edge_total(g, k) <= 64 * k,
    decreases k,
{
    if k > 0 {
        lemma_edge_total_bound(g, k - 1);
    }
}

/// The census of one situation graph, from its component numbering.
fn census_of(adj: &Vec<Vec<u32>>, comp: &Vec<u32>, count: u32) -> (r: SccCensus)
    requires
        gwf(adj_view(adj@)),
        adj@.len() < MAX_VERTICES,
        adj@.len() >= 1,
        scc_numbering(adj_view(adj@), comp@, count as nat),
        forall|v: int| 0 <= v < adj@.len() ==> (#[trigger] adj@[v])@.len() <= 64,
    ensures
        r@ == census_model(adj_view(adj@), comp@, count as nat),
{
    let ghost g = adj_view(adj@);
    let n = adj.len();
    let cn = count as usize;
    proof {
        assert(comp@[0] < count);
    }
    // Edges.
    let mut edges: u64 = 0;
    let mut v: usize = 0;
    proof {
        assert forall|x: int| 0 <= x < g.len() implies #[trigger] g[x].len() <= 64 by {
            assert(g[x] == adj@[x]@);
        }
    }
    while v < n
        invariant
            g == adj_view(adj@),
            n == adj@.len(),
            n < MAX_VERTICES,
            v <= n,
            edges == edge_total(g, v as int),
            forall|x: int| 0 <= x < g.len() ==> #[trigger] g[x].len() <= 64,
        decreases n - v,
    {
        proof {
            lemma_edge_total_bound(g, v + 1);
            assert(g[v as int] == adj@[v as int]@);
        }
        edges = edges + adj[v].len() as u64;
        v += 1;
    }
    // Sizes.
    let mut sizes: Vec<u64> = Vec::new();
    let mut c: usize = 0;
    while c < cn
        invariant
            c <= cn,
            sizes@.len() == c,
            forall|k: int| 0 <= k < c ==> sizes@[k] == 0,
        decreases cn - c,
    {
        sizes.push(0);
        c += 1;
    }
    let mut v: usize = 0;
    while v < n
        invariant
            n == adj@.len(),
            n == comp@.len(),
            n < MAX_VERTICES,
            cn == count,
            sizes@.len() == cn,
            v <= n,
            forall|x: int| 0 <= x < n ==> #[trigger] comp@[x] < count,
            forall|k: int| 0 <= k < cn ==> #[trigger] sizes@[k] == csize(comp@, k, v as int),
        decreases n - v,
    {
        let cv = comp[v] as usize;
        proof {
            lemma_csize_bound(comp@, cv as int, v as int);
        }
        let old = sizes[cv];
        sizes.set(cv, old + 1);
        v += 1;
    }
    let empty_component = sizes[comp[0] as usize];
    // The largest, and the single vertices.
    let mut largest: u64 = 0;
    let mut trivial: u64 = 0;
    let mut c: usize = 0;
    while c < cn
        invariant
            n == comp@.len(),
            cn == count,
            sizes@.len() == cn,
            c <= cn,
            forall|k: int| 0 <= k < cn ==> #[trigger] sizes@[k] == csize(comp@, k, n as int),
            largest == largest_upto(comp@, c as int),
            trivial == trivial_upto(comp@, c as int),
            trivial <= c,
        decreases cn - c,
    {
        if sizes[c] > largest {
            largest = sizes[c];
        }
        if sizes[c] == 1 {
            trivial = trivial + 1;
        }
        c += 1;
    }
    // Depth: components in increasing number, each reading only lower ones.
    let mut depth: Vec<u64> = Vec::new();
    let mut c: usize = 0;
    while c < cn
        invariant
            g == adj_view(adj@),
            gwf(g),
            n == adj@.len(),
            n == comp@.len(),
            n < MAX_VERTICES,
            cn == count,
            c <= cn,
            depth@.len() == c,
            forall|x: int| 0 <= x < n ==> #[trigger] comp@[x] < count,
            forall|k: int| 0 <= k < c ==> #[trigger] depth@[k] == dep(g, comp@, k as nat),
        decreases cn - c,
    {
        let mut best: u64 = 0;
        let mut v: usize = 0;
        while v < n
            invariant
                g == adj_view(adj@),
                gwf(g),
                n == adj@.len(),
                n == comp@.len(),
                cn == count,
                c < cn,
                depth@.len() == c,
                v <= n,
                forall|x: int| 0 <= x < n ==> #[trigger] comp@[x] < count,
                forall|k: int| 0 <= k < c ==> #[trigger] depth@[k] == dep(g, comp@, k as nat),
                best == dmax(g, comp@, c as nat, v as nat),
            decreases n - v,
        {
            if comp[v] as usize == c {
                let row = &adj[v];
                let mut eb: u64 = 0;
                let mut j: usize = 0;
                while j < row.len()
                    invariant
                        g == adj_view(adj@),
                        gwf(g),
                        n == adj@.len(),
                        n == comp@.len(),
                        cn == count,
                        c < cn,
                        depth@.len() == c,
                        v < n,
                        row@ == g[v as int],
                        j <= row@.len(),
                        forall|x: int| 0 <= x < n ==> #[trigger] comp@[x] < count,
                        forall|k: int| 0 <= k < c ==> #[trigger] depth@[k] == dep(g, comp@, k as nat),
                        eb == emax(g, comp@, c as nat, v as int, j as nat),
                    decreases row@.len() - j,
                {
                    let cw = comp[row[j] as usize] as usize;
                    if cw < c && depth[cw] > eb {
                        eb = depth[cw];
                    }
                    j += 1;
                }
                if eb > best {
                    best = eb;
                }
            }
            v += 1;
        }
        proof {
            lemma_dep_bound(g, comp@, c as nat);
        }
        depth.push(best + 1);
        c += 1;
    }
    let mut longest: u64 = 0;
    let mut c: usize = 0;
    while c < cn
        invariant
            g == adj_view(adj@),
            cn == count,
            c <= cn,
            depth@.len() == cn,
            forall|k: int| 0 <= k < cn ==> #[trigger] depth@[k] == dep(g, comp@, k as nat),
            longest == depth_upto(g, comp@, c as int),
        decreases cn - c,
    {
        if depth[c] > longest {
            longest = depth[c];
        }
        c += 1;
    }
    proof {
        lemma_largest_bound(comp@, count as int);
    }
    SccCensus {
        situations: n as u64,
        edges,
        components: count as u64,
        largest,
        trivial,
        empty_component,
        outside_largest: n as u64 - largest,
        depth: longest,
    }
}

/// Census the situation graph of a board. With `legal_only` the vertices
/// are the positions no chain of which lacks a liberty — the positions play
/// can reach; without it, every coloring.
pub fn situation_graph(dims: Dims, suicide: Suicide, legal_only: bool) -> (r: SccCensus)
    requires
        dims.wf(),
        2 * pow3(dims.size()) < MAX_VERTICES,
    ensures
        exists|g: Seq<Seq<u32>>, comp: Seq<u32>, count: nat|
            graph_of(dims, suicide, legal_only, g) && #[trigger] scc_numbering(g, comp, count) && r@ == census_model(
                g,
                comp,
                count,
            ),
{
    let vs = Vertices::build(dims, legal_only);
    let adj = build_edges(dims, suicide, legal_only, &vs);
    proof {
        lemma_small_board(dims);
        crate::enumerate::lemma_code_zero_empty(dims.size());
        crate::code::lemma_pow3_monotone(0, dims.size());
        lemma_vlist_rank(dims, legal_only, pow3(dims.size()), 0);
        lemma_vlist(dims, legal_only, pow3(dims.size()));
        assert forall|v: int| 0 <= v < adj@.len() implies (#[trigger] adj@[v])@.len() <= 64 by {}
    }
    let (comp, count) = components(&adj);
    let r = census_of(&adj, &comp, count);
    proof {
        assert(graph_of(dims, suicide, legal_only, adj_view(adj@)));
    }
    r
}

} // verus!
