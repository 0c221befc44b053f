//! What a sweep's summary fields mean in terms of the roots it folded: the
//! least separating root, the least unresolved root, whether the minimum
//! is unconditional, and the empty board's values.

use vstd::prelude::*;

use crate::census::legal_spec;
use crate::code::PosCode;
use crate::config::{Dims, Repetition, Suicide};
use crate::naive::play_rules;
use crate::reference::Color;
use crate::search::{nvalue, seat_node};
use crate::separate::{
    fold_spec, fold_step, root_at_spec, root_ok, roots_ok, searched_ok, stones_spec, sweep_ok, sweep_start,
    transport_spec, uncond_spec, Options, RootOutcome, Separating, Sweep,
};
use crate::table::pos_of;

verus! {

/// The separating root a folded root is: both of its searches resolved,
/// to different values.
pub open spec fn separating_of(d: Dims, o: RootOutcome) -> Option<Separating> {
    match (o.psk, o.ssk) {
        (Some(a), Some(b)) => match (a.value, b.value) {
            (Some(pv), Some(sv)) => if pv != sv {
                Some(
                    Separating {
                        code: o.code,
                        to_move: o.to_move,
                        psk: pv,
                        ssk: sv,
                        stones: stones_spec(pos_of(d, o.code.0 as nat)) as u32,
                        liberties: legal_spec(pos_of(d, o.code.0 as nat)),
                        transported: o.transported,
                    },
                )
            } else {
                None
            },
            _ => None,
        },
        _ => None,
    }
}

/// A folded root searched under both rules that either left unresolved.
pub open spec fn unresolved_root(o: RootOutcome) -> bool {
    &&& o.psk is Some
    &&& o.ssk is Some
    &&& !(o.psk->Some_0.value is Some && o.ssk->Some_0.value is Some)
}

/// A folded root kept out of the searches by the stone-count floor.
pub open spec fn skipped_root(o: RootOutcome) -> bool {
    o.psk is None || o.ssk is None
}

/// Whether one root comes no later than another in the minimality order:
/// fewer stones first, then the lower code, then Black to move before
/// White.
pub open spec fn no_later(s1: u32, c1: PosCode, m1: Color, s2: u32, c2: PosCode, m2: Color) -> bool {
    ||| s1 < s2
    ||| s1 == s2 && c1.0 < c2.0
    ||| s1 == s2 && c1.0 == c2.0 && (m1 == Color::Black || m2 == Color::White)
}

/// Whether the `i`-th folded root is a separating root the minimum ranges
/// over: any, or only one carrying no libertyless chain.
pub open spec fn sep_candidate(d: Dims, roots: Seq<RootOutcome>, lib_only: bool, i: int) -> bool {
    &&& separating_of(d, roots[i]) is Some
    &&& lib_only ==> separating_of(d, roots[i])->Some_0.liberties
}

/// Whether the `i`-th folded root is an unresolved root the least
/// unresolved root ranges over.
pub open spec fn unres_candidate(d: Dims, roots: Seq<RootOutcome>, lib_only: bool, i: int) -> bool {
    &&& unresolved_root(roots[i])
    &&& lib_only ==> legal_spec(pos_of(d, roots[i].code.0 as nat))
}

/// `m` is the least separating root among the folded ones, or none when
/// none separates.
pub open spec fn least_separating(d: Dims, roots: Seq<RootOutcome>, lib_only: bool, m: Option<Separating>) -> bool {
    &&& m is None <==> forall|i: int| 0 <= i < roots.len() ==> !#[trigger] sep_candidate(d, roots, lib_only, i)
    &&& m is Some ==> exists|i: int|
        0 <= i < roots.len() && #[trigger] sep_candidate(d, roots, lib_only, i) && separating_of(d, roots[i]) == m
    &&& m is Some ==> forall|i: int|
        0 <= i < roots.len() && #[trigger] sep_candidate(d, roots, lib_only, i) ==> no_later(
            m->Some_0.stones,
            m->Some_0.code,
            m->Some_0.to_move,
            separating_of(d, roots[i])->Some_0.stones,
            separating_of(d, roots[i])->Some_0.code,
            separating_of(d, roots[i])->Some_0.to_move,
        )
}

/// `u` is the least unresolved root among the folded ones, with its
/// stones, or none when every searched root resolved.
pub open spec fn least_unresolved(d: Dims, roots: Seq<RootOutcome>, lib_only: bool, u: Option<(PosCode, Color, u32)>) -> bool {
    &&& u is None <==> forall|i: int| 0 <= i < roots.len() ==> !#[trigger] unres_candidate(d, roots, lib_only, i)
    &&& u is Some ==> exists|i: int|
        0 <= i < roots.len() && #[trigger] unres_candidate(d, roots, lib_only, i) && roots[i].code == u->Some_0.0
            && roots[i].to_move == u->Some_0.1 && u->Some_0.2 == stones_spec(pos_of(d, roots[i].code.0 as nat)) as u32
    &&& u is Some ==> forall|i: int|
        0 <= i < roots.len() && #[trigger] unres_candidate(d, roots, lib_only, i) ==> no_later(
            u->Some_0.2,
            u->Some_0.0,
            u->Some_0.1,
            stones_spec(pos_of(d, roots[i].code.0 as nat)) as u32,
            roots[i].code,
            roots[i].to_move,
        )
}

/// The fold's four minima are what they name: the least separating root,
/// over every root and over those carrying no libertyless chain, and the
/// least unresolved root, likewise.
pub proof fn law_fold_least(d: Dims, opts: Options, roots: Seq<RootOutcome>)
    ensures
        least_separating(d, roots, false, fold_spec(d, opts, roots).minimal),
        least_separating(d, roots, true, fold_spec(d, opts, roots).minimal_liberties),
        least_unresolved(d, roots, false, fold_spec(d, opts, roots).unresolved_least),
        least_unresolved(d, roots, true, fold_spec(d, opts, roots).unresolved_least_liberties),
    decreases roots.len(),
{
    if roots.len() == 0 {
        return;
    }
    let rest = roots.drop_last();
    law_fold_least(d, opts, rest);
    let k = rest.len() as int;
    assert forall|i: int, l: bool| 0 <= i < k implies (sep_candidate(d, roots, l, i) == #[trigger] sep_candidate(
        d,
        rest,
        l,
        i,
    )) && (unres_candidate(d, roots, l, i) == #[trigger] unres_candidate(d, rest, l, i)) by {
        assert(roots[i] == rest[i]);
    }
    let w0 = fold_spec(d, opts, rest);
    let o = roots.last();
    assert(o == roots[k]);
    let b = pos_of(d, o.code.0 as nat);
    assert(fold_spec(d, opts, roots) == fold_step(w0, o, stones_spec(b) as u32, legal_spec(b)));
    lemma_step_fields(d, w0, o);
    lemma_sep_step(d, roots, false, w0.minimal, fold_spec(d, opts, roots).minimal);
    lemma_sep_step(d, roots, true, w0.minimal_liberties, fold_spec(d, opts, roots).minimal_liberties);
    lemma_unres_step(d, roots, false, w0.unresolved_least, fold_spec(d, opts, roots).unresolved_least);
    lemma_unres_step(d, roots, true, w0.unresolved_least_liberties, fold_spec(d, opts, roots).unresolved_least_liberties);
}

/// How folding one root changes the four minima.
proof fn lemma_step_fields(d: Dims, w0: Sweep, o: RootOutcome)
    ensures
        ({
            let b = pos_of(d, o.code.0 as nat);
            let w = fold_step(w0, o, stones_spec(b) as u32, legal_spec(b));
            let f = separating_of(d, o);
            &&& w.minimal == (if f is Some {
                crate::separate::least_sep(w0.minimal, f->Some_0)
            } else {
                w0.minimal
            })
            &&& w.minimal_liberties == (if f is Some && f->Some_0.liberties {
                crate::separate::least_sep(w0.minimal_liberties, f->Some_0)
            } else {
                w0.minimal_liberties
            })
            &&& w.unresolved_least == (if unresolved_root(o) {
                crate::separate::least_root(w0.unresolved_least, o.code, o.to_move, stones_spec(b) as u32)
            } else {
                w0.unresolved_least
            })
            &&& w.unresolved_least_liberties == (if unresolved_root(o) && legal_spec(b) {
                crate::separate::least_root(w0.unresolved_least_liberties, o.code, o.to_move, stones_spec(b) as u32)
            } else {
                w0.unresolved_least_liberties
            })
        }),
{
}

/// Folding one more root into the least separating root.
proof fn lemma_sep_step(d: Dims, roots: Seq<RootOutcome>, l: bool, m0: Option<Separating>, m: Option<Separating>)
    requires
        roots.len() > 0,
        least_separating(d, roots.drop_last(), l, m0),
        forall|i: int, l2: bool| 0 <= i < roots.len() - 1 ==> (sep_candidate(d, roots, l2, i) == #[trigger] sep_candidate(
            d,
            roots.drop_last(),
            l2,
            i,
        )),
        m == (if sep_candidate(d, roots, l, roots.len() - 1) {
            crate::separate::least_sep(m0, separating_of(d, roots[roots.len() - 1])->Some_0)
        } else {
            m0
        }),
    ensures
        least_separating(d, roots, l, m),
{
    let rest = roots.drop_last();
    let k = rest.len() as int;
    if m is Some {
        if m == m0 {
            let i = choose|i: int| 0 <= i < k && #[trigger] sep_candidate(d, rest, l, i) && separating_of(d, rest[i]) == m0;
            assert(rest[i] == roots[i]);
            assert(sep_candidate(d, roots, l, i) && separating_of(d, roots[i]) == m);
        } else {
            assert(sep_candidate(d, roots, l, k) && separating_of(d, roots[k]) == m);
        }
    }
    assert forall|i: int| 0 <= i < roots.len() && #[trigger] sep_candidate(d, roots, l, i) implies m is Some by {
        if i < k {
            assert(sep_candidate(d, rest, l, i));
        }
    }
    if m is Some {
        let x = m->Some_0;
        assert forall|i: int| 0 <= i < roots.len() && #[trigger] sep_candidate(d, roots, l, i) implies no_later(
            x.stones,
            x.code,
            x.to_move,
            separating_of(d, roots[i])->Some_0.stones,
            separating_of(d, roots[i])->Some_0.code,
            separating_of(d, roots[i])->Some_0.to_move,
        ) by {
            if i < k {
                assert(sep_candidate(d, rest, l, i));
                assert(rest[i] == roots[i]);
            }
        }
    }
}

/// Folding one more root into the least unresolved root.
proof fn lemma_unres_step(d: Dims, roots: Seq<RootOutcome>, l: bool, u0: Option<(PosCode, Color, u32)>, u: Option<(PosCode, Color, u32)>)
    requires
        roots.len() > 0,
        least_unresolved(d, roots.drop_last(), l, u0),
        forall|i: int, l2: bool| 0 <= i < roots.len() - 1 ==> (unres_candidate(d, roots, l2, i) == #[trigger] unres_candidate(
            d,
            roots.drop_last(),
            l2,
            i,
        )),
        u == (if unres_candidate(d, roots, l, roots.len() - 1) {
            crate::separate::least_root(
                u0,
                roots[roots.len() - 1].code,
                roots[roots.len() - 1].to_move,
                stones_spec(pos_of(d, roots[roots.len() - 1].code.0 as nat)) as u32,
            )
        } else {
            u0
        }),
    ensures
        least_unresolved(d, roots, l, u),
{
    let rest = roots.drop_last();
    let k = rest.len() as int;
    if u is Some {
        if u == u0 {
            let i = choose|i: int|
                0 <= i < k && #[trigger] unres_candidate(d, rest, l, i) && rest[i].code == u0->Some_0.0 && rest[i].to_move
                    == u0->Some_0.1 && u0->Some_0.2 == stones_spec(pos_of(d, rest[i].code.0 as nat)) as u32;
            assert(rest[i] == roots[i]);
            assert(unres_candidate(d, roots, l, i));
        } else {
            assert(unres_candidate(d, roots, l, k));
        }
    }
    assert forall|i: int| 0 <= i < roots.len() && #[trigger] unres_candidate(d, roots, l, i) implies u is Some by {
        if i < k {
            assert(unres_candidate(d, rest, l, i));
        }
    }
    if u is Some {
        let x = u->Some_0;
        assert forall|i: int| 0 <= i < roots.len() && #[trigger] unres_candidate(d, roots, l, i) implies no_later(
            x.2,
            x.0,
            x.1,
            stones_spec(pos_of(d, roots[i].code.0 as nat)) as u32,
            roots[i].code,
            roots[i].to_move,
        ) by {
            if i < k {
                assert(unres_candidate(d, rest, l, i));
                assert(rest[i] == roots[i]);
            }
        }
    }
}

/// A root kept out by the stone-count floor is counted as skipped.
proof fn lemma_fold_skipped(d: Dims, opts: Options, roots: Seq<RootOutcome>)
    requires
        roots.len() <= u64::MAX,
    ensures
        forall|i: int| 0 <= i < roots.len() && #[trigger] skipped_root(roots[i]) ==> fold_spec(d, opts, roots).skipped > 0,
    decreases roots.len(),
{
    if roots.len() > 0 {
        let rest = roots.drop_last();
        lemma_fold_skipped(d, opts, rest);
        crate::separate::law_fold_accounting(d, opts, rest);
        let w0 = fold_spec(d, opts, rest);
        let o = roots.last();
        let b = pos_of(d, o.code.0 as nat);
        let w = fold_step(w0, o, stones_spec(b) as u32, legal_spec(b));
        assert(w == fold_spec(d, opts, roots));
        if skipped_root(o) {
            assert(w.skipped == w0.skipped + 1);
        } else {
            assert(w.skipped == w0.skipped);
        }
        assert forall|i: int| 0 <= i < roots.len() && #[trigger] skipped_root(roots[i]) implies w.skipped > 0 by {
            if i < rest.len() {
                assert(rest[i] == roots[i]);
            }
        }
    }
}

/// A sweep that calls its minimum unconditional has shown it a minimum
/// over the whole board: no root was skipped, and every root that went
/// unresolved comes strictly after the minimum, so that a minimum exists
/// whenever anything went unresolved. Likewise over the roots carrying no
/// libertyless chain.
pub proof fn law_fold_unconditional(d: Dims, opts: Options, roots: Seq<RootOutcome>)
    requires
        roots.len() <= u64::MAX,
    ensures
        ({
            let w = fold_spec(d, opts, roots);
            uncond_spec(w.skipped, w.minimal, w.unresolved_least) ==> {
                &&& forall|i: int| 0 <= i < roots.len() ==> !#[trigger] skipped_root(roots[i])
                &&& forall|i: int|
                    0 <= i < roots.len() && #[trigger] unresolved_root(roots[i]) ==> w.minimal is Some && !no_later(
                        stones_spec(pos_of(d, roots[i].code.0 as nat)) as u32,
                        roots[i].code,
                        roots[i].to_move,
                        w.minimal->Some_0.stones,
                        w.minimal->Some_0.code,
                        w.minimal->Some_0.to_move,
                    )
            }
        }),
        ({
            let w = fold_spec(d, opts, roots);
            uncond_spec(w.skipped, w.minimal_liberties, w.unresolved_least_liberties) ==> {
                &&& forall|i: int| 0 <= i < roots.len() ==> !#[trigger] skipped_root(roots[i])
                &&& forall|i: int|
                    0 <= i < roots.len() && #[trigger] unres_candidate(d, roots, true, i) ==> w.minimal_liberties is Some
                        && !no_later(
                        stones_spec(pos_of(d, roots[i].code.0 as nat)) as u32,
                        roots[i].code,
                        roots[i].to_move,
                        w.minimal_liberties->Some_0.stones,
                        w.minimal_liberties->Some_0.code,
                        w.minimal_liberties->Some_0.to_move,
                    )
            }
        }),
{
    let w = fold_spec(d, opts, roots);
    law_fold_least(d, opts, roots);
    lemma_fold_skipped(d, opts, roots);
    assert forall|i: int| 0 <= i < roots.len() && #[trigger] unresolved_root(roots[i]) implies unres_candidate(
        d,
        roots,
        false,
        i,
    ) by {
    }
}

/// Every cell empty, no stones.
proof fn lemma_no_stones(cells: Seq<Option<crate::reference::Color>>, k: int)
    requires
        0 <= k <= cells.len(),
        forall|i: int| 0 <= i < cells.len() ==> #[trigger] cells[i] is None,
    ensures
        crate::separate::stones_upto(cells, k) == 0,
    decreases k,
{
    if k > 0 {
        lemma_no_stones(cells, k - 1);
    }
}

/// The empty board's values a fold reports are those of its first root,
/// when that root is the empty board with Black to move and no later one
/// is.
proof fn lemma_fold_empty(d: Dims, opts: Options, roots: Seq<RootOutcome>, k: int)
    requires
        1 <= k <= roots.len(),
        roots[0].code.0 == 0 && roots[0].to_move == Color::Black,
        forall|i: int| 1 <= i < roots.len() ==> !(#[trigger] roots[i].code.0 == 0 && roots[i].to_move == Color::Black),
    ensures
        fold_spec(d, opts, roots.take(k)).empty_psk == (match (roots[0].psk, roots[0].ssk) {
            (Some(a), Some(_)) => a.value,
            _ => None,
        }),
        fold_spec(d, opts, roots.take(k)).empty_ssk == (match (roots[0].psk, roots[0].ssk) {
            (Some(_), Some(b)) => b.value,
            _ => None,
        }),
    decreases k,
{
    let t = roots.take(k);
    let o = roots[k - 1];
    assert(t.last() == o);
    if k > 1 {
        lemma_fold_empty(d, opts, roots, k - 1);
        assert(t.drop_last() =~= roots.take(k - 1));
    } else {
        assert(t.drop_last() =~= Seq::<RootOutcome>::empty());
    }
}

/// A sweep reports as the empty board's values the values of the empty
/// board with Black to move under each rule: none when a stone-count floor
/// keeps the empty board out, and always both when nothing limits the
/// searches.
pub proof fn law_sweep_empty(d: Dims, s: Suicide, opts: Options, r: Sweep)
    requires
        d.wf(),
        d.size() <= crate::table::MAX_TABLE_POINTS,
        sweep_ok(d, s, opts, r),
    ensures
        r.empty_psk is Some ==> r.empty_psk->Some_0 as int == nvalue(
            play_rules(d, Repetition::Psk, s),
            seat_node(Repetition::Psk, 0, Color::Black),
        ),
        r.empty_ssk is Some ==> r.empty_ssk->Some_0 as int == nvalue(
            play_rules(d, Repetition::Ssk, s),
            seat_node(Repetition::Ssk, 0, Color::Black),
        ),
        opts.min_stones > 0 ==> r.empty_psk is None && r.empty_ssk is None,
        opts.min_stones == 0 && opts.budget is None ==> r.empty_psk is Some && r.empty_ssk is Some,
{
    let roots = choose|roots: Seq<RootOutcome>| #[trigger] roots_ok(d, s, opts, roots) && r == fold_spec(d, opts, roots);
    crate::code::lemma_pow3_monotone(d.size(), 12);
    assert(crate::code::pow3(12) == 531441) by {
        reveal_with_fuel(crate::code::pow3, 13);
    }
    let n = roots.len() as int;
    assert(root_ok(d, s, opts, roots, 0));
    assert(root_at_spec(0) == (PosCode(0), Color::Black));
    assert(searched_ok(d, s, opts.budget, opts.min_stones, 0, roots[0]));
    assert forall|i: int| 1 <= i < n implies !(#[trigger] roots[i].code.0 == 0 && roots[i].to_move == Color::Black) by {
        assert(root_ok(d, s, opts, roots, i));
        let at = root_at_spec(i);
        if !searched_ok(d, s, opts.budget, opts.min_stones, i, roots[i]) {
            let (p, sw) = choose|p: int, sw: bool|
                0 <= p < i && #[trigger] crate::separate::is_representative(d, at.0.0 as nat, at.1, (p, sw))
                    && searched_ok(d, s, opts.budget, opts.min_stones, p, roots[p]) && roots[i] == transport_spec(
                    roots[p],
                    sw,
                    at,
                );
        }
        assert(roots[i].code == at.0 && roots[i].to_move == at.1);
        assert(i / 2 < 531441);
    }
    lemma_fold_empty(d, opts, roots, n);
    assert(roots.take(n) =~= roots);
    let b = pos_of(d, 0);
    crate::enumerate::lemma_code_zero_empty(d.size());
    lemma_no_stones(b.cells, b.cells.len() as int);
}

/// How many of the roots meet a condition.
pub open spec fn count_roots(roots: Seq<RootOutcome>, p: spec_fn(RootOutcome) -> bool) -> nat
    decreases roots.len(),
{
    if roots.len() == 0 {
        0
    } else {
        count_roots(roots.drop_last(), p) + if p(roots.last()) {
            1nat
        } else {
            0nat
        }
    }
}

/// A folded root whose searches both resolved.
pub open spec fn resolved_root(o: RootOutcome) -> bool {
    &&& o.psk is Some
    &&& o.ssk is Some
    &&& o.psk->Some_0.value is Some
    &&& o.ssk->Some_0.value is Some
}

/// A folded root searched under both rules whose situational-superko search
/// made a play positional superko would have refused.
pub open spec fn ssk_only_root(o: RootOutcome) -> bool {
    &&& o.psk is Some
    &&& o.ssk is Some
    &&& o.ssk->Some_0.ssk_only > 0
}

/// The fold's counters count what they name: the resolved, unresolved and
/// skipped roots; the separating roots, over every root and over those
/// carrying no libertyless chain; the roots searched here and those
/// transported; and the roots, and resolved roots, with ssk-only plays.
pub proof fn law_fold_counts(d: Dims, opts: Options, roots: Seq<RootOutcome>)
    requires
        roots.len() <= u64::MAX,
    ensures
        ({
            let w = fold_spec(d, opts, roots);
            &&& w.resolved == count_roots(roots, |o: RootOutcome| resolved_root(o))
            &&& w.unresolved == count_roots(roots, |o: RootOutcome| unresolved_root(o))
            &&& w.skipped == count_roots(roots, |o: RootOutcome| skipped_root(o))
            &&& w.separating == count_roots(roots, |o: RootOutcome| separating_of(d, o) is Some)
            &&& w.separating_liberties == count_roots(
                roots,
                |o: RootOutcome| separating_of(d, o) is Some && separating_of(d, o)->Some_0.liberties,
            )
            &&& w.searched == count_roots(roots, |o: RootOutcome| !skipped_root(o) && !o.transported)
            &&& w.transported == count_roots(roots, |o: RootOutcome| !skipped_root(o) && o.transported)
            &&& w.roots_with_ssk_only == count_roots(roots, |o: RootOutcome| ssk_only_root(o))
            &&& w.resolved_with_ssk_only == count_roots(roots, |o: RootOutcome| ssk_only_root(o) && resolved_root(o))
        }),
    decreases roots.len(),
{
    if roots.len() > 0 {
        let rest = roots.drop_last();
        law_fold_counts(d, opts, rest);
        crate::separate::law_fold_accounting(d, opts, rest);
        let w0 = fold_spec(d, opts, rest);
        let o = roots.last();
        let b = pos_of(d, o.code.0 as nat);
        let w = fold_step(w0, o, stones_spec(b) as u32, legal_spec(b));
        assert(w == fold_spec(d, opts, roots));
        lemma_step_counts(d, w0, o, rest.len());
    }
}

/// How folding one root changes the counters, none of which is at its
/// limit.
proof fn lemma_step_counts(d: Dims, w0: Sweep, o: RootOutcome, k: nat)
    requires
        k < u64::MAX,
        w0.resolved + w0.unresolved + w0.skipped == k,
        w0.searched + w0.transported + w0.skipped == k,
        w0.separating_liberties <= w0.separating <= w0.resolved,
        w0.resolved_with_ssk_only <= w0.roots_with_ssk_only <= k,
    ensures
        ({
            let b = pos_of(d, o.code.0 as nat);
            let w = fold_step(w0, o, stones_spec(b) as u32, legal_spec(b));
            let f = separating_of(d, o);
            &&& w.resolved == w0.resolved + if resolved_root(o) { 1int } else { 0int }
            &&& w.unresolved == w0.unresolved + if unresolved_root(o) { 1int } else { 0int }
            &&& w.skipped == w0.skipped + if skipped_root(o) { 1int } else { 0int }
            &&& w.separating == w0.separating + if f is Some { 1int } else { 0int }
            &&& w.separating_liberties == w0.separating_liberties + if f is Some && f->Some_0.liberties {
                1int
            } else {
                0int
            }
            &&& w.searched == w0.searched + if !skipped_root(o) && !o.transported { 1int } else { 0int }
            &&& w.transported == w0.transported + if !skipped_root(o) && o.transported { 1int } else { 0int }
            &&& w.roots_with_ssk_only == w0.roots_with_ssk_only + if ssk_only_root(o) { 1int } else { 0int }
            &&& w.resolved_with_ssk_only == w0.resolved_with_ssk_only + if ssk_only_root(o) && resolved_root(o) {
                1int
            } else {
                0int
            }
        }),
{
}

/// A sweep's minima are taken over the roots of its board as the sweep
/// recorded them: its minimal separating root is the least of the roots
/// whose two values differ, over every root and over those carrying no
/// libertyless chain, and its least unresolved roots likewise.
pub proof fn law_sweep_least(d: Dims, s: Suicide, opts: Options, r: Sweep)
    requires
        sweep_ok(d, s, opts, r),
    ensures
        exists|roots: Seq<RootOutcome>|
            #[trigger] roots_ok(d, s, opts, roots) && least_separating(d, roots, false, r.minimal) && least_separating(
                d,
                roots,
                true,
                r.minimal_liberties,
            ) && least_unresolved(d, roots, false, r.unresolved_least) && least_unresolved(
                d,
                roots,
                true,
                r.unresolved_least_liberties,
            ),
{
    let roots = choose|roots: Seq<RootOutcome>| #[trigger] roots_ok(d, s, opts, roots) && r == fold_spec(d, opts, roots);
    law_fold_least(d, opts, roots);
}

/// The witness of a separating root separates: when its two values are
/// the root's values under the two rules, the verdicts at the witness floor
/// are the winners those values give there, so Black wins under exactly one
/// of the two rules, and under each rule exactly one color wins.
pub proof fn law_witness_separates(d: Dims, s: Suicide, budget: Option<u64>, sep: Separating, w: crate::separate::Verdicts)
    requires
        d.wf(),
        (sep.code.0 as nat) < crate::enumerate::codes(d),
        sep.psk as int == nvalue(play_rules(d, Repetition::Psk, s), seat_node(Repetition::Psk, sep.code.0 as nat, sep.to_move)),
        sep.ssk as int == nvalue(play_rules(d, Repetition::Ssk, s), seat_node(Repetition::Ssk, sep.code.0 as nat, sep.to_move)),
        sep.psk != sep.ssk,
        crate::separate::witness_verdicts_ok(d, s, budget, sep, Some(w)),
    ensures
        w.psk_black == (sep.psk > w.komi_floor),
        w.ssk_black == (sep.ssk > w.komi_floor),
        w.psk_black != w.ssk_black,
        w.psk_black != w.psk_white,
        w.ssk_black != w.ssk_white,
{
    let b = pos_of(d, sep.code.0 as nat);
    crate::code::law_encode_decode(d.size(), sep.code.0 as nat);
    let k = w.komi_floor as int;
    crate::search::law_verdict_is_threshold(b, sep.to_move, Repetition::Psk, s, k, Color::Black);
    crate::search::law_verdict_is_threshold(b, sep.to_move, Repetition::Psk, s, k, Color::White);
    crate::search::law_verdict_is_threshold(b, sep.to_move, Repetition::Ssk, s, k, Color::Black);
    crate::search::law_verdict_is_threshold(b, sep.to_move, Repetition::Ssk, s, k, Color::White);
}

} // verus!
