//! Every way a computation in this crate may depart from the plain reading
//! of the rules, and the sentence a report prints for each.
//!
//! The enum is closed. A license is a proved theorem that makes the
//! departure invisible in the result; one of the seven has one.

use vstd::prelude::*;

verus! {

/// A departure from the plain reading of the rules.
#[derive(Clone, Copy, Debug, PartialEq, Eq, PartialOrd, Ord, Hash, Structural)]
pub enum Divergence {
    /// The board's dimensions are runtime values, not type indices.
    DimsAreRuntime,
    /// Suicide is legal and removes the player's own dead stones.
    SuicideRemoveOwn,
    /// The positional-superko archive reads positions, not situations.
    PskArchiveProjection,
    /// Transitions are read from a memo of the reference functions.
    RuleTableMemo,
    /// The winner is decided over the integers at the floor of komi.
    WinnerViaFloorKomi,
    /// A search takes values from the image of a root, or of a play at a
    /// state the symmetry fixes, under a symmetry of the board.
    BoardSymmetry,
    /// A search takes values, negated, from the root with the colors
    /// exchanged.
    ColorSwap,
}

/// The slug a report prints for a divergence.
pub open spec fn slug_of(d: Divergence) -> Seq<char> {
    match d {
        Divergence::DimsAreRuntime => "dims-are-runtime"@,
        Divergence::SuicideRemoveOwn => "suicide-remove-own"@,
        Divergence::PskArchiveProjection => "psk-archive-projection"@,
        Divergence::RuleTableMemo => "rule-table-memo"@,
        Divergence::WinnerViaFloorKomi => "winner-via-floor-komi"@,
        Divergence::BoardSymmetry => "board-symmetry"@,
        Divergence::ColorSwap => "color-swap"@,
    }
}

impl Divergence {
    /// Every divergence, in the order a report prints them.
    pub const ALL: [Divergence; 7] = [
        Divergence::DimsAreRuntime,
        Divergence::SuicideRemoveOwn,
        Divergence::PskArchiveProjection,
        Divergence::RuleTableMemo,
        Divergence::WinnerViaFloorKomi,
        Divergence::BoardSymmetry,
        Divergence::ColorSwap,
    ];

    /// Every divergence, in the order a report prints them.
    pub fn all() -> (r: [Divergence; 7])
        ensures
            r@ == seq![
                Divergence::DimsAreRuntime,
                Divergence::SuicideRemoveOwn,
                Divergence::PskArchiveProjection,
                Divergence::RuleTableMemo,
                Divergence::WinnerViaFloorKomi,
                Divergence::BoardSymmetry,
                Divergence::ColorSwap,
            ],
    {
        let r = [
            Divergence::DimsAreRuntime,
            Divergence::SuicideRemoveOwn,
            Divergence::PskArchiveProjection,
            Divergence::RuleTableMemo,
            Divergence::WinnerViaFloorKomi,
            Divergence::BoardSymmetry,
            Divergence::ColorSwap,
        ];
        assert(r@ =~= seq![
            Divergence::DimsAreRuntime,
            Divergence::SuicideRemoveOwn,
            Divergence::PskArchiveProjection,
            Divergence::RuleTableMemo,
            Divergence::WinnerViaFloorKomi,
            Divergence::BoardSymmetry,
            Divergence::ColorSwap,
        ]);
        r
    }
    /// The slug a report prints.
    pub fn slug(self) -> (r: &'static str)
        ensures
            r@ == slug_of(self),
    {
        match self {
            Divergence::DimsAreRuntime => "dims-are-runtime",
            Divergence::SuicideRemoveOwn => "suicide-remove-own",
            Divergence::PskArchiveProjection => "psk-archive-projection",
            Divergence::RuleTableMemo => "rule-table-memo",
            Divergence::WinnerViaFloorKomi => "winner-via-floor-komi",
            Divergence::BoardSymmetry => "board-symmetry",
            Divergence::ColorSwap => "color-swap",
        }
    }

    /// The theorem that licenses the departure, where one exists.
    pub fn lean_witness(self) -> (r: Option<&'static str>)
        ensures
            r is Some <==> self == Divergence::WinnerViaFloorKomi,
            r matches Some(w) ==> w@ == "Superko.winnerZ_eq_winner"@,
    {
        match self {
            Divergence::WinnerViaFloorKomi => Some("Superko.winnerZ_eq_winner"),
            _ => None,
        }
    }

    /// One sentence, printed in every report of a run this divergence was
    /// in force for.
    pub fn consequence(self) -> (r: &'static str)
        ensures
            r@ == (match self {
                Divergence::DimsAreRuntime => "The board's dimensions are runtime values rather than type indices: a point off the board is refused by an assertion rather than made unrepresentable, two positions of different boards are unequal rather than untypable, and a zero dimension, which the formal rules admit, is refused outright."@,
                Divergence::SuicideRemoveOwn => "A self-capturing play is legal and removes the player's own dead stones; the formal rules have no counterpart, so a number produced under this convention is a number about this crate and not about the audit target."@,
                Divergence::PskArchiveProjection => "Positional superko reads a position's two archive bits instead of quantifying over archived situations; the one-line lemma that positional superko consults the archive only through each situation's board is not written, so the license is `open`."@,
                Divergence::RuleTableMemo => "Transitions are read from a table whose only constructor calls the reference functions; that the table equals its generator is `computed` for boards with `m * n <= 6` and is not proved."@,
                Divergence::WinnerViaFloorKomi => "The winner is decided by comparing the floor of komi against the difference of the two area scores rather than by a rational subtraction, which `Superko.winnerZ_eq_winner` proves is the same verdict."@,
                Divergence::BoardSymmetry => "Some roots take their values from the root a symmetry of the board maps them to instead of being searched, or some plays at a state a symmetry of the board fixes, archive included, are not searched because the symmetry maps an earlier play onto them; that the transition table commutes with every symmetry of the board is `computed` for boards of at most six points and for 3x3 and 3x4; that values are invariant under it is `computed` at every root of every board of at most five points except 1x5 and 5x1 with suicide removing its own stones, where it is `computed` only at the roots resolved within the node budgets the symmetry tests name (1288 of 2916 pairs of a root and any of its images, both rules, on each); that values and verdicts with those plays skipped equal those without is `computed` at every root, and at komi floors -(m*n)-1 to m*n+1, of every board of at most five points except 1x5 and 5x1 with suicide removing its own stones, where it is `computed` only where both searches resolved within the budgets of the mirrored-move tests (440 of 972 values and 15976 of 25272 verdicts, both rules, on each); and none of it is proved."@,
                Divergence::ColorSwap => "Some roots take their values, negated, from the root with every stone's color exchanged and the other color to move instead of being searched; that the transition table commutes with the exchange is `computed` for boards of at most six points and for 3x3 and 3x4; that values negate under it is `computed` at every root of every board of at most five points except 1x5 and 5x1 with suicide removing its own stones, where it is `computed` only at the roots resolved within the node budgets the symmetry tests name; and neither is proved."@,
            }),
    {
        match self {
            Divergence::DimsAreRuntime => "The board's dimensions are runtime values rather than type indices: a point off the board is refused by an assertion rather than made unrepresentable, two positions of different boards are unequal rather than untypable, and a zero dimension, which the formal rules admit, is refused outright.",
            Divergence::SuicideRemoveOwn => "A self-capturing play is legal and removes the player's own dead stones; the formal rules have no counterpart, so a number produced under this convention is a number about this crate and not about the audit target.",
            Divergence::PskArchiveProjection => "Positional superko reads a position's two archive bits instead of quantifying over archived situations; the one-line lemma that positional superko consults the archive only through each situation's board is not written, so the license is `open`.",
            Divergence::RuleTableMemo => "Transitions are read from a table whose only constructor calls the reference functions; that the table equals its generator is `computed` for boards with `m * n <= 6` and is not proved.",
            Divergence::WinnerViaFloorKomi => "The winner is decided by comparing the floor of komi against the difference of the two area scores rather than by a rational subtraction, which `Superko.winnerZ_eq_winner` proves is the same verdict.",
            Divergence::BoardSymmetry => "Some roots take their values from the root a symmetry of the board maps them to instead of being searched, or some plays at a state a symmetry of the board fixes, archive included, are not searched because the symmetry maps an earlier play onto them; that the transition table commutes with every symmetry of the board is `computed` for boards of at most six points and for 3x3 and 3x4; that values are invariant under it is `computed` at every root of every board of at most five points except 1x5 and 5x1 with suicide removing its own stones, where it is `computed` only at the roots resolved within the node budgets the symmetry tests name (1288 of 2916 pairs of a root and any of its images, both rules, on each); that values and verdicts with those plays skipped equal those without is `computed` at every root, and at komi floors -(m*n)-1 to m*n+1, of every board of at most five points except 1x5 and 5x1 with suicide removing its own stones, where it is `computed` only where both searches resolved within the budgets of the mirrored-move tests (440 of 972 values and 15976 of 25272 verdicts, both rules, on each); and none of it is proved.",
            Divergence::ColorSwap => "Some roots take their values, negated, from the root with every stone's color exchanged and the other color to move instead of being searched; that the transition table commutes with the exchange is `computed` for boards of at most six points and for 3x3 and 3x4; that values negate under it is `computed` at every root of every board of at most five points except 1x5 and 5x1 with suicide removing its own stones, where it is `computed` only at the roots resolved within the node budgets the symmetry tests name; and neither is proved.",
        }
    }

    /// Whether a theorem licenses the departure.
    pub fn licensed(self) -> (r: bool)
        ensures
            r == (self == Divergence::WinnerViaFloorKomi),
    {
        self.lean_witness().is_some()
    }
}

} // verus!
