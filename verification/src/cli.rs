//! The command line of the counting commands: `--flag value` or
//! `--flag=value` pairs, and the spellings of a board, a rule, a suicide
//! convention and a count.
//!
//! An unknown or missing flag is refused with a message naming it; a value
//! is quoted in a message with its backslashes, quotes and the control
//! characters `\n`, `\r`, `\t` and `\0` escaped.

use vstd::prelude::*;

use crate::config::{dims_text, rule_text, suicide_text, Dims, Repetition, Suicide};
use crate::divergence::{slug_of, Divergence};
use crate::census::{census_upto, legal_count, legal_positions, position_graph};
use crate::code::{pow3, render, render_spec, MAX_CODED_POINTS};
use crate::enumerate::{games_rep, rfits, BoardModel, Options, ReportModel};
use crate::reference::Position;
use crate::scc::{census_model, graph_of, scc_numbering, situation_graph, SccModel, MAX_VERTICES};
use crate::table::MAX_TABLE_POINTS;
use crate::text::{
    chars_of, control, dec, hex_text, is_control, key_value, push_char, push_code_escape, push_decimal, push_str,
};
use crate::walk::{empty_model, naive_rep};

verus! {

broadcast use vstd::string::group_string_axioms;

/// The characters a quoted value shows for one character.
pub open spec fn escape_char(c: char) -> Seq<char> {
    if c == '"' {
        seq!['\\', '"']
    } else if c == '\\' {
        seq!['\\', '\\']
    } else if c == '\n' {
        seq!['\\', 'n']
    } else if c == '\r' {
        seq!['\\', 'r']
    } else if c == '\t' {
        seq!['\\', 't']
    } else if c == '\0' {
        seq!['\\', '0']
    } else if is_control(c) {
        seq!['\\', 'u', '{'] + hex_text(c as nat) + seq!['}']
    } else {
        seq![c]
    }
}

/// The escaped characters of a value.
pub open spec fn escaped(s: Seq<char>) -> Seq<char>
    decreases s.len(),
{
    if s.len() == 0 {
        Seq::empty()
    } else {
        escaped(s.drop_last()) + escape_char(s.last())
    }
}

/// A value as a message quotes it.
pub open spec fn quoted(s: Seq<char>) -> Seq<char> {
    seq!['"'] + escaped(s) + seq!['"']
}

/// Append the characters a quoted value shows for one character.
fn push_escaped(out: &mut String, c: char)
    ensures
        final(out)@ == old(out)@ + escape_char(c),
{
    let ghost before = out@;
    if c == '"' {
        push_char(out, '\\');
        push_char(out, '"');
    } else if c == '\\' {
        push_char(out, '\\');
        push_char(out, '\\');
    } else if c == '\n' {
        push_char(out, '\\');
        push_char(out, 'n');
    } else if c == '\r' {
        push_char(out, '\\');
        push_char(out, 'r');
    } else if c == '\t' {
        push_char(out, '\\');
        push_char(out, 't');
    } else if c == '\0' {
        push_char(out, '\\');
        push_char(out, '0');
    } else if control(c) {
        push_code_escape(out, c);
    } else {
        push_char(out, c);
    }
    assert(out@ =~= before + escape_char(c));
}

/// Append a value quoted.
fn push_quoted(out: &mut String, s: &Vec<char>)
    ensures
        final(out)@ == old(out)@ + quoted(s@),
{
    push_char(out, '"');
    let ghost start = out@;
    let mut i: usize = 0;
    while i < s.len()
        invariant
            i <= s@.len(),
            out@ == start + escaped(s@.take(i as int)),
        decreases s@.len() - i,
    {
        let c = s[i];
        push_escaped(out, c);
        proof {
            let t = s@.take(i + 1);
            assert(t.drop_last() =~= s@.take(i as int));
            assert(t.last() == c);
            assert(out@ =~= start + escaped(t));
        }
        i += 1;
    }
    push_char(out, '"');
    assert(s@.take(i as int) =~= s@);
    assert(out@ =~= old(out)@ + quoted(s@));
}

/// A message: a text, then a value quoted.
fn message(text: &str, value: &Vec<char>) -> (r: String)
    ensures
        r@ == text@ + quoted(value@),
{
    let mut out = String::new();
    push_str(&mut out, text);
    push_quoted(&mut out, value);
    assert(out@ =~= text@ + quoted(value@));
    out
}

/// A string of one literal.
fn text(s: &str) -> (r: String)
    ensures
        r@ == s@,
{
    let mut out = String::new();
    push_str(&mut out, s);
    assert(out@ =~= s@);
    out
}

/// Whether a character is a decimal digit.
pub open spec fn is_digit(c: char) -> bool {
    '0' <= c && c <= '9'
}

/// The value of a string of decimal digits.
pub open spec fn digits_value(s: Seq<char>) -> nat
    decreases s.len(),
{
    if s.len() == 0 {
        0
    } else {
        digits_value(s.drop_last()) * 10 + (s.last() as nat - '0' as nat) as nat
    }
}

/// The digits of a count: the string without a leading `+`.
pub open spec fn count_digits(s: Seq<char>) -> Seq<char> {
    if s.len() > 0 && s[0] == '+' {
        s.drop_first()
    } else {
        s
    }
}

/// Every character is a decimal digit.
pub open spec fn all_digits(t: Seq<char>) -> bool {
    forall|k: int| 0 <= k < t.len() ==> is_digit(#[trigger] t[k])
}

/// What a string spells as a count: an optional `+`, then at least one
/// decimal digit, the value fitting a `usize`.
pub open spec fn count_spec(s: Seq<char>) -> Option<nat> {
    let t = count_digits(s);
    if t.len() > 0 && all_digits(t) && digits_value(t) <= usize::MAX {
        Some(digits_value(t))
    } else {
        None
    }
}

/// A prefix of digits has no larger a value than the whole.
proof fn lemma_digits_grow(s: Seq<char>, i: int)
    requires
        0 <= i <= s.len(),
        all_digits(s),
    ensures
        digits_value(s.take(i)) <= digits_value(s),
    decreases s.len() - i,
{
    if i < s.len() {
        lemma_digits_grow(s, i + 1);
        assert(s.take(i + 1).drop_last() =~= s.take(i));
        assert(is_digit(s[i]));
        assert(digits_value(s.take(i + 1)) == digits_value(s.take(i)) * 10 + (s[i] as nat - '0' as nat) as nat);
    } else {
        assert(s.take(i) =~= s);
    }
}

/// A string whose digits up to some point already spell too large a value
/// is not a count.
proof fn lemma_too_large(t: Seq<char>, i: int)
    requires
        0 < i <= t.len(),
        digits_value(t.take(i)) > usize::MAX,
    ensures
        !(all_digits(t) && digits_value(t) <= usize::MAX),
{
    if all_digits(t) {
        lemma_digits_grow(t, i);
    }
}

/// Read a count: an optional `+`, then at least one decimal digit, the
/// value fitting a `usize`.
pub fn parse_count(s: &Vec<char>) -> (r: Option<usize>)
    ensures
        match r {
            Some(v) => count_spec(s@) == Some(v as nat),
            None => count_spec(s@) is None,
        },
{
    let start: usize = if s.len() > 0 && s[0] == '+' {
        1
    } else {
        0
    };
    let ghost t = count_digits(s@);
    assert(t =~= s@.subrange(start as int, s@.len() as int));
    if start >= s.len() {
        return None;
    }
    let mut value: usize = 0;
    let mut i = start;
    while i < s.len()
        invariant
            start <= i <= s@.len(),
            t == s@.subrange(start as int, s@.len() as int),
            t == count_digits(s@),
            forall|k: int| start <= k < i ==> is_digit(#[trigger] s@[k]),
            value == digits_value(s@.subrange(start as int, i as int)),
        decreases s@.len() - i,
    {
        let c = s[i];
        if !('0' <= c && c <= '9') {
            proof {
                assert(t[i - start] == c);
                assert(!is_digit(t[i - start]));
                assert(!all_digits(t));
            }
            return None;
        }
        let d = (c as u32 - '0' as u32) as usize;
        proof {
            let u = s@.subrange(start as int, i + 1);
            assert(u.drop_last() =~= s@.subrange(start as int, i as int));
            assert(u.last() == c);
            assert(d == c as nat - '0' as nat);
            assert(digits_value(u) == value * 10 + d);
            assert(t.take(i + 1 - start) =~= u);
        }
        match value.checked_mul(10) {
            Some(m) => match m.checked_add(d) {
                Some(v) => {
                    value = v;
                },
                None => {
                    proof {
                        lemma_too_large(t, i + 1 - start);
                    }
                    return None;
                },
            },
            None => {
                proof {
                    assert(value * 10 + d > usize::MAX);
                    lemma_too_large(t, i + 1 - start);
                }
                return None;
            },
        }
        i += 1;
    }
    proof {
        assert(s@.subrange(start as int, i as int) =~= t);
        assert forall|k: int| 0 <= k < t.len() implies is_digit(#[trigger] t[k]) by {
            assert(t[k] == s@[start + k]);
        }
    }
    Some(value)
}

/// The place of the first `c` in `s`, from `i` on.
pub open spec fn find_from(s: Seq<char>, c: char, i: int) -> Option<int>
    decreases s.len() - i,
{
    if i >= s.len() || i < 0 {
        None
    } else if s[i] == c {
        Some(i)
    } else {
        find_from(s, c, i + 1)
    }
}

/// A place that `find_from` gives holds `c`, at or after the start.
pub proof fn lemma_find_from(s: Seq<char>, c: char, i: int)
    ensures
        find_from(s, c, i) matches Some(k) ==> i <= k < s.len() && s[k] == c,
        find_from(s, c, i) is None ==> forall|k: int| 0 <= i <= k < s.len() ==> s[k] != c,
    decreases s.len() - i,
{
    if 0 <= i < s.len() && s[i] != c {
        lemma_find_from(s, c, i + 1);
    }
}

/// The place of the first `c` in `s`.
fn find(s: &Vec<char>, c: char) -> (r: Option<usize>)
    ensures
        match r {
            Some(i) => find_from(s@, c, 0) == Some(i as int),
            None => find_from(s@, c, 0) is None,
        },
        r matches Some(i) ==> i < s@.len() && s@[i as int] == c,
{
    proof {
        lemma_find_from(s@, c, 0);
    }
    let mut i: usize = 0;
    while i < s.len()
        invariant
            i <= s@.len(),
            find_from(s@, c, 0) == find_from(s@, c, i as int),
        decreases s@.len() - i,
    {
        if s[i] == c {
            return Some(i);
        }
        i += 1;
    }
    None
}

/// The characters of `s` from `a` to `b`.
fn slice(s: &Vec<char>, a: usize, b: usize) -> (r: Vec<char>)
    requires
        a <= b <= s@.len(),
    ensures
        r@ == s@.subrange(a as int, b as int),
{
    let mut out: Vec<char> = Vec::new();
    let mut i = a;
    while i < b
        invariant
            a <= i <= b <= s@.len(),
            out@ == s@.subrange(a as int, i as int),
        decreases b - i,
    {
        out.push(s[i]);
        i += 1;
        assert(out@ =~= s@.subrange(a as int, i as int));
    }
    out
}

/// What a board spells: `MxN`, split at the first `x`, both counts and both
/// positive; otherwise the refusal.
pub open spec fn board_spec(t: Seq<char>) -> Result<Dims, Seq<char>> {
    match find_from(t, 'x', 0) {
        None => Err("--board is MxN, not "@ + quoted(t)),
        Some(i) => match (count_spec(t.subrange(0, i)), count_spec(t.subrange(i + 1, t.len() as int))) {
            (Some(r), Some(c)) => if r == 0 || c == 0 {
                Err("a board dimension must be positive: "@ + quoted(t))
            } else {
                Ok(Dims { rows: r as usize, cols: c as usize })
            },
            _ => Err("--board is MxN, not "@ + quoted(t)),
        },
    }
}

/// Read a board: `MxN`, with both dimensions positive.
pub fn parse_board(text: &str) -> (r: Result<Dims, String>)
    ensures
        match board_spec(text@) {
            Ok(d) => r == Ok::<Dims, String>(d),
            Err(m) => r is Err && r->Err_0@ == m,
        },
{
    let t = chars_of(text);
    let found = find(&t, 'x');
    let at = match found {
        Some(i) => i,
        None => {
            return Err(message("--board is MxN, not ", &t));
        },
    };
    let n = t.len();
    let rows = parse_count(&slice(&t, 0, at));
    let cols = parse_count(&slice(&t, at + 1, n));
    match (rows, cols) {
        (Some(r), Some(c)) => {
            if r == 0 || c == 0 {
                Err(message("a board dimension must be positive: ", &t))
            } else {
                Ok(Dims::new(r, c))
            }
        },
        _ => Err(message("--board is MxN, not ", &t)),
    }
}


/// A string of the characters of `v`.
fn string_of(v: &Vec<char>) -> (r: String)
    ensures
        r@ == v@,
{
    let mut out = String::new();
    let mut i: usize = 0;
    while i < v.len()
        invariant
            i <= v@.len(),
            out@ == v@.take(i as int),
        decreases v@.len() - i,
    {
        push_char(&mut out, v[i]);
        i += 1;
        assert(out@ =~= v@.take(i as int));
    }
    assert(v@.take(i as int) =~= v@);
    out
}

/// Whether `v` spells `s`.
fn is_text(v: &Vec<char>, s: &str) -> (r: bool)
    ensures
        r == (v@ == s@),
{
    let t = chars_of(s);
    if v.len() != t.len() {
        return false;
    }
    let mut i: usize = 0;
    while i < v.len()
        invariant
            i <= v@.len(),
            v@.len() == t@.len(),
            t@ == s@,
            forall|k: int| 0 <= k < i ==> v@[k] == t@[k],
        decreases v@.len() - i,
    {
        if v[i] != t[i] {
            return false;
        }
        i += 1;
    }
    assert(v@ =~= t@);
    true
}

/// A name, then a text.
fn named(name: &Vec<char>, rest: &str) -> (r: String)
    ensures
        r@ == name@ + rest@,
{
    let mut out = string_of(name);
    push_str(&mut out, rest);
    out
}

/// The flags of a command line, each as it was spelled.
pub struct FlagsModel {
    pub board: Option<Seq<char>>,
    pub rule: Option<Seq<char>>,
    pub suicide: Option<Seq<char>>,
    pub threads: Option<Seq<char>>,
    pub depth_cap: Option<Seq<char>>,
    pub naive: bool,
}

/// No flag given.
pub open spec fn no_flags() -> FlagsModel {
    FlagsModel { board: None, rule: None, suicide: None, threads: None, depth_cap: None, naive: false }
}

/// The slot a flag that takes a value fills, by name.
pub open spec fn slot_index(name: Seq<char>) -> Option<int> {
    if name == "--board"@ {
        Some(0)
    } else if name == "--rule"@ {
        Some(1)
    } else if name == "--suicide"@ {
        Some(2)
    } else if name == "--threads"@ {
        Some(3)
    } else if name == "--depth-cap"@ {
        Some(4)
    } else {
        None
    }
}

/// What a slot holds.
pub open spec fn slot(m: FlagsModel, k: int) -> Option<Seq<char>> {
    if k == 0 {
        m.board
    } else if k == 1 {
        m.rule
    } else if k == 2 {
        m.suicide
    } else if k == 3 {
        m.threads
    } else {
        m.depth_cap
    }
}

/// The flags with a slot filled.
pub open spec fn with_slot(m: FlagsModel, k: int, v: Seq<char>) -> FlagsModel {
    if k == 0 {
        FlagsModel { board: Some(v), ..m }
    } else if k == 1 {
        FlagsModel { rule: Some(v), ..m }
    } else if k == 2 {
        FlagsModel { suicide: Some(v), ..m }
    } else if k == 3 {
        FlagsModel { threads: Some(v), ..m }
    } else {
        FlagsModel { depth_cap: Some(v), ..m }
    }
}

/// The name of an argument: what stands before its first `=`, or all of it.
pub open spec fn arg_name(a: Seq<char>) -> Seq<char> {
    match find_from(a, '=', 0) {
        Some(k) => a.subrange(0, k),
        None => a,
    }
}

/// The value an argument carries after its first `=`, if it has one.
pub open spec fn arg_inline(a: Seq<char>) -> Option<Seq<char>> {
    match find_from(a, '=', 0) {
        Some(k) => Some(a.subrange(k + 1, a.len() as int)),
        None => None,
    }
}

/// Read the arguments from `i` on into `m`: `--naive`, or a flag that takes
/// a value, given once, as `--flag value` or `--flag=value`.
pub open spec fn parse_from(args: Seq<Seq<char>>, i: int, m: FlagsModel) -> Result<FlagsModel, Seq<char>>
    decreases args.len() - i,
{
    if i < 0 || i >= args.len() {
        Ok(m)
    } else {
        let name = arg_name(args[i]);
        let inline = arg_inline(args[i]);
        if name == "--naive"@ {
            if inline is Some {
                Err("--naive takes no value"@)
            } else {
                parse_from(args, i + 1, FlagsModel { naive: true, ..m })
            }
        } else {
            match slot_index(name) {
                None => Err("unknown option "@ + quoted(name)),
                Some(k) => if slot(m, k) is Some {
                    Err(name + " given twice"@)
                } else {
                    match inline {
                        Some(v) => parse_from(args, i + 1, with_slot(m, k, v)),
                        None => if i + 1 < args.len() {
                            parse_from(args, i + 2, with_slot(m, k, args[i + 1]))
                        } else {
                            Err(name + " needs a value"@)
                        },
                    }
                },
            }
        }
    }
}

/// The characters of each argument.
pub open spec fn texts(args: Seq<String>) -> Seq<Seq<char>> {
    args.map_values(|a: String| a@)
}

/// The flags a command line carried, unparsed beyond their spelling.
pub struct Flags {
    pub board: Option<String>,
    pub rule: Option<String>,
    pub suicide: Option<String>,
    pub threads: Option<String>,
    pub depth_cap: Option<String>,
    pub naive: bool,
}

/// The characters of an optional string.
pub open spec fn opt_view(o: Option<String>) -> Option<Seq<char>> {
    match o {
        Some(s) => Some(s@),
        None => None,
    }
}

impl View for Flags {
    type V = FlagsModel;

    open spec fn view(&self) -> FlagsModel {
        FlagsModel {
            board: opt_view(self.board),
            rule: opt_view(self.rule),
            suicide: opt_view(self.suicide),
            threads: opt_view(self.threads),
            depth_cap: opt_view(self.depth_cap),
            naive: self.naive,
        }
    }
}

/// The slot of a flag name.
fn slot_of(name: &Vec<char>) -> (r: Option<usize>)
    ensures
        match slot_index(name@) {
            Some(k) => r == Some(k as usize),
            None => r is None,
        },
{
    if is_text(name, "--board") {
        Some(0)
    } else if is_text(name, "--rule") {
        Some(1)
    } else if is_text(name, "--suicide") {
        Some(2)
    } else if is_text(name, "--threads") {
        Some(3)
    } else if is_text(name, "--depth-cap") {
        Some(4)
    } else {
        None
    }
}

impl Flags {
    /// No flag given.
    fn none() -> (r: Self)
        ensures
            r@ == no_flags(),
    {
        Flags { board: None, rule: None, suicide: None, threads: None, depth_cap: None, naive: false }
    }

    /// Whether a slot is filled.
    fn filled(&self, k: usize) -> (r: bool)
        requires
            k < 5,
        ensures
            r == (slot(self@, k as int) is Some),
    {
        if k == 0 {
            self.board.is_some()
        } else if k == 1 {
            self.rule.is_some()
        } else if k == 2 {
            self.suicide.is_some()
        } else if k == 3 {
            self.threads.is_some()
        } else {
            self.depth_cap.is_some()
        }
    }

    /// Fill a slot.
    fn fill(&mut self, k: usize, v: String)
        requires
            k < 5,
        ensures
            final(self)@ == with_slot(old(self)@, k as int, v@),
    {
        if k == 0 {
            self.board = Some(v);
        } else if k == 1 {
            self.rule = Some(v);
        } else if k == 2 {
            self.suicide = Some(v);
        } else if k == 3 {
            self.threads = Some(v);
        } else {
            self.depth_cap = Some(v);
        }
    }

    /// Parse `--flag value` and `--flag=value` pairs, refusing anything else.
    pub fn parse(args: &[String]) -> (r: Result<Self, String>)
        ensures
            match parse_from(texts(args@), 0, no_flags()) {
                Ok(m) => r is Ok && r->Ok_0@ == m,
                Err(e) => r is Err && r->Err_0@ == e,
            },
    {
        Flags::parse_at(args, 0)
    }

    /// Parse the arguments from `start` on.
    fn parse_at(args: &[String], start: usize) -> (r: Result<Self, String>)
        ensures
            match parse_from(texts(args@), start as int, no_flags()) {
                Ok(m) => r is Ok && r->Ok_0@ == m,
                Err(e) => r is Err && r->Err_0@ == e,
            },
    {
        let ghost all = texts(args@);
        let mut out = Flags::none();
        if start >= args.len() {
            return Ok(out);
        }
        let mut i: usize = start;
        while i < args.len()
            invariant
                i <= args@.len(),
                all == texts(args@),
                parse_from(all, start as int, no_flags()) == parse_from(all, i as int, out@),
            decreases args@.len() - i,
        {
            let arg = chars_of(args[i].as_str());
            assert(arg@ == all[i as int]);
            let n = arg.len();
            let found = find(&arg, '=');
            let (name, inline) = match found {
                Some(k) => (slice(&arg, 0, k), Some(slice(&arg, k + 1, n))),
                None => (slice(&arg, 0, n), None),
            };
            proof {
                assert(arg@.subrange(0, n as int) =~= arg@);
                assert(name@ == arg_name(arg@));
                assert(match inline {
                    Some(v) => arg_inline(arg@) == Some(v@),
                    None => arg_inline(arg@) is None,
                });
            }
            if is_text(&name, "--naive") {
                if inline.is_some() {
                    proof {
                        reveal_strlit("--naive takes no value");
                    }
                    return Err(text("--naive takes no value"));
                }
                out.naive = true;
                i += 1;
            } else {
                match slot_of(&name) {
                    None => {
                        return Err(message("unknown option ", &name));
                    },
                    Some(k) => {
                        if out.filled(k) {
                            return Err(named(&name, " given twice"));
                        }
                        match inline {
                            Some(v) => {
                                out.fill(k, string_of(&v));
                                i += 1;
                            },
                            None => {
                                if i + 1 < args.len() {
                                    let v = args[i + 1].clone();
                                    assert(v@ == all[i + 1]);
                                    out.fill(k, v);
                                    i += 2;
                                } else {
                                    return Err(named(&name, " needs a value"));
                                }
                            },
                        }
                    },
                }
            }
        }
        Ok(out)
    }
}


/// The board the flags name.
pub open spec fn board_of(m: FlagsModel) -> Result<Dims, Seq<char>> {
    match m.board {
        None => Err("--board is required"@),
        Some(t) => board_spec(t),
    }
}

/// The repetition rule the flags name.
pub open spec fn rule_of(m: FlagsModel) -> Result<Repetition, Seq<char>> {
    match m.rule {
        None => Err("--rule is required"@),
        Some(t) => if t == "psk"@ {
            Ok(Repetition::Psk)
        } else if t == "ssk"@ {
            Ok(Repetition::Ssk)
        } else {
            Err("--rule is psk or ssk, not "@ + quoted(t))
        },
    }
}

/// The suicide convention the flags name.
pub open spec fn suicide_of(m: FlagsModel) -> Result<Suicide, Seq<char>> {
    match m.suicide {
        None => Err("--suicide is required"@),
        Some(t) => if t == "forbid"@ {
            Ok(Suicide::Forbid)
        } else if t == "remove-own"@ {
            Ok(Suicide::RemoveOwn)
        } else {
            Err("--suicide is forbid or remove-own, not "@ + quoted(t))
        },
    }
}

/// The thread count the flags name: one when none is given.
pub open spec fn threads_of(m: FlagsModel) -> Result<usize, Seq<char>> {
    match m.threads {
        None => Ok(1),
        Some(t) => match count_spec(t) {
            None => Err("--threads takes a positive integer, not "@ + quoted(t)),
            Some(n) => if n == 0 {
                Err("--threads takes a positive integer, not 0"@)
            } else {
                Ok(n as usize)
            },
        },
    }
}

/// The depth cap the flags name, if any.
pub open spec fn depth_cap_of(m: FlagsModel) -> Result<Option<usize>, Seq<char>> {
    match m.depth_cap {
        None => Ok(None),
        Some(t) => match count_spec(t) {
            None => Err("--depth-cap takes a non-negative integer, not "@ + quoted(t)),
            Some(n) => Ok(Some(n as usize)),
        },
    }
}

/// Whether the flag of a name was given.
pub open spec fn given(m: FlagsModel, name: Seq<char>) -> bool {
    if name == "--rule"@ {
        m.rule is Some
    } else if name == "--suicide"@ {
        m.suicide is Some
    } else if name == "--threads"@ {
        m.threads is Some
    } else if name == "--depth-cap"@ {
        m.depth_cap is Some
    } else if name == "--naive"@ {
        m.naive
    } else {
        false
    }
}

/// The refusal of the first of `names` from `i` on that was given.
pub open spec fn reject_from(m: FlagsModel, names: Seq<Seq<char>>, i: int) -> Result<(), Seq<char>>
    decreases names.len() - i,
{
    if i < 0 || i >= names.len() {
        Ok(())
    } else if given(m, names[i]) {
        Err(names[i] + " is not an option of this command"@)
    } else {
        reject_from(m, names, i + 1)
    }
}

/// The characters of each name.
pub open spec fn name_texts(names: Seq<&str>) -> Seq<Seq<char>> {
    names.map_values(|a: &str| a@)
}

/// Read a value as a count, from a string.
fn count_of(t: &String) -> (r: Option<usize>)
    ensures
        match count_spec(t@) {
            Some(n) => r == Some(n as usize),
            None => r is None,
        },
{
    parse_count(&chars_of(t.as_str()))
}

/// A message: a text, then a string quoted.
fn message_of(text: &str, value: &String) -> (r: String)
    ensures
        r@ == text@ + quoted(value@),
{
    message(text, &chars_of(value.as_str()))
}

impl Flags {
    /// The board: `MxN`, both positive.
    pub fn board(&self) -> (r: Result<Dims, String>)
        ensures
            match board_of(self@) {
                Ok(d) => r == Ok::<Dims, String>(d),
                Err(e) => r is Err && r->Err_0@ == e,
            },
    {
        match &self.board {
            None => Err(text("--board is required")),
            Some(t) => parse_board(t.as_str()),
        }
    }

    /// The repetition rule: `psk` or `ssk`.
    pub fn rule(&self) -> (r: Result<Repetition, String>)
        ensures
            match rule_of(self@) {
                Ok(v) => r == Ok::<Repetition, String>(v),
                Err(e) => r is Err && r->Err_0@ == e,
            },
    {
        match &self.rule {
            None => Err(text("--rule is required")),
            Some(t) => {
                let c = chars_of(t.as_str());
                if is_text(&c, "psk") {
                    Ok(Repetition::Psk)
                } else if is_text(&c, "ssk") {
                    Ok(Repetition::Ssk)
                } else {
                    Err(message("--rule is psk or ssk, not ", &c))
                }
            },
        }
    }

    /// The suicide convention: `forbid` or `remove-own`.
    pub fn suicide(&self) -> (r: Result<Suicide, String>)
        ensures
            match suicide_of(self@) {
                Ok(v) => r == Ok::<Suicide, String>(v),
                Err(e) => r is Err && r->Err_0@ == e,
            },
    {
        match &self.suicide {
            None => Err(text("--suicide is required")),
            Some(t) => {
                let c = chars_of(t.as_str());
                if is_text(&c, "forbid") {
                    Ok(Suicide::Forbid)
                } else if is_text(&c, "remove-own") {
                    Ok(Suicide::RemoveOwn)
                } else {
                    Err(message("--suicide is forbid or remove-own, not ", &c))
                }
            },
        }
    }

    /// The thread count: a positive integer, one when not given.
    pub fn threads(&self) -> (r: Result<usize, String>)
        ensures
            match threads_of(self@) {
                Ok(v) => r == Ok::<usize, String>(v),
                Err(e) => r is Err && r->Err_0@ == e,
            },
    {
        match &self.threads {
            None => Ok(1),
            Some(t) => match count_of(t) {
                None => Err(message_of("--threads takes a positive integer, not ", t)),
                Some(n) => {
                    if n == 0 {
                        Err(text("--threads takes a positive integer, not 0"))
                    } else {
                        Ok(n)
                    }
                },
            },
        }
    }

    /// The depth cap: a non-negative integer, none when not given.
    pub fn depth_cap(&self) -> (r: Result<Option<usize>, String>)
        ensures
            match depth_cap_of(self@) {
                Ok(v) => r == Ok::<Option<usize>, String>(v),
                Err(e) => r is Err && r->Err_0@ == e,
            },
    {
        match &self.depth_cap {
            None => Ok(None),
            Some(t) => match count_of(t) {
                None => Err(message_of("--depth-cap takes a non-negative integer, not ", t)),
                Some(n) => Ok(Some(n)),
            },
        }
    }

    /// Refuse a flag a command does not take, rather than ignoring it.
    pub fn reject(&self, unwanted: &[&str]) -> (r: Result<(), String>)
        ensures
            match reject_from(self@, name_texts(unwanted@), 0) {
                Ok(()) => r is Ok,
                Err(e) => r is Err && r->Err_0@ == e,
            },
    {
        let ghost names = name_texts(unwanted@);
        let mut i: usize = 0;
        while i < unwanted.len()
            invariant
                i <= unwanted@.len(),
                names == name_texts(unwanted@),
                reject_from(self@, names, 0) == reject_from(self@, names, i as int),
            decreases unwanted@.len() - i,
        {
            let name = chars_of(unwanted[i]);
            assert(name@ == names[i as int]);
            let is_given = if is_text(&name, "--rule") {
                self.rule.is_some()
            } else if is_text(&name, "--suicide") {
                self.suicide.is_some()
            } else if is_text(&name, "--threads") {
                self.threads.is_some()
            } else if is_text(&name, "--depth-cap") {
                self.depth_cap.is_some()
            } else if is_text(&name, "--naive") {
                self.naive
            } else {
                false
            };
            if is_given {
                return Err(named(&name, " is not an option of this command"));
            }
            i += 1;
        }
        Ok(())
    }
}


/// Every divergence, in the order a report prints them.
pub open spec fn all_divs() -> Seq<Divergence> {
    seq![
        Divergence::DimsAreRuntime,
        Divergence::SuicideRemoveOwn,
        Divergence::PskArchiveProjection,
        Divergence::RuleTableMemo,
        Divergence::WinnerViaFloorKomi,
        Divergence::BoardSymmetry,
        Divergence::ColorSwap,
    ]
}

/// A divergence as the `divergences=` line names it: its slug, then the
/// theorem that licenses it or `unlicensed`.
pub open spec fn div_entry(d: Divergence) -> Seq<char> {
    slug_of(d) + seq![':'] + if d == Divergence::WinnerViaFloorKomi {
        "Superko.winnerZ_eq_winner"@
    } else {
        "unlicensed"@
    }
}

/// The entries of the first `k` divergences that `under` holds.
pub open spec fn picked(under: Seq<Divergence>, k: int) -> Seq<Seq<char>>
    decreases k,
{
    if k <= 0 {
        Seq::empty()
    } else {
        let rest = picked(under, k - 1);
        if under.contains(all_divs()[k - 1]) {
            rest.push(div_entry(all_divs()[k - 1]))
        } else {
            rest
        }
    }
}

/// Items joined by commas.
pub open spec fn joined(items: Seq<Seq<char>>) -> Seq<char>
    decreases items.len(),
{
    if items.len() == 0 {
        Seq::empty()
    } else if items.len() == 1 {
        items[0]
    } else {
        joined(items.drop_last()) + seq![','] + items.last()
    }
}

/// The divergences a run was under, in the order of `all_divs`.
pub open spec fn div_text(under: Seq<Divergence>) -> Seq<char> {
    joined(picked(under, 7))
}

/// The divergences a run was under, as `slug:license` pairs in the order
/// `Divergence::all` fixes, joined by commas.
pub fn divergences(under: &[Divergence]) -> (r: String)
    ensures
        r@ == div_text(under@),
{
    let all = Divergence::all();
    let mut out = String::new();
    let mut any = false;
    let mut k: usize = 0;
    while k < 7
        invariant
            k <= 7,
            all@ == all_divs(),
            out@ == joined(picked(under@, k as int)),
            any == (picked(under@, k as int).len() > 0),
        decreases 7 - k,
    {
        let d = all[k];
        let mut found = false;
        let mut j: usize = 0;
        while j < under.len()
            invariant
                j <= under@.len(),
                found == (exists|t: int| 0 <= t < j && under@[t] == d),
            decreases under@.len() - j,
        {
            if under[j] == d {
                found = true;
            }
            j += 1;
        }
        let ghost rest = picked(under@, k as int);
        proof {
            if found {
                let t = choose|t: int| 0 <= t < under@.len() && under@[t] == d;
                assert(under@.contains(d));
            } else {
                assert(!under@.contains(d));
            }
        }
        if found {
            let ghost before = out@;
            if any {
                push_char(&mut out, ',');
            }
            push_str(&mut out, d.slug());
            push_char(&mut out, ':');
            match d.lean_witness() {
                Some(w) => push_str(&mut out, w),
                None => push_str(&mut out, "unlicensed"),
            }
            proof {
                let items = rest.push(div_entry(d));
                assert(items.drop_last() =~= rest);
                if rest.len() > 0 {
                    assert(out@ =~= before + seq![','] + div_entry(d));
                } else {
                    assert(out@ =~= div_entry(d));
                }
                assert(out@ == joined(items));
            }
            any = true;
        }
        k += 1;
    }
    out
}

/// A command a command line names, its flags read.
#[derive(Clone, Copy, Debug)]
pub enum Command {
    /// Count the games of the board from the empty position.
    Games { dims: Dims, rep: Repetition, suicide: Suicide, threads: usize, depth_cap: Option<usize>, naive: bool },
    /// Count the legal positions of the board.
    Positions { dims: Dims },
    /// Census the position graph of the board.
    Graph { dims: Dims, suicide: Suicide },
    /// Census the components of the situation graph of the board.
    Scc { dims: Dims, suicide: Suicide },
}

/// `count-games`: the board, the rule, the suicide convention, the thread
/// count and the depth cap, and no threads beside `--naive`.
pub open spec fn games_command(m: FlagsModel) -> Result<Command, Seq<char>> {
    match board_of(m) {
        Err(e) => Err(e),
        Ok(dims) => match rule_of(m) {
            Err(e) => Err(e),
            Ok(rep) => match suicide_of(m) {
                Err(e) => Err(e),
                Ok(suicide) => match threads_of(m) {
                    Err(e) => Err(e),
                    Ok(threads) => match depth_cap_of(m) {
                        Err(e) => Err(e),
                        Ok(depth_cap) => if m.naive && threads > 1 {
                            Err("--naive is single-threaded; drop --threads"@)
                        } else {
                            Ok(Command::Games { dims, rep, suicide, threads, depth_cap, naive: m.naive })
                        },
                    },
                },
            },
        },
    }
}

/// The flags `count-positions` refuses.
pub open spec fn positions_unwanted() -> Seq<Seq<char>> {
    seq!["--rule"@, "--suicide"@, "--threads"@, "--depth-cap"@, "--naive"@]
}

/// The flags the two censuses refuse.
pub open spec fn census_unwanted() -> Seq<Seq<char>> {
    seq!["--rule"@, "--threads"@, "--depth-cap"@, "--naive"@]
}

/// `count-positions`: the board, and none of the other flags.
pub open spec fn positions_command(m: FlagsModel) -> Result<Command, Seq<char>> {
    match reject_from(m, positions_unwanted(), 0) {
        Err(e) => Err(e),
        Ok(_) => match board_of(m) {
            Err(e) => Err(e),
            Ok(dims) => Ok(Command::Positions { dims }),
        },
    }
}

/// `graph-census` and `scc-census`: the board and the suicide convention.
pub open spec fn census_command(m: FlagsModel, components: bool) -> Result<Command, Seq<char>> {
    match reject_from(m, census_unwanted(), 0) {
        Err(e) => Err(e),
        Ok(_) => match board_of(m) {
            Err(e) => Err(e),
            Ok(dims) => match suicide_of(m) {
                Err(e) => Err(e),
                Ok(suicide) => Ok(
                    if components {
                        Command::Scc { dims, suicide }
                    } else {
                        Command::Graph { dims, suicide }
                    },
                ),
            },
        },
    }
}

/// The command a command line names, or the refusal: the flags are read
/// before the command's name is.
pub open spec fn command_spec(args: Seq<Seq<char>>) -> Result<Command, Seq<char>> {
    if args.len() == 0 {
        Err("no command given"@)
    } else {
        match parse_from(args, 1, no_flags()) {
            Err(e) => Err(e),
            Ok(m) => if args[0] == "count-games"@ {
                games_command(m)
            } else if args[0] == "count-positions"@ {
                positions_command(m)
            } else if args[0] == "graph-census"@ {
                census_command(m, false)
            } else if args[0] == "scc-census"@ {
                census_command(m, true)
            } else {
                Err("unknown command "@ + quoted(args[0]))
            },
        }
    }
}

impl Flags {
    /// The `count-games` command these flags make.
    fn games(&self) -> (r: Result<Command, String>)
        ensures
            match games_command(self@) {
                Ok(c) => r == Ok::<Command, String>(c),
                Err(e) => r is Err && r->Err_0@ == e,
            },
    {
        let dims = match self.board() {
            Ok(d) => d,
            Err(e) => return Err(e),
        };
        let rep = match self.rule() {
            Ok(v) => v,
            Err(e) => return Err(e),
        };
        let suicide = match self.suicide() {
            Ok(v) => v,
            Err(e) => return Err(e),
        };
        let threads = match self.threads() {
            Ok(v) => v,
            Err(e) => return Err(e),
        };
        let depth_cap = match self.depth_cap() {
            Ok(v) => v,
            Err(e) => return Err(e),
        };
        if self.naive && threads > 1 {
            return Err(text("--naive is single-threaded; drop --threads"));
        }
        Ok(Command::Games { dims, rep, suicide, threads, depth_cap, naive: self.naive })
    }

    /// The `count-positions` command these flags make.
    fn positions(&self) -> (r: Result<Command, String>)
        ensures
            match positions_command(self@) {
                Ok(c) => r == Ok::<Command, String>(c),
                Err(e) => r is Err && r->Err_0@ == e,
            },
    {
        let unwanted: [&str; 5] = ["--rule", "--suicide", "--threads", "--depth-cap", "--naive"];
        assert(name_texts(unwanted@) =~= positions_unwanted());
        match self.reject(&unwanted) {
            Ok(()) => {},
            Err(e) => return Err(e),
        }
        match self.board() {
            Ok(dims) => Ok(Command::Positions { dims }),
            Err(e) => Err(e),
        }
    }

    /// The census command these flags make.
    fn census(&self, components: bool) -> (r: Result<Command, String>)
        ensures
            match census_command(self@, components) {
                Ok(c) => r == Ok::<Command, String>(c),
                Err(e) => r is Err && r->Err_0@ == e,
            },
    {
        let unwanted: [&str; 4] = ["--rule", "--threads", "--depth-cap", "--naive"];
        assert(name_texts(unwanted@) =~= census_unwanted());
        match self.reject(&unwanted) {
            Ok(()) => {},
            Err(e) => return Err(e),
        }
        let dims = match self.board() {
            Ok(d) => d,
            Err(e) => return Err(e),
        };
        let suicide = match self.suicide() {
            Ok(v) => v,
            Err(e) => return Err(e),
        };
        if components {
            Ok(Command::Scc { dims, suicide })
        } else {
            Ok(Command::Graph { dims, suicide })
        }
    }
}

/// Read a command line: the command's name, then its flags.
pub fn command(args: &[String]) -> (r: Result<Command, String>)
    ensures
        match command_spec(texts(args@)) {
            Ok(c) => r == Ok::<Command, String>(c),
            Err(e) => r is Err && r->Err_0@ == e,
        },
{
    if args.len() == 0 {
        return Err(text("no command given"));
    }
    let flags = match Flags::parse_at(args, 1) {
        Ok(f) => f,
        Err(e) => return Err(e),
    };
    let name = chars_of(args[0].as_str());
    assert(name@ == texts(args@)[0]);
    if is_text(&name, "count-games") {
        flags.games()
    } else if is_text(&name, "count-positions") {
        flags.positions()
    } else if is_text(&name, "graph-census") {
        flags.census(false)
    } else if is_text(&name, "scc-census") {
        flags.census(true)
    } else {
        Err(message("unknown command ", &name))
    }
}


/// The characters of each string.
pub open spec fn views(ls: Seq<String>) -> Seq<Seq<char>> {
    ls.map_values(|s: String| s@)
}

/// Lines, each ended by a newline.
pub open spec fn lines_text(ls: Seq<Seq<char>>) -> Seq<char>
    decreases ls.len(),
{
    if ls.len() == 0 {
        Seq::empty()
    } else {
        lines_text(ls.drop_last()) + ls.last() + seq!['\n']
    }
}

/// The lines of a count of games.
pub open spec fn report_lines(r: ReportModel) -> Seq<Seq<char>> {
    seq![
        "games="@ + dec(r.games as nat),
        "nodes="@ + dec(r.nodes as nat),
        "max-depth="@ + dec(r.max_depth as nat),
        "max-archive="@ + dec(r.max_archive as nat),
        "refused-occupied="@ + dec(r.refused_occupied as nat),
        "refused-suicide="@ + dec(r.refused_suicide as nat),
        "refused-repetition="@ + dec(r.refused_repetition as nat),
    ]
}

/// The lines a capped count adds: it is not a finished count.
pub open spec fn cap_lines(cap: Option<usize>, r: ReportModel) -> Seq<Seq<char>> {
    match cap {
        Some(c) => seq!["depth-cap="@ + dec(c as nat), "truncated="@ + dec(r.truncated as nat)],
        None => Seq::empty(),
    }
}

/// The divergences a count of games is under.
pub open spec fn games_under(s: Suicide, rep: Repetition, naive: bool) -> Seq<Divergence> {
    let a = seq![Divergence::DimsAreRuntime];
    let b = if s == Suicide::RemoveOwn {
        a.push(Divergence::SuicideRemoveOwn)
    } else {
        a
    };
    if naive {
        b
    } else {
        let c = b.push(Divergence::RuleTableMemo);
        if rep == Repetition::Psk {
            c.push(Divergence::PskArchiveProjection)
        } else {
            c
        }
    }
}

/// The divergences a census is under.
pub open spec fn census_under(s: Suicide) -> Seq<Divergence> {
    if s == Suicide::RemoveOwn {
        seq![Divergence::DimsAreRuntime, Divergence::SuicideRemoveOwn]
    } else {
        seq![Divergence::DimsAreRuntime]
    }
}

/// The count of games an engine gives: the walk over the rules themselves
/// under `--naive`, the table-driven enumeration otherwise.
pub open spec fn games_report(dims: Dims, rep: Repetition, suicide: Suicide, cap: Option<usize>, naive: bool) -> ReportModel {
    if naive {
        naive_rep(dims, rep, suicide, cap)
    } else {
        games_rep(BoardModel { dims, suicide }, rep, cap)
    }
}

/// The body of `count-games`.
pub open spec fn games_body(dims: Dims, rep: Repetition, suicide: Suicide, cap: Option<usize>, naive: bool) -> Seq<char> {
    let r = games_report(dims, rep, suicide, cap, naive);
    lines_text(
        seq![
            "board="@ + dims_text(dims),
            "rule="@ + rule_text(rep),
            "suicide="@ + suicide_text(suicide),
            "divergences="@ + div_text(games_under(suicide, rep, naive)),
            "root="@ + render_spec(empty_model(dims)),
        ] + report_lines(r) + cap_lines(cap, r),
    )
}

/// The body of `count-positions`.
pub open spec fn positions_body(dims: Dims) -> Seq<char> {
    lines_text(
        seq![
            "board="@ + dims_text(dims),
            "divergences="@ + div_text(seq![Divergence::DimsAreRuntime]),
            "positions="@ + dec(legal_count(dims, pow3(dims.size()) as int)),
        ],
    )
}

/// The body of `graph-census`.
pub open spec fn graph_body(dims: Dims, suicide: Suicide) -> Seq<char> {
    let t = census_upto(dims, suicide, pow3(dims.size()) as int);
    lines_text(
        seq![
            "board="@ + dims_text(dims),
            "suicide="@ + suicide_text(suicide),
            "divergences="@ + div_text(census_under(suicide)),
            "nodes="@ + dec(t.0),
            "edges="@ + dec(t.1),
            "self-loops="@ + dec(t.2),
        ],
    )
}

/// The lines of a component census, each behind a prefix.
pub open spec fn scc_lines(prefix: Seq<char>, m: SccModel) -> Seq<Seq<char>> {
    seq![
        prefix + "situations"@ + seq!['='] + dec(m.situations as nat),
        prefix + "edges"@ + seq!['='] + dec(m.edges as nat),
        prefix + "components"@ + seq!['='] + dec(m.components as nat),
        prefix + "largest"@ + seq!['='] + dec(m.largest as nat),
        prefix + "trivial"@ + seq!['='] + dec(m.trivial as nat),
        prefix + "empty-component"@ + seq!['='] + dec(m.empty_component as nat),
        prefix + "outside-largest"@ + seq!['='] + dec(m.outside_largest as nat),
        prefix + "depth"@ + seq!['='] + dec(m.depth as nat),
    ]
}

/// A census of the situation graph: its components numbered as Tarjan's
/// algorithm numbers them.
pub open spec fn scc_ok(d: Dims, s: Suicide, legal_only: bool, m: SccModel) -> bool {
    exists|g: Seq<Seq<u32>>, comp: Seq<u32>, count: nat|
        graph_of(d, s, legal_only, g) && #[trigger] scc_numbering(g, comp, count) && m == census_model(g, comp, count)
}

/// The body of `scc-census`, from the censuses over the legal positions
/// and over every coloring.
pub open spec fn scc_body(dims: Dims, suicide: Suicide, legal: SccModel, all: SccModel) -> Seq<char> {
    lines_text(
        seq![
            "board="@ + dims_text(dims),
            "suicide="@ + suicide_text(suicide),
            "divergences="@ + div_text(census_under(suicide)),
        ] + scc_lines("legal-"@, legal) + scc_lines("all-"@, all),
    )
}

/// The refusal of a board too large for the transition table.
pub open spec fn too_large_text(d: Dims) -> Seq<char> {
    "the "@ + dec(d.rows as nat) + "x"@ + dec(d.cols as nat) + " board has "@ + dec(d.size())
        + " points; the transition table covers at most "@ + dec(MAX_TABLE_POINTS as nat) + " (3^"@ + dec(
        MAX_TABLE_POINTS as nat,
    ) + " codes of successor per color and point)"@
}

/// The machine's limits on a command: the point count fits a `usize`, the
/// counts fit their integers, and a census's codes fit its tables.
pub open spec fn command_fits(c: Command) -> bool {
    match c {
        Command::Games { dims, rep, suicide, depth_cap, naive, .. } => dims.wf() && if naive {
            rfits(naive_rep(dims, rep, suicide, depth_cap))
        } else {
            dims.size() <= MAX_TABLE_POINTS ==> rfits(games_rep(BoardModel { dims, suicide }, rep, depth_cap))
        },
        Command::Positions { dims } => dims.wf() && dims.size() <= MAX_CODED_POINTS,
        Command::Graph { dims, .. } => dims.wf() && dims.size() <= MAX_CODED_POINTS,
        Command::Scc { dims, .. } => dims.wf() && 2 * pow3(dims.size()) < MAX_VERTICES,
    }
}

/// What running a command gives: its body, or, for the table-driven count
/// on a board too large for the table, the refusal.
pub open spec fn outcome_ok(c: Command, r: Result<String, String>) -> bool {
    match c {
        Command::Games { dims, rep, suicide, depth_cap, naive, .. } => if !naive && dims.size() > MAX_TABLE_POINTS {
            r is Err && r->Err_0@ == too_large_text(dims)
        } else {
            r is Ok && r->Ok_0@ == games_body(dims, rep, suicide, depth_cap, naive)
        },
        Command::Positions { dims } => r is Ok && r->Ok_0@ == positions_body(dims),
        Command::Graph { dims, suicide } => r is Ok && r->Ok_0@ == graph_body(dims, suicide),
        Command::Scc { dims, suicide } => r is Ok && exists|a: SccModel, b: SccModel|
            scc_ok(dims, suicide, true, a) && scc_ok(dims, suicide, false, b) && r->Ok_0@ == #[trigger] scc_body(
                dims,
                suicide,
                a,
                b,
            ),
    }
}

/// Join lines, each ended by a newline.
fn join_lines(ls: &Vec<String>) -> (r: String)
    ensures
        r@ == lines_text(views(ls@)),
{
    let mut out = String::new();
    let mut i: usize = 0;
    while i < ls.len()
        invariant
            i <= ls@.len(),
            out@ == lines_text(views(ls@).take(i as int)),
        decreases ls@.len() - i,
    {
        push_str(&mut out, ls[i].as_str());
        push_char(&mut out, '\n');
        proof {
            let t = views(ls@).take(i + 1);
            assert(t.drop_last() =~= views(ls@).take(i as int));
            assert(t.last() == ls@[i as int]@);
        }
        i += 1;
    }
    assert(views(ls@).take(i as int) =~= views(ls@));
    out
}

/// `key=` and a board, `MxN`.
fn board_line(dims: Dims) -> (r: String)
    ensures
        r@ == "board="@ + dims_text(dims),
{
    let mut out = String::new();
    push_str(&mut out, "board=");
    push_decimal(&mut out, dims.rows as u64);
    push_str(&mut out, "x");
    push_decimal(&mut out, dims.cols as u64);
    out
}

/// `suicide=` and the convention.
fn suicide_line(s: Suicide) -> (r: String)
    ensures
        r@ == "suicide="@ + suicide_text(s),
{
    let mut out = text("suicide=");
    push_str(&mut out, s.slug());
    out
}

/// `divergences=` and the divergences.
fn divergences_line(under: &Vec<Divergence>) -> (r: String)
    ensures
        r@ == "divergences="@ + div_text(under@),
{
    let mut out = text("divergences=");
    let d = divergences(under.as_slice());
    push_str(&mut out, d.as_str());
    out
}

/// Append every line of `more`.
fn append_lines(ls: &mut Vec<String>, more: Vec<String>)
    ensures
        views(final(ls)@) == views(old(ls)@) + views(more@),
{
    let mut more = more;
    let ghost start = ls@;
    let ghost extra = more@;
    ls.append(&mut more);
    assert(views(ls@) =~= views(start) + views(extra));
}

/// The divergences a count of games is under.
fn games_divergences(s: Suicide, rep: Repetition, naive: bool) -> (r: Vec<Divergence>)
    ensures
        r@ == games_under(s, rep, naive),
{
    let mut under = vec![Divergence::DimsAreRuntime];
    if s == Suicide::RemoveOwn {
        under.push(Divergence::SuicideRemoveOwn);
    }
    if !naive {
        under.push(Divergence::RuleTableMemo);
        if rep == Repetition::Psk {
            under.push(Divergence::PskArchiveProjection);
        }
    }
    assert(under@ =~= games_under(s, rep, naive));
    under
}

/// The divergences a census is under.
fn census_divergences(s: Suicide) -> (r: Vec<Divergence>)
    ensures
        r@ == census_under(s),
{
    let mut under = vec![Divergence::DimsAreRuntime];
    if s == Suicide::RemoveOwn {
        under.push(Divergence::SuicideRemoveOwn);
    }
    assert(under@ =~= census_under(s));
    under
}


/// Run `count-games`.
fn run_games(dims: Dims, rep: Repetition, suicide: Suicide, threads: usize, depth_cap: Option<usize>, naive: bool) -> (r: Result<String, String>)
    requires
        command_fits(Command::Games { dims, rep, suicide, threads, depth_cap, naive }),
    ensures
        outcome_ok(Command::Games { dims, rep, suicide, threads, depth_cap, naive }, r),
{
    let report = if naive {
        crate::walk::count_games(dims, rep, suicide, depth_cap)
    } else {
        let opts = Options { depth_cap, threads };
        match crate::enumerate::count_games(dims, rep, suicide, opts) {
            Ok(report) => report,
            Err(e) => {
                return Err(e.to_string());
            },
        }
    };
    let ghost model = games_report(dims, rep, suicide, depth_cap, naive);
    assert(report@ == model);
    let mut lines: Vec<String> = Vec::new();
    lines.push(board_line(dims));
    let mut rule = text("rule=");
    push_str(&mut rule, rep.slug());
    lines.push(rule);
    lines.push(suicide_line(suicide));
    lines.push(divergences_line(&games_divergences(suicide, rep, naive)));
    let empty = Position::empty(dims);
    assert(empty@.cells =~= empty_model(dims).cells);
    assert(empty@ == empty_model(dims));
    let mut root = text("root=");
    let drawn = render(&empty);
    push_str(&mut root, drawn.as_str());
    lines.push(root);
    let ghost head = views(lines@);
    append_lines(&mut lines, report.lines());
    let ghost with_report = views(lines@);
    assert(with_report =~= head + report_lines(model));
    match depth_cap {
        Some(cap) => {
            lines.push(key_value("depth-cap", cap as u64));
            lines.push(key_value("truncated", report.truncated));
            proof {
                reveal_strlit("depth-cap");
                reveal_strlit("depth-cap=");
                reveal_strlit("truncated");
                reveal_strlit("truncated=");
                assert("depth-cap"@ + seq!['='] =~= "depth-cap="@);
                assert("truncated"@ + seq!['='] =~= "truncated="@);
                assert(views(lines@) =~= with_report + cap_lines(depth_cap, model));
            }
        },
        None => {
            assert(views(lines@) =~= with_report + cap_lines(depth_cap, model));
        },
    }
    proof {
        reveal_strlit("rule=");
        assert(views(lines@) =~= seq![
            "board="@ + dims_text(dims),
            "rule="@ + rule_text(rep),
            "suicide="@ + suicide_text(suicide),
            "divergences="@ + div_text(games_under(suicide, rep, naive)),
            "root="@ + render_spec(empty_model(dims)),
        ] + report_lines(model) + cap_lines(depth_cap, model));
    }
    Ok(join_lines(&lines))
}

/// Run `count-positions`.
fn run_positions(dims: Dims) -> (r: String)
    requires
        dims.wf(),
        dims.size() <= MAX_CODED_POINTS,
    ensures
        r@ == positions_body(dims),
{
    let positions = legal_positions(dims);
    let mut lines: Vec<String> = Vec::new();
    lines.push(board_line(dims));
    let under = vec![Divergence::DimsAreRuntime];
    assert(under@ =~= seq![Divergence::DimsAreRuntime]);
    lines.push(divergences_line(&under));
    lines.push(key_value("positions", positions));
    proof {
        reveal_strlit("positions");
        reveal_strlit("positions=");
        assert("positions"@ + seq!['='] =~= "positions="@);
        assert(views(lines@) =~= seq![
            "board="@ + dims_text(dims),
            "divergences="@ + div_text(seq![Divergence::DimsAreRuntime]),
            "positions="@ + dec(legal_count(dims, pow3(dims.size()) as int)),
        ]);
    }
    join_lines(&lines)
}

/// Run `graph-census`.
fn run_graph(dims: Dims, suicide: Suicide) -> (r: String)
    requires
        dims.wf(),
        dims.size() <= MAX_CODED_POINTS,
    ensures
        r@ == graph_body(dims, suicide),
{
    let census = position_graph(dims, suicide);
    let mut lines: Vec<String> = Vec::new();
    lines.push(board_line(dims));
    lines.push(suicide_line(suicide));
    lines.push(divergences_line(&census_divergences(suicide)));
    let ghost head = views(lines@);
    append_lines(&mut lines, census.lines());
    proof {
        let t = census_upto(dims, suicide, pow3(dims.size()) as int);
        assert(views(lines@) =~= seq![
            "board="@ + dims_text(dims),
            "suicide="@ + suicide_text(suicide),
            "divergences="@ + div_text(census_under(suicide)),
            "nodes="@ + dec(t.0),
            "edges="@ + dec(t.1),
            "self-loops="@ + dec(t.2),
        ]);
    }
    join_lines(&lines)
}

/// Run `scc-census`.
fn run_scc(dims: Dims, suicide: Suicide) -> (r: String)
    requires
        dims.wf(),
        2 * pow3(dims.size()) < MAX_VERTICES,
    ensures
        exists|a: SccModel, b: SccModel|
            scc_ok(dims, suicide, true, a) && scc_ok(dims, suicide, false, b) && r@ == #[trigger] scc_body(
                dims,
                suicide,
                a,
                b,
            ),
{
    let legal = situation_graph(dims, suicide, true);
    let all = situation_graph(dims, suicide, false);
    let mut lines: Vec<String> = Vec::new();
    lines.push(board_line(dims));
    lines.push(suicide_line(suicide));
    lines.push(divergences_line(&census_divergences(suicide)));
    let ghost head = views(lines@);
    append_lines(&mut lines, legal.lines("legal-"));
    append_lines(&mut lines, all.lines("all-"));
    assert(views(lines@) =~= seq![
        "board="@ + dims_text(dims),
        "suicide="@ + suicide_text(suicide),
        "divergences="@ + div_text(census_under(suicide)),
    ] + scc_lines("legal-"@, legal@) + scc_lines("all-"@, all@));
    let r = join_lines(&lines);
    assert(scc_ok(dims, suicide, true, legal@));
    assert(scc_ok(dims, suicide, false, all@));
    assert(r@ == scc_body(dims, suicide, legal@, all@));
    r
}

/// Run a command, returning its body, or the refusal of a board too large
/// for the transition table.
pub fn execute(c: Command) -> (r: Result<String, String>)
    requires
        command_fits(c),
    ensures
        outcome_ok(c, r),
{
    match c {
        Command::Games { dims, rep, suicide, threads, depth_cap, naive } => run_games(
            dims,
            rep,
            suicide,
            threads,
            depth_cap,
            naive,
        ),
        Command::Positions { dims } => Ok(run_positions(dims)),
        Command::Graph { dims, suicide } => Ok(run_graph(dims, suicide)),
        Command::Scc { dims, suicide } => Ok(run_scc(dims, suicide)),
    }
}

/// Run a command line, returning the body to print or the message to refuse
/// it with.
pub fn run(args: &[String]) -> (r: Result<String, String>)
    requires
        command_spec(texts(args@)) matches Ok(c) ==> command_fits(c),
    ensures
        match command_spec(texts(args@)) {
            Ok(c) => outcome_ok(c, r),
            Err(e) => r is Err && r->Err_0@ == e,
        },
{
    match command(args) {
        Ok(c) => execute(c),
        Err(e) => Err(e),
    }
}


/// A decimal digit's character is a digit, of that value.
proof fn lemma_digit_char(d: nat)
    requires
        d < 10,
    ensures
        is_digit(crate::text::digit_char(d)),
        crate::text::digit_char(d) != 'x',
        crate::text::digit_char(d) != '+',
        (crate::text::digit_char(d) as nat - '0' as nat) as nat == d,
{
}

/// The decimal form of a number is a nonempty string of digits whose value
/// is the number.
proof fn lemma_dec_digits(v: nat)
    ensures
        dec(v).len() > 0,
        all_digits(dec(v)),
        digits_value(dec(v)) == v,
        forall|k: int| 0 <= k < dec(v).len() ==> #[trigger] dec(v)[k] != 'x' && dec(v)[k] != '+',
    decreases v,
{
    if v < 10 {
        lemma_digit_char(v);
        assert(dec(v).drop_last() =~= Seq::<char>::empty());
        assert(digits_value(dec(v)) == digits_value(Seq::<char>::empty()) * 10 + (crate::text::digit_char(v) as nat
            - '0' as nat) as nat);
    } else {
        lemma_dec_digits(v / 10);
        lemma_digit_char(v % 10);
        let s = dec(v);
        assert(s.drop_last() =~= dec(v / 10));
        assert(s.last() == crate::text::digit_char(v % 10));
        assert(digits_value(s) == v / 10 * 10 + v % 10);
        assert forall|k: int| 0 <= k < s.len() implies is_digit(#[trigger] s[k]) && s[k] != 'x' && s[k] != '+' by {
            if k < s.len() - 1 {
                assert(s[k] == dec(v / 10)[k]);
            }
        }
    }
}

/// The first `x` from `i` on, in a text whose characters from `i` up to `j`
/// are not `x` and whose `j`-th is.
proof fn lemma_find_x(t: Seq<char>, i: int, j: int)
    requires
        0 <= i <= j < t.len(),
        t[j] == 'x',
        forall|k: int| i <= k < j ==> #[trigger] t[k] != 'x',
    ensures
        find_from(t, 'x', i) == Some(j),
    decreases j - i,
{
    if i < j {
        lemma_find_x(t, i + 1, j);
    }
}

/// The `--board` flag reads the spelling a report prints for a board as
/// that board, whatever its dimensions.
pub proof fn law_board_spelling(d: Dims)
    requires
        d.rows > 0,
        d.cols > 0,
    ensures
        board_spec(dims_text(d)) == Ok::<Dims, Seq<char>>(d),
{
    let a = dec(d.rows as nat);
    let c = dec(d.cols as nat);
    reveal_strlit("x");
    let t = a + "x"@ + c;
    assert(t == dims_text(d));
    lemma_dec_digits(d.rows as nat);
    lemma_dec_digits(d.cols as nat);
    let n = a.len() as int;
    assert forall|k: int| 0 <= k < n implies #[trigger] t[k] != 'x' by {
        assert(t[k] == a[k]);
    }
    assert(t[n] == 'x');
    lemma_find_x(t, 0, n);
    assert(t.subrange(0, n) =~= a);
    assert(t.subrange(n + 1, t.len() as int) =~= c);
    assert(a[0] != '+');
    assert(c[0] != '+');
    assert(count_digits(a) == a);
    assert(count_digits(c) == c);
}

/// The `--rule` flag accepts exactly the spellings a report prints for the
/// two rules, and reads each as the rule it spells.
pub proof fn law_rule_spelling(m: FlagsModel, r: Repetition)
    ensures
        (rule_of(m) == Ok::<Repetition, Seq<char>>(r)) <==> m.rule == Some(rule_text(r)),
{
    reveal_strlit("psk");
    reveal_strlit("ssk");
    assert("psk"@ != "ssk"@) by {
        assert("psk"@[0] != "ssk"@[0]);
    }
}

/// The `--suicide` flag accepts exactly the spellings a report prints for
/// the two conventions, and reads each as the convention it spells.
pub proof fn law_suicide_spelling(m: FlagsModel, s: Suicide)
    ensures
        (suicide_of(m) == Ok::<Suicide, Seq<char>>(s)) <==> m.suicide == Some(suicide_text(s)),
{
    reveal_strlit("forbid");
    reveal_strlit("remove-own");
    assert("forbid"@ != "remove-own"@) by {
        assert("forbid"@[0] != "remove-own"@[0]);
    }
}

/// A flag that takes a value reads the same spelled `--flag value` as
/// `--flag=value`, whatever the value.
pub proof fn law_both_spellings(name: Seq<char>, v: Seq<char>, m: FlagsModel)
    requires
        slot_index(name) is Some,
    ensures
        parse_from(seq![name, v], 0, m) == parse_from(seq![name + seq!['='] + v], 0, m),
{
    reveal_strlit("--board");
    reveal_strlit("--rule");
    reveal_strlit("--suicide");
    reveal_strlit("--threads");
    reveal_strlit("--depth-cap");
    reveal_strlit("--naive");
    let two = seq![name, v];
    let one = seq![name + seq!['='] + v];
    let joined = name + seq!['='] + v;
    assert(forall|k: int| 0 <= k < name.len() ==> name[k] != '=');
    lemma_find_from(name, '=', 0);
    assert(find_from(name, '=', 0) is None);
    lemma_find_first(joined, name.len() as int, 0);
    assert(joined.subrange(0, name.len() as int) =~= name);
    assert(joined.subrange(name.len() as int + 1, joined.len() as int) =~= v);
    assert(arg_name(two[0]) == name);
    assert(arg_name(one[0]) == name);
    assert(arg_inline(one[0]) == Some(v));
    if name == "--board"@ {
        assert(name[2] != "--naive"@[2]);
    }
    assert(name != "--naive"@);
    let k = slot_index(name).unwrap();
    if slot(m, k) is None {
        assert(parse_from(two, 2, with_slot(m, k, v)) == Ok::<FlagsModel, Seq<char>>(with_slot(m, k, v)));
        assert(parse_from(one, 1, with_slot(m, k, v)) == Ok::<FlagsModel, Seq<char>>(with_slot(m, k, v)));
    }
}

/// The first `=` of a text from `j` on, when the first one stands at `i`.
proof fn lemma_find_first(s: Seq<char>, i: int, j: int)
    requires
        0 <= j <= i < s.len(),
        s[i] == '=',
        forall|k: int| 0 <= k < i ==> s[k] != '=',
    ensures
        find_from(s, '=', j) == Some(i),
    decreases i - j,
{
    if j < i {
        lemma_find_first(s, i, j + 1);
    }
}

/// A count of games prints the same body at every thread count.
pub proof fn law_threads_change_nothing(c: Command, threads: usize, r: Result<String, String>)
    requires
        c is Games,
    ensures
        outcome_ok(c, r) == outcome_ok(
            match c {
                Command::Games { dims, rep, suicide, depth_cap, naive, .. } => Command::Games {
                    dims,
                    rep,
                    suicide,
                    threads,
                    depth_cap,
                    naive,
                },
                _ => c,
            },
            r,
        ),
{
}

} // verus!
