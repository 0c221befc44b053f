//! The superko archive: a dense bitset with two bits per position code.
//!
//! Bit `2·code` says the position has been seen with Black to move, bit
//! `2·code + 1` with White. Situational superko reads one bit; positional
//! superko reads the two together. No key is ever a hash: a collision would
//! prune a subtree silently.

use vstd::prelude::*;
use vstd::set_lib::{lemma_int_range, lemma_len_subset, set_int_range};

use crate::code::{code_space, pow3, PosCode, MAX_CODED_POINTS};
use crate::config::{Dims, Repetition};
use crate::reference::Color;

verus! {

/// A position together with the player to move — what an archive holds.
#[derive(Clone, Copy, Debug, PartialEq, Eq, PartialOrd, Ord, Hash, Structural)]
pub struct ArchiveKey {
    /// The position.
    pub code: PosCode,
    /// Whose turn it is in that position.
    pub to_move: Color,
}

/// The bit a key occupies: `2·code`, plus one for White.
pub open spec fn key_bit(k: ArchiveKey) -> int {
    2 * k.code.0 + match k.to_move {
        Color::Black => 0int,
        Color::White => 1int,
    }
}

impl ArchiveKey {
    /// The key for a position and a player to move.
    #[inline]
    pub fn new(code: PosCode, to_move: Color) -> (r: Self)
        ensures
            r == (ArchiveKey { code, to_move }),
    {
        Self { code, to_move }
    }

    #[inline]
    fn bit(self) -> (r: usize)
        requires
            2 * self.code.0 + 1 <= usize::MAX,
        ensures
            r == key_bit(self),
    {
        let base = (self.code.0 as usize) * 2;
        match self.to_move {
            Color::Black => base,
            Color::White => base + 1,
        }
    }
}

/// What an archive is: the board, the number of codes it covers, and the set
/// of bits that are set.
pub struct ArchiveModel {
    /// The board.
    pub dims: Dims,
    /// The number of position codes, `3^(m·n)`.
    pub codes: nat,
    /// The archived bits, each below `2 · codes`.
    pub bits: Set<int>,
}

/// Whether bit `k` of a word is set.
pub open spec fn word_bit(w: u64, k: u64) -> bool {
    (w >> k) & 1 == 1
}

/// Every situation a game has passed through, as two bits per position.
#[derive(Clone, Debug)]
pub struct Archive {
    dims: Dims,
    codes: usize,
    words: Vec<u64>,
    len: usize,
}

/// The bits set in a word list, below a bound.
pub open spec fn bits_of(words: Seq<u64>, limit: int) -> Set<int> {
    Set::new(|i: int| 0 <= i < limit && word_bit(words[i / 64], (i % 64) as u64))
}

pub proof fn lemma_bit_or(w: u64, k: u64, j: u64)
    requires
        k < 64,
        j < 64,
    ensures
        word_bit(w | (1u64 << k), j) == (j == k || word_bit(w, j)),
        (w & (1u64 << k) == 0) == !word_bit(w, k),
{
    assert(((w | (1u64 << k)) >> j) & 1 == 1 <==> (j == k || (w >> j) & 1 == 1)) by (bit_vector)
        requires
            k < 64,
            j < 64,
    ;
    assert((w & (1u64 << k) == 0) <==> !((w >> k) & 1 == 1)) by (bit_vector)
        requires
            k < 64,
    ;
}

pub proof fn lemma_bit_clear(w: u64, k: u64, j: u64)
    requires
        k < 64,
        j < 64,
    ensures
        word_bit(w & !(1u64 << k), j) == (j != k && word_bit(w, j)),
{
    assert(((w & !(1u64 << k)) >> j) & 1 == 1 <==> (j != k && (w >> j) & 1 == 1)) by (bit_vector)
        requires
            k < 64,
            j < 64,
    ;
}

pub proof fn lemma_zero_word(j: u64)
    requires
        j < 64,
    ensures
        !word_bit(0, j),
{
    assert(!((0u64 >> j) & 1 == 1)) by (bit_vector)
        requires
            j < 64,
    ;
}

impl View for Archive {
    type V = ArchiveModel;

    closed spec fn view(&self) -> ArchiveModel {
        ArchiveModel {
            dims: self.dims,
            codes: self.codes as nat,
            bits: bits_of(self.words@, 2 * self.codes),
        }
    }
}

impl Archive {
    /// The words cover every bit, and the count is the number of bits set.
    pub closed spec fn wf(&self) -> bool {
        &&& self.words@.len() * 64 >= 2 * self.codes
        &&& self.len == self@.bits.len()
        &&& 2 * self.codes + 64 <= usize::MAX
    }

    /// An empty archive over the whole code space of a board.
    pub fn new(dims: Dims) -> (r: Self)
        requires
            dims.rows * dims.cols <= MAX_CODED_POINTS,
            2 * pow3(dims.size()) + 64 <= usize::MAX,
        ensures
            r.wf(),
            r@.dims == dims,
            r@.codes == pow3(dims.size()),
            r@.bits.is_empty(),
            r@.bits.finite(),
    {
        let codes = code_space(dims) as usize;
        let nwords = (codes * 2 + 63) / 64;
        let mut words: Vec<u64> = Vec::new();
        let mut i: usize = 0;
        while i < nwords
            invariant
                i <= nwords,
                words@.len() == i,
                forall|j: int| 0 <= j < i ==> words@[j] == 0,
            decreases nwords - i,
        {
            words.push(0);
            i += 1;
        }
        let r = Self { dims, codes, words, len: 0 };
        assert(r@.bits =~= Set::empty()) by {
            assert forall|b: int| !r@.bits.contains(b) by {
                if 0 <= b < 2 * codes {
                    lemma_zero_word((b % 64) as u64);
                }
            }
        }
        r
    }

    /// The board this archive is over.
    pub fn dims(&self) -> (r: Dims)
        ensures
            r == self@.dims,
    {
        self.dims
    }

    /// How many situations are archived.
    pub fn len(&self) -> (r: usize)
        requires
            self.wf(),
        ensures
            r == self@.bits.len(),
    {
        self.len
    }

    /// Whether nothing is archived.
    pub fn is_empty(&self) -> (r: bool)
        requires
            self.wf(),
        ensures
            r == (self@.bits.len() == 0),
    {
        self.len == 0
    }

    /// The archived bits are finitely many, each below twice the number of
    /// codes.
    pub proof fn lemma_finite(&self)
        requires
            self.wf(),
        ensures
            self@.bits.finite(),
            self@.bits.len() <= 2 * self@.codes,
            self@.bits.subset_of(set_int_range(0, (2 * self@.codes) as int)),
    {
        lemma_int_range(0, (2 * self.codes) as int);
        lemma_len_subset(self@.bits, set_int_range(0, (2 * self.codes) as int));
    }

    /// Archive a situation, and say whether it was new.
    #[inline]
    pub fn insert(&mut self, key: ArchiveKey) -> (was_new: bool)
        requires
            old(self).wf(),
            (key.code.0 as nat) < old(self)@.codes,
        ensures
            final(self).wf(),
            final(self)@.dims == old(self)@.dims,
            final(self)@.codes == old(self)@.codes,
            final(self)@.bits == old(self)@.bits.insert(key_bit(key)),
            was_new == !old(self)@.bits.contains(key_bit(key)),
            final(self)@.bits.finite(),
    {
        let bit = key.bit();
        let k = (bit % 64) as u64;
        let wi = bit / 64;
        let mask = 1u64 << k;
        let w = self.words[wi];
        proof {
            self.lemma_finite();
            lemma_bit_or(w, k, k);
        }
        let was_new = w & mask == 0;
        if was_new {
            let ghost before = self@.bits;
            self.words.set(wi, w | mask);
            assert(self@.bits =~= before.insert(bit as int)) by {
                assert forall|b: int| self@.bits.contains(b) <==> before.insert(bit as int).contains(b) by {
                    if 0 <= b < 2 * self.codes {
                        if b / 64 == wi as int {
                            lemma_bit_or(w, k, (b % 64) as u64);
                        }
                    }
                }
            }
            self.len = self.len + 1;
        } else {
            assert(self@.bits.insert(bit as int) =~= self@.bits);
        }
        proof {
            self.lemma_finite();
        }
        was_new
    }

    /// Undo an [`Archive::insert`], clearing only what that insert set.
    /// Undoing an insert that found the key new requires the key to be
    /// archived still: otherwise the make and unmake were not paired.
    #[inline]
    pub fn undo(&mut self, key: ArchiveKey, was_new: bool)
        requires
            old(self).wf(),
            (key.code.0 as nat) < old(self)@.codes,
            was_new ==> old(self)@.bits.contains(key_bit(key)),
        ensures
            final(self).wf(),
            final(self)@.dims == old(self)@.dims,
            final(self)@.codes == old(self)@.codes,
            final(self)@.bits == if was_new {
                old(self)@.bits.remove(key_bit(key))
            } else {
                old(self)@.bits
            },
            final(self)@.bits.finite(),
    {
        if !was_new {
            proof {
                self.lemma_finite();
            }
            return;
        }
        let bit = key.bit();
        let k = (bit % 64) as u64;
        let wi = bit / 64;
        let mask = 1u64 << k;
        let w = self.words[wi];
        let ghost before = self@.bits;
        proof {
            self.lemma_finite();
        }
        self.words.set(wi, w & !mask);
        assert(self@.bits =~= before.remove(bit as int)) by {
            assert forall|b: int| self@.bits.contains(b) <==> before.remove(bit as int).contains(b) by {
                if 0 <= b < 2 * self.codes {
                    if b / 64 == wi as int {
                        lemma_bit_clear(w, k, (b % 64) as u64);
                    }
                }
            }
        }
        self.len = self.len - 1;
        proof {
            self.lemma_finite();
        }
    }

    /// Whether the position is archived with Black to move, and whether
    /// with White: both bits, read off one word.
    #[inline]
    pub fn pair(&self, code: PosCode) -> (r: (bool, bool))
        requires
            self.wf(),
            (code.0 as nat) < self@.codes,
        ensures
            r.0 == self@.bits.contains(2 * code.0),
            r.1 == self@.bits.contains(2 * code.0 + 1),
    {
        let bit = (code.0 as usize) * 2;
        let k = (bit % 64) as u64;
        let w = self.words[bit / 64];
        let s = w >> k;
        proof {
            assert((bit + 1) / 64 == bit / 64 && (bit + 1) % 64 == k + 1);
            assert(((w >> k) & 1 != 0) == word_bit(w, k) && ((w >> k) & 2 != 0) == word_bit(w, (k + 1) as u64))
                by (bit_vector)
                requires
                    k < 63,
            ;
        }
        (s & 1 != 0, s & 2 != 0)
    }

    /// Whether this exact situation is archived — the read situational
    /// superko makes.
    #[inline]
    pub fn contains_ssk(&self, key: ArchiveKey) -> (r: bool)
        requires
            self.wf(),
            (key.code.0 as nat) < self@.codes,
        ensures
            r == self@.bits.contains(key_bit(key)),
    {
        let bit = key.bit();
        let k = (bit % 64) as u64;
        let w = self.words[bit / 64];
        proof {
            lemma_bit_or(w, k, k);
        }
        w & (1u64 << k) != 0
    }

    /// Whether this position is archived under either color — the read
    /// positional superko makes.
    pub fn contains_psk(&self, code: PosCode) -> (r: bool)
        requires
            self.wf(),
            (code.0 as nat) < self@.codes,
        ensures
            r == (self@.bits.contains(2 * code.0) || self@.bits.contains(2 * code.0 + 1)),
    {
        self.contains_ssk(ArchiveKey::new(code, Color::Black)) || self.contains_ssk(
            ArchiveKey::new(code, Color::White),
        )
    }

    /// The read the named repetition rule makes.
    pub fn contains(&self, key: ArchiveKey, rep: Repetition) -> (r: bool)
        requires
            self.wf(),
            (key.code.0 as nat) < self@.codes,
        ensures
            r == match rep {
                Repetition::Ssk => self@.bits.contains(key_bit(key)),
                Repetition::Psk => self@.bits.contains(2 * key.code.0) || self@.bits.contains(
                    2 * key.code.0 + 1,
                ),
            },
    {
        match rep {
            Repetition::Ssk => self.contains_ssk(key),
            Repetition::Psk => self.contains_psk(key.code),
        }
    }

    /// Forget everything.
    pub fn clear(&mut self)
        requires
            old(self).wf(),
        ensures
            final(self).wf(),
            final(self)@.dims == old(self)@.dims,
            final(self)@.codes == old(self)@.codes,
            final(self)@.bits.is_empty(),
    {
        let mut i: usize = 0;
        while i < self.words.len()
            invariant
                i <= self.words@.len(),
                self.words@.len() * 64 >= 2 * self.codes,
                self.dims == old(self).dims,
                self.codes == old(self).codes,
                2 * self.codes + 64 <= usize::MAX,
                forall|j: int| 0 <= j < i ==> self.words@[j] == 0,
            decreases self.words@.len() - i,
        {
            self.words.set(i, 0);
            i += 1;
        }
        assert(self@.bits =~= Set::empty()) by {
            assert forall|b: int| !self@.bits.contains(b) by {
                if 0 <= b < 2 * self.codes {
                    lemma_zero_word((b % 64) as u64);
                }
            }
        }
        self.len = 0;
    }
}

} // verus!
