//! The substitution key: a partial, injective mapping from observed
//! ciphertext letters to guessed plaintext letters, with frequency-anchored
//! guess generation.

use vstd::prelude::*;

#[allow(unused_imports)]
use rand::seq::SliceRandom;

verus! {

use crate::START;
use crate::bitset::BitSet64;
use crate::is_letter;
use crate::letter;
use crate::stats::count_occ;
use crate::stats::input_rank_spec;
use crate::stats::lemma_count_take_step;
use crate::stats::lemma_input_rank_bound;
use crate::stats::rank_count;

/// The next rank visited by the expansion that starts at rank `s` and stands
/// at rank `c`, spreading outward from `s` (26 standing for the terminal
/// sentinel).  Ranks nearer the anchor come first: after `s` itself comes
/// `s - 1`, then `s + 1`, then `s - 2`, and so on, falling back to a one-sided
/// march once one side of the table is exhausted.
pub open spec fn rank_step(s: int, c: int) -> int {
    let d = if c >= s {
        c - s
    } else {
        s - c
    };
    let lower_ok = d < s;
    let higher_ok = s + d < 26;
    if c < s {
        if higher_ok {
            s + d
        } else if lower_ok {
            s - d - 1
        } else {
            26
        }
    } else {
        if lower_ok {
            s - d - 1
        } else if higher_ok {
            if s + d + 1 < 26 {
                s + d + 1
            } else {
                26
            }
        } else {
            26
        }
    }
}

/// How many expansion steps from anchor rank `s` reach rank `c`; the anchor
/// itself sits at position 0 and every rank has a position below 26.
pub open spec fn rank_pos(s: int, c: int) -> int {
    let m = if s <= 25 - s {
        s
    } else {
        25 - s
    };
    let d = if c >= s {
        c - s
    } else {
        s - c
    };
    if c >= s {
        if d <= m {
            2 * d
        } else {
            m + d
        }
    } else {
        if d <= m {
            2 * d - 1
        } else {
            m + d
        }
    }
}

/// Positions lie in 0..26, and only the anchor has position 0.
pub proof fn lemma_pos_range(s: int, c: int)
    requires
        0 <= s < 26,
        0 <= c < 26,
    ensures
        0 <= rank_pos(s, c) <= 25,
        rank_pos(s, c) == 0 <==> c == s,
{
}

/// Within one anchor, positions identify ranks.
pub proof fn lemma_pos_injective(s: int, c1: int, c2: int)
    requires
        0 <= s < 26,
        0 <= c1 < 26,
        0 <= c2 < 26,
        rank_pos(s, c1) == rank_pos(s, c2),
    ensures
        c1 == c2,
{
}

/// One expansion step moves to the rank one position further out, and yields
/// the sentinel exactly from the last position.
pub proof fn lemma_step_advances(s: int, c: int)
    requires
        0 <= s < 26,
        0 <= c < 26,
    ensures
        rank_pos(s, c) < 25 ==> 0 <= rank_step(s, c) < 26 && rank_pos(s, rank_step(s, c))
            == rank_pos(s, c) + 1,
        rank_pos(s, c) == 25 ==> rank_step(s, c) == 26,
{
}

/// The rank reached after `k` expansion steps from anchor rank `s`, iterating
/// [`rank_step`]; the sentinel 26 absorbs.
pub open spec fn expansion_at(s: int, k: nat) -> int
    decreases k,
{
    if k == 0 {
        s
    } else if expansion_at(s, (k - 1) as nat) == 26 {
        26
    } else {
        rank_step(s, expansion_at(s, (k - 1) as nat))
    }
}

/// After `k` steps the expansion stands at the rank of position `k`.
proof fn lemma_expansion_pos(s: int, k: int)
    requires
        0 <= s < 26,
        0 <= k < 26,
    ensures
        0 <= expansion_at(s, k as nat) < 26,
        rank_pos(s, expansion_at(s, k as nat)) == k,
    decreases k,
{
    if k == 0 {
        lemma_pos_range(s, s);
    } else {
        lemma_expansion_pos(s, k - 1);
        let c = expansion_at(s, (k - 1) as nat);
        lemma_step_advances(s, c);
    }
}

/// Frequency-expansion coverage: starting from any anchor rank, the expansion
/// visits each of the 26 ranks exactly once, the anchor first, and yields the
/// terminal sentinel right after the last one.
pub proof fn lemma_expansion_covers(s: int)
    requires
        0 <= s < 26,
    ensures
        forall|k: int|
            0 <= k < 26 ==> 0 <= #[trigger] expansion_at(s, k as nat) < 26 && rank_pos(
                s,
                expansion_at(s, k as nat),
            ) == k,
        forall|k1: int, k2: int|
            0 <= k1 < k2 < 26 ==> #[trigger] expansion_at(s, k1 as nat) != #[trigger] expansion_at(
                s,
                k2 as nat,
            ),
        forall|c: int|
            0 <= c < 26 ==> 0 <= rank_pos(s, c) < 26 && #[trigger] expansion_at(
                s,
                rank_pos(s, c) as nat,
            ) == c,
        expansion_at(s, 26nat) == 26,
{
    assert forall|k: int| 0 <= k < 26 implies 0 <= #[trigger] expansion_at(s, k as nat) < 26
        && rank_pos(s, expansion_at(s, k as nat)) == k by {
        lemma_expansion_pos(s, k);
    }
    assert forall|c: int| 0 <= c < 26 implies 0 <= rank_pos(s, c) < 26 && #[trigger] expansion_at(
        s,
        rank_pos(s, c) as nat,
    ) == c by {
        lemma_pos_range(s, c);
        let k = rank_pos(s, c);
        lemma_expansion_pos(s, k);
        lemma_pos_injective(s, expansion_at(s, k as nat), c);
    }
    assert(expansion_at(s, 26nat) == 26) by {
        lemma_expansion_pos(s, 25);
        lemma_step_advances(s, expansion_at(s, 25nat));
    }
}


/// An injective sequence of 26 letters reaches every letter.
pub proof fn lemma_letters_covered(t: Seq<u8>)
    requires
        t.len() == 26,
        forall|i: int| 0 <= i < 26 ==> is_letter(#[trigger] t[i]),
        forall|i: int, j: int| 0 <= i < j < 26 ==> t[i] != t[j],
    ensures
        forall|g: u8| is_letter(g) ==> exists|i: int| 0 <= i < 26 && #[trigger] t[i] == g,
{
    broadcast use vstd::seq_lib::seq_to_set_is_finite;

    let alpha = Seq::new(26nat, |i: int| (i + 97) as u8);
    assert(alpha.no_duplicates());
    assert(t.no_duplicates());
    t.unique_seq_to_set();
    alpha.unique_seq_to_set();
    assert(t.to_set().subset_of(alpha.to_set())) by {
        assert forall|g: u8| t.to_set().contains(g) implies alpha.to_set().contains(g) by {
            let i = choose|i: int| 0 <= i < t.len() && t[i] == g;
            assert(alpha[g as int - 97] == g);
            assert(alpha.contains(g));
        }
    }
    assert forall|g: u8| is_letter(g) implies exists|i: int|
        0 <= i < 26 && #[trigger] t[i] == g by {
        if !t.contains(g) {
            assert(alpha[g as int - 97] == g);
            assert(alpha.to_set().contains(g));
            t.to_set().lemma_subset_not_in_lt(alpha.to_set(), g);
            assert(false);
        }
    }
}

/// The letters of the alphabet ordered from most to least frequent in
/// English text.
pub open spec fn english_freq_seq() -> Seq<u8> {
    seq![
        101u8,
        116u8,
        97u8,
        111u8,
        110u8,
        105u8,
        104u8,
        115u8,
        114u8,
        100u8,
        108u8,
        117u8,
        119u8,
        109u8,
        99u8,
        102u8,
        103u8,
        121u8,
        112u8,
        98u8,
        107u8,
        118u8,
        106u8,
        120u8,
        113u8,
        122u8,
    ]
}

/// Builds the English letter-frequency ordering, most common letter first.
pub fn english_freq_order() -> (r: Vec<u8>)
    ensures
        r@ == english_freq_seq(),
        r@.len() == 26,
        forall|i: int| 0 <= i < 26 ==> is_letter(#[trigger] r@[i]),
        forall|i: int, j: int| 0 <= i < j < 26 ==> r@[i] != r@[j],
        forall|g: u8| is_letter(g) ==> exists|i: int| 0 <= i < 26 && #[trigger] r@[i] == g,
{
    let mut r: Vec<u8> = Vec::new();
    r.push(101u8);
    r.push(116u8);
    r.push(97u8);
    r.push(111u8);
    r.push(110u8);
    r.push(105u8);
    r.push(104u8);
    r.push(115u8);
    r.push(114u8);
    r.push(100u8);
    r.push(108u8);
    r.push(117u8);
    r.push(119u8);
    r.push(109u8);
    r.push(99u8);
    r.push(102u8);
    r.push(103u8);
    r.push(121u8);
    r.push(112u8);
    r.push(98u8);
    r.push(107u8);
    r.push(118u8);
    r.push(106u8);
    r.push(120u8);
    r.push(113u8);
    r.push(122u8);
    proof {
        assert(r@ =~= english_freq_seq());
        lemma_letters_covered(r@);
    }
    r
}

/// The byte `b` after substitution through table `t`: letters with a
/// non-zero entry are replaced, everything else passes through unchanged.
pub open spec fn apply_table(t: Seq<u8>, b: u8) -> u8 {
    if is_letter(b) && t[b as int - 97] != 0 {
        t[b as int - 97]
    } else {
        b
    }
}

/// Key that stores details about an encryption or decryption process.
pub struct Key {
    table: Vec<u8>,
    started_from: Vec<u8>,
    input_freq_index: Vec<usize>,
    lang_freq_index: Vec<usize>,
    lang_freq_order: Vec<u8>,
    guesses: BitSet64<4>,
}

impl Key {
    /// The guess table: entry `i` is the guessed plaintext letter for
    /// observed letter `i + 97`, or 0 when unset.
    pub closed spec fn tbl(self) -> Seq<u8> {
        self.table@
    }

    /// The anchors: entry `i` is the first guess ever attached to observed
    /// letter `i + 97`.
    pub closed spec fn anchor(self) -> Seq<u8> {
        self.started_from@
    }

    /// Rank of each observed letter by its frequency in the input.
    pub closed spec fn input_rank(self) -> Seq<usize> {
        self.input_freq_index@
    }

    /// Rank of each letter in the language frequency order.
    pub closed spec fn lang_rank(self) -> Seq<usize> {
        self.lang_freq_index@
    }

    /// The language frequency order itself, most common letter first.
    pub closed spec fn lang_order(self) -> Seq<u8> {
        self.lang_freq_order@
    }

    /// Whether guess letter `g` is currently attached to some observed
    /// letter.
    pub closed spec fn guessed(self, g: u8) -> bool {
        self.guesses.spec_contains(g as u32)
    }

    /// The guess bit-set's own structural invariant.
    pub closed spec fn bits_wf(self) -> bool {
        self.guesses.wf()
    }

    /// The language-frequency rank of letter `l`.
    pub open spec fn rank_of(self, l: u8) -> int {
        self.lang_rank()[l as int - 97] as int
    }

    /// The guess an unset observed letter tries first: the language letter
    /// whose rank matches the observed letter's input-frequency rank.
    pub open spec fn first_guess_of(self, c: u8) -> u8 {
        self.lang_order()[self.input_rank()[c as int - 97] as int]
    }

    /// The frequency tables do not change once the key is built.
    pub open spec fn same_freq(self, other: Self) -> bool {
        &&& self.lang_order() == other.lang_order()
        &&& self.lang_rank() == other.lang_rank()
        &&& self.input_rank() == other.input_rank()
    }

    /// Well-formedness of the immutable frequency tables.
    pub open spec fn freq_wf(self) -> bool {
        &&& self.lang_order().len() == 26
        &&& self.lang_rank().len() == 26
        &&& self.input_rank().len() == 26
        &&& forall|i: int| 0 <= i < 26 ==> is_letter(#[trigger] self.lang_order()[i])
        &&& forall|c: int| 0 <= c < 26 ==> (#[trigger] self.lang_rank()[c] as int) < 26
        &&& forall|c: int| 0 <= c < 26 ==> (#[trigger] self.input_rank()[c] as int) < 26
        &&& forall|i: int|
            0 <= i < 26 ==> self.lang_rank()[#[trigger] self.lang_order()[i] as int - 97] as int
                == i
        &&& forall|c: int|
            0 <= c < 26 ==> self.lang_order()[#[trigger] self.lang_rank()[c] as int] == (c
                + 97) as u8
    }

    /// Well-formedness of the whole key: the guess table holds letters or
    /// the unset sentinel, anchors are recorded for set entries, the guess
    /// bit-set mirrors exactly the non-zero table entries, and no two
    /// observed letters hold the same guess.
    pub open spec fn wf(self) -> bool {
        &&& self.freq_wf()
        &&& self.tbl().len() == 26
        &&& self.anchor().len() == 26
        &&& self.bits_wf()
        &&& forall|i: int|
            0 <= i < 26 ==> (#[trigger] self.tbl()[i] == 0 || is_letter(self.tbl()[i]))
        &&& forall|i: int|
            0 <= i < 26 && self.tbl()[i] != 0 ==> is_letter(#[trigger] self.anchor()[i])
        &&& forall|g: u8|
            #[trigger] self.guessed(g) <==> (g != 0 && exists|i: int|
                0 <= i < 26 && self.tbl()[i] == g)
        &&& forall|i: int, j: int|
            0 <= i < 26 && 0 <= j < 26 && i != j && #[trigger] self.tbl()[i] != 0
                ==> self.tbl()[i] != #[trigger] self.tbl()[j]
    }

    /// ASCII character's table lookup index.
    fn index(input: u8) -> (r: usize)
        requires
            is_letter(input),
        ensures
            r == input as int - 97,
    {
        (input - START) as usize
    }

    /// Rank of observed letter `c` by its frequency in the input this key
    /// was built from.
    pub fn input_rank_of(&self, c: u8) -> (r: usize)
        requires
            self.wf(),
            is_letter(c),
        ensures
            r == self.input_rank()[c as int - 97],
    {
        self.input_freq_index[Self::index(c)]
    }

    /// Create an uninitialized substitution key that can be used to search
    /// for the correct key during decryption.  `lang_freq_order` must list
    /// 26 distinct letters; the key records it together with its inverse and
    /// the ranking of the input's letters by occurrence count (descending,
    /// ties broken by letter identity).
    pub fn new(input: &[u8], lang_freq_order: Vec<u8>) -> (r: Key)
        requires
            lang_freq_order@.len() == 26,
            forall|i: int| 0 <= i < 26 ==> is_letter(#[trigger] lang_freq_order@[i]),
            forall|i: int, j: int| 0 <= i < j < 26 ==> lang_freq_order@[i] != lang_freq_order@[j],
            forall|g: u8|
                is_letter(g) ==> exists|i: int| 0 <= i < 26 && #[trigger] lang_freq_order@[i]
                    == g,
        ensures
            r.wf(),
            r.lang_order() == lang_freq_order@,
            forall|i: int| 0 <= i < 26 ==> #[trigger] r.tbl()[i] == 0,
            forall|i: int| 0 <= i < 26 ==> #[trigger] r.anchor()[i] == 0,
            forall|g: u8| !r.guessed(g),
            forall|c: int|
                0 <= c < 26 ==> #[trigger] r.input_rank()[c] as int == input_rank_spec(
                    input@,
                    c,
                ),
    {
        let n = input.len();
        // Count input characters
        let mut freqs: Vec<usize> = zero_usizes(26);
        let mut i: usize = 0;
        while i < n
            invariant
                i <= n,
                n == input@.len(),
                freqs.len() == 26,
                forall|d: int|
                    0 <= d < 26 ==> #[trigger] freqs[d] as nat == count_occ(
                        input@.take(i as int),
                        (d + 97) as u8,
                    ),
                forall|d: int| 0 <= d < 26 ==> #[trigger] freqs[d] <= i,
            decreases n - i,
        {
            let b = input[i];
            if letter(b) {
                let d = Self::index(b);
                freqs[d] = freqs[d] + 1;
            }
            i += 1;
            proof {
                assert forall|d: int| 0 <= d < 26 implies #[trigger] freqs[d] as nat == count_occ(
                    input@.take(i as int),
                    (d + 97) as u8,
                ) by {
                    lemma_count_take_step(input@, i - 1, (d + 97) as u8);
                }
            }
        }
        proof {
            assert(input@.take(n as int) =~= input@);
        }
        // Rank each letter by descending count, ties broken by letter
        let mut input_freq_index: Vec<usize> = Vec::new();
        let mut c: usize = 0;
        while c < 26
            invariant
                c <= 26,
                input_freq_index.len() == c,
                freqs.len() == 26,
                forall|d: int|
                    0 <= d < 26 ==> #[trigger] freqs[d] as nat == count_occ(
                        input@,
                        (d + 97) as u8,
                    ),
                forall|e: int|
                    0 <= e < c ==> #[trigger] input_freq_index[e] as int == input_rank_spec(
                        input@,
                        e,
                    ) && input_freq_index[e] < 26,
            decreases 26 - c,
        {
            let mut cnt: usize = 0;
            let mut d: usize = 0;
            while d < 26
                invariant
                    d <= 26,
                    c < 26,
                    cnt <= d,
                    freqs.len() == 26,
                    forall|e: int|
                        0 <= e < 26 ==> #[trigger] freqs[e] as nat == count_occ(
                            input@,
                            (e + 97) as u8,
                        ),
                    cnt as int == rank_count(input@, c as int, d as int),
                decreases 26 - d,
            {
                if freqs[d] > freqs[c] || (freqs[d] == freqs[c] && d < c) {
                    cnt += 1;
                }
                d += 1;
            }
            proof {
                lemma_input_rank_bound(input@, c as int);
            }
            input_freq_index.push(cnt);
            c += 1;
        }
        // Record the inverse of the language frequency order
        let mut lang_freq_index: Vec<usize> = zero_usizes(26);
        let mut i2: usize = 0;
        while i2 < 26
            invariant
                i2 <= 26,
                lang_freq_index.len() == 26,
                lang_freq_order@.len() == 26,
                forall|i: int| 0 <= i < 26 ==> is_letter(#[trigger] lang_freq_order@[i]),
                forall|i: int, j: int|
                    0 <= i < j < 26 ==> lang_freq_order@[i] != lang_freq_order@[j],
                forall|e: int| 0 <= e < 26 ==> #[trigger] lang_freq_index[e] < 26,
                forall|k: int|
                    0 <= k < i2 ==> lang_freq_index@[#[trigger] lang_freq_order@[k] as int - 97]
                        as int == k,
            decreases 26 - i2,
        {
            let l = lang_freq_order[i2];
            lang_freq_index[Self::index(l)] = i2;
            i2 += 1;
        }
        proof {
            // the recorded ranks invert the order in both directions
            assert forall|c: int| 0 <= c < 26 implies lang_freq_order@[
            #[trigger] lang_freq_index@[c] as int] == (c + 97) as u8 by {
                let g = (c + 97) as u8;
                assert(is_letter(g));
                let i = choose|i: int| 0 <= i < 26 && #[trigger] lang_freq_order@[i] == g;
                assert(lang_freq_index@[lang_freq_order@[i] as int - 97] as int == i);
            }
        }
        let r = Key {
            table: zero_bytes(26),
            started_from: zero_bytes(26),
            input_freq_index,
            lang_freq_index,
            lang_freq_order,
            guesses: BitSet64::new(),
        };
        proof {
            assert forall|g: u8| #[trigger] r.guessed(g) <==> (g != 0 && exists|i: int|
                0 <= i < 26 && r.tbl()[i] == g) by {
                assert(!r.guessed(g));
                assert forall|i: int| 0 <= i < 26 implies r.tbl()[i] != g || g == 0 by {
                    assert(r.tbl()[i] == 0);
                }
            }
        }
        r
    }

    /// Set a guess for a given input character.  Fails, without changing the
    /// key, exactly when the guess is already attached to some observed
    /// letter; otherwise it replaces the previous guess of `input`, marks
    /// the new guess used, and records the anchor on a first assignment.
    pub fn attach(&mut self, input: u8, guess: u8) -> (r: Result<(), ()>)
        requires
            old(self).wf(),
            is_letter(input),
            is_letter(guess),
        ensures
            final(self).wf(),
            final(self).same_freq(*old(self)),
            match r {
                Ok(()) => {
                    &&& !old(self).guessed(guess)
                    &&& final(self).tbl() == old(self).tbl().update(input as int - 97, guess)
                    &&& final(self).anchor() == (if old(self).tbl()[input as int - 97] == 0 {
                        old(self).anchor().update(input as int - 97, guess)
                    } else {
                        old(self).anchor()
                    })
                },
                Err(()) => {
                    &&& old(self).guessed(guess)
                    &&& *final(self) == *old(self)
                },
            },
    {
        if self.guesses.contains(guess as u32) {
            return Err(());
        }
        let idx = Self::index(input);
        let prev_guess = self.table[idx];
        self.guesses.remove(prev_guess as u32);
        if prev_guess == 0 {
            self.started_from[idx] = guess;
        }
        self.table[idx] = guess;
        self.guesses.insert(guess as u32);
        proof {
            let prev = *old(self);
            let ci = input as int - 97;
            assert(self.tbl() == prev.tbl().update(ci, guess));
            assert forall|w: u8| #[trigger] self.guessed(w) <==> (w == guess || (w != prev_guess
                && prev.guessed(w))) by {
                assert((w as int) < 64 * 4);
            }
            assert(!prev.guessed(guess));
            assert forall|i: int| 0 <= i < 26 implies #[trigger] prev.tbl()[i] != guess by {
                if prev.tbl()[i] == guess {
                    assert(prev.guessed(guess));
                }
            }
            assert forall|g: u8| #[trigger] self.guessed(g) <==> (g != 0 && exists|i: int|
                0 <= i < 26 && self.tbl()[i] == g) by {
                if g == guess {
                    assert(self.tbl()[ci] == g);
                    assert(self.guessed(g));
                } else if g == prev_guess {
                    assert(!self.guessed(g));
                    if g != 0 {
                        assert forall|i: int| 0 <= i < 26 implies self.tbl()[i] != g by {
                            if i != ci && prev.tbl()[i] == g {
                                assert(prev.tbl()[ci] == g);
                                assert(false);
                            }
                        }
                    }
                } else {
                    assert(self.guessed(g) == prev.guessed(g));
                    if prev.guessed(g) {
                        let i = choose|i: int| 0 <= i < 26 && prev.tbl()[i] == g;
                        assert(i != ci);
                        assert(self.tbl()[i] == g);
                    }
                    if !prev.guessed(g) && g != 0 {
                        assert forall|i: int| 0 <= i < 26 implies self.tbl()[i] != g by {
                            if i != ci && self.tbl()[i] == g {
                                assert(prev.tbl()[i] == g);
                                assert(prev.guessed(g));
                                assert(false);
                            }
                        }
                    }
                }
            }
            assert forall|i: int, j: int|
                0 <= i < 26 && 0 <= j < 26 && i != j && #[trigger] self.tbl()[i] != 0 implies self
                .tbl()[i] != #[trigger] self.tbl()[j] by {
                if i == ci {
                    assert(self.tbl()[j] == prev.tbl()[j]);
                } else if j == ci {
                    assert(self.tbl()[i] == prev.tbl()[i]);
                } else {
                    assert(self.tbl()[i] == prev.tbl()[i] && self.tbl()[j] == prev.tbl()[j]);
                }
            }
        }
        Ok(())
    }

    /// Remove the current guess from a given input character, freeing the
    /// guess letter for other observed letters.
    pub fn clear(&mut self, input: u8)
        requires
            old(self).wf(),
            is_letter(input),
        ensures
            final(self).wf(),
            final(self).same_freq(*old(self)),
            final(self).tbl() == old(self).tbl().update(input as int - 97, 0u8),
            final(self).anchor() == old(self).anchor(),
    {
        let idx = Self::index(input);
        let prev_guess = self.table[idx];
        self.guesses.remove(prev_guess as u32);
        self.table[idx] = 0;
        proof {
            let prev = *old(self);
            let ci = input as int - 97;
            assert(self.tbl() == prev.tbl().update(ci, 0u8));
            assert forall|w: u8| #[trigger] self.guessed(w) <==> (w != prev_guess && prev.guessed(
                w,
            )) by {
                assert((w as int) < 64 * 4);
            }
            assert forall|g: u8| #[trigger] self.guessed(g) <==> (g != 0 && exists|i: int|
                0 <= i < 26 && self.tbl()[i] == g) by {
                if g == prev_guess {
                    assert(!self.guessed(g));
                    if g != 0 {
                        assert forall|i: int| 0 <= i < 26 implies self.tbl()[i] != g by {
                            if i != ci && prev.tbl()[i] == g {
                                assert(prev.tbl()[ci] == g);
                                assert(false);
                            }
                        }
                    }
                } else {
                    assert(self.guessed(g) == prev.guessed(g));
                    if prev.guessed(g) {
                        let i = choose|i: int| 0 <= i < 26 && prev.tbl()[i] == g;
                        assert(i != ci);
                        assert(self.tbl()[i] == g);
                    }
                    if !prev.guessed(g) && g != 0 {
                        assert forall|i: int| 0 <= i < 26 implies self.tbl()[i] != g by {
                            if i != ci && self.tbl()[i] == g {
                                assert(prev.guessed(g));
                                assert(false);
                            }
                        }
                    }
                }
            }
        }
    }

    /// Get the next character in language frequency order, expanding outward
    /// from the rank of `start_guess`; 0 once the expansion is exhausted.
    pub fn next_in_freq_order(&self, start_guess: u8, current_guess: u8) -> (r: u8)
        requires
            self.freq_wf(),
            is_letter(start_guess),
            is_letter(current_guess),
        ensures
            ({
                let step = rank_step(self.rank_of(start_guess), self.rank_of(current_guess));
                if step == 26 {
                    r == 0
                } else {
                    &&& r == self.lang_order()[step]
                    &&& is_letter(r)
                    &&& self.rank_of(r) == step
                }
            }),
    {
        let start_idx = self.lang_freq_index[Self::index(start_guess)];
        let current_idx = self.lang_freq_index[Self::index(current_guess)];
        let diff = if current_idx >= start_idx {
            current_idx - start_idx
        } else {
            start_idx - current_idx
        };
        let idx: usize;
        if current_idx < start_idx {
            if start_idx + diff < 26 {
                idx = start_idx + diff;
            } else if diff < start_idx {
                idx = start_idx - diff - 1;
            } else {
                return 0;
            }
        } else {
            if diff < start_idx {
                idx = start_idx - diff - 1;
            } else if start_idx + diff < 26 {
                if start_idx + diff + 1 < 26 {
                    idx = start_idx + diff + 1;
                } else {
                    return 0;
                }
            } else {
                return 0;
            }
        }
        self.lang_freq_order[idx]
    }

    /// Set a next guess in language frequency order for the input character:
    /// an unset letter first tries the language letter whose rank matches
    /// the letter's input-frequency rank, and from then on guesses expand
    /// outward from the recorded anchor until a free letter is found (`Ok`)
    /// or the whole alphabet is exhausted (`Err`, key unchanged).
    pub fn attach_next(&mut self, input: u8) -> (r: Result<(), ()>)
        requires
            old(self).wf(),
            is_letter(input),
        ensures
            final(self).wf(),
            final(self).same_freq(*old(self)),
            match r {
                Ok(()) => ({
                    let ci = input as int - 97;
                    let anchor0 = if old(self).tbl()[ci] == 0 {
                        old(self).first_guess_of(input)
                    } else {
                        old(self).anchor()[ci]
                    };
                    let s = old(self).rank_of(anchor0);
                    &&& is_letter(final(self).tbl()[ci])
                    &&& !old(self).guessed(final(self).tbl()[ci])
                    &&& forall|j: int|
                        0 <= j < 26 && j != ci ==> final(self).tbl()[j] == old(self).tbl()[j]
                    &&& forall|j: int|
                        0 <= j < 26 && j != ci ==> final(self).anchor()[j] == old(self).anchor()[j]
                    &&& (old(self).tbl()[ci] == 0 ==> {
                        &&& final(self).anchor()[ci] == final(self).tbl()[ci]
                        &&& (!old(self).guessed(old(self).first_guess_of(input)) ==> final(self).tbl()[ci] == old(self).first_guess_of(input))
                        &&& forall|g: u8|
                            is_letter(g) && rank_pos(s, old(self).rank_of(g)) < rank_pos(
                                s,
                                old(self).rank_of(final(self).tbl()[ci]),
                            ) ==> #[trigger] old(self).guessed(g)
                    })
                    &&& (old(self).tbl()[ci] != 0 ==> {
                        &&& final(self).anchor() == old(self).anchor()
                        &&& rank_pos(s, old(self).rank_of(final(self).tbl()[ci])) > rank_pos(
                            s,
                            old(self).rank_of(old(self).tbl()[ci]),
                        )
                        &&& forall|g: u8|
                            is_letter(g) && rank_pos(s, old(self).rank_of(g)) > rank_pos(
                                s,
                                old(self).rank_of(old(self).tbl()[ci]),
                            ) && rank_pos(s, old(self).rank_of(g)) < rank_pos(
                                s,
                                old(self).rank_of(final(self).tbl()[ci]),
                            ) ==> #[trigger] old(self).guessed(g)
                    })
                }),
                Err(()) => ({
                    let ci = input as int - 97;
                    &&& *final(self) == *old(self)
                    &&& (old(self).tbl()[ci] == 0 ==> forall|g: u8|
                        is_letter(g) ==> #[trigger] old(self).guessed(g))
                    &&& (old(self).tbl()[ci] != 0 ==> forall|g: u8|
                        is_letter(g) && rank_pos(
                            old(self).rank_of(old(self).anchor()[ci]),
                            old(self).rank_of(g),
                        ) > rank_pos(
                            old(self).rank_of(old(self).anchor()[ci]),
                            old(self).rank_of(old(self).tbl()[ci]),
                        ) ==> #[trigger] old(self).guessed(g))
                }),
            },
    {
        let idx = Self::index(input);
        let ghost ci = input as int - 97;
        let current0 = self.table[idx];
        let start_guess: u8;
        let mut current_guess: u8;
        if current0 == 0 {
            let freq_index = self.input_freq_index[idx];
            let first_guess = self.lang_freq_order[freq_index];
            proof {
                assert(first_guess == self.first_guess_of(input));
            }
            match self.attach(input, first_guess) {
                Ok(()) => {
                    proof {
                        let s = old(self).rank_of(first_guess);
                        lemma_pos_range(s, s);
                        assert forall|g: u8|
                            is_letter(g) && rank_pos(s, old(self).rank_of(g)) < rank_pos(
                                s,
                                old(self).rank_of(self.tbl()[ci]),
                            ) implies #[trigger] old(self).guessed(g) by {
                            lemma_pos_range(s, old(self).rank_of(g));
                        }
                    }
                    return Ok(());
                },
                Err(()) => {
                    start_guess = first_guess;
                    current_guess = first_guess;
                },
            }
        } else {
            start_guess = self.started_from[idx];
            current_guess = current0;
        }
        let ghost s0 = self.rank_of(start_guess);
        let ghost base_p: int = if current0 != 0 {
            rank_pos(s0, self.rank_of(current0))
        } else {
            -1
        };
        proof {
            if current0 == 0 {
                lemma_pos_range(s0, s0);
            }
        }
        loop
            invariant
                *self == *old(self),
                self.wf(),
                is_letter(input),
                ci == input as int - 97,
                is_letter(start_guess),
                is_letter(current_guess),
                current0 == self.tbl()[ci],
                current0 != 0 ==> start_guess == self.anchor()[ci] && current0 == old(self).tbl()[ci],
                current0 == 0 ==> start_guess == self.first_guess_of(input) && self.guessed(
                    start_guess,
                ),
                0 <= self.rank_of(start_guess) < 26,
                0 <= self.rank_of(current_guess) < 26,
                s0 == self.rank_of(start_guess),
                base_p == (if current0 != 0 {
                    rank_pos(s0, self.rank_of(current0))
                } else {
                    -1int
                }),
                base_p <= rank_pos(s0, self.rank_of(current_guess)),
                forall|g: u8|
                    is_letter(g) && base_p < rank_pos(s0, #[trigger] self.rank_of(g)) && rank_pos(
                        s0,
                        self.rank_of(g),
                    ) <= rank_pos(s0, self.rank_of(current_guess)) ==> self.guessed(g),
            decreases 26 - rank_pos(self.rank_of(start_guess), self.rank_of(current_guess)),
        {
            proof {
                lemma_pos_range(self.rank_of(start_guess), self.rank_of(current_guess));
                lemma_step_advances(self.rank_of(start_guess), self.rank_of(current_guess));
            }
            let next = self.next_in_freq_order(start_guess, current_guess);
            if next == 0 {
                proof {
                    // the sentinel comes only from the last expansion
                    // position, so every candidate beyond the base position
                    // was found in use
                    assert(rank_pos(s0, self.rank_of(current_guess)) == 25);
                    assert forall|g: u8|
                        is_letter(g) && base_p < rank_pos(
                            s0,
                            #[trigger] self.rank_of(g),
                        ) implies self.guessed(g) by {
                        lemma_pos_range(s0, self.rank_of(g));
                    }
                    if current0 == 0 {
                        assert forall|g: u8| is_letter(g) implies #[trigger] self.guessed(g) by {
                            lemma_pos_range(s0, self.rank_of(g));
                        }
                    }
                }
                return Err(());
            }
            let ghost prev_pos = rank_pos(s0, self.rank_of(current_guess));
            current_guess = next;
            match self.attach(input, current_guess) {
                Ok(()) => {
                    proof {
                        assert forall|g: u8|
                            is_letter(g) && base_p < rank_pos(
                                s0,
                                #[trigger] old(self).rank_of(g),
                            ) && rank_pos(s0, old(self).rank_of(g)) < rank_pos(
                                s0,
                                old(self).rank_of(self.tbl()[ci]),
                            ) implies old(self).guessed(g) by {}
                        if current0 == 0 {
                            assert forall|g: u8|
                                is_letter(g) && rank_pos(s0, #[trigger] old(self).rank_of(g))
                                    < rank_pos(s0, old(self).rank_of(self.tbl()[ci])) implies old(self).guessed(g) by {
                                lemma_pos_range(s0, old(self).rank_of(g));
                            }
                        }
                    }
                    return Ok(());
                },
                Err(()) => {
                    proof {
                        // only the candidate itself sits at the newly tried
                        // position
                        assert forall|g: u8|
                            is_letter(g) && base_p < rank_pos(
                                s0,
                                #[trigger] self.rank_of(g),
                            ) && rank_pos(s0, self.rank_of(g)) <= prev_pos + 1 implies self.guessed(
                            g,
                        ) by {
                            if rank_pos(s0, self.rank_of(g)) == prev_pos + 1 {
                                lemma_pos_range(s0, self.rank_of(g));
                                lemma_pos_injective(
                                    s0,
                                    self.rank_of(g),
                                    self.rank_of(current_guess),
                                );
                                assert(self.lang_order()[self.rank_of(g)] == g);
                                assert(g == current_guess);
                            }
                        }
                    }
                },
            }
        }
    }

    /// Replace characters in text according to the current key state; in
    /// other words, perform the substitution.  Encrypt or decrypt.
    pub fn translate(&self, text: &mut Vec<u8>)
        requires
            self.tbl().len() == 26,
        ensures
            final(text)@.len() == old(text)@.len(),
            forall|i: int|
                0 <= i < old(text)@.len() ==> #[trigger] final(text)@[i] == apply_table(
                    self.tbl(),
                    old(text)@[i],
                ),
    {
        let n = text.len();
        let mut i: usize = 0;
        while i < n
            invariant
                i <= n,
                n == text@.len(),
                text@.len() == old(text)@.len(),
                self.tbl().len() == 26,
                forall|k: int|
                    0 <= k < i ==> #[trigger] text@[k] == apply_table(self.tbl(), old(text)@[k]),
                forall|k: int| i <= k < n ==> #[trigger] text@[k] == old(text)@[k],
            decreases n - i,
        {
            let b = text[i];
            if letter(b) {
                let translation = self.table[Self::index(b)];
                if translation != 0 {
                    text[i] = translation;
                }
            }
            i += 1;
        }
    }

    /// Create a random substitution key that can be used to encrypt a
    /// plaintext input: its table is a uniformly drawn permutation of the
    /// alphabet, so every observed letter maps to a distinct letter.
    pub fn random() -> (r: Key)
        ensures
            r.tbl().len() == 26,
            forall|i: int| 0 <= i < 26 ==> is_letter(#[trigger] r.tbl()[i]),
            forall|i: int, j: int| 0 <= i < j < 26 ==> r.tbl()[i] != r.tbl()[j],
            forall|g: u8|
                is_letter(g) ==> exists|i: int| 0 <= i < 26 && #[trigger] r.tbl()[i] == g,
            r.anchor().len() == 26 && r.input_rank().len() == 26 && r.lang_rank().len() == 26
                && r.lang_order().len() == 26,
            forall|i: int|
                0 <= i < 26 ==> #[trigger] r.anchor()[i] == 0 && r.input_rank()[i] == 0
                    && r.lang_rank()[i] == 0 && r.lang_order()[i] == 0,
            forall|g: u8| !r.guessed(g),
    {
        let mut table: Vec<u8> = Vec::new();
        let mut b: u8 = START;
        while b <= 122
            invariant
                97 <= b <= 123,
                table@.len() == b - 97,
                forall|k: int| 0 <= k < table@.len() ==> #[trigger] table@[k] == k + 97,
            decreases 123 - b,
        {
            table.push(b);
            b += 1;
        }
        let ghost orig = table@;
        shuffle_bytes(&mut table);
        proof {
            broadcast use vstd::seq_lib::group_to_multiset_ensures;

            assert(orig.no_duplicates());
            orig.lemma_multiset_has_no_duplicates();
            assert(table@.len() == orig.len());
            assert forall|x: u8| table@.to_multiset().contains(x) implies table@.to_multiset()
                .count(x) == 1 by {
                assert(orig.to_multiset().contains(x));
            }
            table@.lemma_multiset_has_no_duplicates_conv();
            assert forall|i: int| 0 <= i < 26 implies is_letter(#[trigger] table@[i]) by {
                assert(table@.contains(table@[i]));
                assert(orig.to_multiset().count(table@[i]) > 0);
                assert(orig.contains(table@[i]));
                let k = choose|k: int| 0 <= k < orig.len() && orig[k] == table@[i];
                assert(orig[k] == k + 97);
            }
            assert forall|g: u8| is_letter(g) implies exists|i: int|
                0 <= i < 26 && #[trigger] table@[i] == g by {
                assert(orig[g as int - 97] == g);
                assert(orig.contains(g));
                assert(table@.to_multiset().count(g) > 0);
                assert(table@.contains(g));
                let i = choose|i: int| 0 <= i < table@.len() && table@[i] == g;
                assert(0 <= i < 26 && table@[i] == g);
            }
        }
        Key {
            table,
            started_from: zero_bytes(26),
            input_freq_index: zero_usizes(26),
            lang_freq_index: zero_usizes(26),
            lang_freq_order: zero_bytes(26),
            guesses: BitSet64::new(),
        }
    }
}

/// Bijectivity invariant: at every point during search, no two distinct
/// observed letters hold the same non-zero guess in a well-formed key's
/// table.
pub proof fn lemma_bijectivity(k: Key, i: int, j: int)
    requires
        k.wf(),
        0 <= i < 26,
        0 <= j < 26,
        i != j,
        k.tbl()[i] != 0,
    ensures
        k.tbl()[i] != k.tbl()[j],
{
}

/// A vector of `n` zero bytes.
fn zero_bytes(n: usize) -> (r: Vec<u8>)
    ensures
        r@.len() == n,
        forall|i: int| 0 <= i < n ==> #[trigger] r@[i] == 0,
{
    let mut r: Vec<u8> = Vec::new();
    let mut i: usize = 0;
    while i < n
        invariant
            i <= n,
            r@.len() == i,
            forall|k: int| 0 <= k < i ==> #[trigger] r@[k] == 0,
        decreases n - i,
    {
        r.push(0);
        i += 1;
    }
    r
}

/// A vector of `n` zero machine words.
fn zero_usizes(n: usize) -> (r: Vec<usize>)
    ensures
        r@.len() == n,
        forall|i: int| 0 <= i < n ==> #[trigger] r@[i] == 0,
{
    let mut r: Vec<usize> = Vec::new();
    let mut i: usize = 0;
    while i < n
        invariant
            i <= n,
            r@.len() == i,
            forall|k: int| 0 <= k < i ==> #[trigger] r@[k] == 0,
        decreases n - i,
    {
        r.push(0);
        i += 1;
    }
    r
}

/// Relies on rand's `SliceRandom::shuffle`, which permutes the slice in
/// place (its implementation only swaps elements), so the multiset of
/// elements is preserved.
#[verifier::external_body]
fn shuffle_bytes(v: &mut Vec<u8>)
    ensures
        final(v)@.len() == old(v)@.len(),
        final(v)@.to_multiset() == old(v)@.to_multiset(),
{
    v.shuffle(&mut rand::rng());
}

} // verus!
