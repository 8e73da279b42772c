//! Recursive backtracking solver: deciphers the word sequence left to right,
//! trying frequency-ordered guess combinations for each word against the
//! dictionary and undoing its assignments on failure.

use vstd::prelude::*;

verus! {

use crate::bitset::BitSet64;
use crate::is_letter;
use crate::key::apply_table;
use crate::stats::apply_table_seq;
use crate::trie::key_offsets;
use crate::key::Key;
use crate::key::lemma_pos_range;
use crate::key::rank_pos;
use crate::trie::TrieSet;
use crate::unique_chars;
use crate::word_letters;

/// Whether `w` is one of the listed words, byte for byte.
pub open spec fn listed(ws: Seq<Vec<u8>>, w: Seq<u8>) -> bool {
    exists|m: int| 0 <= m < ws.len() && #[trigger] ws[m]@ == w
}

/// Whether `w` is one of the words from index `i` on.
pub open spec fn word_of_rest(words: Seq<Vec<u8>>, i: int, w: Seq<u8>) -> bool {
    exists|k: int| i <= k < words.len() && #[trigger] words[k]@ == w
}

/// Whether letter `c` is marked in the fixed-letters set.
pub open spec fn spec_marked(cs: BitSet64<1>, c: u8) -> bool {
    cs.spec_contains((c as int - 97) as u32)
}

/// Executable test matching [`spec_marked`].
fn marked(cs: &BitSet64<1>, c: u8) -> (r: bool)
    requires
        cs.wf(),
        is_letter(c),
    ensures
        r == spec_marked(*cs, c),
{
    cs.contains((c - 97) as u32)
}

/// Mark letter `c` as fixed.
fn mark(cs: &mut BitSet64<1>, c: u8)
    requires
        old(cs).wf(),
        is_letter(c),
    ensures
        final(cs).wf(),
        forall|d: u8|
            is_letter(d) ==> (spec_marked(*final(cs), d) <==> (d == c || spec_marked(
                *old(cs),
                d,
            ))),
{
    cs.insert((c - 97) as u32);
}

/// Unmark letter `c`.
fn unmark(cs: &mut BitSet64<1>, c: u8)
    requires
        old(cs).wf(),
        is_letter(c),
    ensures
        final(cs).wf(),
        forall|d: u8|
            is_letter(d) ==> (spec_marked(*final(cs), d) <==> (d != c && spec_marked(
                *old(cs),
                d,
            ))),
{
    cs.remove((c - 97) as u32);
}

/// A fresh copy of a byte vector.
fn copy_bytes(src: &Vec<u8>) -> (r: Vec<u8>)
    ensures
        r@ == src@,
{
    let n = src.len();
    let mut r: Vec<u8> = Vec::new();
    let mut i: usize = 0;
    while i < n
        invariant
            i <= n,
            n == src@.len(),
            r@ == src@.take(i as int),
        decreases n - i,
    {
        r.push(src[i]);
        i += 1;
        proof {
            assert(r@ =~= src@.take(i as int));
        }
    }
    proof {
        assert(src@.take(n as int) =~= src@);
    }
    r
}

/// Bytewise equality of two vectors.
fn vec_eq(a: &Vec<u8>, b: &Vec<u8>) -> (r: bool)
    ensures
        r == (a@ == b@),
{
    if a.len() != b.len() {
        proof {
            assert(a@ != b@) by {
                if a@ == b@ {
                    assert(a@.len() == b@.len());
                }
            }
        }
        return false;
    }
    let n = a.len();
    let mut i: usize = 0;
    while i < n
        invariant
            i <= n,
            n == a@.len(),
            a@.len() == b@.len(),
            forall|k: int| 0 <= k < i ==> a@[k] == b@[k],
        decreases n - i,
    {
        if a[i] != b[i] {
            return false;
        }
        i += 1;
    }
    proof {
        assert(a@ =~= b@);
    }
    true
}

/// Whether one of the listed words equals `w`, byte for byte.
fn contains_word(ws: &Vec<Vec<u8>>, w: &Vec<u8>) -> (r: bool)
    ensures
        r == listed(ws@, w@),
{
    let n = ws.len();
    let mut i: usize = 0;
    while i < n
        invariant
            i <= n,
            n == ws@.len(),
            forall|k: int| 0 <= k < i ==> #[trigger] ws@[k]@ != w@,
        decreases n - i,
    {
        if vec_eq(&ws[i], w) {
            return true;
        }
        i += 1;
    }
    false
}

/// How much of the guess space is left for one odometer digit: an unset
/// letter still has the whole expansion before it; a set letter has what
/// lies beyond its current position in the expansion from its anchor.
pub open spec fn digit_weight(key: Key, c: u8) -> int {
    if key.tbl()[c as int - 97] == 0 {
        27
    } else {
        26 - rank_pos(
            key.rank_of(key.anchor()[c as int - 97]),
            key.rank_of(key.tbl()[c as int - 97]),
        )
    }
}

/// Powers of 28, one base digit per odometer position.
pub open spec fn pow28(n: int) -> int
    decreases n,
{
    if n <= 0 {
        1
    } else {
        28 * pow28(n - 1)
    }
}

/// The remaining guess space of the first `n` odometer digits, weighed
/// positionally: advancing a digit outweighs resetting all digits below it.
pub open spec fn odometer_measure(key: Key, chars: Seq<u8>, n: int) -> int
    decreases n,
{
    if n <= 0 {
        0
    } else {
        odometer_measure(key, chars, n - 1) + digit_weight(key, chars[n - 1]) * pow28(n - 1)
    }
}

proof fn lemma_pow28_pos(n: int)
    ensures
        pow28(n) >= 1,
    decreases n,
{
    if n > 0 {
        lemma_pow28_pos(n - 1);
    }
}

/// In a well-formed key every digit weighs between 1 and 27.
proof fn lemma_weight_range(key: Key, c: u8)
    requires
        key.wf(),
        is_letter(c),
    ensures
        1 <= digit_weight(key, c) <= 27,
{
    let ci = c as int - 97;
    if key.tbl()[ci] != 0 {
        lemma_pos_range(key.rank_of(key.anchor()[ci]), key.rank_of(key.tbl()[ci]));
    }
}

/// The measure of `n` digits stays below `28^n`.
proof fn lemma_measure_bounds(key: Key, chars: Seq<u8>, n: int)
    requires
        key.wf(),
        0 <= n <= chars.len(),
        forall|d: int| 0 <= d < n ==> is_letter(#[trigger] chars[d]),
    ensures
        0 <= odometer_measure(key, chars, n) <= pow28(n) - 1,
    decreases n,
{
    if n > 0 {
        lemma_measure_bounds(key, chars, n - 1);
        lemma_weight_range(key, chars[n - 1]);
        lemma_pow28_pos(n - 1);
        let w = digit_weight(key, chars[n - 1]);
        let p = pow28(n - 1);
        assert(p <= w * p && w * p <= 27 * p) by (nonlinear_arith)
            requires
                1 <= w <= 27,
                p >= 1,
        ;
    }
}

/// Digits with equal weights give equal measures.
proof fn lemma_measure_frame(k1: Key, k2: Key, chars: Seq<u8>, n: int)
    requires
        0 <= n <= chars.len(),
        forall|d: int| 0 <= d < n ==> digit_weight(k2, #[trigger] chars[d]) == digit_weight(k1, chars[d]),
    ensures
        odometer_measure(k2, chars, n) == odometer_measure(k1, chars, n),
    decreases n,
{
    if n > 0 {
        lemma_measure_frame(k1, k2, chars, n - 1);
    }
}

/// Lowering one digit's weight lowers the whole measure, however the digits
/// below it change.
proof fn lemma_measure_decreases(k1: Key, k2: Key, chars: Seq<u8>, n: int, j: int)
    requires
        k1.wf(),
        k2.wf(),
        0 <= j < n <= chars.len(),
        forall|d: int| 0 <= d < n ==> is_letter(#[trigger] chars[d]),
        forall|d: int| j < d < n ==> digit_weight(k2, #[trigger] chars[d]) == digit_weight(k1, chars[d]),
        digit_weight(k2, chars[j]) < digit_weight(k1, chars[j]),
    ensures
        odometer_measure(k2, chars, n) < odometer_measure(k1, chars, n),
    decreases n,
{
    if n == j + 1 {
        lemma_measure_bounds(k1, chars, j);
        lemma_measure_bounds(k2, chars, j);
        lemma_weight_range(k1, chars[j]);
        lemma_weight_range(k2, chars[j]);
        lemma_pow28_pos(j);
        let w1 = digit_weight(k1, chars[j]);
        let w2 = digit_weight(k2, chars[j]);
        let p = pow28(j);
        assert(w2 * p <= w1 * p - p) by (nonlinear_arith)
            requires
                w2 <= w1 - 1,
                p >= 1,
        ;
    } else {
        lemma_measure_decreases(k1, k2, chars, n - 1, j);
    }
}

/// One step of the recursive backtracking decipher: resolves the words from
/// index `i` on, left to right.  Letters already fixed by enclosing calls
/// (those marked in `chars_set`) are never reassigned; on failure the call
/// restores the guess table, the marks and the skip list exactly as it found
/// them, so the caller can continue iterating its own guesses.
///
/// Skipping a word marks its unresolved letters as fixed while they are
/// still unset, so they pass through unchanged for the rest of that branch;
/// the search therefore does not promise to reach every assignment that the
/// skip budget alone would allow.
pub(crate) fn decrypt_words(
    words: &Vec<Vec<u8>>,
    i: usize,
    key: &mut Key,
    chars_set: &mut BitSet64<1>,
    dict: &TrieSet<26, 97>,
    skip_words: &mut Vec<Vec<u8>>,
    can_skip: usize,
) -> (r: Result<(), ()>)
    requires
        old(key).wf(),
        old(chars_set).wf(),
        dict.wf(),
        i <= words@.len(),
        forall|k: int|
            0 <= k < words@.len() ==> word_letters(#[trigger] words@[k]@) && words@[k]@.len()
                < usize::MAX,
        forall|c: u8|
            is_letter(c) && !spec_marked(*old(chars_set), c) ==> old(key).tbl()[c as int - 97]
                == 0,
    ensures
        final(key).wf(),
        final(key).same_freq(*old(key)),
        final(chars_set).wf(),
        forall|c: u8|
            is_letter(c) && spec_marked(*old(chars_set), c) ==> final(key).tbl()[c as int - 97]
                == old(key).tbl()[c as int - 97] && final(key).anchor()[c as int - 97] == old(
                key,
            ).anchor()[c as int - 97],
        i >= words@.len() ==> {
            &&& r is Ok
            &&& *final(key) == *old(key)
            &&& *final(chars_set) == *old(chars_set)
            &&& final(skip_words)@ == old(skip_words)@
        },
        r is Ok ==> {
            &&& old(skip_words)@.len() <= final(skip_words)@.len() <= old(skip_words)@.len()
                + can_skip
            &&& forall|m: int|
                0 <= m < old(skip_words)@.len() ==> #[trigger] final(skip_words)@[m] == old(
                    skip_words,
                )@[m]
            &&& forall|m: int|
                old(skip_words)@.len() <= m < final(skip_words)@.len()
                    ==> #[trigger] word_of_rest(words@, i as int, final(skip_words)@[m]@)
            &&& forall|k: int|
                i <= k < words@.len() ==> listed(final(skip_words)@, #[trigger] words@[k]@)
                    || dict.words().contains(
                    key_offsets(apply_table_seq(final(key).tbl(), words@[k]@), 97),
                )
        },
        r is Err ==> {
            &&& final(key).tbl() == old(key).tbl()
            &&& forall|c: u8|
                is_letter(c) ==> spec_marked(*final(chars_set), c) == spec_marked(
                    *old(chars_set),
                    c,
                )
            &&& final(skip_words)@ == old(skip_words)@
        },
        (dict.words() == Set::<Seq<int>>::empty() && dict.paths() == Set::<Seq<
            int,
        >>::empty().insert(Seq::<int>::empty()) && i < words@.len() && can_skip == 0 && old(
            skip_words,
        )@.len() == 0) ==> r is Err,
    decreases words@.len() - i,
{
    // Happy path end for the recursion
    if i >= words.len() {
        return Ok(());
    }
    let word = copy_bytes(&words[i]);

    // A word currently being skipped is not resolved again
    if contains_word(skip_words, &word) {
        let ghost pre_skip = skip_words@;
        match decrypt_words(words, i + 1, key, chars_set, dict, skip_words, can_skip) {
            Ok(()) => {
                proof {
                    // the word stays listed as skipped; the deeper call
                    // vouches for the words after it
                    let m = choose|m: int| 0 <= m < pre_skip.len() && #[trigger] pre_skip[m]@
                        == word@;
                    assert(skip_words@[m] == pre_skip[m]);
                    assert(listed(skip_words@, word@));
                    assert forall|k2: int| i <= k2 < words@.len() implies listed(
                        skip_words@,
                        #[trigger] words@[k2]@,
                    ) || dict.words().contains(
                        key_offsets(apply_table_seq(key.tbl(), words@[k2]@), 97),
                    ) by {
                        if k2 == i {
                            assert(words@[k2]@ == word@);
                        }
                    }
                    assert forall|m2: int|
                        pre_skip.len() <= m2 < skip_words@.len() implies #[trigger] word_of_rest(
                        words@,
                        i as int,
                        skip_words@[m2]@,
                    ) by {
                        assert(word_of_rest(words@, i + 1, skip_words@[m2]@));
                        let k2 = choose|k2: int|
                            i + 1 <= k2 < words@.len() && #[trigger] words@[k2]@
                                == skip_words@[m2]@;
                    }
                }
                return Ok(());
            },
            Err(()) => {},
        }
    }
    // Collect the word's unique letters that no enclosing call has fixed
    let uniq = unique_chars(word.as_slice());
    let mut free_chars: Vec<u8> = Vec::new();
    let mut ui: usize = 0;
    while ui < uniq.len()
        invariant
            ui <= uniq@.len(),
            chars_set.wf(),
            forall|k: int| 0 <= k < uniq@.len() ==> is_letter(#[trigger] uniq@[k]),
            forall|k1: int, k2: int| 0 <= k1 < k2 < uniq@.len() ==> uniq@[k1] != uniq@[k2],
            forall|k: int|
                0 <= k < free_chars@.len() ==> is_letter(#[trigger] free_chars@[k])
                    && !spec_marked(*chars_set, free_chars@[k]),
            forall|k: int|
                0 <= k < free_chars@.len() ==> exists|m: int|
                    0 <= m < ui && uniq@[m] == #[trigger] free_chars@[k],
            forall|k1: int, k2: int|
                0 <= k1 < k2 < free_chars@.len() ==> free_chars@[k1] != free_chars@[k2],
            forall|m: int|
                0 <= m < ui ==> spec_marked(*chars_set, #[trigger] uniq@[m])
                    || free_chars@.contains(uniq@[m]),
        decreases uniq@.len() - ui,
    {
        let c = uniq[ui];
        let ghost pre_free = free_chars@;
        if !marked(chars_set, c) {
            proof {
                assert forall|k: int| 0 <= k < free_chars@.len() implies free_chars@[k] != c by {
                    let m = choose|m: int| 0 <= m < ui && uniq@[m] == free_chars@[k];
                }
            }
            free_chars.push(c);
            proof {
                assert(free_chars@[free_chars@.len() - 1] == c);
            }
        }
        ui += 1;
        proof {
            assert forall|m: int|
                0 <= m < ui implies spec_marked(*chars_set, #[trigger] uniq@[m])
                || free_chars@.contains(uniq@[m]) by {
                if m < ui - 1 && pre_free.contains(uniq@[m]) {
                    let k = choose|k: int| 0 <= k < pre_free.len() && pre_free[k] == uniq@[m];
                    assert(free_chars@[k] == uniq@[m]);
                }
            }
        }
    }
    // Fix them so deeper calls will not reassign them
    let ghost set0 = *chars_set;
    let ghost free = free_chars@;
    let mut mi: usize = 0;
    while mi < free_chars.len()
        invariant
            mi <= free.len(),
            free == free_chars@,
            chars_set.wf(),
            forall|k: int| 0 <= k < free.len() ==> is_letter(#[trigger] free[k]),
            forall|k1: int, k2: int| 0 <= k1 < k2 < free.len() ==> free[k1] != free[k2],
            forall|k: int| 0 <= k < free.len() ==> !spec_marked(set0, #[trigger] free[k]),
            forall|d: u8|
                is_letter(d) ==> (spec_marked(*chars_set, d) <==> (spec_marked(set0, d) || exists|
                    k: int,
                |
                    0 <= k < mi && #[trigger] free[k] == d)),
        decreases free.len() - mi,
    {
        mark(chars_set, free_chars[mi]);
        mi += 1;
        proof {
            assert forall|d: u8| is_letter(d) implies (spec_marked(*chars_set, d) <==> (
            spec_marked(set0, d) || exists|k: int| 0 <= k < mi && #[trigger] free[k] == d)) by {
                if d == free[mi - 1] {
                    assert(free[mi - 1] == d);
                }
            }
        }
    }
    proof {
        assert forall|p: int| 0 <= p < word@.len() implies spec_marked(
            set0,
            #[trigger] word@[p],
        ) || free.contains(word@[p]) by {
            let c = word@[p];
            assert(is_letter(c) && word@.contains(c));
            assert(uniq@.contains(c));
            let m = choose|m: int| 0 <= m < uniq@.len() && uniq@[m] == c;
            assert(spec_marked(set0, uniq@[m]) || free.contains(uniq@[m]));
        }
    }
    // Iterate guess combinations for the word's free letters
    loop
        invariant
            key.wf(),
            key.same_freq(*old(key)),
            chars_set.wf(),
            dict.wf(),
            i < words@.len(),
            words@.len() <= usize::MAX,
            forall|k: int|
                0 <= k < words@.len() ==> word_letters(#[trigger] words@[k]@) && words@[k]@.len()
                    < usize::MAX,
            word@ == words@[i as int]@,
            free == free_chars@,
            forall|k: int| 0 <= k < free.len() ==> is_letter(#[trigger] free[k]),
            forall|k1: int, k2: int| 0 <= k1 < k2 < free.len() ==> free[k1] != free[k2],
            forall|k: int| 0 <= k < free.len() ==> !spec_marked(set0, #[trigger] free[k]),
            forall|p: int|
                0 <= p < word@.len() ==> spec_marked(set0, #[trigger] word@[p]) || free.contains(
                    word@[p],
                ),
            forall|d: u8|
                is_letter(d) ==> spec_marked(set0, d) == spec_marked(*old(chars_set), d),
            forall|d: u8|
                is_letter(d) ==> (spec_marked(*chars_set, d) <==> (spec_marked(set0, d)
                    || free.contains(d))),
            forall|c: u8|
                is_letter(c) && spec_marked(set0, c) ==> key.tbl()[c as int - 97] == old(
                    key,
                ).tbl()[c as int - 97] && key.anchor()[c as int - 97] == old(key).anchor()[c as int
                - 97],
            forall|c: u8|
                is_letter(c) && !spec_marked(set0, c) && !free.contains(c) ==> key.tbl()[c as int
                    - 97] == 0,
            forall|c: u8|
                is_letter(c) && !spec_marked(set0, c) ==> old(key).tbl()[c as int - 97] == 0,
            old(key).wf(),
            skip_words@ == old(skip_words)@,
        decreases odometer_measure(*key, free, free.len() as int),
    {
        let ghost head_key = *key;
        let ghost head_set = *chars_set;
        // Translate the word by the current key state
        let mut attempt = copy_bytes(&word);
        key.translate(&mut attempt);
        proof {
            assert forall|t: int| 0 <= t < attempt@.len() implies is_letter(
                #[trigger] attempt@[t],
            ) by {
                assert(attempt@[t] == crate::key::apply_table(key.tbl(), word@[t]));
                assert(is_letter(word@[t]));
            }
        }
        // Check the validity of the attempt
        let score = match dict.prefix_score(attempt.as_slice()) {
            Ok(s) => s,
            Err(e) => {
                proof {
                    let t = choose|t: int|
                        0 <= t < attempt@.len() && !crate::trie::offset_in_alphabet(
                            crate::trie::key_offset(#[trigger] attempt@[t], 97),
                            26,
                        );
                    assert(is_letter(attempt@[t]));
                    assert(false);
                }
                0
            },
        };
        if score == word.len() + 1 {
            // Proceed to the next word without skipping the current one
            match decrypt_words(words, i + 1, key, chars_set, dict, skip_words, can_skip) {
                Ok(()) => {
                    proof {
                        // a word can only be accepted against a dictionary
                        // that stores something
                        if dict.words() == Set::<Seq<int>>::empty() {
                            let kseq = key_offsets(attempt@, 97);
                            assert(!dict.words().contains(kseq));
                            if dict.paths() == Set::<Seq<int>>::empty().insert(
                                Seq::<int>::empty(),
                            ) {
                                assert(dict.paths().contains(kseq.take(score as int)));
                                assert(kseq.take(score as int) == Seq::<int>::empty());
                                assert(kseq.take(score as int).len() == score);
                                assert(false);
                            }
                        }
                        // fixed letters were preserved by the whole chain
                        assert forall|c: u8|
                            is_letter(c) && spec_marked(*old(chars_set), c) implies key.tbl()[
                        c as int - 97] == old(key).tbl()[c as int - 97] && key.anchor()[c as int
                            - 97] == old(key).anchor()[c as int - 97] by {
                            assert(spec_marked(set0, c));
                            assert(spec_marked(head_set, c));
                            assert(head_key.tbl()[c as int - 97] == old(key).tbl()[c as int - 97]);
                        }
                        // the accepted word sits in the dictionary as the
                        // final key still translates it
                        let kseq_a = key_offsets(attempt@, 97);
                        assert(dict.words().contains(kseq_a)) by {
                            if !dict.words().contains(kseq_a) {
                                assert(score <= word@.len());
                            }
                        }
                        assert(attempt@ =~= apply_table_seq(head_key.tbl(), word@));
                        assert forall|p: int| 0 <= p < word@.len() implies apply_table(
                            key.tbl(),
                            #[trigger] word@[p],
                        ) == apply_table(head_key.tbl(), word@[p]) by {
                            let c = word@[p];
                            assert(spec_marked(set0, c) || free.contains(c));
                            assert(spec_marked(head_set, c));
                            assert(key.tbl()[c as int - 97] == head_key.tbl()[c as int - 97]);
                        }
                        assert(apply_table_seq(key.tbl(), word@) =~= attempt@);
                        assert forall|k2: int| i <= k2 < words@.len() implies listed(
                            skip_words@,
                            #[trigger] words@[k2]@,
                        ) || dict.words().contains(
                            key_offsets(apply_table_seq(key.tbl(), words@[k2]@), 97),
                        ) by {
                            if k2 == i {
                                assert(words@[k2]@ == word@);
                                assert(key_offsets(apply_table_seq(key.tbl(), word@), 97)
                                    == kseq_a);
                            }
                        }
                        assert forall|m2: int|
                            old(skip_words)@.len() <= m2 < skip_words@.len() implies
                            #[trigger] word_of_rest(words@, i as int, skip_words@[m2]@) by {
                            assert(word_of_rest(words@, i + 1, skip_words@[m2]@));
                            let k2 = choose|k2: int|
                                i + 1 <= k2 < words@.len() && #[trigger] words@[k2]@
                                    == skip_words@[m2]@;
                        }
                    }
                    return Ok(());
                },
                Err(()) => {},
            }
        }
        // Advance to the next unguessed combination, odometer style
        let ghost pre_adv = *key;
        proof {
            assert forall|d: int| 0 <= d < free.len() implies digit_weight(
                pre_adv,
                #[trigger] free[d],
            ) == digit_weight(head_key, free[d]) by {
                let c = free[d];
                assert(free.contains(c));
                assert(spec_marked(head_set, c));
                assert(pre_adv.tbl()[c as int - 97] == head_key.tbl()[c as int - 97]);
                assert(pre_adv.anchor()[c as int - 97] == head_key.anchor()[c as int - 97]);
            }
            lemma_measure_frame(head_key, pre_adv, free, free.len() as int);
            assert forall|d: u8| is_letter(d) implies spec_marked(*chars_set, d) == spec_marked(
                head_set,
                d,
            ) by {}
        }
        let mut advanced = false;
        let mut k: usize = 0;
        while k < free_chars.len() && !advanced
            invariant
                k <= free.len(),
                free == free_chars@,
                key.wf(),
                key.same_freq(pre_adv),
                forall|kk: int| 0 <= kk < free.len() ==> is_letter(#[trigger] free[kk]),
                forall|k1: int, k2: int| 0 <= k1 < k2 < free.len() ==> free[k1] != free[k2],
                forall|c: u8|
                    is_letter(c) && !free.contains(c) ==> key.tbl()[#[trigger] (c as int - 97)]
                        == pre_adv.tbl()[c as int - 97] && key.anchor()[c as int - 97]
                        == pre_adv.anchor()[c as int - 97],
                !advanced ==> forall|m: int|
                    0 <= m < k ==> key.tbl()[#[trigger] free[m] as int - 97] == 0,
                !advanced ==> forall|m: int|
                    k <= m < free.len() ==> key.tbl()[#[trigger] free[m] as int - 97]
                        == pre_adv.tbl()[free[m] as int - 97] && key.anchor()[free[m] as int - 97]
                        == pre_adv.anchor()[free[m] as int - 97],
                advanced ==> {
                    &&& k < free.len()
                    &&& digit_weight(*key, free[k as int]) < digit_weight(pre_adv, free[k as int])
                    &&& forall|m: int|
                        k < m < free.len() ==> key.tbl()[#[trigger] free[m] as int - 97]
                            == pre_adv.tbl()[free[m] as int - 97] && key.anchor()[free[m] as int
                            - 97] == pre_adv.anchor()[free[m] as int - 97]
                },
            decreases free.len() - k + (if advanced {
                0int
            } else {
                1int
            }),
        {
            let c = free_chars[k];
            let ghost before = *key;
            match key.attach_next(c) {
                Ok(()) => {
                    proof {
                        let ci = c as int - 97;
                        if before.tbl()[ci] == 0 {
                            assert(digit_weight(before, c) == 27);
                            assert(key.anchor()[ci] == key.tbl()[ci]);
                            lemma_pos_range(
                                key.rank_of(key.anchor()[ci]),
                                key.rank_of(key.tbl()[ci]),
                            );
                            assert(digit_weight(*key, c) == 26);
                        } else {
                            lemma_pos_range(
                                before.rank_of(before.anchor()[ci]),
                                before.rank_of(before.tbl()[ci]),
                            );
                            lemma_pos_range(
                                key.rank_of(key.anchor()[ci]),
                                key.rank_of(key.tbl()[ci]),
                            );
                            assert(digit_weight(*key, c) < digit_weight(before, c));
                        }
                        assert forall|cc: u8| is_letter(cc) && cc != c implies key.tbl()[
                        cc as int - 97] == before.tbl()[cc as int - 97] && key.anchor()[cc as int
                            - 97] == before.anchor()[cc as int - 97] by {}
                    }
                    advanced = true;
                },
                Err(()) => {
                    key.clear(c);
                    k += 1;
                    proof {
                        assert forall|cc: u8| is_letter(cc) && cc != c implies key.tbl()[
                        cc as int - 97] == before.tbl()[cc as int - 97] && key.anchor()[cc as int
                            - 97] == before.anchor()[cc as int - 97] by {}
                    }
                },
            }
        }
        // What the advance left alone still stands as it stood at the top of
        // this iteration
        proof {
            assert forall|c: u8| is_letter(c) && spec_marked(set0, c) implies key.tbl()[c as int
                - 97] == old(key).tbl()[c as int - 97] && key.anchor()[c as int - 97] == old(
                key,
            ).anchor()[c as int - 97] by {
                assert(!free.contains(c)) by {
                    if free.contains(c) {
                        let m = choose|m: int| 0 <= m < free.len() && free[m] == c;
                        assert(!spec_marked(set0, free[m]));
                    }
                }
                assert(spec_marked(head_set, c));
                assert(pre_adv.tbl()[c as int - 97] == head_key.tbl()[c as int - 97]);
                assert(pre_adv.anchor()[c as int - 97] == head_key.anchor()[c as int - 97]);
                assert(head_key.tbl()[c as int - 97] == old(key).tbl()[c as int - 97]);
            }
            assert forall|c: u8|
                is_letter(c) && !spec_marked(set0, c) && !free.contains(c) implies key.tbl()[
            c as int - 97] == 0 by {
                assert(pre_adv.tbl()[c as int - 97] == head_key.tbl()[c as int - 97]);
            }
        }
        if !advanced {
            // The whole combination space for this word is exhausted; maybe
            // the word is simply not in the dictionary, so try skipping it
            if can_skip > 0 {
                let ghost pre_skip_key = *key;
                let ghost pre_skip_words = skip_words@;
                skip_words.push(copy_bytes(&word));
                let ghost at_call = skip_words@;
                proof {
                    assert(at_call[pre_skip_words.len() as int]@ == word@);
                }
                match decrypt_words(words, i + 1, key, chars_set, dict, skip_words, can_skip - 1) {
                    Ok(()) => {
                        proof {
                            assert forall|c: u8|
                                is_letter(c) && spec_marked(*old(chars_set), c) implies key.tbl()[
                            c as int - 97] == old(key).tbl()[c as int - 97] && key.anchor()[
                            c as int - 97] == old(key).anchor()[c as int - 97] by {
                                assert(spec_marked(set0, c));
                                assert(spec_marked(head_set, c));
                                assert(pre_skip_key.tbl()[c as int - 97] == old(key).tbl()[c as int
                                    - 97]);
                                assert(pre_skip_key.anchor()[c as int - 97] == old(
                                    key,
                                ).anchor()[c as int - 97]);
                            }
                            // the skipped word stays listed
                            assert(skip_words@[pre_skip_words.len() as int] == at_call[
                            pre_skip_words.len() as int]);
                            assert(listed(skip_words@, word@));
                            assert forall|k2: int| i <= k2 < words@.len() implies listed(
                                skip_words@,
                                #[trigger] words@[k2]@,
                            ) || dict.words().contains(
                                key_offsets(apply_table_seq(key.tbl(), words@[k2]@), 97),
                            ) by {
                                if k2 == i {
                                    assert(words@[k2]@ == word@);
                                }
                            }
                            assert forall|m2: int|
                                pre_skip_words.len() <= m2 < skip_words@.len() implies
                                #[trigger] word_of_rest(words@, i as int, skip_words@[m2]@) by {
                                if m2 == pre_skip_words.len() {
                                    assert(skip_words@[m2] == at_call[m2]);
                                    assert(skip_words@[m2]@ == words@[i as int]@);
                                } else {
                                    assert(word_of_rest(words@, i + 1, skip_words@[m2]@));
                                    let k2 = choose|k2: int|
                                        i + 1 <= k2 < words@.len() && #[trigger] words@[k2]@
                                            == skip_words@[m2]@;
                                }
                            }
                        }
                        return Ok(());
                    },
                    Err(()) => {},
                }
                skip_words.pop();
                proof {
                    assert(skip_words@ =~= old(skip_words)@);
                }
            }
            // Unfix this word's letters so the caller can keep iterating its
            // own guesses, and give up on this branch
            let ghost pre_unmark_key = *key;
            let mut ri: usize = 0;
            while ri < free_chars.len()
                invariant
                    ri <= free.len(),
                    free == free_chars@,
                    chars_set.wf(),
                    forall|kk: int| 0 <= kk < free.len() ==> is_letter(#[trigger] free[kk]),
                    forall|k1: int, k2: int| 0 <= k1 < k2 < free.len() ==> free[k1] != free[k2],
                    forall|kk: int|
                        0 <= kk < free.len() ==> !spec_marked(set0, #[trigger] free[kk]),
                    forall|d: u8|
                        is_letter(d) ==> (spec_marked(*chars_set, d) <==> (spec_marked(set0, d)
                            || exists|kk: int| ri <= kk < free.len() && #[trigger] free[kk] == d)),
                decreases free.len() - ri,
            {
                let c = free_chars[ri];
                unmark(chars_set, c);
                ri += 1;
                proof {
                    assert forall|d: u8| is_letter(d) implies (spec_marked(*chars_set, d) <==> (
                    spec_marked(set0, d) || exists|kk: int|
                        ri <= kk < free.len() && #[trigger] free[kk] == d)) by {
                        if exists|kk: int| ri <= kk < free.len() && #[trigger] free[kk] == d {
                            let kk = choose|kk: int|
                                ri <= kk < free.len() && #[trigger] free[kk] == d;
                            assert(free[kk] != free[ri - 1]);
                        }
                    }
                }
            }
            proof {
                assert(key.tbl() =~= old(key).tbl()) by {
                    assert forall|ci: int| 0 <= ci < 26 implies key.tbl()[ci] == old(
                        key,
                    ).tbl()[ci] by {
                        let c = (ci + 97) as u8;
                        assert(is_letter(c) && c as int - 97 == ci);
                        if spec_marked(set0, c) {
                            assert(key.tbl()[ci] == pre_unmark_key.tbl()[ci]);
                        } else if free.contains(c) {
                            let m = choose|m: int| 0 <= m < free.len() && free[m] == c;
                            assert(pre_unmark_key.tbl()[free[m] as int - 97] == 0);
                            assert(old(key).tbl()[ci] == 0);
                        } else {
                            assert(old(key).tbl()[ci] == 0);
                        }
                    }
                }
            }
            return Err(());
        }
        proof {
            assert forall|d: int| (k as int) < d < free.len() implies digit_weight(
                *key,
                #[trigger] free[d],
            ) == digit_weight(pre_adv, free[d]) by {}
            lemma_measure_decreases(pre_adv, *key, free, free.len() as int, k as int);
            lemma_measure_bounds(*key, free, free.len() as int);
            assert(odometer_measure(*key, free, free.len() as int) < odometer_measure(
                head_key,
                free,
                free.len() as int,
            ));
        }
    }
}

} // verus!
