//! Recovery of plaintext from monoalphabetic substitution ciphers, using
//! English letter-frequency statistics and a dictionary of accepted words.

pub mod bitset;
pub mod key;
pub mod solver;
pub mod stats;
pub mod trie;

use vstd::prelude::*;

verus! {

use crate::stats::apply_table_seq;
use crate::stats::full_table;
use crate::stats::lemma_histogram_preserved;
use crate::stats::letter_counts;
use crate::stats::partial_table;

/// First letter of the alphabet handled by the cipher.
pub const START: u8 = 97;

/// Last letter of the alphabet handled by the cipher.
pub const END: u8 = 122;

/// Size of the alphabet handled by the cipher.
pub const R: usize = 26;

/// A byte is a cipher letter when it is a lowercase ASCII letter.
pub open spec fn is_letter(b: u8) -> bool {
    START <= b <= END
}

/// Executable test matching [`is_letter`].
pub fn letter(b: u8) -> (r: bool)
    ensures
        r == is_letter(b),
{
    START <= b && b <= END
}

/// A byte is word whitespace when it is an ASCII whitespace character.
pub open spec fn is_space(b: u8) -> bool {
    b == 32 || b == 9 || b == 10 || b == 12 || b == 13
}

/// Executable test matching [`is_space`].
pub fn space(b: u8) -> (r: bool)
    ensures
        r == is_space(b),
{
    b == 32 || b == 9 || b == 10 || b == 12 || b == 13
}

/// What normalization keeps of one input byte: uppercase letters map to
/// their lowercase equivalents, lowercase letters and whitespace stay,
/// dashes become spaces, and everything else is dropped.
pub open spec fn filtered_byte(b: u8) -> Option<u8> {
    if 65 <= b <= 90 {
        Some((b + 32) as u8)
    } else if is_letter(b) || is_space(b) {
        Some(b)
    } else if b == 45 {
        Some(32u8)
    } else {
        None
    }
}

/// The normalized form of a whole text: each byte replaced or dropped as
/// [`filtered_byte`] says, order kept.
pub open spec fn filter_spec(s: Seq<u8>) -> Seq<u8>
    decreases s.len(),
{
    if s.len() == 0 {
        Seq::empty()
    } else {
        filter_spec(s.drop_last()) + (match filtered_byte(s.last()) {
            Some(b) => seq![b],
            None => Seq::<u8>::empty(),
        })
    }
}

/// One more input byte extends the normalized text by what it keeps of it.
proof fn lemma_filter_take_step(s: Seq<u8>, i: int)
    requires
        0 <= i < s.len(),
    ensures
        filter_spec(s.take(i + 1)) == filter_spec(s.take(i)) + (match filtered_byte(s[i]) {
            Some(b) => seq![b],
            None => Seq::<u8>::empty(),
        }),
{
    assert(s.take(i + 1).drop_last() =~= s.take(i));
    assert(s.take(i + 1).last() == s[i]);
}

/// Normalized text consists of lowercase letters and whitespace only.
pub proof fn lemma_filter_spec_content(s: Seq<u8>)
    ensures
        forall|k: int|
            0 <= k < filter_spec(s).len() ==> is_letter(#[trigger] filter_spec(s)[k]) || is_space(
                filter_spec(s)[k],
            ),
    decreases s.len(),
{
    if s.len() > 0 {
        lemma_filter_spec_content(s.drop_last());
        let pre = filter_spec(s.drop_last());
        assert forall|k: int| 0 <= k < filter_spec(s).len() implies is_letter(
            #[trigger] filter_spec(s)[k],
        ) || is_space(filter_spec(s)[k]) by {
            if k < pre.len() {
                assert(filter_spec(s)[k] == pre[k]);
            } else {
                match filtered_byte(s.last()) {
                    Some(b) => {
                        assert(filter_spec(s)[k] == b);
                    },
                    None => {},
                }
            }
        }
    }
}

/// Substitutes uppercase ASCII alphabetic (A-Z) characters with lowercase
/// equivalents.  Replaces dashes with spaces and leaves out everything else.
pub fn filter_input(input: &[u8]) -> (r: Vec<u8>)
    ensures
        r@ == filter_spec(input@),
{
    let n = input.len();
    let mut out: Vec<u8> = Vec::new();
    let mut i: usize = 0;
    while i < n
        invariant
            i <= n,
            n == input@.len(),
            out@ == filter_spec(input@.take(i as int)),
        decreases n - i,
    {
        let b = input[i];
        if 65 <= b && b <= 90 {
            out.push(b + 32);
        } else if letter(b) || space(b) {
            out.push(b);
        } else if b == 45 {
            out.push(32);
        }
        i += 1;
        proof {
            lemma_filter_take_step(input@, i - 1);
            assert(out@ =~= filter_spec(input@.take(i as int)));
        }
    }
    proof {
        assert(input@.take(n as int) =~= input@);
    }
    out
}

/// The distinct lowercase letters of `s`, in order of first appearance: a
/// letter joins the sequence at its first occurrence and never again.
pub open spec fn unique_letters(s: Seq<u8>) -> Seq<u8>
    decreases s.len(),
{
    if s.len() == 0 {
        Seq::empty()
    } else {
        let pre = unique_letters(s.drop_last());
        if is_letter(s.last()) && !pre.contains(s.last()) {
            pre.push(s.last())
        } else {
            pre
        }
    }
}

/// Returns a list of all unique lowercase letters in the input, in order of
/// first appearance.
pub fn unique_chars(input: &[u8]) -> (r: Vec<u8>)
    ensures
        r@ == unique_letters(input@),
        forall|k: int|
            0 <= k < r@.len() ==> is_letter(#[trigger] r@[k]) && input@.contains(r@[k]),
        forall|k1: int, k2: int| 0 <= k1 < k2 < r@.len() ==> r@[k1] != r@[k2],
        forall|b: u8| is_letter(b) && input@.contains(b) ==> r@.contains(b),
{
    let n = input.len();
    let mut uc: Vec<u8> = Vec::new();
    let mut set: bitset::BitSet64<4> = bitset::BitSet64::new();
    let mut i: usize = 0;
    while i < n
        invariant
            i <= n,
            n == input@.len(),
            set.wf(),
            uc@ == unique_letters(input@.take(i as int)),
            forall|g: u8| #[trigger] set.spec_contains(g as u32) <==> uc@.contains(g),
            forall|k: int|
                0 <= k < uc@.len() ==> is_letter(#[trigger] uc@[k]) && input@.take(
                    i as int,
                ).contains(uc@[k]),
            forall|k1: int, k2: int| 0 <= k1 < k2 < uc@.len() ==> uc@[k1] != uc@[k2],
            forall|b: u8| is_letter(b) && input@.take(i as int).contains(b) ==> uc@.contains(b),
        decreases n - i,
    {
        let ghost prev_uc = uc@;
        let ghost prev_set = set;
        let c = input[i];
        let mut pushed = false;
        if letter(c) && !set.contains(c as u32) {
            uc.push(c);
            set.insert(c as u32);
            pushed = true;
        }
        i += 1;
        proof {
            assert(input@.take(i as int).drop_last() =~= input@.take(i - 1));
            assert(input@.take(i as int).last() == input@[i - 1]);
            assert forall|b: u8| input@.take(i as int).contains(b) implies (input@.take(
                i - 1,
            ).contains(b) || b == input@[i - 1]) by {
                let k = choose|k: int| 0 <= k < i && #[trigger] input@.take(i as int)[k] == b;
                if k < i - 1 {
                    assert(input@.take(i - 1)[k] == b);
                }
            }
            assert forall|b: u8| input@.take(i - 1).contains(b) implies input@.take(
                i as int,
            ).contains(b) by {
                let k = choose|k: int| 0 <= k < i - 1 && #[trigger] input@.take(i - 1)[k] == b;
                assert(input@.take(i as int)[k] == b);
            }
            if pushed {
                assert forall|g: u8| #[trigger] set.spec_contains(g as u32) <==> uc@.contains(
                    g,
                ) by {
                    if g == c {
                        assert(uc@[uc@.len() - 1] == c);
                    } else {
                        assert(prev_set.spec_contains(g as u32) == set.spec_contains(g as u32));
                        if prev_uc.contains(g) {
                            let k = choose|k: int| 0 <= k < prev_uc.len() && prev_uc[k] == g;
                            assert(uc@[k] == g);
                        }
                        if uc@.contains(g) {
                            let k = choose|k: int| 0 <= k < uc@.len() && uc@[k] == g;
                            assert(k < prev_uc.len());
                            assert(prev_uc[k] == g);
                        }
                    }
                }
                assert(input@.take(i as int)[i - 1] == c);
                assert(uc@.contains(c)) by {
                    assert(uc@[uc@.len() - 1] == c);
                }
                assert forall|b: u8| prev_uc.contains(b) implies uc@.contains(b) by {
                    let k = choose|k: int| 0 <= k < prev_uc.len() && prev_uc[k] == b;
                    assert(uc@[k] == b);
                }
            } else {
                if is_letter(input@[i - 1]) {
                    assert(uc@.contains(input@[i - 1]));
                }
            }
        }
    }
    proof {
        assert(input@.take(n as int) =~= input@);
    }
    uc
}

/// A word: every byte a lowercase letter.
pub open spec fn word_letters(w: Seq<u8>) -> bool {
    forall|t: int| 0 <= t < w.len() ==> is_letter(#[trigger] w[t])
}

/// Errors that can result from failed decryption.
#[derive(Debug, PartialEq, Eq, Structural)]
pub enum Error {
    /// The entire search space has been iterated through but the text does
    /// not match the dictionary well enough.
    SearchExhausted,
}

/// Encrypts the input with a randomly generated substitution cipher: the
/// result is the normalized input with every letter replaced through a full
/// random permutation of the alphabet.  The multiset of per-letter
/// occurrence counts is thereby preserved.
pub fn encrypt(input: &[u8]) -> (r: Vec<u8>)
    ensures
        exists|t: Seq<u8>|
            #[trigger] full_table(t) && r@ == apply_table_seq(t, filter_spec(input@)),
        letter_counts(r@).to_multiset() == letter_counts(filter_spec(input@)).to_multiset(),
{
    let mut text = filter_input(input);
    let k = key::Key::random();
    k.translate(&mut text);
    proof {
        let t = k.tbl();
        assert(full_table(t));
        assert(text@ =~= apply_table_seq(t, filter_spec(input@)));
        lemma_histogram_preserved(t, filter_spec(input@));
    }
    text
}


/// Normalization never lengthens the text.
pub proof fn lemma_filter_spec_len(s: Seq<u8>)
    ensures
        filter_spec(s).len() <= s.len(),
    decreases s.len(),
{
    if s.len() > 0 {
        lemma_filter_spec_len(s.drop_last());
    }
}

/// The length of the leading run of letters of `s`.
pub open spec fn run_len(s: Seq<u8>) -> nat
    decreases s.len(),
{
    if s.len() == 0 || !is_letter(s[0]) {
        0
    } else {
        (1 + run_len(s.drop_first())) as nat
    }
}

/// The leading letter run is non-empty exactly when a letter heads the text,
/// and never longer than the text.
pub proof fn lemma_run_len(s: Seq<u8>)
    ensures
        run_len(s) <= s.len(),
        s.len() > 0 && is_letter(s[0]) ==> run_len(s) >= 1,
    decreases s.len(),
{
    if s.len() > 0 && is_letter(s[0]) {
        lemma_run_len(s.drop_first());
    }
}

/// The leading run ends exactly where the letters end.
pub proof fn lemma_run_len_exact(s: Seq<u8>, j: int)
    requires
        0 < j <= s.len(),
        forall|p: int| 0 <= p < j ==> is_letter(#[trigger] s[p]),
        j == s.len() || !is_letter(s[j]),
    ensures
        run_len(s) == j,
    decreases j,
{
    let d = s.drop_first();
    if j == 1 {
        if d.len() > 0 {
            assert(d[0] == s[1]);
            assert(!is_letter(d[0]));
        }
        assert(run_len(d) == 0);
    } else {
        assert forall|p: int| 0 <= p < j - 1 implies is_letter(#[trigger] d[p]) by {
            assert(d[p] == s[p + 1]);
        }
        if j < s.len() {
            assert(d[j - 1] == s[j]);
        }
        lemma_run_len_exact(d, j - 1);
        assert(run_len(s) == 1 + run_len(d));
    }
}

/// The words of a text: its maximal runs of letters, in order.
pub open spec fn words_spec(s: Seq<u8>) -> Seq<Seq<u8>>
    decreases s.len(),
    via words_spec_decreases
{
    if s.len() == 0 {
        Seq::empty()
    } else if !is_letter(s[0]) {
        words_spec(s.drop_first())
    } else {
        seq![s.take(run_len(s) as int)] + words_spec(s.skip(run_len(s) as int))
    }
}

#[via_fn]
proof fn words_spec_decreases(s: Seq<u8>) {
    if s.len() > 0 && is_letter(s[0]) {
        lemma_run_len(s);
    }
}

/// The views of a list of byte vectors.
pub open spec fn views_of(ws: Seq<Vec<u8>>) -> Seq<Seq<u8>> {
    ws.map_values(|v: Vec<u8>| v@)
}

/// Cuts a normalized text into its words: the maximal runs of letters.
pub fn split_words(s: &Vec<u8>) -> (ws: Vec<Vec<u8>>)
    ensures
        forall|k: int|
            0 <= k < ws@.len() ==> word_letters(#[trigger] ws@[k]@) && 1 <= ws@[k]@.len()
                <= s@.len(),
        ws@.len() <= s@.len(),
        (exists|k: int| 0 <= k < s@.len() && is_letter(#[trigger] s@[k])) <==> ws@.len() > 0,
        views_of(ws@) == words_spec(s@),
{
    let n = s.len();
    let mut ws: Vec<Vec<u8>> = Vec::new();
    let mut i: usize = 0;
    proof {
        assert(s@.skip(0) =~= s@);
    }
    while i < n
        invariant
            i <= n,
            n == s@.len(),
            ws@.len() <= i,
            forall|k: int|
                0 <= k < ws@.len() ==> word_letters(#[trigger] ws@[k]@) && 1 <= ws@[k]@.len()
                    <= s@.len(),
            (exists|k: int| 0 <= k < i && is_letter(#[trigger] s@[k])) <==> ws@.len() > 0,
            words_spec(s@) == views_of(ws@) + words_spec(s@.skip(i as int)),
        decreases n - i,
    {
        let b = s[i];
        if letter(b) {
            let start = i;
            let mut w: Vec<u8> = Vec::new();
            while i < n && letter(s[i])
                invariant
                    start <= i <= n,
                    n == s@.len(),
                    start < n,
                    is_letter(s@[start as int]),
                    w@.len() == i - start,
                    w@ == s@.subrange(start as int, i as int),
                    word_letters(w@),
                decreases n - i,
            {
                w.push(s[i]);
                i += 1;
                proof {
                    assert(w@ =~= s@.subrange(start as int, i as int));
                }
            }
            assert(i > start);
            let ghost pre_ws = ws@;
            ws.push(w);
            proof {
                assert(is_letter(s@[start as int]));
                let tail = s@.skip(start as int);
                assert forall|p: int| 0 <= p < i - start implies is_letter(#[trigger] tail[p]) by {
                    assert(tail[p] == s@[start + p]);
                    assert(s@.subrange(start as int, i as int)[p] == s@[start + p]);
                    assert(word_letters(w@));
                }
                if i < n {
                    assert(tail[i - start] == s@[i as int]);
                }
                lemma_run_len_exact(tail, i - start);
                assert(tail.take(i - start) =~= w@);
                assert(tail.skip(i - start) =~= s@.skip(i as int));
                assert(words_spec(tail) == seq![w@] + words_spec(s@.skip(i as int)));
                assert(views_of(ws@) =~= views_of(pre_ws).push(w@));
                assert(views_of(ws@) + words_spec(s@.skip(i as int)) =~= views_of(pre_ws) + (seq![
                    w@,
                ] + words_spec(s@.skip(i as int))));
            }
        } else {
            i += 1;
            proof {
                assert forall|k: int| 0 <= k < i && is_letter(#[trigger] s@[k]) implies (exists|
                    m: int,
                |
                    0 <= m < i - 1 && is_letter(#[trigger] s@[m])) by {
                    assert(k != i - 1);
                }
                let tail = s@.skip(i - 1);
                assert(tail[0] == s@[i - 1]);
                assert(tail.drop_first() =~= s@.skip(i as int));
                assert(words_spec(tail) == words_spec(s@.skip(i as int)));
            }
        }
    }
    proof {
        assert(s@.skip(n as int) =~= Seq::<u8>::empty());
        assert(words_spec(Seq::<u8>::empty()) =~= Seq::<Seq<u8>>::empty());
        assert(views_of(ws@) =~= views_of(ws@) + words_spec(s@.skip(n as int)));
    }
    ws
}

/// The distance of a word's unique-letter count from the sweet spot of
/// seven letters.
fn sweet_spot_distance(w: &Vec<u8>) -> (r: usize)
{
    let u = unique_chars(w.as_slice()).len();
    if u >= 7 {
        u - 7
    } else {
        7 - u
    }
}

/// Whether `w` is one of the listed words.
spec fn from_words(orig: Seq<Vec<u8>>, w: Seq<u8>) -> bool {
    exists|m: int| 0 <= m < orig.len() && w == #[trigger] orig[m]@
}

/// Reorders the words so that those whose unique-letter count lies nearest
/// the sweet spot of seven come first: information-dense words prune the
/// search best.  Every returned word is one of the given words.
fn sort_words(ws: Vec<Vec<u8>>) -> (r: Vec<Vec<u8>>)
    ensures
        r@.len() == ws@.len(),
        forall|k: int| 0 <= k < r@.len() ==> #[trigger] from_words(ws@, r@[k]@),
        views_of(r@).to_multiset() == views_of(ws@).to_multiset(),
{
    let ghost orig = ws@;
    let mut rest = ws;
    let mut out: Vec<Vec<u8>> = Vec::new();
    proof {
        broadcast use vstd::seq_lib::group_to_multiset_ensures;
        broadcast use vstd::multiset::group_multiset_axioms;

        assert forall|k: int| 0 <= k < rest@.len() implies #[trigger] from_words(
            orig,
            rest@[k]@,
        ) by {
            assert(rest@[k]@ == orig[k]@);
        }
        assert(views_of(out@) =~= Seq::<Seq<u8>>::empty());
        assert(views_of(out@).to_multiset().add(views_of(rest@).to_multiset()) =~= views_of(
            orig,
        ).to_multiset());
    }
    while rest.len() > 0
        invariant
            out@.len() + rest@.len() == orig.len(),
            forall|k: int| 0 <= k < out@.len() ==> #[trigger] from_words(orig, out@[k]@),
            forall|k: int| 0 <= k < rest@.len() ==> #[trigger] from_words(orig, rest@[k]@),
            views_of(out@).to_multiset().add(views_of(rest@).to_multiset()) == views_of(
                orig,
            ).to_multiset(),
        decreases rest@.len(),
    {
        let mut best: usize = 0;
        let mut best_key = sweet_spot_distance(&rest[0]);
        let mut j: usize = 1;
        while j < rest.len()
            invariant
                rest@.len() > 0,
                best < rest@.len(),
                j <= rest@.len(),
            decreases rest@.len() - j,
        {
            let kj = sweet_spot_distance(&rest[j]);
            if kj < best_key {
                best = j;
                best_key = kj;
            }
            j += 1;
        }
        let ghost pre = rest@;
        let ghost pre_out = out@;
        let w = rest.remove(best);
        out.push(w);
        proof {
            broadcast use vstd::seq_lib::group_to_multiset_ensures;
            broadcast use vstd::multiset::group_multiset_axioms;

            assert(w == pre[best as int]);
            assert(views_of(rest@) =~= views_of(pre).remove(best as int));
            assert(views_of(pre).remove(best as int).to_multiset() == views_of(
                pre,
            ).to_multiset().remove(w@));
            assert(views_of(out@) =~= views_of(pre_out).push(w@));
            assert(views_of(pre_out).push(w@).to_multiset() =~= views_of(
                pre_out,
            ).to_multiset().insert(w@));
            assert(views_of(pre).contains(w@)) by {
                assert(views_of(pre)[best as int] == w@);
            }
            assert(views_of(pre).to_multiset().count(w@) > 0);
            assert(views_of(out@).to_multiset().add(views_of(rest@).to_multiset()) =~= views_of(
                orig,
            ).to_multiset()) by {
                assert forall|y: Seq<u8>|
                    #[trigger] views_of(out@).to_multiset().add(
                        views_of(rest@).to_multiset(),
                    ).count(y) == views_of(orig).to_multiset().count(y) by {
                    let a = views_of(pre_out).to_multiset();
                    let b = views_of(pre).to_multiset();
                    assert(views_of(out@).to_multiset().count(y) == a.insert(w@).count(y));
                    assert(views_of(rest@).to_multiset().count(y) == b.remove(w@).count(y));
                    assert(a.add(b).count(y) == views_of(orig).to_multiset().count(y));
                }
            }
            assert forall|k: int| 0 <= k < rest@.len() implies #[trigger] from_words(
                orig,
                rest@[k]@,
            ) by {
                if k < best {
                    assert(rest@[k] == pre[k]);
                    assert(from_words(orig, pre[k]@));
                } else {
                    assert(rest@[k] == pre[k + 1]);
                    assert(from_words(orig, pre[k + 1]@));
                }
            }
            assert forall|k: int| 0 <= k < out@.len() implies #[trigger] from_words(
                orig,
                out@[k]@,
            ) by {
                if k < pre_out.len() {
                    assert(out@[k] == pre_out[k]);
                    assert(from_words(orig, pre_out[k]@));
                } else {
                    assert(out@[k] == w);
                    assert(from_words(orig, pre[best as int]@));
                }
            }
        }
    }
    out
}

/// The words that the dictionary lines contribute, normalized and read as
/// alphabet offsets.
pub open spec fn dict_words(lines: Seq<Vec<u8>>) -> Set<Seq<int>> {
    Set::new(
        |q: Seq<int>|
            exists|li: int, w: Seq<u8>|
                0 <= li < lines.len() && #[trigger] words_spec(
                    filter_spec(lines[li]@),
                ).contains(w) && q == trie::key_offsets(w, 97),
    )
}

/// The offset sequences of the first `n` listed words.
spec fn offsets_of_first(ws: Seq<Vec<u8>>, n: int) -> Set<Seq<int>> {
    Set::new(
        |q: Seq<int>|
            exists|m: int| #![trigger ws[m]] 0 <= m < n && q == trie::key_offsets(ws[m]@, 97),
    )
}

/// Every word of the normalized input, translated through table `t`, is a
/// dictionary word, except for the listed skipped words.
pub open spec fn words_resolved(
    lines: Seq<Vec<u8>>,
    t: Seq<u8>,
    input: Seq<u8>,
    skipped: Seq<Seq<u8>>,
) -> bool {
    forall|w: Seq<u8>|
        #[trigger] words_spec(filter_spec(input)).contains(w) ==> skipped.contains(w)
            || dict_words(lines).contains(trie::key_offsets(apply_table_seq(t, w), 97))
}

/// Deciphers `input` using brute force, statistics about the English
/// language and the given dictionary, with an explicit budget of words that
/// may stay unresolved.  The dictionary is the normalized words of
/// `dict_lines`.  On success the result is the normalized input with its
/// letters substituted through the injective partial key the search settled
/// on; whitespace passes through unchanged, so the spacing of the input is
/// kept.  An input without letters is returned normalized, as it is.
pub fn decrypt_with_budget(input: &[u8], dict_lines: &Vec<Vec<u8>>, skip_budget: usize) -> (r:
    Result<Vec<u8>, Error>)
    requires
        input@.len() < usize::MAX,
    ensures
        match r {
            Ok(out) => {
                &&& exists|t: Seq<u8>|
                    {
                        &&& #[trigger] partial_table(t)
                        &&& out@ == apply_table_seq(t, filter_spec(input@))
                        &&& exists|skipped: Seq<Seq<u8>>|
                            {
                                &&& #[trigger] skipped.len() <= skip_budget
                                &&& words_resolved(dict_lines@, t, input@, skipped)
                            }
                    }
                &&& ((forall|k: int|
                    0 <= k < filter_spec(input@).len() ==> !is_letter(
                        #[trigger] filter_spec(input@)[k],
                    )) ==> out@ == filter_spec(input@))
                &&& !(dict_lines@.len() == 0 && skip_budget == 0 && exists|k: int|
                    0 <= k < filter_spec(input@).len() && is_letter(
                        #[trigger] filter_spec(input@)[k],
                    ))
            },
            Err(e) => {
                &&& e == Error::SearchExhausted
                &&& exists|k: int|
                    0 <= k < filter_spec(input@).len() && is_letter(
                        #[trigger] filter_spec(input@)[k],
                    )
            },
        },
{
    // Build the dictionary of valid words
    let mut dict: trie::TrieSet<26, 97> = trie::TrieSet::new();
    let nl = dict_lines.len();
    let mut li: usize = 0;
    proof {
        assert(dict.words() =~= dict_words(dict_lines@.take(0)));
    }
    while li < nl
        invariant
            li <= nl,
            nl == dict_lines@.len(),
            dict.wf(),
            dict.words() == dict_words(dict_lines@.take(li as int)),
            nl == 0 ==> dict.words() == Set::<Seq<int>>::empty() && dict.paths() == Set::<Seq<
                int,
            >>::empty().insert(Seq::<int>::empty()),
        decreases nl - li,
    {
        let line = filter_input(dict_lines[li].as_slice());
        proof {
            lemma_filter_spec_content(dict_lines@[li as int]@);
        }
        let lws = split_words(&line);
        let nw = lws.len();
        let mut wi: usize = 0;
        proof {
            assert(dict.words() =~= dict_words(dict_lines@.take(li as int)).union(
                offsets_of_first(lws@, 0),
            ));
        }
        while wi < nw
            invariant
                wi <= nw,
                nw == lws@.len(),
                li < nl,
                nl == dict_lines@.len(),
                dict.wf(),
                forall|k: int| 0 <= k < lws@.len() ==> word_letters(#[trigger] lws@[k]@),
                dict.words() == dict_words(dict_lines@.take(li as int)).union(
                    offsets_of_first(lws@, wi as int),
                ),
            decreases nw - wi,
        {
            let ghost pre_words = dict.words();
            match dict.insert(lws[wi].as_slice()) {
                Ok(()) => {},
                Err(_) => {
                    proof {
                        let t = choose|t: int|
                            0 <= t < lws@[wi as int]@.len() && !trie::offset_in_alphabet(
                                trie::key_offset(#[trigger] lws@[wi as int]@[t], 97),
                                26,
                            );
                        assert(is_letter(lws@[wi as int]@[t]));
                        assert(false);
                    }
                },
            }
            wi += 1;
            proof {
                let q0 = trie::key_offsets(lws@[wi - 1]@, 97);
                assert(dict.words() == pre_words.insert(q0));
                assert(dict.words() =~= dict_words(dict_lines@.take(li as int)).union(
                    offsets_of_first(lws@, wi as int),
                )) by {
                    assert forall|q: Seq<int>|
                        #[trigger] offsets_of_first(lws@, wi as int).contains(q) implies q == q0
                        || offsets_of_first(lws@, wi - 1).contains(q) by {
                        let m = choose|m: int| #![trigger lws@[m]]
                            0 <= m < wi && q == trie::key_offsets(lws@[m]@, 97);
                        if m < wi - 1 {
                            assert(offsets_of_first(lws@, wi - 1).contains(q));
                        }
                    }
                    assert(offsets_of_first(lws@, wi as int).contains(q0)) by {
                        assert(0 <= wi - 1 < wi && q0 == trie::key_offsets(lws@[wi - 1]@, 97));
                    }
                    assert forall|q: Seq<int>|
                        #[trigger] offsets_of_first(lws@, wi - 1).contains(q) implies
                        offsets_of_first(lws@, wi as int).contains(q) by {
                        let m = choose|m: int| #![trigger lws@[m]]
                            0 <= m < wi - 1 && q == trie::key_offsets(lws@[m]@, 97);
                    }
                }
            }
        }
        li += 1;
        proof {
            let lines = dict_lines@;
            let lseq = lines[li - 1]@;
            assert(line@ == filter_spec(lseq));
            assert(views_of(lws@) == words_spec(filter_spec(lseq)));
            assert(dict.words() =~= dict_words(lines.take(li as int))) by {
                assert forall|q: Seq<int>| #[trigger] dict_words(
                    lines.take(li as int),
                ).contains(q) implies dict.words().contains(q) by {
                    let (li2, w) = choose|li2: int, w: Seq<u8>|
                        0 <= li2 < li && #[trigger] words_spec(
                            filter_spec(lines.take(li as int)[li2]@),
                        ).contains(w) && q == trie::key_offsets(w, 97);
                    assert(lines.take(li as int)[li2] == lines[li2]);
                    if li2 < li - 1 {
                        assert(lines.take(li - 1)[li2] == lines[li2]);
                        assert(dict_words(lines.take(li - 1)).contains(q));
                    } else {
                        assert(words_spec(filter_spec(lseq)).contains(w));
                        let m = choose|m: int|
                            0 <= m < views_of(lws@).len() && #[trigger] views_of(lws@)[m] == w;
                        assert(lws@[m]@ == w);
                        assert(offsets_of_first(lws@, nw as int).contains(q));
                    }
                }
                assert forall|q: Seq<int>| #[trigger] dict.words().contains(q) implies dict_words(
                    lines.take(li as int),
                ).contains(q) by {
                    if dict_words(lines.take(li - 1)).contains(q) {
                        let (li2, w) = choose|li2: int, w: Seq<u8>|
                            0 <= li2 < li - 1 && #[trigger] words_spec(
                                filter_spec(lines.take(li - 1)[li2]@),
                            ).contains(w) && q == trie::key_offsets(w, 97);
                        assert(lines.take(li - 1)[li2] == lines[li2]);
                        assert(lines.take(li as int)[li2] == lines[li2]);
                        assert(words_spec(filter_spec(lines.take(li as int)[li2]@)).contains(w));
                    } else {
                        assert(offsets_of_first(lws@, nw as int).contains(q));
                        let m = choose|m: int| #![trigger lws@[m]]
                            0 <= m < nw && q == trie::key_offsets(lws@[m]@, 97);
                        let w = lws@[m]@;
                        assert(views_of(lws@)[m] == w);
                        assert(words_spec(filter_spec(lseq)).contains(w));
                        assert(lines.take(li as int)[li - 1] == lines[li - 1]);
                    }
                }
            }
        }
    }
    proof {
        assert(dict_lines@.take(nl as int) =~= dict_lines@);
    }
    // Normalize the input and cut it into words
    let filtered = filter_input(input);
    proof {
        lemma_filter_spec_content(input@);
        lemma_filter_spec_len(input@);
    }
    let words0 = split_words(&filtered);
    if words0.len() == 0 {
        // Nothing to resolve: the normalized text passes through untouched
        proof {
            let zt = Seq::new(26, |i: int| 0u8);
            assert(partial_table(zt));
            assert(filtered@ =~= apply_table_seq(zt, filter_spec(input@))) by {
                assert forall|k: int| 0 <= k < filter_spec(input@).len() implies apply_table_seq(
                    zt,
                    filter_spec(input@),
                )[k] == filtered@[k] by {
                    assert(zt[filter_spec(input@)[k] as int - 97] == 0 || !is_letter(
                        filter_spec(input@)[k],
                    ));
                }
            }
            let skipped = Seq::<Seq<u8>>::empty();
            assert(skipped.len() <= skip_budget);
            assert(words_resolved(dict_lines@, zt, input@, skipped)) by {
                assert(views_of(words0@) =~= Seq::<Seq<u8>>::empty());
                assert(words_spec(filter_spec(input@)).len() == 0);
            }
        }
        return Ok(filtered);
    }
    let words = sort_words(words0);
    // Create a key for deciphering and run the recursive search
    let mut k = key::Key::new(filtered.as_slice(), key::english_freq_order());
    let mut chars_set: bitset::BitSet64<1> = bitset::BitSet64::new();
    let mut skip_words: Vec<Vec<u8>> = Vec::new();
    proof {
        assert forall|k2: int| 0 <= k2 < words@.len() implies word_letters(#[trigger] words@[k2]@)
            && words@[k2]@.len() < usize::MAX by {
            assert(from_words(words0@, words@[k2]@));
            let m = choose|m: int|
                0 <= m < words0@.len() && words@[k2]@ == #[trigger] words0@[m]@;
            assert(word_letters(words0@[m]@));
        }
    }
    match solver::decrypt_words(&words, 0, &mut k, &mut chars_set, &dict, &mut skip_words,
        skip_budget) {
        Ok(()) => {
            let mut out = filtered;
            k.translate(&mut out);
            proof {
                broadcast use vstd::seq_lib::group_to_multiset_ensures;

                assert(partial_table(k.tbl()));
                assert(out@ =~= apply_table_seq(k.tbl(), filter_spec(input@)));
                let skipped = views_of(skip_words@);
                assert(skipped.len() <= skip_budget);
                assert(words_resolved(dict_lines@, k.tbl(), input@, skipped)) by {
                    assert forall|w: Seq<u8>|
                        #[trigger] words_spec(filter_spec(input@)).contains(w) implies
                        skipped.contains(w) || dict_words(dict_lines@).contains(
                        trie::key_offsets(apply_table_seq(k.tbl(), w), 97),
                    ) by {
                        assert(views_of(words0@).contains(w));
                        assert(views_of(words0@).to_multiset().count(w) > 0);
                        assert(views_of(words@).to_multiset().count(w) > 0);
                        assert(views_of(words@).contains(w));
                        let k2 = choose|k2: int|
                            0 <= k2 < views_of(words@).len() && #[trigger] views_of(words@)[k2]
                                == w;
                        assert(words@[k2]@ == w);
                        if solver::listed(skip_words@, words@[k2]@) {
                            let m = choose|m: int|
                                0 <= m < skip_words@.len() && #[trigger] skip_words@[m]@ == w;
                            assert(skipped[m] == w);
                        } else {
                            assert(dict.words().contains(
                                trie::key_offsets(apply_table_seq(k.tbl(), words@[k2]@), 97),
                            ));
                        }
                    }
                }
            }
            Ok(out)
        },
        Err(()) => Err(Error::SearchExhausted),
    }
}

/// Deciphers the string `input` using brute force, statistics about the
/// English language and the given dictionary `dict_lines`, allowing one in
/// every ten words of the input to stay unresolved in case they are missing
/// from the dictionary.
pub fn decrypt(input: &[u8], dict_lines: &Vec<Vec<u8>>) -> (r: Result<Vec<u8>, Error>)
    requires
        input@.len() < usize::MAX,
    ensures
        match r {
            Ok(out) => {
                &&& exists|t: Seq<u8>|
                    {
                        &&& #[trigger] partial_table(t)
                        &&& out@ == apply_table_seq(t, filter_spec(input@))
                        &&& exists|skipped: Seq<Seq<u8>>|
                            {
                                &&& #[trigger] skipped.len() <= words_spec(filter_spec(input@)).len() / 10
                                &&& words_resolved(dict_lines@, t, input@, skipped)
                            }
                    }
                &&& ((forall|k: int|
                    0 <= k < filter_spec(input@).len() ==> !is_letter(
                        #[trigger] filter_spec(input@)[k],
                    )) ==> out@ == filter_spec(input@))
                &&& !(dict_lines@.len() == 0 && filter_spec(input@).len() < 10 && exists|k: int|
                    0 <= k < filter_spec(input@).len() && is_letter(
                        #[trigger] filter_spec(input@)[k],
                    ))
            },
            Err(e) => {
                &&& e == Error::SearchExhausted
                &&& exists|k: int|
                    0 <= k < filter_spec(input@).len() && is_letter(
                        #[trigger] filter_spec(input@)[k],
                    )
            },
        },
{
    let filtered = filter_input(input);
    let words = split_words(&filtered);
    let budget = words.len() / 10;
    proof {
        lemma_filter_spec_len(input@);
        if filter_spec(input@).len() < 10 {
            assert(words@.len() < 10);
            assert(budget == 0);
        }
        assert(views_of(words@).len() == words@.len());
        assert(budget == words_spec(filter_spec(input@)).len() / 10);
    }
    decrypt_with_budget(input, dict_lines, budget)
}

} // verus!
