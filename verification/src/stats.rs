//! Letter statistics: occurrence counts and frequency ranks.

use vstd::prelude::*;

verus! {

use crate::is_letter;
use crate::key::apply_table;

/// Number of occurrences of byte `b` in `s`.
pub open spec fn count_occ(s: Seq<u8>, b: u8) -> nat
    decreases s.len(),
{
    if s.len() == 0 {
        0
    } else {
        count_occ(s.drop_last(), b) + (if s.last() == b {
            1nat
        } else {
            0nat
        })
    }
}

/// Counting one more element of `s` raises at most the count of that element.
pub proof fn lemma_count_take_step(s: Seq<u8>, i: int, b: u8)
    requires
        0 <= i < s.len(),
    ensures
        count_occ(s.take(i + 1), b) == count_occ(s.take(i), b) + (if s[i] == b {
            1nat
        } else {
            0nat
        }),
{
    assert(s.take(i + 1).drop_last() =~= s.take(i));
    assert(s.take(i + 1).last() == s[i]);
}

/// Letter index `d` is ranked before letter index `c` when its letter occurs
/// more often in `s`, or equally often with `d` the smaller index.
pub open spec fn beats(s: Seq<u8>, d: int, c: int) -> bool {
    count_occ(s, (d + 97) as u8) > count_occ(s, (c + 97) as u8) || (count_occ(s, (d + 97) as u8)
        == count_occ(s, (c + 97) as u8) && d < c)
}

/// How many letter indices below `upto` are ranked before `c`.
pub open spec fn rank_count(s: Seq<u8>, c: int, upto: int) -> int
    decreases upto,
{
    if upto <= 0 {
        0
    } else {
        rank_count(s, c, upto - 1) + if beats(s, upto - 1, c) {
            1int
        } else {
            0int
        }
    }
}

/// The rank of letter index `c` when the letters are ordered by descending
/// occurrence count in `s`, ties broken by letter identity.
pub open spec fn input_rank_spec(s: Seq<u8>, c: int) -> int {
    rank_count(s, c, 26)
}

/// No index beats itself, so ranks lie strictly below the alphabet size.
proof fn lemma_rank_count_bound(s: Seq<u8>, c: int, upto: int)
    requires
        0 <= upto,
    ensures
        0 <= rank_count(s, c, upto),
        rank_count(s, c, upto) <= upto,
        0 <= c < upto ==> rank_count(s, c, upto) < upto,
    decreases upto,
{
    if upto > 0 {
        lemma_rank_count_bound(s, c, upto - 1);
        assert(!beats(s, c, c));
    }
}

/// Input frequency ranks fit the alphabet.
pub proof fn lemma_input_rank_bound(s: Seq<u8>, c: int)
    requires
        0 <= c < 26,
    ensures
        0 <= input_rank_spec(s, c) < 26,
{
    lemma_rank_count_bound(s, c, 26);
}


/// A partial substitution table: 26 entries, each a letter or the unset
/// sentinel 0, and no two observed letters sharing a non-zero entry.
pub open spec fn partial_table(t: Seq<u8>) -> bool {
    &&& t.len() == 26
    &&& forall|i: int| 0 <= i < 26 ==> (#[trigger] t[i] == 0 || is_letter(t[i]))
    &&& forall|i: int, j: int|
        0 <= i < 26 && 0 <= j < 26 && i != j && #[trigger] t[i] != 0 ==> t[i] != #[trigger] t[j]
}

/// A full substitution table: 26 entries, each a letter, no two alike, and
/// every letter reached.
pub open spec fn full_table(t: Seq<u8>) -> bool {
    &&& t.len() == 26
    &&& forall|i: int| 0 <= i < 26 ==> is_letter(#[trigger] t[i])
    &&& forall|i: int, j: int| 0 <= i < j < 26 ==> t[i] != t[j]
    &&& forall|g: u8| is_letter(g) ==> exists|i: int| 0 <= i < 26 && #[trigger] t[i] == g
}

/// The whole sequence `s`, byte for byte, after substitution through `t`.
pub open spec fn apply_table_seq(t: Seq<u8>, s: Seq<u8>) -> Seq<u8> {
    s.map_values(|b: u8| apply_table(t, b))
}

/// The per-letter occurrence counts of `s`, indexed by letter.
pub open spec fn letter_counts(s: Seq<u8>) -> Seq<nat> {
    Seq::new(26, |c: int| count_occ(s, (c + 97) as u8))
}

/// The observed letter whose table entry is the guess letter `j + 97`.
pub open spec fn table_preimage(t: Seq<u8>, j: int) -> int {
    choose|c: int| 0 <= c < 26 && t[c] == (j + 97) as u8
}

/// Substituting through a full table turns occurrences of letter `c` into
/// occurrences of its table entry, one for one.
proof fn lemma_count_apply(t: Seq<u8>, s: Seq<u8>, c: u8)
    requires
        full_table(t),
        is_letter(c),
    ensures
        count_occ(apply_table_seq(t, s), t[c as int - 97]) == count_occ(s, c),
    decreases s.len(),
{
    let g = t[c as int - 97];
    if s.len() == 0 {
        assert(apply_table_seq(t, s).len() == 0);
    } else {
        let s0 = s.drop_last();
        let b = s.last();
        lemma_count_apply(t, s0, c);
        assert(apply_table_seq(t, s0) =~= apply_table_seq(t, s).drop_last());
        assert(apply_table_seq(t, s).last() == apply_table(t, b));
        if is_letter(b) {
            assert(t[b as int - 97] != 0) by {
                assert(is_letter(t[b as int - 97]));
            }
            assert(apply_table(t, b) == t[b as int - 97]);
            if b != c {
                assert(t[b as int - 97] != g);
            }
        } else {
            assert(apply_table(t, b) == b);
            assert(b != g) by {
                assert(is_letter(g));
            }
            assert(b != c);
        }
    }
}

/// Rearranging a sequence along an injective index map leaves its multiset
/// of elements unchanged.
pub proof fn lemma_rearranged_multiset<A>(s1: Seq<A>, s2: Seq<A>, sigma: Seq<int>)
    requires
        s1.len() == s2.len(),
        sigma.len() == s1.len(),
        forall|i: int| 0 <= i < sigma.len() ==> 0 <= #[trigger] sigma[i] < s1.len(),
        forall|i: int, j: int| 0 <= i < j < sigma.len() ==> sigma[i] != sigma[j],
        forall|i: int| 0 <= i < s2.len() ==> #[trigger] s2[i] == s1[sigma[i]],
    ensures
        s2.to_multiset() == s1.to_multiset(),
    decreases s1.len(),
{
    broadcast use vstd::seq_lib::group_to_multiset_ensures;
    broadcast use vstd::multiset::group_multiset_axioms;

    if s1.len() == 0 {
        assert(s1 =~= s2);
    } else {
        let n = s1.len() as int;
        let j = sigma[n - 1];
        let x = s2[n - 1];
        let s1r = s1.remove(j);
        let s2r = s2.drop_last();
        let sigma2 = Seq::new((n - 1) as nat, |i: int| if sigma[i] > j {
            sigma[i] - 1
        } else {
            sigma[i]
        });
        assert(s2r =~= s2.remove(n - 1));
        assert forall|i: int| 0 <= i < sigma2.len() implies 0 <= #[trigger] sigma2[i] < s1r.len()
            && s2r[i] == s1r[sigma2[i]] by {
            assert(sigma[i] != j);
            if sigma[i] > j {
                assert(s1r[sigma[i] - 1] == s1[sigma[i]]);
            } else {
                assert(s1r[sigma[i]] == s1[sigma[i]]);
            }
        }
        assert forall|i1: int, i2: int| 0 <= i1 < i2 < sigma2.len() implies sigma2[i1]
            != sigma2[i2] by {
            assert(sigma[i1] != sigma[i2]);
            assert(sigma[i1] != j && sigma[i2] != j);
        }
        lemma_rearranged_multiset(s1r, s2r, sigma2);
        assert(s1r.to_multiset() == s1.to_multiset().remove(s1[j]));
        assert(s2r.to_multiset() == s2.to_multiset().remove(x));
        assert(s1[j] == x);
        assert(s1.contains(x)) by {
            assert(s1[j] == x);
        }
        assert(s2.contains(x)) by {
            assert(s2[n - 1] == x);
        }
        assert(s1.to_multiset().count(x) > 0);
        assert(s2.to_multiset().count(x) > 0);
        assert(s2.to_multiset() =~= s1.to_multiset()) by {
            assert forall|y: A| #[trigger] s2.to_multiset().count(y) == s1.to_multiset().count(
                y,
            ) by {
                assert(s2.to_multiset().remove(x).count(y) == s1.to_multiset().remove(x).count(y));
                if y == x {
                    assert(s2.to_multiset().remove(x).count(x) == s2.to_multiset().count(x) - 1);
                    assert(s1.to_multiset().remove(x).count(x) == s1.to_multiset().count(x) - 1);
                } else {
                    assert(s2.to_multiset().remove(x).count(y) == s2.to_multiset().count(y));
                    assert(s1.to_multiset().remove(x).count(y) == s1.to_multiset().count(y));
                }
            }
        }
    }
}

/// Frequency-histogram invariant: substituting a text through a full table
/// permutes its per-letter occurrence counts, so the multiset of counts is
/// unchanged.
pub proof fn lemma_histogram_preserved(t: Seq<u8>, s: Seq<u8>)
    requires
        full_table(t),
    ensures
        letter_counts(apply_table_seq(t, s)).to_multiset() == letter_counts(s).to_multiset(),
{
    let out = apply_table_seq(t, s);
    let sigma = Seq::new(26, |j: int| table_preimage(t, j));
    assert forall|j: int| 0 <= j < 26 implies {
        &&& 0 <= #[trigger] sigma[j] < 26
        &&& t[sigma[j]] == (j + 97) as u8
        &&& letter_counts(out)[j] == letter_counts(s)[sigma[j]]
    } by {
        assert(is_letter((j + 97) as u8));
        assert(exists|c: int| 0 <= c < 26 && #[trigger] t[c] == (j + 97) as u8);
        let c = table_preimage(t, j);
        assert(0 <= c < 26 && t[c] == (j + 97) as u8);
        lemma_count_apply(t, s, (c + 97) as u8);
        assert(count_occ(out, (j + 97) as u8) == count_occ(s, (c + 97) as u8));
    }
    assert forall|j1: int, j2: int| 0 <= j1 < j2 < 26 implies sigma[j1] != sigma[j2] by {
        assert(t[sigma[j1]] != t[sigma[j2]]);
    }
    lemma_rearranged_multiset(letter_counts(s), letter_counts(out), sigma);
}

} // verus!
