//! Anagram signatures: a word's canonical key is its characters sorted by
//! code point. Two words share a signature exactly when they are character
//! permutations of each other.

use vstd::prelude::*;
use vstd::relations::{sorted_by, total_ordering};
use vstd::seq_lib::lemma_sorted_unique;
use crate::text::{char_le, char_leq};

verus! {

/// Inserts `c` into an already sorted sequence, keeping it sorted.
pub open spec fn insert_sorted(c: char, s: Seq<char>) -> Seq<char>
    decreases s.len(),
{
    if s.len() == 0 {
        seq![c]
    } else if c as u32 <= s[0] as u32 {
        seq![c] + s
    } else {
        seq![s[0]] + insert_sorted(c, s.drop_first())
    }
}

/// The canonical signature of a word: its characters sorted by code point.
pub open spec fn sig_spec(w: Seq<char>) -> Seq<char>
    decreases w.len(),
{
    if w.len() == 0 {
        Seq::empty()
    } else {
        insert_sorted(w[0], sig_spec(w.drop_first()))
    }
}

/// The character order used by signatures is a total order.
pub proof fn lemma_char_le_total()
    ensures
        total_ordering(char_leq()),
{
    let leq = char_leq();
    assert forall|a: char, b: char| #[trigger] leq(a, b) && #[trigger] leq(b, a) implies a == b by {
        assert(a as u32 == b as u32);
        lemma_char_code_injective(a, b);
    }
    assert forall|a: char, b: char| true implies #[trigger] leq(a, b) || #[trigger] leq(b, a) by {
        assert(a as u32 <= b as u32 || b as u32 <= a as u32);
    }
}

/// Characters with equal code points are equal.
pub proof fn lemma_char_code_injective(a: char, b: char)
    requires
        a as u32 == b as u32,
    ensures
        a == b,
{
}

pub proof fn lemma_insert_sorted_ensures(c: char, s: Seq<char>)
    requires
        sorted_by(s, char_leq()),
    ensures
        sorted_by(insert_sorted(c, s), char_leq()),
        insert_sorted(c, s).to_multiset() == s.to_multiset().insert(c),
        insert_sorted(c, s).len() == s.len() + 1,
    decreases s.len(),
{
    broadcast use vstd::seq_lib::group_to_multiset_ensures;
    broadcast use vstd::multiset::group_multiset_axioms;

    let leq = char_leq();
    if s.len() == 0 {
        assert(insert_sorted(c, s) =~= seq![c]);
        assert(seq![c].to_multiset() =~= s.to_multiset().insert(c));
    } else if c as u32 <= s[0] as u32 {
        let r = seq![c] + s;
        assert(r.drop_first() =~= s);
        assert forall|i: int, j: int| 0 <= i < j < r.len() implies leq(r[i], r[j]) by {
            if i == 0 {
                if j > 1 {
                    assert(leq(s[0], s[j - 1]));
                }
            } else {
                assert(leq(s[i - 1], s[j - 1]));
            }
        }
        assert(r.to_multiset() =~= s.to_multiset().insert(c)) by {
            assert(r =~= s.insert(0, c));
            vstd::seq_lib::to_multiset_insert(s, 0, c);
        }
    } else {
        let rest = insert_sorted(c, s.drop_first());
        let r = seq![s[0]] + rest;
        assert(sorted_by(s.drop_first(), leq)) by {
            assert forall|i: int, j: int| 0 <= i < j < s.drop_first().len() implies leq(
                s.drop_first()[i],
                s.drop_first()[j],
            ) by {
                assert(leq(s[i + 1], s[j + 1]));
            }
        }
        lemma_insert_sorted_ensures(c, s.drop_first());
        // every element of rest is >= s[0]
        assert forall|i: int, j: int| 0 <= i < j < r.len() implies leq(r[i], r[j]) by {
            if i == 0 {
                let x = rest[j - 1];
                assert(rest.to_multiset().contains(x));
                if x == c {
                    assert(leq(s[0], c));
                } else {
                    assert(s.drop_first().to_multiset().contains(x));
                    let k = choose|k: int|
                        0 <= k < s.drop_first().len() && s.drop_first()[k] == x;
                    assert(leq(s[0], s[k + 1]));
                }
            } else {
                assert(leq(rest[i - 1], rest[j - 1]));
            }
        }
        assert(r.to_multiset() =~= s.to_multiset().insert(c)) by {
            assert(rest.insert(0, s[0]) =~= r);
            vstd::seq_lib::to_multiset_insert(rest, 0, s[0]);
            assert(s.drop_first().insert(0, s[0]) =~= s);
            vstd::seq_lib::to_multiset_insert(s.drop_first(), 0, s[0]);
        }
    }
}

pub proof fn lemma_sig_spec_ensures(w: Seq<char>)
    ensures
        sorted_by(sig_spec(w), char_leq()),
        sig_spec(w).to_multiset() == w.to_multiset(),
        sig_spec(w).len() == w.len(),
    decreases w.len(),
{
    broadcast use vstd::seq_lib::group_to_multiset_ensures;
    broadcast use vstd::multiset::group_multiset_axioms;

    if w.len() == 0 {
        assert(sig_spec(w).to_multiset() =~= w.to_multiset());
    } else {
        lemma_sig_spec_ensures(w.drop_first());
        lemma_insert_sorted_ensures(w[0], sig_spec(w.drop_first()));
        assert(w.drop_first().insert(0, w[0]) =~= w);
        vstd::seq_lib::to_multiset_insert(w.drop_first(), 0, w[0]);
    }
}

/// Two words have the same signature exactly when they are character
/// permutations of each other (their character multisets agree).
pub proof fn lemma_signature_characterizes_anagrams(w1: Seq<char>, w2: Seq<char>)
    ensures
        sig_spec(w1) == sig_spec(w2) <==> w1.to_multiset() == w2.to_multiset(),
{
    lemma_sig_spec_ensures(w1);
    lemma_sig_spec_ensures(w2);
    lemma_char_le_total();
    if w1.to_multiset() == w2.to_multiset() {
        lemma_sorted_unique(sig_spec(w1), sig_spec(w2), char_leq());
    }
}

/// Computes the canonical signature of a word: its characters sorted by
/// code point, concatenated.
pub fn signature(word: &String) -> (r: String)
    ensures
        r@ == sig_spec(word@),
{
    let cs = crate::text::chars_of(word.as_str());
    let mut sorted: Vec<char> = Vec::new();
    let mut i: usize = cs.len();
    proof {
        assert(cs@.skip(i as int) =~= Seq::<char>::empty());
    }
    while i > 0
        invariant
            i <= cs@.len(),
            cs@ == word@,
            sorted@ == sig_spec(cs@.skip(i as int)),
        decreases i,
    {
        i = i - 1;
        let c = cs[i];
        insert_char_sorted(&mut sorted, c);
        proof {
            assert(cs@.skip(i as int).drop_first() =~= cs@.skip(i as int + 1));
            assert(cs@.skip(i as int)[0] == cs@[i as int]);
        }
    }
    proof {
        assert(cs@.skip(0) =~= cs@);
    }
    crate::text::string_of(&sorted)
}

/// Inserts a character into a vector that holds a sorted signature prefix.
fn insert_char_sorted(v: &mut Vec<char>, c: char)
    ensures
        final(v)@ == insert_sorted(c, old(v)@),
{
    let mut j: usize = 0;
    while j < v.len() && (v[j] as u32) < (c as u32)
        invariant
            j <= v@.len(),
            v@ == old(v)@,
            forall|k: int| 0 <= k < j ==> (v@[k] as u32) < (c as u32),
        decreases v@.len() - j,
    {
        j = j + 1;
    }
    v.insert(j, c);
    proof {
        lemma_insert_sorted_at(c, old(v)@, j as int);
        assert(v@ =~= old(v)@.take(j as int) + seq![c] + old(v)@.skip(j as int)) by {
            assert(v@ =~= old(v)@.insert(j as int, c));
        }
    }
}

/// Inserting at the first position whose element is not below `c` agrees
/// with the recursive definition of `insert_sorted`.
proof fn lemma_insert_sorted_at(c: char, s: Seq<char>, j: int)
    requires
        0 <= j <= s.len(),
        forall|k: int| 0 <= k < j ==> (s[k] as u32) < (c as u32),
        j < s.len() ==> (c as u32) <= (s[j] as u32),
    ensures
        insert_sorted(c, s) == s.take(j) + seq![c] + s.skip(j),
    decreases s.len(),
{
    if s.len() == 0 {
        assert(insert_sorted(c, s) =~= s.take(j) + seq![c] + s.skip(j));
    } else if j == 0 {
        assert(insert_sorted(c, s) =~= s.take(0) + seq![c] + s.skip(0));
    } else {
        assert((s[0] as u32) < (c as u32));
        lemma_insert_sorted_at(c, s.drop_first(), j - 1);
        assert(s.drop_first().take(j - 1) =~= s.take(j).drop_first());
        assert(s.drop_first().skip(j - 1) =~= s.skip(j));
        assert(seq![s[0]] + (s.take(j).drop_first() + seq![c] + s.skip(j)) =~= s.take(j)
            + seq![c] + s.skip(j));
    }
}

/// A class of anagrams: the words that share one signature.
/// Invariant: `members` is non-empty, strictly sorted in code-point
/// lexicographic order, and every member's signature equals `signature`.
#[derive(Debug)]
pub struct Class {
    pub signature: String,
    pub members: Vec<String>,
}

impl Class {
    /// Well-formedness of a class.
    pub open spec fn wf(&self) -> bool {
        &&& self.members@.len() > 0
        &&& forall|i: int, j: int|
            0 <= i < j < self.members@.len() ==> crate::text::lex_lt(
                self.members@[i]@,
                self.members@[j]@,
            )
        &&& forall|i: int|
            0 <= i < self.members@.len() ==> sig_spec(#[trigger] self.members@[i]@)
                == self.signature@
    }
}

} // verus!
