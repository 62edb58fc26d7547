//! The anagram-class graph: ingestion of words into labelled classes,
//! construction of single-insertion edges, and the read-only analyses
//! (reachability counts and statistics) over the finished graph.

use vstd::prelude::*;
use crate::anagram::{Class, sig_spec, signature, lemma_sig_spec_ensures};
use crate::text::{lex_lt, lemma_lex_trichotomy};

verus! {

/// A directed edge: inserting `symbol` into the source class's signature
/// yields the signature of class `to`.
#[derive(Debug)]
pub struct Edge {
    pub to: usize,
    pub symbol: char,
}

/// The one recoverable failure: a word held a character outside the
/// alphabet. Carries the offending character and the whole word.
#[derive(Debug)]
pub struct Error {
    pub symbol: char,
    pub word: String,
}

/// The anagram-class graph. Built in two phases: words are ingested with
/// `add_word`, then `compute_edges` derives the adjacency lists once; after
/// that the graph is read-only.
#[derive(Debug)]
pub struct Graph {
    /// The symbols words may be composed of.
    pub alphabet: Vec<char>,
    /// The class to which a label maps; a label is an index into this vector.
    pub to_class: Vec<Class>,
    /// Outgoing edges of each class, indexed by label.
    pub adjacent: Vec<Vec<Edge>>,
}

/// The lowercase ASCII alphabet, in order.
pub open spec fn ascii_lower_seq() -> Seq<char> {
    Seq::new(26, |i: int| ((97 + i) as u8) as char)
}

/// A word is valid when all of its characters are drawn from the alphabet.
pub open spec fn valid_word(alpha: Seq<char>, w: Seq<char>) -> bool {
    forall|i: int| 0 <= i < w.len() ==> alpha.contains(#[trigger] w[i])
}

/// The member words of a class, as sequences of characters.
pub open spec fn member_views(c: Class) -> Seq<Seq<char>> {
    c.members@.map_values(|m: String| m@)
}

/// Inserts a word into a sorted, duplicate-free member list; inserting a
/// word that is already present changes nothing.
pub open spec fn insert_word(ms: Seq<Seq<char>>, w: Seq<char>) -> Seq<Seq<char>>
    decreases ms.len(),
{
    if ms.len() == 0 {
        seq![w]
    } else if w == ms[0] {
        ms
    } else if lex_lt(w, ms[0]) {
        seq![w] + ms
    } else {
        seq![ms[0]] + insert_word(ms.drop_first(), w)
    }
}

impl Graph {
    /// The number of classes, as a mathematical integer.
    pub open spec fn n(&self) -> int {
        self.to_class@.len() as int
    }

    /// The signature of the class with the given label.
    pub open spec fn sig(&self, l: int) -> Seq<char> {
        self.to_class@[l].signature@
    }

    /// Whether some class already carries the given signature.
    pub open spec fn has_sig(&self, s: Seq<char>) -> bool {
        exists|l: int| 0 <= l < self.n() && self.sig(l) == s
    }

    /// The label of the class carrying the given signature.
    pub open spec fn label_of(&self, s: Seq<char>) -> int {
        choose|l: int| 0 <= l < self.n() && self.sig(l) == s
    }

    /// Well-formedness of the class registry: the alphabet is the lowercase
    /// ASCII one, every class is internally consistent and over the
    /// alphabet, and no two classes share a signature.
    pub open spec fn wf_base(&self) -> bool {
        &&& self.alphabet@ == ascii_lower_seq()
        &&& forall|l: int| 0 <= l < self.n() ==> (#[trigger] self.to_class@[l]).wf()
        &&& forall|l: int|
            0 <= l < self.n() ==> valid_word(self.alphabet@, #[trigger] self.sig(l))
        &&& forall|l: int, i: int|
            0 <= l < self.n() && 0 <= i < member_views(self.to_class@[l]).len()
                ==> valid_word(self.alphabet@, #[trigger] member_views(self.to_class@[l])[i])
        &&& forall|l1: int, l2: int|
            0 <= l1 < l2 < self.n() ==> #[trigger] self.sig(l1) != #[trigger] self.sig(l2)
    }

    /// How one accepted word changes the registry: either the word joins
    /// the existing class of its signature (a duplicate changes nothing),
    /// or a fresh class with the next label is appended.
    pub open spec fn add_ok_rel(pre: Graph, post: Graph, w: Seq<char>) -> bool {
        &&& post.alphabet == pre.alphabet
        &&& post.adjacent == pre.adjacent
        &&& if pre.has_sig(sig_spec(w)) {
            let l = pre.label_of(sig_spec(w));
            &&& post.n() == pre.n()
            &&& forall|l2: int| 0 <= l2 < pre.n() && l2 != l ==> post.to_class@[l2] == pre.to_class@[l2]
            &&& post.to_class@[l].signature == pre.to_class@[l].signature
            &&& member_views(post.to_class@[l]) == insert_word(member_views(pre.to_class@[l]), w)
            &&& (member_views(pre.to_class@[l]).contains(w) ==> post.to_class@[l]
                == pre.to_class@[l])
        } else {
            &&& post.n() == pre.n() + 1
            &&& forall|l2: int| 0 <= l2 < pre.n() ==> post.to_class@[l2] == pre.to_class@[l2]
            &&& post.sig(pre.n()) == sig_spec(w)
            &&& member_views(post.to_class@[pre.n()]) == seq![w]
        }
    }

    /// Creates an empty graph over the lowercase ASCII alphabet.
    pub fn new_over_ascii() -> (g: Graph)
        ensures
            g.wf_base(),
            g.n() == 0,
            g.adjacent@.len() == 0,
    {
        let mut alphabet: Vec<char> = Vec::new();
        let mut i: usize = 0;
        while i < 26
            invariant
                i <= 26,
                alphabet@.len() == i,
                forall|k: int| 0 <= k < i ==> alphabet@[k] == ascii_lower_seq()[k],
            decreases 26 - i,
        {
            alphabet.push((97 + i as u8) as char);
            i = i + 1;
        }
        proof {
            assert(alphabet@ =~= ascii_lower_seq());
        }
        Graph { alphabet, to_class: Vec::new(), adjacent: Vec::new() }
    }

    /// The number of anagram classes.
    pub fn number_of_classes(&self) -> (r: usize)
        ensures
            r == self.n(),
    {
        self.to_class.len()
    }

    /// Whether the alphabet holds the given character.
    fn alphabet_contains(&self, c: char) -> (r: bool)
        ensures
            r == self.alphabet@.contains(c),
    {
        let mut i: usize = 0;
        while i < self.alphabet.len()
            invariant
                i <= self.alphabet@.len(),
                forall|k: int| 0 <= k < i ==> self.alphabet@[k] != c,
            decreases self.alphabet@.len() - i,
        {
            if self.alphabet[i] == c {
                return true;
            }
            i = i + 1;
        }
        false
    }

    /// Looks up the label already assigned to a signature, if any.
    fn find_label(&self, s: &String) -> (r: Option<usize>)
        ensures
            match r {
                Some(l) => 0 <= l < self.n() && self.sig(l as int) == s@,
                None => !self.has_sig(s@),
            },
    {
        let mut l: usize = 0;
        while l < self.to_class.len()
            invariant
                l <= self.n(),
                forall|k: int| 0 <= k < l ==> self.sig(k) != s@,
            decreases self.n() - l,
        {
            if self.to_class[l].signature.eq(s) {
                return Some(l);
            }
            l = l + 1;
        }
        None
    }

    /// Ingests one word: validates it against the alphabet, then files it
    /// under the class of its signature, allocating the next label for a
    /// signature seen for the first time. The empty word is accepted and
    /// forms a class of signature length zero.
    pub fn add_word(&mut self, word: String) -> (r: Result<(), Error>)
        requires
            old(self).wf_base(),
        ensures
            final(self).wf_base(),
            match r {
                Ok(()) => valid_word(old(self).alphabet@, word@) && Graph::add_ok_rel(
                    *old(self),
                    *final(self),
                    word@,
                ),
                Err(e) => {
                    &&& *final(self) == *old(self)
                    &&& e.word@ == word@
                    &&& exists|i: int|
                        0 <= i < word@.len() && !old(self).alphabet@.contains(word@[i])
                            && e.symbol == word@[i] && (forall|k: int|
                            0 <= k < i ==> old(self).alphabet@.contains(word@[k]))
                },
            },
    {
        // Validate every character against the alphabet.
        let n_chars = word.as_str().unicode_len();
        let mut i: usize = 0;
        while i < n_chars
            invariant
                n_chars == word@.len(),
                i <= n_chars,
                forall|k: int| 0 <= k < i ==> self.alphabet@.contains(#[trigger] word@[k]),
                *self == *old(self),
                old(self).wf_base(),
            decreases n_chars - i,
        {
            let c = word.as_str().get_char(i);
            if !self.alphabet_contains(c) {
                return Err(Error { symbol: c, word });
            }
            i = i + 1;
        }

        let sig = signature(&word);
        proof {
            lemma_sig_spec_ensures(word@);
        }
        match self.find_label(&sig) {
            Some(label) => {
                let ghost pre = *self;
                let members = &mut self.to_class[label].members;
                let ghost pre_members = members@;
                insert_member(members, word);
                proof {
                    let l = pre.label_of(sig_spec(word@));
                    assert(pre.has_sig(sig_spec(word@)));
                    assert(pre.sig(l) == sig_spec(word@));
                    assert(l == label) by {
                        if l < label {
                            assert(pre.sig(l) != pre.sig(label as int));
                        } else if l > label {
                            assert(pre.sig(label as int) != pre.sig(l));
                        }
                    }
                    let oldc = pre.to_class@[label as int];
                    let newc = self.to_class@[label as int];
                    lemma_insert_word_elems(member_views(oldc), word@);
                    lemma_valid_sig_chars(pre.alphabet@, word@);
                    assert(member_views(newc) == insert_word(member_views(oldc), word@));
                    assert(member_views(newc).contains(word@));
                    assert forall|k: int| 0 <= k < newc.members@.len() implies sig_spec(
                        #[trigger] newc.members@[k]@,
                    ) == newc.signature@ && valid_word(self.alphabet@, newc.members@[k]@) by {
                        let x = member_views(newc)[k];
                        assert(member_views(newc).contains(x));
                        if x == word@ {
                        } else {
                            assert(member_views(oldc).contains(x));
                            let k2 = choose|k2: int|
                                0 <= k2 < member_views(oldc).len() && member_views(oldc)[k2]
                                    == x;
                            assert(sig_spec(oldc.members@[k2]@) == oldc.signature@);
                            assert(valid_word(pre.alphabet@, member_views(oldc)[k2]));
                        }
                    }
                    assert(newc.wf());
                    assert(self.alphabet == pre.alphabet);
                    assert(self.adjacent == pre.adjacent);
                    assert(self.to_class@.len() == pre.to_class@.len());
                    assert(forall|l2: int|
                        0 <= l2 < pre.n() && l2 != label ==> self.to_class@[l2]
                            == pre.to_class@[l2]);
                    assert(newc.signature == oldc.signature);
                    if member_views(oldc).contains(word@) {
                        assert(newc.members == oldc.members);
                        assert(newc == oldc);
                    }
                    assert(self.alphabet@ == ascii_lower_seq());
                    assert(forall|l: int| 0 <= l < self.n() ==> (#[trigger] self.to_class@[l]).wf());
                    assert forall|l: int| 0 <= l < self.n() implies valid_word(
                        self.alphabet@,
                        #[trigger] self.sig(l),
                    ) by {
                        if l < pre.n() {
                            assert(self.sig(l) == pre.sig(l));
                            assert(valid_word(pre.alphabet@, pre.sig(l)));
                        } else {
                            assert(self.sig(l) == sig_spec(word@));
                        }
                    }
                    assert forall|l: int, i: int|
                        0 <= l < self.n() && 0 <= i < member_views(self.to_class@[l]).len() implies valid_word(
                        self.alphabet@,
                        #[trigger] member_views(self.to_class@[l])[i],
                    ) by {
                        assert(member_views(self.to_class@[l])[i] == self.to_class@[l].members@[i]@);
                        if l < pre.n() && self.to_class@[l] == pre.to_class@[l] {
                            assert(valid_word(pre.alphabet@, member_views(pre.to_class@[l])[i]));
                        }
                    }
                    assert forall|l1: int, l2: int| 0 <= l1 < l2 < self.n() implies #[trigger] self.sig(
                        l1,
                    ) != #[trigger] self.sig(l2) by {
                        if l2 < pre.n() {
                            assert(pre.sig(l1) != pre.sig(l2));
                            assert(self.sig(l1) == pre.sig(l1) && self.sig(l2) == pre.sig(l2));
                        } else if l2 == pre.n() {
                            assert(self.sig(l1) == pre.sig(l1));
                            assert(!pre.has_sig(sig_spec(word@)));
                            assert(pre.sig(l1) != sig_spec(word@));
                        } else {
                            assert(self.sig(l1) == pre.sig(l1) && self.sig(l2) == pre.sig(l2));
                        }
                    }
                    assert(self.wf_base());
                    assert(Graph::add_ok_rel(pre, *self, word@));
                }
                Ok(())
            },
            None => {
                let ghost pre = *self;
                let label = self.to_class.len();
                let new_class = Class { signature: sig, members: vec![word] };
                self.to_class.push(new_class);
                proof {
                    lemma_valid_sig_chars(pre.alphabet@, word@);
                    assert(member_views(self.to_class@[label as int]) =~= seq![word@]);
                    assert(forall|l2: int|
                        0 <= l2 < pre.n() ==> self.to_class@[l2] == pre.to_class@[l2]);
                    assert(self.to_class@[label as int].wf());
                    assert(self.alphabet@ == ascii_lower_seq());
                    assert(forall|l: int| 0 <= l < self.n() ==> (#[trigger] self.to_class@[l]).wf());
                    assert forall|l: int| 0 <= l < self.n() implies valid_word(
                        self.alphabet@,
                        #[trigger] self.sig(l),
                    ) by {
                        if l < pre.n() {
                            assert(self.sig(l) == pre.sig(l));
                            assert(valid_word(pre.alphabet@, pre.sig(l)));
                        } else {
                            assert(self.sig(l) == sig_spec(word@));
                        }
                    }
                    assert forall|l: int, i: int|
                        0 <= l < self.n() && 0 <= i < member_views(self.to_class@[l]).len() implies valid_word(
                        self.alphabet@,
                        #[trigger] member_views(self.to_class@[l])[i],
                    ) by {
                        assert(member_views(self.to_class@[l])[i] == self.to_class@[l].members@[i]@);
                        if l < pre.n() && self.to_class@[l] == pre.to_class@[l] {
                            assert(valid_word(pre.alphabet@, member_views(pre.to_class@[l])[i]));
                        }
                    }
                    assert forall|l1: int, l2: int| 0 <= l1 < l2 < self.n() implies #[trigger] self.sig(
                        l1,
                    ) != #[trigger] self.sig(l2) by {
                        if l2 < pre.n() {
                            assert(pre.sig(l1) != pre.sig(l2));
                            assert(self.sig(l1) == pre.sig(l1) && self.sig(l2) == pre.sig(l2));
                        } else if l2 == pre.n() {
                            assert(self.sig(l1) == pre.sig(l1));
                            assert(!pre.has_sig(sig_spec(word@)));
                            assert(pre.sig(l1) != sig_spec(word@));
                        } else {
                            assert(self.sig(l1) == pre.sig(l1) && self.sig(l2) == pre.sig(l2));
                        }
                    }
                    assert(self.wf_base());
                    assert(Graph::add_ok_rel(pre, *self, word@));
                }
                Ok(())
            },
        }
    }
}

impl Graph {
    /// One well-formed outgoing edge: its target exists, its symbol is in
    /// the alphabet, and inserting the symbol into the source signature
    /// gives the target signature.
    pub open spec fn edge_ok(&self, a: int, e: Edge) -> bool {
        &&& 0 <= e.to < self.n()
        &&& self.alphabet@.contains(e.symbol)
        &&& self.sig(e.to as int) == sig_spec(self.sig(a).push(e.symbol))
    }

    /// Whether the adjacency lists hold an edge from `a` to `b` labelled `c`.
    pub open spec fn has_edge(&self, a: int, b: int, c: char) -> bool {
        exists|j: int|
            0 <= j < self.adjacent@[a]@.len() && self.adjacent@[a]@[j].to == b
                && self.adjacent@[a]@[j].symbol == c
    }

    /// Whether some edge leads from `a` to `b`.
    pub open spec fn edge_to(&self, a: int, b: int) -> bool {
        exists|j: int| 0 <= j < self.adjacent@[a]@.len() && self.adjacent@[a]@[j].to == b
    }

    /// Well-formedness of the adjacency lists: one list per class, every
    /// edge is sound, and every single-symbol extension that exists as a
    /// class is present as an edge.
    pub open spec fn wf_edges(&self) -> bool {
        &&& self.adjacent@.len() == self.n()
        &&& forall|a: int, j: int|
            0 <= a < self.n() && 0 <= j < self.adjacent@[a]@.len() ==> self.edge_ok(
                a,
                #[trigger] self.adjacent@[a]@[j],
            )
        &&& forall|a: int, b: int, c: char|
            0 <= a < self.n() && 0 <= b < self.n() && self.alphabet@.contains(c) && self.sig(b)
                == sig_spec(self.sig(a).push(c)) ==> #[trigger] self.has_edge(a, b, c)
        &&& forall|a: int, j1: int, j2: int|
            0 <= a < self.n() && 0 <= j1 < j2 < self.adjacent@[a]@.len() ==> ((
            #[trigger] self.adjacent@[a]@[j1]).symbol as u32) < ((
            #[trigger] self.adjacent@[a]@[j2]).symbol as u32)
    }

    /// A fully built graph.
    pub open spec fn wf(&self) -> bool {
        self.wf_base() && self.wf_edges()
    }

    /// `b` can be reached from `a` along at most `k` edges.
    pub open spec fn reaches(&self, a: int, b: int, k: nat) -> bool
        decreases k,
    {
        if a == b {
            true
        } else if k == 0 {
            false
        } else {
            exists|m: int|
                0 <= m < self.n() && #[trigger] self.edge_to(a, m) && self.reaches(
                    m,
                    b,
                    (k - 1) as nat,
                )
        }
    }

    /// `b` can be reached from `a` along edges.
    pub open spec fn reachable(&self, a: int, b: int) -> bool {
        exists|k: nat| self.reaches(a, b, k)
    }

    /// The edges out of one class: for every alphabet symbol whose
    /// insertion into this class's signature gives the signature of an
    /// existing class, one edge to that class.
    pub fn adjacencies(&self, label: usize) -> (found: Vec<Edge>)
        requires
            self.wf_base(),
            (label as int) < self.n(),
        ensures
            forall|j: int| 0 <= j < found@.len() ==> self.edge_ok(label as int, #[trigger] found@[j]),
            forall|b: int, c: char|
                #![trigger self.sig(b), sig_spec(self.sig(label as int).push(c))]
                0 <= b < self.n() && self.alphabet@.contains(c) && self.sig(b) == sig_spec(
                    self.sig(label as int).push(c),
                ) ==> exists|j: int|
                    0 <= j < found@.len() && (#[trigger] found@[j]).to == b && found@[j].symbol
                        == c,
            forall|j1: int, j2: int|
                0 <= j1 < j2 < found@.len() ==> ((#[trigger] found@[j1]).symbol as u32) < ((
                #[trigger] found@[j2]).symbol as u32),
    {
        let mut found: Vec<Edge> = Vec::new();
        let mut ai: usize = 0;
        while ai < self.alphabet.len()
            invariant
                self.wf_base(),
                (label as int) < self.n(),
                ai <= self.alphabet@.len(),
                forall|j: int|
                    0 <= j < found@.len() ==> self.edge_ok(label as int, #[trigger] found@[j]),
                forall|b: int, c: char|
                    0 <= b < self.n() && self.alphabet@.take(ai as int).contains(c) && self.sig(b)
                        == sig_spec(self.sig(label as int).push(c)) ==> exists|j: int|
                        0 <= j < found@.len() && (#[trigger] found@[j]).to == b
                            && found@[j].symbol == c,
                forall|j: int|
                    0 <= j < found@.len() ==> self.alphabet@.take(ai as int).contains(
                        (#[trigger] found@[j]).symbol,
                    ),
                forall|j1: int, j2: int|
                    0 <= j1 < j2 < found@.len() ==> ((#[trigger] found@[j1]).symbol as u32) < ((
                    #[trigger] found@[j2]).symbol as u32),
            decreases self.alphabet@.len() - ai,
        {
            let c = self.alphabet[ai];
            let mut ext = self.to_class[label].signature.clone();
            crate::text::push_char(&mut ext, c);
            let cand = signature(&ext);
            let ghost pre_found = found@;
            match self.find_label(&cand) {
                Some(l) => {
                    proof {
                        assert(self.alphabet@.contains(c)) by {
                            assert(self.alphabet@[ai as int] == c);
                        }
                        assert forall|j: int| 0 <= j < found@.len() implies ((
                        #[trigger] found@[j]).symbol as u32) < (c as u32) by {
                            assert(self.alphabet@.take(ai as int).contains(found@[j].symbol));
                            let k = choose|k: int|
                                0 <= k < ai && (#[trigger] self.alphabet@.take(ai as int)[k])
                                    == found@[j].symbol;
                            assert(self.alphabet@[k] == found@[j].symbol);
                            assert(ascii_lower_seq()[k] as u32 == 97 + k);
                            assert(ascii_lower_seq()[ai as int] as u32 == 97 + ai);
                        }
                    }
                    found.push(Edge { to: l, symbol: c });
                },
                None => {},
            }
            proof {
                assert forall|b: int, cc: char|
                    #![trigger self.sig(b), sig_spec(self.sig(label as int).push(cc))]
                    0 <= b < self.n() && self.alphabet@.take(ai as int + 1).contains(cc)
                        && self.sig(b) == sig_spec(
                        self.sig(label as int).push(cc),
                    ) implies exists|j: int|
                    0 <= j < found@.len() && (#[trigger] found@[j]).to == b && found@[j].symbol
                        == cc by {
                    let k = choose|k: int|
                        0 <= k < ai + 1 && (#[trigger] self.alphabet@.take(ai as int + 1)[k])
                            == cc;
                    if k < ai {
                        assert(self.alphabet@.take(ai as int)[k] == cc);
                        assert(self.alphabet@.take(ai as int).contains(cc));
                        let j = choose|j: int|
                            0 <= j < pre_found.len() && (#[trigger] pre_found[j]).to == b
                                && pre_found[j].symbol == cc;
                        assert(found@[j].to == b && found@[j].symbol == cc);
                    } else {
                        // cc is this round's symbol; the class of the candidate
                        // signature is unique, so the new edge witnesses it.
                        assert(cc == c);
                        assert(self.has_sig(cand@));
                        let j = found@.len() - 1;
                        assert(found@[j].symbol == c);
                        assert(self.sig(found@[j].to as int) == cand@);
                        if b != found@[j].to {
                            if b < found@[j].to {
                                assert(self.sig(b) != self.sig(found@[j].to as int));
                            } else {
                                assert(self.sig(found@[j].to as int) != self.sig(b));
                            }
                        }
                    }
                }
                assert forall|j: int| 0 <= j < found@.len() implies self.alphabet@.take(
                    ai as int + 1,
                ).contains((#[trigger] found@[j]).symbol) by {
                    if j < pre_found.len() {
                        if self.alphabet@.take(ai as int).contains(found@[j].symbol) {
                            let k = choose|k: int|
                                0 <= k < ai && (#[trigger] self.alphabet@.take(ai as int)[k])
                                    == found@[j].symbol;
                            assert(self.alphabet@.take(ai as int + 1)[k] == found@[j].symbol);
                        }
                    } else {
                        assert(self.alphabet@.take(ai as int + 1)[ai as int] == found@[j].symbol);
                    }
                }
            }
            ai = ai + 1;
        }
        proof {
            assert(self.alphabet@.take(self.alphabet@.len() as int) =~= self.alphabet@);
        }
        found
    }

    /// Derives the adjacency lists of every class, once, after ingestion.
    pub fn compute_edges(&mut self)
        requires
            old(self).wf_base(),
            old(self).adjacent@.len() == 0,
        ensures
            final(self).wf(),
            final(self).to_class == old(self).to_class,
            final(self).alphabet == old(self).alphabet,
    {
        let n = self.to_class.len();
        let mut label: usize = 0;
        while label < n
            invariant
                self.wf_base(),
                n == self.n(),
                label <= n,
                self.to_class == old(self).to_class,
                self.alphabet == old(self).alphabet,
                self.adjacent@.len() == label,
                forall|a: int, j: int|
                    0 <= a < label && 0 <= j < self.adjacent@[a]@.len() ==> self.edge_ok(
                        a,
                        #[trigger] self.adjacent@[a]@[j],
                    ),
                forall|a: int, b: int, c: char|
                    0 <= a < label && 0 <= b < self.n() && self.alphabet@.contains(c)
                        && self.sig(b) == sig_spec(self.sig(a).push(c)) ==> #[trigger] self.has_edge(
                        a,
                        b,
                        c,
                    ),
                forall|a: int, j1: int, j2: int|
                    0 <= a < label && 0 <= j1 < j2 < self.adjacent@[a]@.len() ==> ((
                    #[trigger] self.adjacent@[a]@[j1]).symbol as u32) < ((
                    #[trigger] self.adjacent@[a]@[j2]).symbol as u32),
            decreases n - label,
        {
            let edges = self.adjacencies(label);
            let ghost pre = *self;
            self.adjacent.push(edges);
            proof {
                lemma_wf_base_same_classes(pre, *self);
                assert(forall|a: int|
                    0 <= a < label ==> self.adjacent@[a] == pre.adjacent@[a]);
                assert forall|a: int, j: int|
                    0 <= a < label + 1 && 0 <= j < self.adjacent@[a]@.len() implies self.edge_ok(
                    a,
                    #[trigger] self.adjacent@[a]@[j],
                ) by {
                    if a < label {
                        assert(pre.edge_ok(a, pre.adjacent@[a]@[j]));
                    } else {
                        assert(pre.edge_ok(label as int, edges@[j]));
                    }
                }
                assert forall|a: int, j1: int, j2: int|
                    0 <= a < label + 1 && 0 <= j1 < j2 < self.adjacent@[a]@.len() implies ((
                #[trigger] self.adjacent@[a]@[j1]).symbol as u32) < ((
                #[trigger] self.adjacent@[a]@[j2]).symbol as u32) by {
                    if a < label {
                        assert((pre.adjacent@[a]@[j1].symbol as u32)
                            < (pre.adjacent@[a]@[j2].symbol as u32));
                    } else {
                        assert((edges@[j1].symbol as u32) < (edges@[j2].symbol as u32));
                    }
                }
                assert forall|a: int, b: int, c: char|
                    0 <= a < label + 1 && 0 <= b < self.n() && self.alphabet@.contains(c)
                        && self.sig(b) == sig_spec(self.sig(a).push(c)) implies #[trigger] self.has_edge(
                    a,
                    b,
                    c,
                ) by {
                    if a < label {
                        assert(pre.has_edge(a, b, c));
                        let j = choose|j: int|
                            0 <= j < pre.adjacent@[a]@.len() && pre.adjacent@[a]@[j].to == b
                                && pre.adjacent@[a]@[j].symbol == c;
                        assert(self.adjacent@[a]@[j].to == b && self.adjacent@[a]@[j].symbol
                            == c);
                    } else {
                        assert(pre.sig(b) == self.sig(b));
                        assert(pre.sig(label as int) == self.sig(label as int));
                        assert(exists|j: int|
                            0 <= j < edges@.len() && (#[trigger] edges@[j]).to == b
                                && edges@[j].symbol == c);
                        let j = choose|j: int|
                            0 <= j < edges@.len() && (#[trigger] edges@[j]).to == b
                                && edges@[j].symbol == c;
                        assert(self.adjacent@[a as int]@[j].to == b);
                    }
                }
            }
            label = label + 1;
        }
    }
}

/// The mathematical model of the registry after ingesting a sequence of
/// words: each entry is a signature paired with its sorted member words.
pub open spec fn model_find(m: Seq<(Seq<char>, Seq<Seq<char>>)>, s: Seq<char>) -> int {
    if exists|l: int| 0 <= l < m.len() && (#[trigger] m[l]).0 == s {
        choose|l: int| 0 <= l < m.len() && (#[trigger] m[l]).0 == s
    } else {
        -1
    }
}

/// One ingestion step on the registry model.
pub open spec fn model_step(
    m: Seq<(Seq<char>, Seq<Seq<char>>)>,
    w: Seq<char>,
) -> Seq<(Seq<char>, Seq<Seq<char>>)> {
    let s = sig_spec(w);
    let l = model_find(m, s);
    if l >= 0 {
        m.update(l, (m[l].0, insert_word(m[l].1, w)))
    } else {
        m.push((s, seq![w]))
    }
}

/// The registry model after ingesting all the given words in order.
pub open spec fn registry_model(ws: Seq<Seq<char>>) -> Seq<(Seq<char>, Seq<Seq<char>>)>
    decreases ws.len(),
{
    if ws.len() == 0 {
        Seq::empty()
    } else {
        model_step(registry_model(ws.drop_last()), ws.last())
    }
}

/// Whether a graph's classes agree with a registry model, label by label.
pub open spec fn matches_model(g: Graph, m: Seq<(Seq<char>, Seq<Seq<char>>)>) -> bool {
    &&& g.n() == m.len()
    &&& forall|l: int| 0 <= l < g.n() ==> g.sig(l) == (#[trigger] m[l]).0
    &&& forall|l: int| 0 <= l < g.n() ==> member_views(g.to_class@[l]) == (#[trigger] m[l]).1
}

/// One accepted word moves a matching graph to the next model.
proof fn lemma_add_matches_model(
    pre: Graph,
    post: Graph,
    m: Seq<(Seq<char>, Seq<Seq<char>>)>,
    w: Seq<char>,
)
    requires
        pre.wf_base(),
        matches_model(pre, m),
        Graph::add_ok_rel(pre, post, w),
    ensures
        matches_model(post, model_step(m, w)),
{
    let s = sig_spec(w);
    if pre.has_sig(s) {
        let lg = pre.label_of(s);
        assert(0 <= lg < pre.n() && pre.sig(lg) == s);
        assert(m[lg].0 == s);
        assert(model_find(m, s) >= 0);
        let lm = model_find(m, s);
        assert(0 <= lm < m.len() && m[lm].0 == s);
        assert(lm == lg) by {
            if lm < lg {
                assert(pre.sig(lm) != pre.sig(lg));
            } else if lm > lg {
                assert(pre.sig(lg) != pre.sig(lm));
            }
        }
        let m2 = model_step(m, w);
        assert(m2 == m.update(lg, (m[lg].0, insert_word(m[lg].1, w))));
        assert forall|l: int| 0 <= l < post.n() implies post.sig(l) == (#[trigger] m2[l]).0 by {
            if l != lg {
                assert(post.to_class@[l] == pre.to_class@[l]);
            }
        }
        assert forall|l: int| 0 <= l < post.n() implies member_views(post.to_class@[l])
            == (#[trigger] m2[l]).1 by {
            if l != lg {
                assert(post.to_class@[l] == pre.to_class@[l]);
            }
        }
    } else {
        assert(model_find(m, s) == -1) by {
            if exists|l: int| 0 <= l < m.len() && (#[trigger] m[l]).0 == s {
                let l = choose|l: int| 0 <= l < m.len() && (#[trigger] m[l]).0 == s;
                assert(pre.sig(l) == s);
                assert(pre.has_sig(s));
            }
        }
        let m2 = m.push((s, seq![w]));
        assert forall|l: int| 0 <= l < post.n() implies post.sig(l) == (#[trigger] m2[l]).0 by {
            if l < pre.n() {
                assert(post.to_class@[l] == pre.to_class@[l]);
            }
        }
        assert forall|l: int| 0 <= l < post.n() implies member_views(post.to_class@[l])
            == (#[trigger] m2[l]).1 by {
            if l < pre.n() {
                assert(post.to_class@[l] == pre.to_class@[l]);
            }
        }
    }
}

/// What a successful load guarantees: a fully built graph whose classes
/// are exactly the registry model of the ingested lines.
pub open spec fn load_ok_spec(lines: Seq<String>, g: Graph) -> bool {
    &&& g.wf()
    &&& forall|i: int|
        0 <= i < lines.len() ==> valid_word(ascii_lower_seq(), (#[trigger] lines[i])@)
    &&& matches_model(g, registry_model(lines.map_values(|x: String| x@)))
}

/// What a failed load guarantees: the error names the first invalid line,
/// and within it the first character outside the alphabet.
pub open spec fn load_err_spec(lines: Seq<String>, e: Error) -> bool {
    &&& exists|i: int|
        0 <= i < lines.len() && !valid_word(ascii_lower_seq(), (#[trigger] lines[i])@)
            && e.word@ == lines[i]@ && (forall|k: int|
            0 <= k < i ==> valid_word(ascii_lower_seq(), (#[trigger] lines[k])@))
    &&& exists|ci: int|
        0 <= ci < e.word@.len() && !ascii_lower_seq().contains(e.word@[ci]) && e.symbol
            == e.word@[ci] && (forall|ck: int|
            0 <= ck < ci ==> ascii_lower_seq().contains(e.word@[ck]))
}

impl Graph {
    /// Builds the whole graph from the lines a driver has already read:
    /// ingests every word over the lowercase ASCII alphabet, then computes
    /// the adjacency lists. The first word with a character outside the
    /// alphabet aborts the load with that word's error.
    pub fn from_reader_over_ascii(lines: Vec<String>) -> (r: Result<Graph, Error>)
        ensures
            match r {
                Ok(g) => load_ok_spec(lines@, g),
                Err(e) => load_err_spec(lines@, e),
            },
    {
        let ghost ws = lines@.map_values(|x: String| x@);
        let mut graph = Graph::new_over_ascii();
        proof {
            assert(ws.take(0) =~= Seq::<Seq<char>>::empty());
            assert(matches_model(graph, registry_model(ws.take(0))));
        }
        let n_lines = lines.len();
        let mut i: usize = 0;
        while i < n_lines
            invariant
                n_lines == lines@.len(),
                i <= n_lines,
                ws == lines@.map_values(|x: String| x@),
                graph.wf_base(),
                graph.adjacent@.len() == 0,
                matches_model(graph, registry_model(ws.take(i as int))),
                forall|k: int|
                    0 <= k < i ==> valid_word(ascii_lower_seq(), (#[trigger] lines@[k])@),
            decreases n_lines - i,
        {
            let word = lines[i].clone();
            let ghost pre = graph;
            match graph.add_word(word) {
                Ok(()) => {
                    proof {
                        lemma_add_matches_model(
                            pre,
                            graph,
                            registry_model(ws.take(i as int)),
                            ws[i as int],
                        );
                        assert(ws.take(i as int + 1).drop_last() =~= ws.take(i as int));
                        assert(ws.take(i as int + 1).last() == ws[i as int]);
                    }
                },
                Err(e) => {
                    proof {
                        assert(pre.alphabet@ == ascii_lower_seq());
                        assert(word@ == lines@[i as int]@);
                        let ci = choose|ci: int|
                            0 <= ci < word@.len() && !pre.alphabet@.contains(#[trigger] word@[ci])
                                && e.symbol == word@[ci] && (forall|ck: int|
                                0 <= ck < ci ==> pre.alphabet@.contains(word@[ck]));
                        assert(!ascii_lower_seq().contains(e.word@[ci]));
                        assert(e.symbol == e.word@[ci]);
                        assert(forall|ck: int|
                            0 <= ck < ci ==> ascii_lower_seq().contains(#[trigger] e.word@[ck]));
                        assert(!valid_word(ascii_lower_seq(), lines@[i as int]@));
                        assert(e.word@ == lines@[i as int]@);
                        assert(forall|k: int|
                            0 <= k < i ==> valid_word(ascii_lower_seq(), (#[trigger] lines@[k])@));
                        assert(exists|ii: int|
                            0 <= ii < lines@.len() && !valid_word(
                                ascii_lower_seq(),
                                (#[trigger] lines@[ii])@,
                            ) && e.word@ == lines@[ii]@ && (forall|k: int|
                                0 <= k < ii ==> valid_word(
                                    ascii_lower_seq(),
                                    (#[trigger] lines@[k])@,
                                )));
                        assert(exists|cj: int|
                            0 <= cj < e.word@.len() && !ascii_lower_seq().contains(e.word@[cj])
                                && e.symbol == e.word@[cj] && (forall|ck: int|
                                0 <= ck < cj ==> ascii_lower_seq().contains(e.word@[ck])));
                        assert(load_err_spec(lines@, e));
                    }
                    return Err(e);
                },
            }
            i = i + 1;
        }
        proof {
            assert(ws.take(n_lines as int) =~= ws);
        }
        graph.compute_edges();
        proof {
            assert(load_ok_spec(lines@, graph));
        }
        Ok(graph)
    }
}

/// The registry well-formedness does not depend on the adjacency lists.
pub proof fn lemma_wf_base_same_classes(g1: Graph, g2: Graph)
    requires
        g1.wf_base(),
        g2.to_class == g1.to_class,
        g2.alphabet == g1.alphabet,
    ensures
        g2.wf_base(),
{
    assert forall|l: int| 0 <= l < g2.n() implies (#[trigger] g2.to_class@[l]).wf() by {
        assert(g1.to_class@[l].wf());
    }
    assert forall|l: int| 0 <= l < g2.n() implies valid_word(
        g2.alphabet@,
        #[trigger] g2.sig(l),
    ) by {
        assert(g2.sig(l) == g1.sig(l));
        assert(valid_word(g1.alphabet@, g1.sig(l)));
    }
    assert forall|l: int, i: int|
        0 <= l < g2.n() && 0 <= i < member_views(g2.to_class@[l]).len() implies valid_word(
        g2.alphabet@,
        #[trigger] member_views(g2.to_class@[l])[i],
    ) by {
        assert(valid_word(g1.alphabet@, member_views(g1.to_class@[l])[i]));
    }
    assert forall|l1: int, l2: int| 0 <= l1 < l2 < g2.n() implies #[trigger] g2.sig(l1)
        != #[trigger] g2.sig(l2) by {
        assert(g1.sig(l1) != g1.sig(l2));
        assert(g2.sig(l1) == g1.sig(l1) && g2.sig(l2) == g1.sig(l2));
    }
}

/// Adding the same word twice leaves class membership and label
/// assignment exactly as after the first addition.
pub proof fn lemma_add_word_idempotent(g0: Graph, g1: Graph, g2: Graph, w: Seq<char>)
    requires
        g0.wf_base(),
        g1.wf_base(),
        Graph::add_ok_rel(g0, g1, w),
        Graph::add_ok_rel(g1, g2, w),
    ensures
        g2.to_class@ == g1.to_class@,
        g2.alphabet == g1.alphabet,
        g2.adjacent == g1.adjacent,
{
    let s = sig_spec(w);
    // after the first addition some class carries the word's signature and
    // already holds the word
    let l1: int = if g0.has_sig(s) {
        g0.label_of(s)
    } else {
        g0.n()
    };
    assert(0 <= l1 < g1.n() && g1.sig(l1) == s && member_views(g1.to_class@[l1]).contains(w)) by {
        if g0.has_sig(s) {
            lemma_insert_word_elems(member_views(g0.to_class@[l1]), w);
        } else {
            assert(member_views(g1.to_class@[g0.n()]) == seq![w]);
            assert(member_views(g1.to_class@[g0.n()])[0] == w);
        }
    }
    assert(g1.has_sig(s));
    let l2 = g1.label_of(s);
    assert(0 <= l2 < g1.n() && g1.sig(l2) == s);
    assert(l2 == l1) by {
        if l2 < l1 {
            assert(g1.sig(l2) != g1.sig(l1));
        } else if l2 > l1 {
            assert(g1.sig(l1) != g1.sig(l2));
        }
    }
    assert(g2.to_class@[l1] == g1.to_class@[l1]);
    assert(g2.to_class@ =~= g1.to_class@);
}

/// The characters of the lowercase alphabet are pairwise distinct.
pub proof fn lemma_ascii_lower_distinct()
    ensures
        forall|i: int, j: int|
            0 <= i < j < 26 ==> ascii_lower_seq()[i] != ascii_lower_seq()[j],
{
    assert forall|i: int, j: int| 0 <= i < j < 26 implies ascii_lower_seq()[i]
        != ascii_lower_seq()[j] by {
        assert(ascii_lower_seq()[i] as u32 == 97 + i);
        assert(ascii_lower_seq()[j] as u32 == 97 + j);
    }
}

/// Every edge raises the signature length by exactly one, and the edge
/// relation is acyclic: no class reaches itself again through any edge.
pub proof fn lemma_edges_increase_length(g: &Graph, a: int, b: int)
    requires
        g.wf(),
        0 <= a < g.n(),
        0 <= b < g.n(),
        g.edge_to(a, b),
    ensures
        g.sig(b).len() == g.sig(a).len() + 1,
        !g.reachable(b, a),
{
    let j = choose|j: int| 0 <= j < g.adjacent@[a]@.len() && g.adjacent@[a]@[j].to == b;
    let e = g.adjacent@[a]@[j];
    lemma_sig_spec_ensures(g.sig(a).push(e.symbol));
    if g.reachable(b, a) {
        let k = choose|k: nat| g.reaches(b, a, k);
        lemma_reaches_length(g, b, a, k);
    }
}

/// Along any chain of edges the signature length never shrinks.
pub proof fn lemma_reaches_length(g: &Graph, a: int, b: int, k: nat)
    requires
        g.wf(),
        0 <= a < g.n(),
        0 <= b < g.n(),
        g.reaches(a, b, k),
    ensures
        g.sig(a).len() <= g.sig(b).len(),
    decreases k,
{
    if a == b {
    } else {
        let m = choose|m: int|
            0 <= m < g.n() && #[trigger] g.edge_to(a, m) && g.reaches(m, b, (k - 1) as nat);
        let j = choose|j: int| 0 <= j < g.adjacent@[a]@.len() && g.adjacent@[a]@[j].to == m;
        lemma_sig_spec_ensures(g.sig(a).push(g.adjacent@[a]@[j].symbol));
        lemma_reaches_length(g, m, b, (k - 1) as nat);
    }
}

/// Every character of a word's signature is a character of the word, so a
/// valid word has a valid signature.
pub proof fn lemma_valid_sig_chars(alpha: Seq<char>, w: Seq<char>)
    requires
        valid_word(alpha, w),
    ensures
        valid_word(alpha, sig_spec(w)),
        sig_spec(w).len() == w.len(),
{
    broadcast use vstd::seq_lib::group_to_multiset_ensures;

    lemma_sig_spec_ensures(w);
    assert forall|i: int| 0 <= i < sig_spec(w).len() implies alpha.contains(
        #[trigger] sig_spec(w)[i],
    ) by {
        let x = sig_spec(w)[i];
        assert(sig_spec(w).contains(x));
        assert(sig_spec(w).to_multiset().contains(x));
        assert(w.to_multiset().contains(x));
        assert(w.contains(x));
        let k = choose|k: int| 0 <= k < w.len() && w[k] == x;
        assert(alpha.contains(w[k]));
    }
}

/// Inserts a word into a class's sorted member list; a word that is
/// already present is left alone.
fn insert_member(ms: &mut Vec<String>, word: String)
    requires
        forall|i: int, j: int|
            0 <= i < j < old(ms)@.len() ==> lex_lt(old(ms)@[i]@, old(ms)@[j]@),
    ensures
        final(ms)@.map_values(|m: String| m@) == insert_word(
            old(ms)@.map_values(|m: String| m@),
            word@,
        ),
        old(ms)@.map_values(|m: String| m@).contains(word@) ==> *final(ms) == *old(ms),
        forall|i: int, j: int|
            0 <= i < j < final(ms)@.len() ==> lex_lt(final(ms)@[i]@, final(ms)@[j]@),
{
    let ghost old_views = old(ms)@.map_values(|m: String| m@);
    let mut j: usize = 0;
    while j < ms.len() && crate::text::str_lt(ms[j].as_str(), word.as_str())
        invariant
            j <= ms@.len(),
            *ms == *old(ms),
            forall|k: int| 0 <= k < j ==> lex_lt(#[trigger] ms@[k]@, word@),
        decreases ms@.len() - j,
    {
        j = j + 1;
    }
    if j < ms.len() && ms[j].eq(&word) {
        proof {
            assert(old_views[j as int] == word@);
            assert(old_views.contains(word@));
            lemma_insert_word_at(old_views, word@, j as int);
        }
        return;
    }
    proof {
        if j < ms@.len() {
            lemma_lex_trichotomy(word@, ms@[j as int]@);
        }
        lemma_insert_word_at(old_views, word@, j as int);
        if old_views.contains(word@) {
            let k = choose|k: int| 0 <= k < old_views.len() && old_views[k] == word@;
            if k < j {
                lemma_lex_trichotomy(old_views[k], word@);
            } else if k > j {
                assert(lex_lt(ms@[j as int]@, ms@[k]@));
                lemma_lex_trichotomy(word@, ms@[j as int]@);
                lemma_lex_lt_trans(word@, ms@[j as int]@, ms@[k]@);
                lemma_lex_trichotomy(word@, ms@[k]@);
            }
            assert(false);
        }
    }
    let ghost pre = ms@;
    ms.insert(j, word);
    proof {
        let views = ms@.map_values(|m: String| m@);
        assert(views =~= old_views.take(j as int) + seq![word@] + old_views.skip(j as int)) by {
            assert(ms@ =~= pre.insert(j as int, word));
            assert forall|k: int| 0 <= k < views.len() implies views[k] == (old_views.take(
                j as int,
            ) + seq![word@] + old_views.skip(j as int))[k] by {}
        }
        assert forall|i: int, jj: int| 0 <= i < jj < ms@.len() implies lex_lt(
            ms@[i]@,
            ms@[jj]@,
        ) by {
            if i < j && jj == j {
                assert(lex_lt(pre[i]@, word@));
            } else if i == j && jj > j {
                assert(!lex_lt(pre[jj - 1]@, word@)) by {
                    if jj - 1 > j {
                        assert(lex_lt(pre[j as int]@, pre[jj - 1]@));
                        if lex_lt(pre[jj - 1]@, word@) {
                            lemma_lex_lt_trans(pre[j as int]@, pre[jj - 1]@, word@);
                            lemma_lex_trichotomy(word@, pre[j as int]@);
                        }
                    }
                }
                lemma_lex_trichotomy(word@, pre[jj - 1]@);
                assert(pre[jj - 1]@ != word@) by {
                    if pre[jj - 1]@ == word@ {
                        assert(old_views[jj - 1] == word@);
                        assert(old_views.contains(word@));
                    }
                }
            } else if i < j && jj > j {
                assert(lex_lt(pre[i]@, pre[jj - 1]@));
            } else if i > j && jj > j {
                assert(lex_lt(pre[i - 1]@, pre[jj - 1]@));
            } else if i < j && jj < j {
                assert(lex_lt(pre[i]@, pre[jj]@));
            }
        }
    }
}

/// The elements after inserting a word are the old elements plus that word.
pub proof fn lemma_insert_word_elems(ms: Seq<Seq<char>>, w: Seq<char>)
    ensures
        insert_word(ms, w).contains(w),
        forall|x: Seq<char>| #[trigger] insert_word(ms, w).contains(x) ==> ms.contains(x) || x == w,
        forall|x: Seq<char>| #[trigger] ms.contains(x) ==> insert_word(ms, w).contains(x),
        insert_word(ms, w).len() >= 1,
    decreases ms.len(),
{
    if ms.len() == 0 {
        assert(insert_word(ms, w)[0] == w);
        assert forall|x: Seq<char>|
            insert_word(ms, w).contains(x) <==> (ms.contains(x) || x == w) by {
            if x == w {
                assert(insert_word(ms, w)[0] == w);
            }
        }
    } else if w == ms[0] {
        assert(insert_word(ms, w)[0] == w);
    } else if lex_lt(w, ms[0]) {
        let r = seq![w] + ms;
        assert(r[0] == w);
        assert forall|x: Seq<char>| r.contains(x) <==> (ms.contains(x) || x == w) by {
            if r.contains(x) {
                let i = choose|i: int| 0 <= i < r.len() && r[i] == x;
                if i > 0 {
                    assert(ms[i - 1] == x);
                }
            }
            if ms.contains(x) {
                let i = choose|i: int| 0 <= i < ms.len() && ms[i] == x;
                assert(r[i + 1] == x);
            }
            if x == w {
                assert(r[0] == x);
            }
        }
    } else {
        lemma_insert_word_elems(ms.drop_first(), w);
        let rest = insert_word(ms.drop_first(), w);
        let r = seq![ms[0]] + rest;
        assert(r.contains(w)) by {
            let k = choose|k: int| 0 <= k < rest.len() && rest[k] == w;
            assert(r[k + 1] == w);
        }
        assert forall|x: Seq<char>| r.contains(x) <==> (ms.contains(x) || x == w) by {
            if r.contains(x) {
                let i = choose|i: int| 0 <= i < r.len() && r[i] == x;
                if i == 0 {
                    assert(ms[0] == x);
                } else {
                    assert(rest[i - 1] == x);
                    assert(rest.contains(x));
                    if ms.drop_first().contains(x) {
                        let k = choose|k: int|
                            0 <= k < ms.drop_first().len() && ms.drop_first()[k] == x;
                        assert(ms[k + 1] == x);
                    }
                }
            }
            if ms.contains(x) {
                let i = choose|i: int| 0 <= i < ms.len() && ms[i] == x;
                if i == 0 {
                    assert(r[0] == x);
                } else {
                    assert(ms.drop_first()[i - 1] == x);
                    assert(ms.drop_first().contains(x));
                    assert(insert_word(ms.drop_first(), w).contains(x));
                    let k = choose|k: int| 0 <= k < rest.len() && rest[k] == x;
                    assert(r[k + 1] == x);
                }
            }
            if x == w {
                let k = choose|k: int| 0 <= k < rest.len() && rest[k] == x;
                assert(r[k + 1] == x);
            }
        }
    }
}

/// The lexicographic order on words is transitive.
pub proof fn lemma_lex_lt_trans(a: Seq<char>, b: Seq<char>, c: Seq<char>)
    requires
        lex_lt(a, b),
        lex_lt(b, c),
    ensures
        lex_lt(a, c),
    decreases a.len(),
{
    if a.len() == 0 {
    } else {
        // b and c are non-empty since something is below them.
        if (a[0] as u32) < (b[0] as u32) {
            if (b[0] as u32) < (c[0] as u32) {
            } else {
                assert(b[0] == c[0]);
            }
        } else {
            assert(a[0] == b[0]);
            if (b[0] as u32) < (c[0] as u32) {
            } else {
                assert(b[0] == c[0]);
                lemma_lex_lt_trans(a.drop_first(), b.drop_first(), c.drop_first());
            }
        }
    }
}

/// Where the scan of `insert_member` stops determines the shape of
/// `insert_word`: a present word changes nothing, otherwise the word is
/// spliced in at the stop position.
proof fn lemma_insert_word_at(ms: Seq<Seq<char>>, w: Seq<char>, j: int)
    requires
        0 <= j <= ms.len(),
        forall|k: int| 0 <= k < j ==> lex_lt(#[trigger] ms[k], w),
        j < ms.len() ==> !lex_lt(ms[j], w),
    ensures
        j < ms.len() && ms[j] == w ==> insert_word(ms, w) == ms,
        !(j < ms.len() && ms[j] == w) ==> insert_word(ms, w) == ms.take(j) + seq![w] + ms.skip(j),
    decreases ms.len(),
{
    if ms.len() == 0 {
        assert(insert_word(ms, w) =~= ms.take(j) + seq![w] + ms.skip(j));
    } else if j == 0 {
        if ms[0] == w {
        } else {
            lemma_lex_trichotomy(w, ms[0]);
            assert(insert_word(ms, w) =~= ms.take(0) + seq![w] + ms.skip(0));
        }
    } else {
        assert(lex_lt(ms[0], w));
        lemma_lex_trichotomy(ms[0], w);
        assert(w != ms[0] && !lex_lt(w, ms[0]));
        lemma_insert_word_at(ms.drop_first(), w, j - 1);
        if j < ms.len() && ms[j] == w {
            assert(ms.drop_first()[j - 1] == ms[j]);
            assert(insert_word(ms, w) =~= ms);
        } else {
            assert(seq![ms[0]] + (ms.drop_first().take(j - 1) + seq![w] + ms.drop_first().skip(
                j - 1,
            )) =~= ms.take(j) + seq![w] + ms.skip(j));
        }
    }
}

} // verus!
