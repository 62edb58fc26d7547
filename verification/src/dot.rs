//! The DOT serializer and a re-parser for its node and edge lines. The
//! parser accepts a line only if re-rendering what it extracted gives the
//! line back, so everything it returns is exact by construction.

use vstd::prelude::*;
use crate::graph::Graph;
use crate::text::push_char;

verus! {

/// The decimal digit character for a value below ten.
pub open spec fn digit(d: int) -> char {
    ((48 + d) as u8) as char
}

/// A number rendered in decimal.
pub open spec fn dec_str(n: nat) -> Seq<char>
    decreases n,
{
    if n < 10 {
        seq![digit(n as int)]
    } else {
        dec_str(n / 10).push(digit((n % 10) as int))
    }
}

/// One DOT node line: `  N [label="SIG"];`.
pub open spec fn node_text(l: nat, sig: Seq<char>) -> Seq<char> {
    "  "@ + dec_str(l) + " [label=\""@ + sig + "\"];"@
}

/// One DOT edge line: `  A -> B [label="C"];`.
pub open spec fn edge_text(a: nat, b: nat, c: char) -> Seq<char> {
    "  "@ + dec_str(a) + " -> "@ + dec_str(b) + " [label=\""@ + seq![c] + "\"];"@
}

/// The node lines for the first `i` classes, in label order.
pub open spec fn node_lines(g: Graph, i: int) -> Seq<Seq<char>>
    decreases i,
{
    if i <= 0 {
        Seq::empty()
    } else {
        node_lines(g, i - 1).push(node_text((i - 1) as nat, g.sig(i - 1)))
    }
}

/// The edge lines of the class `a`, for its first `j` edges, in list order.
pub open spec fn edge_lines_of(g: Graph, a: int, j: int) -> Seq<Seq<char>>
    decreases j,
{
    if j <= 0 {
        Seq::empty()
    } else {
        edge_lines_of(g, a, j - 1).push(
            edge_text(
                a as nat,
                g.adjacent@[a]@[j - 1].to as nat,
                g.adjacent@[a]@[j - 1].symbol,
            ),
        )
    }
}

/// The edge lines of the first `i` classes, source by source.
pub open spec fn edge_lines(g: Graph, i: int) -> Seq<Seq<char>>
    decreases i,
{
    if i <= 0 {
        Seq::empty()
    } else {
        edge_lines(g, i - 1) + edge_lines_of(g, i - 1, g.adjacent@[i - 1]@.len() as int)
    }
}

/// Every line of the DOT rendering, in order.
pub open spec fn dot_lines_spec(g: Graph) -> Seq<Seq<char>> {
    seq!["strict digraph {"@] + node_lines(g, g.n()) + edge_lines(g, g.adjacent@.len() as int)
        + seq!["}"@]
}

/// A sequence of lines as one text, each line ending in a newline.
pub open spec fn lines_text(ls: Seq<Seq<char>>) -> Seq<char>
    decreases ls.len(),
{
    if ls.len() == 0 {
        Seq::empty()
    } else {
        ls[0] + seq!['\n'] + lines_text(ls.drop_first())
    }
}

/// Renders a number in decimal.
pub fn u64_to_string(n: u64) -> (r: String)
    ensures
        r@ == dec_str(n as nat),
    decreases n,
{
    if n < 10 {
        let mut r = String::new();
        push_char(&mut r, (48 + n as u8) as char);
        proof {
            assert(r@ =~= dec_str(n as nat));
        }
        r
    } else {
        let mut r = u64_to_string(n / 10);
        push_char(&mut r, (48 + (n % 10) as u8) as char);
        r
    }
}

impl Graph {
    /// The DOT rendering of the graph, line by line: a header, one node
    /// line per label, one edge line per adjacency entry, and the closing
    /// brace — deterministic for a fixed graph.
    pub fn to_dot_lines(&self) -> (r: Vec<String>)
        requires
            self.wf(),
            self.n() < 0x1_0000_0000,
        ensures
            r@.map_values(|s: String| s@) == dot_lines_spec(*self),
    {
        let n = self.to_class.len();
        let mut r: Vec<String> = Vec::new();
        let mut header = String::new();
        header.append("strict digraph {");
        r.push(header);
        proof {
            reveal_strlit("strict digraph {");
            assert(r@.map_values(|s: String| s@) =~= seq!["strict digraph {"@]);
        }
        let mut l: usize = 0;
        while l < n
            invariant
                self.wf(),
                n == self.n(),
                n < 0x1_0000_0000,
                l <= n,
                r@.map_values(|s: String| s@) =~= seq!["strict digraph {"@] + node_lines(
                    *self,
                    l as int,
                ),
            decreases n - l,
        {
            let mut line = String::new();
            line.append("  ");
            let num = u64_to_string(l as u64);
            line.append(num.as_str());
            line.append(" [label=\"");
            line.append(self.to_class[l].signature.as_str());
            line.append("\"];");
            proof {
                assert(line@ == node_text(l as nat, self.sig(l as int)));
            }
            r.push(line);
            proof {
                assert(r@.map_values(|s: String| s@) =~= (seq!["strict digraph {"@] + node_lines(
                    *self,
                    l as int,
                )).push(node_text(l as nat, self.sig(l as int))));
                assert(r@.map_values(|s: String| s@) =~= seq!["strict digraph {"@] + node_lines(
                    *self,
                    l as int + 1,
                ));
            }
            l = l + 1;
        }
        let mut a: usize = 0;
        while a < n
            invariant
                self.wf(),
                n == self.n(),
                n < 0x1_0000_0000,
                a <= n,
                r@.map_values(|s: String| s@) =~= seq!["strict digraph {"@] + node_lines(
                    *self,
                    n as int,
                ) + edge_lines(*self, a as int),
            decreases n - a,
        {
            let deg = self.adjacent[a].len();
            let mut j: usize = 0;
            while j < deg
                invariant
                    self.wf(),
                    n == self.n(),
                    n < 0x1_0000_0000,
                    a < n,
                    deg == self.adjacent@[a as int]@.len(),
                    j <= deg,
                    r@.map_values(|s: String| s@) =~= seq!["strict digraph {"@] + node_lines(
                        *self,
                        n as int,
                    ) + edge_lines(*self, a as int) + edge_lines_of(*self, a as int, j as int),
                decreases deg - j,
            {
                let e_to = self.adjacent[a][j].to;
                let e_sym = self.adjacent[a][j].symbol;
                proof {
                    assert(self.edge_ok(a as int, self.adjacent@[a as int]@[j as int]));
                }
                let mut line = String::new();
                line.append("  ");
                let from_s = u64_to_string(a as u64);
                line.append(from_s.as_str());
                line.append(" -> ");
                let to_s = u64_to_string(e_to as u64);
                line.append(to_s.as_str());
                line.append(" [label=\"");
                push_char(&mut line, e_sym);
                line.append("\"];");
                proof {
                    assert(line@ =~= edge_text(a as nat, e_to as nat, e_sym));
                }
                let ghost pre_map = r@.map_values(|s: String| s@);
                r.push(line);
                proof {
                    assert(r@.map_values(|s: String| s@) =~= pre_map.push(
                        edge_text(a as nat, e_to as nat, e_sym),
                    ));
                    assert(edge_lines_of(*self, a as int, j as int + 1) =~= edge_lines_of(
                        *self,
                        a as int,
                        j as int,
                    ).push(edge_text(a as nat, e_to as nat, e_sym)));
                    assert(r@.map_values(|s: String| s@) =~= seq!["strict digraph {"@]
                        + node_lines(*self, n as int) + edge_lines(*self, a as int)
                        + edge_lines_of(*self, a as int, j as int + 1));
                }
                j = j + 1;
            }
            proof {
                assert(edge_lines(*self, a as int + 1) =~= edge_lines(*self, a as int)
                    + edge_lines_of(
                    *self,
                    a as int,
                    self.adjacent@[a as int]@.len() as int,
                ));
                assert(seq!["strict digraph {"@] + node_lines(*self, n as int) + edge_lines(
                    *self,
                    a as int,
                ) + edge_lines_of(*self, a as int, deg as int) =~= seq!["strict digraph {"@]
                    + node_lines(*self, n as int) + edge_lines(*self, a as int + 1));
            }
            a = a + 1;
        }
        let mut footer = String::new();
        footer.append("}");
        r.push(footer);
        proof {
            reveal_strlit("}");
            assert(r@.map_values(|s: String| s@) =~= dot_lines_spec(*self));
        }
        r
    }

    /// The DOT rendering as one text: `strict digraph {`, the node and
    /// edge lines, and the closing brace, one line each.
    pub fn to_dot(&self) -> (r: String)
        requires
            self.wf(),
            self.n() < 0x1_0000_0000,
        ensures
            r@ == lines_text(dot_lines_spec(*self)),
    {
        let lines = self.to_dot_lines();
        let ghost views = lines@.map_values(|s: String| s@);
        let mut i: usize = lines.len();
        let mut acc = String::new();
        proof {
            assert(views.skip(i as int) =~= Seq::<Seq<char>>::empty());
        }
        while i > 0
            invariant
                i <= lines@.len(),
                views == lines@.map_values(|s: String| s@),
                views == dot_lines_spec(*self),
                acc@ == lines_text(views.skip(i as int)),
            decreases i,
        {
            i = i - 1;
            let mut piece = lines[i].clone();
            push_char(&mut piece, '\n');
            let joined = piece.concat(acc.as_str());
            acc = joined;
            proof {
                assert(views.skip(i as int)[0] == views[i as int]);
                assert(views.skip(i as int).drop_first() =~= views.skip(i as int + 1));
                assert(acc@ =~= lines_text(views.skip(i as int)));
            }
        }
        proof {
            assert(views.skip(0) =~= views);
        }
        acc
    }
}

/// The value of a digit string, read left to right.
pub open spec fn val_of_digits(s: Seq<char>) -> int
    decreases s.len(),
{
    if s.len() == 0 {
        0
    } else {
        val_of_digits(s.drop_last()) * 10 + (s.last() as u32 - 48)
    }
}

/// Reading a rendered number back gives the number.
proof fn lemma_val_of_dec(n: nat)
    ensures
        val_of_digits(dec_str(n)) == n,
    decreases n,
{
    lemma_dec_str_shape(n);
    if n < 10 {
        assert(dec_str(n).drop_last() =~= Seq::<char>::empty());
        assert(dec_str(n).last() == digit(n as int));
        assert(digit(n as int) as u32 == 48 + n);
        assert(val_of_digits(dec_str(n)) == val_of_digits(dec_str(n).drop_last()) * 10 + (
        dec_str(n).last() as u32 - 48));
    } else {
        lemma_val_of_dec(n / 10);
        assert(dec_str(n).drop_last() =~= dec_str(n / 10));
        assert(dec_str(n).last() == digit((n % 10) as int));
        assert(digit((n % 10) as int) as u32 == 48 + n % 10);
        assert(val_of_digits(dec_str(n)) == val_of_digits(dec_str(n).drop_last()) * 10 + (
        dec_str(n).last() as u32 - 48));
        assert(val_of_digits(dec_str(n)) == (n / 10) * 10 + n % 10);
    }
}

/// A digit string's value is non-negative.
proof fn lemma_val_nonneg(s: Seq<char>)
    requires
        forall|i: int| 0 <= i < s.len() ==> is_digit(#[trigger] s[i]),
    ensures
        val_of_digits(s) >= 0,
    decreases s.len(),
{
    if s.len() > 0 {
        assert(forall|i: int|
            0 <= i < s.drop_last().len() ==> is_digit(#[trigger] s.drop_last()[i]));
        lemma_val_nonneg(s.drop_last());
        assert(is_digit(s.last()));
    }
}

/// A prefix of a digit string never exceeds the whole string's value.
proof fn lemma_val_prefix_bound(s: Seq<char>, k: int)
    requires
        0 <= k <= s.len(),
        forall|i: int| 0 <= i < s.len() ==> is_digit(#[trigger] s[i]),
    ensures
        0 <= val_of_digits(s.take(k)) <= val_of_digits(s),
    decreases s.len() - k,
{
    assert(forall|i: int| 0 <= i < s.take(k).len() ==> is_digit(#[trigger] s.take(k)[i]));
    lemma_val_nonneg(s.take(k));
    if k == s.len() {
        assert(s.take(k) =~= s);
    } else {
        lemma_val_prefix_bound(s, k + 1);
        assert(s.take(k + 1).drop_last() =~= s.take(k));
        assert(s.take(k + 1).last() == s[k]);
        assert(is_digit(s[k]));
    }
}

/// A character of the lowercase alphabet is a letter: not a digit, not a
/// quote, not a space.
proof fn lemma_lower_char_facts(sig: Seq<char>, k: int)
    requires
        crate::graph::valid_word(crate::graph::ascii_lower_seq(), sig),
        0 <= k < sig.len(),
    ensures
        97 <= sig[k] as u32 <= 122,
        !is_digit(sig[k]),
        sig[k] != '"',
{
    assert(crate::graph::ascii_lower_seq().contains(sig[k]));
    let idx = choose|idx: int|
        0 <= idx < 26 && (#[trigger] crate::graph::ascii_lower_seq()[idx]) == sig[k];
    assert(crate::graph::ascii_lower_seq()[idx] as u32 == 97 + idx);
    if sig[k] == '"' {
        assert(sig[k] as u32 == 34);
    }
}

/// Where a digit scan from position two must stop on a node line: right
/// at the end of the rendered label.
proof fn lemma_node_scan_stop(line: Seq<char>, l: nat, sig: Seq<char>, i: int)
    requires
        line == node_text(l, sig),
        2 <= i <= line.len(),
        forall|k: int| 2 <= k < i ==> is_digit(#[trigger] line[k]),
        i == line.len() || !is_digit(line[i]),
    ensures
        i == 2 + dec_str(l).len(),
        line.len() == 14 + dec_str(l).len() + sig.len(),
{
    lemma_node_text_anatomy(l, sig);
    let t = node_text(l, sig);
    let d = dec_str(l).len() as int;
    if i > 2 + d {
        assert(is_digit(line[2 + d]));
        assert(t[2 + d] == ' ');
        assert(' ' as u32 == 32);
        assert(false);
    }
    if i < 2 + d {
        assert(t[2 + (i - 2)] == dec_str(l)[i - 2]);
        assert(is_digit(t[2 + (i - 2)]));
        assert(i < line.len());
        assert(false);
    }
}

/// A well-formed input to the node-line parser: the line renders exactly
/// this label and signature, within the sizes the library produces.
pub open spec fn node_line_for(line: Seq<char>, l: nat, sig: Seq<char>) -> bool {
    &&& line == node_text(l, sig)
    &&& l <= 0xFFFF_FFFF
    &&& crate::graph::valid_word(crate::graph::ascii_lower_seq(), sig)
}

/// A well-formed input to the edge-line parser.
pub open spec fn edge_line_for(line: Seq<char>, a: nat, b: nat, c: char) -> bool {
    &&& line == edge_text(a, b, c)
    &&& a <= 0xFFFF_FFFF
    &&& b <= 0xFFFF_FFFF
}

/// The character positions of a node line: two spaces, the digits of the
/// label, a space opening ` [label="`, the signature, the closing quote.
proof fn lemma_node_text_anatomy(l: nat, sig: Seq<char>)
    ensures
        ({
            let t = node_text(l, sig);
            let d = dec_str(l).len() as int;
            &&& d >= 1
            &&& t.len() == 14 + d + sig.len()
            &&& forall|k: int| 0 <= k < d ==> t[2 + k] == dec_str(l)[k]
            &&& forall|k: int| 0 <= k < d ==> is_digit(#[trigger] t[2 + k])
            &&& t[2 + d] == ' '
            &&& forall|k: int| 0 <= k < sig.len() ==> t[11 + d + k] == sig[k]
            &&& t[11 + d + sig.len()] == '"'
        }),
{
    reveal_strlit("  ");
    reveal_strlit(" [label=\"");
    reveal_strlit("\"];");
    lemma_dec_str_shape(l);
    let t = node_text(l, sig);
    let d = dec_str(l).len() as int;
    assert(t[2 + d] == " [label=\""@[0]);
    assert(t[11 + d + sig.len()] == "\"];"@[0]);
    assert forall|k: int| 0 <= k < d implies is_digit(#[trigger] t[2 + k]) by {
        assert(t[2 + k] == dec_str(l)[k]);
    }
}

/// The character positions of an edge line: two spaces, the source
/// digits, an arrow, the target digits, the label opener, the symbol, the
/// closing quote.
proof fn lemma_edge_text_anatomy(a: nat, b: nat, c: char)
    ensures
        ({
            let t = edge_text(a, b, c);
            let da = dec_str(a).len() as int;
            let db = dec_str(b).len() as int;
            &&& da >= 1 && db >= 1
            &&& t.len() == 19 + da + db
            &&& forall|k: int| 0 <= k < da ==> t[2 + k] == dec_str(a)[k]
            &&& forall|k: int| 0 <= k < da ==> is_digit(#[trigger] t[2 + k])
            &&& t[2 + da] == ' '
            &&& t[3 + da] == '-'
            &&& forall|k: int| 0 <= k < db ==> t[6 + da + k] == dec_str(b)[k]
            &&& forall|k: int| 0 <= k < db ==> is_digit(#[trigger] t[6 + da + k])
            &&& t[6 + da + db] == ' '
            &&& t[15 + da + db] == c
        }),
{
    reveal_strlit("  ");
    reveal_strlit(" -> ");
    reveal_strlit(" [label=\"");
    reveal_strlit("\"];");
    lemma_dec_str_shape(a);
    lemma_dec_str_shape(b);
    let t = edge_text(a, b, c);
    let da = dec_str(a).len() as int;
    let db = dec_str(b).len() as int;
    assert(t[2 + da] == " -> "@[0]);
    assert(t[3 + da] == " -> "@[1]);
    assert(t[6 + da + db] == " [label=\""@[0]);
    assert(t[15 + da + db] == c);
    assert forall|k: int| 0 <= k < da implies is_digit(#[trigger] t[2 + k]) by {
        assert(t[2 + k] == dec_str(a)[k]);
    }
    assert forall|k: int| 0 <= k < db implies is_digit(#[trigger] t[6 + da + k]) by {
        assert(t[6 + da + k] == dec_str(b)[k]);
    }
}

/// Parses one DOT node line. Returns the label and the signature only when
/// re-rendering them reproduces the line exactly, so whatever comes back
/// is precisely what the line says.
pub fn parse_node_line(line: &String) -> (r: Option<(u64, String)>)
    ensures
        match r {
            Some((l, sig)) => line@ == node_text(l as nat, sig@),
            None => true,
        },
        forall|l: nat, sig: Seq<char>|
            #[trigger] node_line_for(line@, l, sig) ==> match r {
                Some(p) => p.0 as nat == l && p.1@ == sig,
                None => false,
            },
{
    let cs = crate::text::chars_of(line.as_str());
    let len = cs.len();
    // shape:   N [label="SIG"];
    if len < 2 {
        proof {
            assert forall|l: nat, sig: Seq<char>| #[trigger] node_line_for(
                line@,
                l,
                sig,
            ) implies false by {
                lemma_node_text_anatomy(l, sig);
            }
        }
        return None;
    }
    let mut i: usize = 2;
    let mut num: u64 = 0;
    let mut saw_digit = false;
    while i < len && (cs[i] as u32) >= 48 && (cs[i] as u32) <= 57
        invariant
            2 <= i <= len,
            len == cs@.len(),
            cs@ == line@,
            saw_digit == (i > 2),
            forall|k: int| 2 <= k < i ==> is_digit(#[trigger] cs@[k]),
            num as int == val_of_digits(cs@.subrange(2, i as int)),
            num <= 0xFFFF_FFFF * 10 + 9,
        decreases len - i,
    {
        let d = (cs[i] as u32) - 48;
        if num > 0xFFFF_FFFF {
            proof {
                assert forall|l: nat, sig: Seq<char>| #[trigger] node_line_for(
                    line@,
                    l,
                    sig,
                ) implies false by {
                    lemma_node_text_anatomy(l, sig);
                    let dl = dec_str(l).len() as int;
                    assert(i <= 2 + dl) by {
                        if i > 2 + dl {
                            assert(is_digit(cs@[2 + dl]));
                            assert(node_text(l, sig)[2 + dl] == ' ');
                            assert(' ' as u32 == 32);
                        }
                    }
                    assert(cs@.subrange(2, i as int) =~= dec_str(l).take(i - 2)) by {
                        assert forall|k: int| 0 <= k < i - 2 implies cs@.subrange(
                            2,
                            i as int,
                        )[k] == dec_str(l).take(i - 2)[k] by {
                            assert(node_text(l, sig)[2 + k] == dec_str(l)[k]);
                        }
                    }
                    lemma_dec_str_shape(l);
                    lemma_val_prefix_bound(dec_str(l), i - 2);
                    lemma_val_of_dec(l);
                }
            }
            return None;
        }
        proof {
            assert(cs@.subrange(2, i as int + 1).drop_last() =~= cs@.subrange(2, i as int));
            assert(cs@.subrange(2, i as int + 1).last() == cs@[i as int]);
        }
        num = num * 10 + d as u64;
        saw_digit = true;
        i = i + 1;
    }
    if !saw_digit {
        proof {
            assert forall|l: nat, sig: Seq<char>| #[trigger] node_line_for(
                line@,
                l,
                sig,
            ) implies false by {
                lemma_node_text_anatomy(l, sig);
                assert(node_text(l, sig)[2 + 0int] == dec_str(l)[0]);
                assert(is_digit(node_text(l, sig)[2 + 0int]));
                assert(line@.len() >= 15);
                assert(is_digit(cs@[2]));
            }
        }
        return None;
    }
    // the rest up to the closing quote is the label
    if len - i < 9 {
        proof {
            assert forall|l: nat, sig: Seq<char>| #[trigger] node_line_for(
                line@,
                l,
                sig,
            ) implies false by {
                lemma_node_scan_stop(line@, l, sig, i as int);
            }
        }
        return None;
    }
    let mut sig = String::new();
    let mut j: usize = i + 9;  // skip ` [label="`
    while j < len && cs[j] != '"'
        invariant
            i + 9 <= j <= len,
            len == cs@.len(),
            cs@ == line@,
            sig@ == cs@.subrange(i as int + 9, j as int),
            forall|k: int| i + 9 <= k < j ==> (#[trigger] cs@[k]) != '"',
        decreases len - j,
    {
        push_char(&mut sig, cs[j]);
        proof {
            assert(sig@ =~= cs@.subrange(i as int + 9, j as int + 1));
        }
        j = j + 1;
    }
    // accept only if re-rendering reproduces the line
    let mut re = String::new();
    re.append("  ");
    let num_s = u64_to_string(num);
    re.append(num_s.as_str());
    re.append(" [label=\"");
    re.append(sig.as_str());
    re.append("\"];");
    proof {
        assert(re@ == node_text(num as nat, sig@));
    }
    if re.eq(line) {
        proof {
            assert forall|l: nat, sig2: Seq<char>| #[trigger] node_line_for(
                line@,
                l,
                sig2,
            ) implies (num as nat == l && sig@ == sig2) by {
                assert(line@ == node_text(l, sig2));
                assert(line@ == node_text(num as nat, sig@));
                lemma_node_text_injective(l, sig2, num as nat, sig@);
            }
        }
        Some((num, sig))
    } else {
        proof {
            assert forall|l: nat, sig2: Seq<char>| #[trigger] node_line_for(
                line@,
                l,
                sig2,
            ) implies false by {
                lemma_node_scan_stop(line@, l, sig2, i as int);
                lemma_node_text_anatomy(l, sig2);
                let dl = dec_str(l).len() as int;
                // the digit scan recovered the label
                assert(cs@.subrange(2, i as int) =~= dec_str(l)) by {
                    assert forall|k: int| 0 <= k < dl implies cs@.subrange(2, i as int)[k]
                        == dec_str(l)[k] by {
                        assert(node_text(l, sig2)[2 + k] == dec_str(l)[k]);
                    }
                }
                lemma_val_of_dec(l);
                assert(num as nat == l);
                // the label scan stopped exactly at the closing quote
                assert(j == i + 9 + sig2.len()) by {
                    if j > i + 9 + sig2.len() {
                        assert(cs@[11 + dl + sig2.len()] != '"');
                        assert(node_text(l, sig2)[11 + dl + sig2.len()] == '"');
                    }
                    if j < i + 9 + sig2.len() {
                        assert(node_text(l, sig2)[11 + dl + (j - i - 9)] == sig2[j - i - 9]);
                        lemma_lower_char_facts(sig2, j - i - 9);
                        assert(is_digit(cs@[j as int]) == false);
                        assert(cs@[j as int] == sig2[j - i - 9]);
                        assert(cs@[j as int] != '"');
                        assert(j < len);
                    }
                }
                assert(sig@ =~= sig2) by {
                    assert forall|k: int| 0 <= k < sig2.len() implies sig@[k] == sig2[k] by {
                        assert(node_text(l, sig2)[11 + dl + k] == sig2[k]);
                        assert(sig@[k] == cs@[i as int + 9 + k]);
                    }
                }
                assert(re@ == node_text(l, sig2));
                assert(re@ == line@);
            }
        }
        None
    }
}

/// Where the first digit scan must stop on an edge line: at the end of
/// the source label.
proof fn lemma_edge_scan1_stop(line: Seq<char>, a: nat, b: nat, c: char, i: int)
    requires
        line == edge_text(a, b, c),
        2 <= i <= line.len(),
        forall|k: int| 2 <= k < i ==> is_digit(#[trigger] line[k]),
        i == line.len() || !is_digit(line[i]),
    ensures
        i == 2 + dec_str(a).len(),
        line.len() == 19 + dec_str(a).len() + dec_str(b).len(),
{
    lemma_edge_text_anatomy(a, b, c);
    let t = edge_text(a, b, c);
    let da = dec_str(a).len() as int;
    if i > 2 + da {
        assert(is_digit(line[2 + da]));
        assert(t[2 + da] == ' ');
        assert(' ' as u32 == 32);
        assert(false);
    }
    if i < 2 + da {
        assert(t[2 + (i - 2)] == dec_str(a)[i - 2]);
        assert(is_digit(t[2 + (i - 2)]));
        assert(i < line.len());
        assert(false);
    }
}

/// Where the second digit scan must stop on an edge line: at the end of
/// the target label.
proof fn lemma_edge_scan2_stop(line: Seq<char>, a: nat, b: nat, c: char, j: int)
    requires
        line == edge_text(a, b, c),
        6 + dec_str(a).len() <= j <= line.len(),
        forall|k: int| 6 + dec_str(a).len() <= k < j ==> is_digit(#[trigger] line[k]),
        j == line.len() || !is_digit(line[j]),
    ensures
        j == 6 + dec_str(a).len() + dec_str(b).len(),
{
    lemma_edge_text_anatomy(a, b, c);
    let t = edge_text(a, b, c);
    let da = dec_str(a).len() as int;
    let db = dec_str(b).len() as int;
    if j > 6 + da + db {
        assert(is_digit(line[6 + da + db]));
        assert(t[6 + da + db] == ' ');
        assert(' ' as u32 == 32);
        assert(false);
    }
    if j < 6 + da + db {
        assert(t[6 + da + (j - 6 - da)] == dec_str(b)[j - 6 - da]);
        assert(is_digit(t[6 + da + (j - 6 - da)]));
        assert(j < line.len());
        assert(false);
    }
}

/// Parses one DOT edge line the same way: the endpoints and the symbol
/// come back only if they re-render to the line itself.
pub fn parse_edge_line(line: &String) -> (r: Option<(u64, u64, char)>)
    ensures
        match r {
            Some((a, b, c)) => line@ == edge_text(a as nat, b as nat, c),
            None => true,
        },
        forall|a: nat, b: nat, c: char|
            #[trigger] edge_line_for(line@, a, b, c) ==> match r {
                Some(p) => p.0 as nat == a && p.1 as nat == b && p.2 == c,
                None => false,
            },
{
    let cs = crate::text::chars_of(line.as_str());
    let len = cs.len();
    if len < 2 {
        proof {
            assert forall|a: nat, b: nat, c: char| #[trigger] edge_line_for(
                line@,
                a,
                b,
                c,
            ) implies false by {
                lemma_edge_text_anatomy(a, b, c);
            }
        }
        return None;
    }
    let mut i: usize = 2;
    let mut from: u64 = 0;
    let mut saw_digit = false;
    while i < len && (cs[i] as u32) >= 48 && (cs[i] as u32) <= 57
        invariant
            2 <= i <= len,
            len == cs@.len(),
            cs@ == line@,
            saw_digit == (i > 2),
            forall|k: int| 2 <= k < i ==> is_digit(#[trigger] cs@[k]),
            from as int == val_of_digits(cs@.subrange(2, i as int)),
            from <= 0xFFFF_FFFF * 10 + 9,
        decreases len - i,
    {
        let d = (cs[i] as u32) - 48;
        if from > 0xFFFF_FFFF {
            proof {
                assert forall|a: nat, b: nat, c: char| #[trigger] edge_line_for(
                    line@,
                    a,
                    b,
                    c,
                ) implies false by {
                    lemma_edge_text_anatomy(a, b, c);
                    let da = dec_str(a).len() as int;
                    assert(i <= 2 + da) by {
                        if i > 2 + da {
                            assert(is_digit(cs@[2 + da]));
                            assert(edge_text(a, b, c)[2 + da] == ' ');
                            assert(' ' as u32 == 32);
                        }
                    }
                    assert(cs@.subrange(2, i as int) =~= dec_str(a).take(i - 2)) by {
                        assert forall|k: int| 0 <= k < i - 2 implies cs@.subrange(
                            2,
                            i as int,
                        )[k] == dec_str(a).take(i - 2)[k] by {
                            assert(edge_text(a, b, c)[2 + k] == dec_str(a)[k]);
                        }
                    }
                    lemma_dec_str_shape(a);
                    lemma_val_prefix_bound(dec_str(a), i - 2);
                    lemma_val_of_dec(a);
                }
            }
            return None;
        }
        proof {
            assert(cs@.subrange(2, i as int + 1).drop_last() =~= cs@.subrange(2, i as int));
            assert(cs@.subrange(2, i as int + 1).last() == cs@[i as int]);
        }
        from = from * 10 + d as u64;
        saw_digit = true;
        i = i + 1;
    }
    if !saw_digit {
        proof {
            assert forall|a: nat, b: nat, c: char| #[trigger] edge_line_for(
                line@,
                a,
                b,
                c,
            ) implies false by {
                lemma_edge_text_anatomy(a, b, c);
                assert(edge_text(a, b, c)[2 + 0int] == dec_str(a)[0]);
                assert(is_digit(edge_text(a, b, c)[2 + 0int]));
                assert(line@.len() >= 21);
                assert(is_digit(cs@[2]));
            }
        }
        return None;
    }
    if len - i < 4 {
        proof {
            assert forall|a: nat, b: nat, c: char| #[trigger] edge_line_for(
                line@,
                a,
                b,
                c,
            ) implies false by {
                lemma_edge_scan1_stop(line@, a, b, c, i as int);
            }
        }
        return None;
    }
    let mut j: usize = i + 4;  // skip ` -> `
    let mut to: u64 = 0;
    saw_digit = false;
    while j < len && (cs[j] as u32) >= 48 && (cs[j] as u32) <= 57
        invariant
            i + 4 <= j <= len,
            2 <= i,
            len == cs@.len(),
            cs@ == line@,
            saw_digit == (j > i + 4),
            forall|k: int| 2 <= k < i ==> is_digit(#[trigger] cs@[k]),
            i == len || !is_digit(cs@[i as int]),
            from as int == val_of_digits(cs@.subrange(2, i as int)),
            forall|k: int| i + 4 <= k < j ==> is_digit(#[trigger] cs@[k]),
            to as int == val_of_digits(cs@.subrange(i as int + 4, j as int)),
            to <= 0xFFFF_FFFF * 10 + 9,
        decreases len - j,
    {
        let d = (cs[j] as u32) - 48;
        if to > 0xFFFF_FFFF {
            proof {
                assert forall|a: nat, b: nat, c: char| #[trigger] edge_line_for(
                    line@,
                    a,
                    b,
                    c,
                ) implies false by {
                    lemma_edge_scan1_stop(line@, a, b, c, i as int);
                    lemma_edge_text_anatomy(a, b, c);
                    let da = dec_str(a).len() as int;
                    let db = dec_str(b).len() as int;
                    assert(j <= 6 + da + db) by {
                        if j > 6 + da + db {
                            assert(is_digit(cs@[6 + da + db]));
                            assert(edge_text(a, b, c)[6 + da + db] == ' ');
                            assert(' ' as u32 == 32);
                        }
                    }
                    assert(cs@.subrange(i as int + 4, j as int) =~= dec_str(b).take(
                        j - i - 4,
                    )) by {
                        assert forall|k: int|
                            0 <= k < j - i - 4 implies (#[trigger] cs@.subrange(
                            i as int + 4,
                            j as int,
                        )[k]) == dec_str(b).take(j - i - 4)[k] by {
                            assert(edge_text(a, b, c)[6 + da + k] == dec_str(b)[k]);
                        }
                    }
                    lemma_dec_str_shape(b);
                    lemma_val_prefix_bound(dec_str(b), j - i - 4);
                    lemma_val_of_dec(b);
                }
            }
            return None;
        }
        proof {
            assert(cs@.subrange(i as int + 4, j as int + 1).drop_last() =~= cs@.subrange(
                i as int + 4,
                j as int,
            ));
            assert(cs@.subrange(i as int + 4, j as int + 1).last() == cs@[j as int]);
        }
        to = to * 10 + d as u64;
        saw_digit = true;
        j = j + 1;
    }
    if !saw_digit {
        proof {
            assert forall|a: nat, b: nat, c: char| #[trigger] edge_line_for(
                line@,
                a,
                b,
                c,
            ) implies false by {
                lemma_edge_scan1_stop(line@, a, b, c, i as int);
                lemma_edge_text_anatomy(a, b, c);
                let da = dec_str(a).len() as int;
                assert(edge_text(a, b, c)[6 + da + 0int] == dec_str(b)[0]);
                assert(is_digit(edge_text(a, b, c)[6 + da + 0int]));
                assert(is_digit(cs@[j as int]));
                assert(j < len);
            }
        }
        return None;
    }
    if len - j < 10 {
        proof {
            assert forall|a: nat, b: nat, c: char| #[trigger] edge_line_for(
                line@,
                a,
                b,
                c,
            ) implies false by {
                lemma_edge_scan1_stop(line@, a, b, c, i as int);
                lemma_edge_scan2_stop(line@, a, b, c, j as int);
            }
        }
        return None;
    }
    let k = j + 9;  // skip ` [label="`
    let sym = cs[k];
    let mut re = String::new();
    re.append("  ");
    let from_s = u64_to_string(from);
    re.append(from_s.as_str());
    re.append(" -> ");
    let to_s = u64_to_string(to);
    re.append(to_s.as_str());
    re.append(" [label=\"");
    push_char(&mut re, sym);
    re.append("\"];");
    proof {
        assert(re@ =~= edge_text(from as nat, to as nat, sym));
    }
    if re.eq(line) {
        proof {
            assert forall|a: nat, b: nat, c: char| #[trigger] edge_line_for(
                line@,
                a,
                b,
                c,
            ) implies (from as nat == a && to as nat == b && sym == c) by {
                assert(line@ == edge_text(a, b, c));
                assert(line@ == edge_text(from as nat, to as nat, sym));
                lemma_edge_text_injective(a, b, c, from as nat, to as nat, sym);
            }
        }
        Some((from, to, sym))
    } else {
        proof {
            assert forall|a: nat, b: nat, c: char| #[trigger] edge_line_for(
                line@,
                a,
                b,
                c,
            ) implies false by {
                lemma_edge_scan1_stop(line@, a, b, c, i as int);
                lemma_edge_scan2_stop(line@, a, b, c, j as int);
                lemma_edge_text_anatomy(a, b, c);
                let da = dec_str(a).len() as int;
                let db = dec_str(b).len() as int;
                assert(cs@.subrange(2, i as int) =~= dec_str(a)) by {
                    assert forall|kk: int| 0 <= kk < da implies cs@.subrange(2, i as int)[kk]
                        == dec_str(a)[kk] by {
                        assert(edge_text(a, b, c)[2 + kk] == dec_str(a)[kk]);
                    }
                }
                assert(cs@.subrange(i as int + 4, j as int) =~= dec_str(b)) by {
                    assert forall|kk: int| 0 <= kk < db implies cs@.subrange(
                        i as int + 4,
                        j as int,
                    )[kk] == dec_str(b)[kk] by {
                        assert(edge_text(a, b, c)[6 + da + kk] == dec_str(b)[kk]);
                    }
                }
                lemma_val_of_dec(a);
                lemma_val_of_dec(b);
                assert(from as nat == a && to as nat == b);
                assert(edge_text(a, b, c)[15 + da + db] == c);
                assert(sym == c);
                assert(re@ == edge_text(a, b, c));
                assert(re@ == line@);
            }
        }
        None
    }
}

/// Whether some input line renders exactly this node entry.
pub open spec fn node_entry_ok(lines: Seq<String>, e: (u64, String)) -> bool {
    exists|i: int|
        0 <= i < lines.len() && (#[trigger] lines[i])@ == node_text(e.0 as nat, e.1@)
}

/// Whether some input line renders exactly this edge entry.
pub open spec fn edge_entry_ok(lines: Seq<String>, e: (u64, u64, char)) -> bool {
    exists|i: int|
        0 <= i < lines.len() && (#[trigger] lines[i])@ == edge_text(e.0 as nat, e.1 as nat, e.2)
}

/// Whether some input line renders exactly this node.
pub open spec fn has_node_line(lines: Seq<String>, l: nat, sig: Seq<char>) -> bool {
    exists|i: int| 0 <= i < lines.len() && (#[trigger] lines[i])@ == node_text(l, sig)
}

/// Whether some input line renders exactly this edge.
pub open spec fn has_edge_line(lines: Seq<String>, a: nat, b: nat, c: char) -> bool {
    exists|i: int| 0 <= i < lines.len() && (#[trigger] lines[i])@ == edge_text(a, b, c)
}

/// Every node line of the input (within the sizes the library produces)
/// has its label and signature among the parsed entries.
pub open spec fn nodes_complete(lines: Seq<String>, nodes: Seq<(u64, String)>) -> bool {
    forall|l: nat, sig: Seq<char>|
        #[trigger] has_node_line(lines, l, sig) && l <= 0xFFFF_FFFF
            && crate::graph::valid_word(crate::graph::ascii_lower_seq(), sig) ==> exists|k: int|
            0 <= k < nodes.len() && (#[trigger] nodes[k]).0 as nat == l && nodes[k].1@ == sig
}

/// Every edge line of the input has its endpoints and symbol among the
/// parsed entries.
pub open spec fn edges_complete(lines: Seq<String>, edges: Seq<(u64, u64, char)>) -> bool {
    forall|a: nat, b: nat, c: char|
        #[trigger] has_edge_line(lines, a, b, c) && a <= 0xFFFF_FFFF && b <= 0xFFFF_FFFF
            ==> exists|k: int|
            0 <= k < edges.len() && (#[trigger] edges[k]).0 as nat == a && edges[k].1 as nat == b
                && edges[k].2 == c
}

/// Re-parses a DOT rendering's node and edge lines. Sound: every pair
/// under `nodes` renders exactly one node line of the input, every triple
/// under `edges` one edge line. Complete: every node line of the input
/// (within the sizes the library produces) yields a node entry, and every
/// edge line an edge entry — so the label set and the edge set of an
/// export are recovered exactly.
pub fn parse_dot_lines(lines: &Vec<String>) -> (r: (Vec<(u64, String)>, Vec<(u64, u64, char)>))
    ensures
        forall|k: int| 0 <= k < r.0@.len() ==> node_entry_ok(lines@, #[trigger] r.0@[k]),
        forall|k: int| 0 <= k < r.1@.len() ==> edge_entry_ok(lines@, #[trigger] r.1@[k]),
        nodes_complete(lines@, r.0@),
        edges_complete(lines@, r.1@),
{
    let mut nodes: Vec<(u64, String)> = Vec::new();
    let mut edges: Vec<(u64, u64, char)> = Vec::new();
    let mut i: usize = 0;
    while i < lines.len()
        invariant
            i <= lines@.len(),
            forall|k: int| 0 <= k < nodes@.len() ==> node_entry_ok(lines@, #[trigger] nodes@[k]),
            forall|k: int| 0 <= k < edges@.len() ==> edge_entry_ok(lines@, #[trigger] edges@[k]),
            nodes_complete(lines@.take(i as int), nodes@),
            edges_complete(lines@.take(i as int), edges@),
        decreases lines@.len() - i,
    {
        let ghost pre_nodes = nodes@;
        let ghost pre_edges = edges@;
        let parsed_edge = parse_edge_line(&lines[i]);
        match parsed_edge {
            Some(e) => {
                edges.push(e);
            },
            None => {
                match parse_node_line(&lines[i]) {
                    Some(nd) => {
                        nodes.push(nd);
                    },
                    None => {},
                }
            },
        }
        proof {
            // soundness carries over; new entries point at this line
            assert forall|k: int| 0 <= k < edges@.len() implies edge_entry_ok(
                lines@,
                #[trigger] edges@[k],
            ) by {
                if k < pre_edges.len() {
                    assert(edges@[k] == pre_edges[k]);
                } else {
                    assert(lines@[i as int]@ == edge_text(
                        edges@[k].0 as nat,
                        edges@[k].1 as nat,
                        edges@[k].2,
                    ));
                }
            }
            assert forall|k: int| 0 <= k < nodes@.len() implies node_entry_ok(
                lines@,
                #[trigger] nodes@[k],
            ) by {
                if k < pre_nodes.len() {
                    assert(nodes@[k] == pre_nodes[k]);
                } else {
                    assert(lines@[i as int]@ == node_text(nodes@[k].0 as nat, nodes@[k].1@));
                }
            }
            // completeness: the new line's node or edge, if any, is taken up
            assert forall|l: nat, sig: Seq<char>|
                #[trigger] has_node_line(lines@.take(i as int + 1), l, sig) && l <= 0xFFFF_FFFF
                    && crate::graph::valid_word(
                    crate::graph::ascii_lower_seq(),
                    sig,
                ) implies exists|k: int|
                0 <= k < nodes@.len() && (#[trigger] nodes@[k]).0 as nat == l && nodes@[k].1@
                    == sig by {
                assert(nodes_complete(lines@.take(i as int), pre_nodes));
                let wi = choose|wi: int|
                    0 <= wi < i + 1 && (#[trigger] lines@.take(i as int + 1)[wi])@ == node_text(
                        l,
                        sig,
                    );
                if wi < i {
                    assert(lines@.take(i as int)[wi]@ == node_text(l, sig));
                    assert(has_node_line(lines@.take(i as int), l, sig));
                    let k = choose|k: int|
                        0 <= k < pre_nodes.len() && (#[trigger] pre_nodes[k]).0 as nat == l
                            && pre_nodes[k].1@ == sig;
                    assert(nodes@[k].0 as nat == l && nodes@[k].1@ == sig);
                } else {
                    assert(lines@[i as int]@ == node_text(l, sig));
                    assert(node_line_for(lines@[i as int]@, l, sig));
                    if parsed_edge is Some {
                        let e = parsed_edge.unwrap();
                        assert(lines@[i as int]@ == edge_text(e.0 as nat, e.1 as nat, e.2));
                        lemma_node_text_shape(l, sig);
                        assert(false);
                    } else {
                        // the node parser is complete, so it accepted
                        assert(nodes@[pre_nodes.len() as int].0 as nat == l
                            && nodes@[pre_nodes.len() as int].1@ == sig);
                    }
                }
            }
            assert forall|a: nat, b: nat, c: char|
                #[trigger] has_edge_line(lines@.take(i as int + 1), a, b, c) && a <= 0xFFFF_FFFF
                    && b <= 0xFFFF_FFFF implies exists|k: int|
                0 <= k < edges@.len() && (#[trigger] edges@[k]).0 as nat == a && edges@[k].1
                    as nat == b && edges@[k].2 == c by {
                assert(edges_complete(lines@.take(i as int), pre_edges));
                let wi = choose|wi: int|
                    0 <= wi < i + 1 && (#[trigger] lines@.take(i as int + 1)[wi])@ == edge_text(
                        a,
                        b,
                        c,
                    );
                if wi < i {
                    assert(lines@.take(i as int)[wi]@ == edge_text(a, b, c));
                    assert(has_edge_line(lines@.take(i as int), a, b, c));
                    let k = choose|k: int|
                        0 <= k < pre_edges.len() && (#[trigger] pre_edges[k]).0 as nat == a
                            && pre_edges[k].1 as nat == b && pre_edges[k].2 == c;
                    assert(edges@[k].0 as nat == a && edges@[k].1 as nat == b && edges@[k].2
                        == c);
                } else {
                    assert(lines@[i as int]@ == edge_text(a, b, c));
                    assert(edge_line_for(lines@[i as int]@, a, b, c));
                    // the edge parser is complete, so it accepted
                    assert(parsed_edge is Some);
                    assert(edges@[pre_edges.len() as int].0 as nat == a
                        && edges@[pre_edges.len() as int].1 as nat == b
                        && edges@[pre_edges.len() as int].2 == c);
                }
            }
            assert(nodes_complete(lines@.take(i as int + 1), nodes@));
            assert(edges_complete(lines@.take(i as int + 1), edges@));
        }
        i = i + 1;
    }
    proof {
        assert(lines@.take(i as int) =~= lines@);
        assert(nodes_complete(lines@, nodes@)) by {
            assert forall|l: nat, sig: Seq<char>|
                #[trigger] has_node_line(lines@, l, sig) && l <= 0xFFFF_FFFF
                    && crate::graph::valid_word(
                    crate::graph::ascii_lower_seq(),
                    sig,
                ) implies exists|k: int|
                0 <= k < nodes@.len() && (#[trigger] nodes@[k]).0 as nat == l && nodes@[k].1@
                    == sig by {
                assert(has_node_line(lines@.take(i as int), l, sig));
            }
        }
        assert(edges_complete(lines@, edges@)) by {
            assert forall|a: nat, b: nat, c: char|
                #[trigger] has_edge_line(lines@, a, b, c) && a <= 0xFFFF_FFFF && b
                    <= 0xFFFF_FFFF implies exists|k: int|
                0 <= k < edges@.len() && (#[trigger] edges@[k]).0 as nat == a && edges@[k].1
                    as nat == b && edges@[k].2 == c by {
                assert(has_edge_line(lines@.take(i as int), a, b, c));
            }
        }
    }
    (nodes, edges)
}

/// The DOT export contains exactly one node line per label, rendering that
/// label with its signature, and one edge line per adjacency entry, so the
/// node and edge lines carry the whole label set and edge set.
pub proof fn lemma_dot_lines_complete(g: Graph, l: int, a: int, j: int)
    requires
        g.wf(),
        0 <= l < g.n(),
        0 <= a < g.n(),
        0 <= j < g.adjacent@[a]@.len(),
    ensures
        dot_lines_spec(g).contains(node_text(l as nat, g.sig(l))),
        dot_lines_spec(g).contains(
            edge_text(a as nat, g.adjacent@[a]@[j].to as nat, g.adjacent@[a]@[j].symbol),
        ),
{
    lemma_node_lines_at(g, l, g.n());
    let k1 = choose|k1: int|
        0 <= k1 < node_lines(g, g.n()).len() && (#[trigger] node_lines(g, g.n())[k1])
            == node_text(l as nat, g.sig(l));
    assert(dot_lines_spec(g)[1 + k1] == node_text(l as nat, g.sig(l)));
    lemma_edge_lines_at(g, a, j, g.n());
    let et = edge_text(a as nat, g.adjacent@[a]@[j].to as nat, g.adjacent@[a]@[j].symbol);
    let k2 = choose|k2: int|
        0 <= k2 < edge_lines(g, g.n()).len() && (#[trigger] edge_lines(g, g.n())[k2]) == et;
    lemma_node_lines_len(g, g.n());
    assert(g.adjacent@.len() as int == g.n());
    assert(dot_lines_spec(g)[1 + g.n() + k2] == et);
}

/// Each label's node line stands in the node-line listing.
proof fn lemma_node_lines_at(g: Graph, l: int, i: int)
    requires
        0 <= l < i,
    ensures
        node_lines(g, i).contains(node_text(l as nat, g.sig(l))),
    decreases i,
{
    lemma_node_lines_len(g, i);
    if l == i - 1 {
        assert(node_lines(g, i)[i - 1] == node_text(l as nat, g.sig(l)));
    } else {
        lemma_node_lines_at(g, l, i - 1);
        let k = choose|k: int|
            0 <= k < node_lines(g, i - 1).len() && (#[trigger] node_lines(g, i - 1)[k])
                == node_text(l as nat, g.sig(l));
        assert(node_lines(g, i)[k] == node_text(l as nat, g.sig(l)));
    }
}

/// There is one node line per label.
proof fn lemma_node_lines_len(g: Graph, i: int)
    requires
        i >= 0,
    ensures
        node_lines(g, i).len() == i,
    decreases i,
{
    if i > 0 {
        lemma_node_lines_len(g, i - 1);
    }
}

/// Each adjacency entry's edge line stands in the edge-line listing.
proof fn lemma_edge_lines_at(g: Graph, a: int, j: int, i: int)
    requires
        0 <= a < i,
        0 <= j < g.adjacent@[a]@.len(),
    ensures
        edge_lines(g, i).contains(
            edge_text(a as nat, g.adjacent@[a]@[j].to as nat, g.adjacent@[a]@[j].symbol),
        ),
    decreases i,
{
    let et = edge_text(a as nat, g.adjacent@[a]@[j].to as nat, g.adjacent@[a]@[j].symbol);
    if a == i - 1 {
        lemma_edge_lines_of_at(g, a, j, g.adjacent@[a]@.len() as int);
        let k = choose|k: int|
            0 <= k < edge_lines_of(g, a, g.adjacent@[a]@.len() as int).len() && (
            #[trigger] edge_lines_of(g, a, g.adjacent@[a]@.len() as int)[k]) == et;
        assert(edge_lines(g, i)[edge_lines(g, i - 1).len() + k] == et);
    } else {
        lemma_edge_lines_at(g, a, j, i - 1);
        let k = choose|k: int|
            0 <= k < edge_lines(g, i - 1).len() && (#[trigger] edge_lines(g, i - 1)[k]) == et;
        assert(edge_lines(g, i)[k] == et);
    }
}

/// Each of a class's first `j` edges has its line in that class's listing.
proof fn lemma_edge_lines_of_at(g: Graph, a: int, j: int, jj: int)
    requires
        0 <= j < jj,
    ensures
        edge_lines_of(g, a, jj).contains(
            edge_text(a as nat, g.adjacent@[a]@[j].to as nat, g.adjacent@[a]@[j].symbol),
        ),
        edge_lines_of(g, a, jj).len() == jj,
    decreases jj,
{
    lemma_edge_lines_of_len(g, a, jj);
    let et = edge_text(a as nat, g.adjacent@[a]@[j].to as nat, g.adjacent@[a]@[j].symbol);
    if j == jj - 1 {
        assert(edge_lines_of(g, a, jj)[jj - 1] == et);
    } else {
        lemma_edge_lines_of_at(g, a, j, jj - 1);
        let k = choose|k: int|
            0 <= k < edge_lines_of(g, a, jj - 1).len() && (#[trigger] edge_lines_of(g, a, jj - 1)[k])
                == et;
        assert(edge_lines_of(g, a, jj)[k] == et);
    }
}

/// There is one edge line per adjacency entry of a class.
proof fn lemma_edge_lines_of_len(g: Graph, a: int, jj: int)
    requires
        jj >= 0,
    ensures
        edge_lines_of(g, a, jj).len() == jj,
    decreases jj,
{
    if jj > 0 {
        lemma_edge_lines_of_len(g, a, jj - 1);
    }
}

/// A decimal digit character.
pub open spec fn is_digit(c: char) -> bool {
    48 <= c as u32 <= 57
}

/// A rendered number is one or more digits, one exactly below ten.
proof fn lemma_dec_str_shape(n: nat)
    ensures
        dec_str(n).len() >= 1,
        forall|i: int| 0 <= i < dec_str(n).len() ==> is_digit(#[trigger] dec_str(n)[i]),
        n < 10 <==> dec_str(n).len() == 1,
    decreases n,
{
    if n < 10 {
        assert(dec_str(n)[0] == digit(n as int));
        assert(digit(n as int) as u32 == 48 + n);
    } else {
        lemma_dec_str_shape(n / 10);
        assert forall|i: int| 0 <= i < dec_str(n).len() implies is_digit(
            #[trigger] dec_str(n)[i],
        ) by {
            if i < dec_str(n).len() - 1 {
                assert(dec_str(n)[i] == dec_str(n / 10)[i]);
            } else {
                assert(dec_str(n)[i] == digit((n % 10) as int));
                assert(digit((n % 10) as int) as u32 == 48 + n % 10);
            }
        }
    }
}

/// Two numbers with the same decimal rendering are equal.
proof fn lemma_dec_str_injective(n1: nat, n2: nat)
    requires
        dec_str(n1) == dec_str(n2),
    ensures
        n1 == n2,
    decreases n1,
{
    lemma_dec_str_shape(n1);
    lemma_dec_str_shape(n2);
    if n1 < 10 && n2 < 10 {
        assert(dec_str(n1)[0] == dec_str(n2)[0]);
        assert(dec_str(n1)[0] == digit(n1 as int));
        assert(dec_str(n2)[0] == digit(n2 as int));
        assert(digit(n1 as int) == digit(n2 as int));
        assert(digit(n1 as int) as u32 == 48 + n1);
        assert(digit(n2 as int) as u32 == 48 + n2);
        assert(digit(n1 as int) as u32 == digit(n2 as int) as u32);
    } else if n1 >= 10 && n2 >= 10 {
        assert(dec_str(n1).last() == dec_str(n2).last());
        assert(dec_str(n1).last() == digit((n1 % 10) as int));
        assert(dec_str(n2).last() == digit((n2 % 10) as int));
        assert(digit((n1 % 10) as int) as u32 == 48 + n1 % 10);
        assert(digit((n2 % 10) as int) as u32 == 48 + n2 % 10);
        assert(digit((n1 % 10) as int) as u32 == digit((n2 % 10) as int) as u32);
        assert(n1 % 10 == n2 % 10);
        assert(dec_str(n1).drop_last() =~= dec_str(n1 / 10));
        assert(dec_str(n2).drop_last() =~= dec_str(n2 / 10));
        lemma_dec_str_injective(n1 / 10, n2 / 10);
    }
}

/// A rendered number followed by a non-digit can be split off uniquely.
proof fn lemma_num_prefix(a: nat, b: nat, r1: Seq<char>, r2: Seq<char>)
    requires
        dec_str(a) + r1 == dec_str(b) + r2,
        r1.len() > 0,
        r2.len() > 0,
        !is_digit(r1[0]),
        !is_digit(r2[0]),
    ensures
        a == b,
        r1 == r2,
{
    lemma_dec_str_shape(a);
    lemma_dec_str_shape(b);
    let la = dec_str(a).len() as int;
    let lb = dec_str(b).len() as int;
    let whole = dec_str(a) + r1;
    if la < lb {
        assert(whole[la] == r1[0]);
        assert((dec_str(b) + r2)[la] == dec_str(b)[la]);
        assert(is_digit(dec_str(b)[la]));
        assert(false);
    } else if lb < la {
        assert(whole[lb] == dec_str(a)[lb]);
        assert((dec_str(b) + r2)[lb] == r2[0]);
        assert(is_digit(dec_str(a)[lb]));
        assert(false);
    }
    assert(dec_str(a) =~= dec_str(b)) by {
        assert forall|i: int| 0 <= i < la implies dec_str(a)[i] == dec_str(b)[i] by {
            assert(whole[i] == dec_str(a)[i]);
            assert((dec_str(b) + r2)[i] == dec_str(b)[i]);
        }
    }
    lemma_dec_str_injective(a, b);
    assert(whole.len() == la + r1.len());
    assert((dec_str(b) + r2).len() == lb + r2.len());
    assert(r1.len() == r2.len());
    assert(r1 =~= r2) by {
        assert forall|i: int| 0 <= i < r1.len() implies r1[i] == r2[i] by {
            assert(whole[la + i] == r1[i]);
            assert((dec_str(b) + r2)[lb + i] == r2[i]);
        }
    }
}

/// A node line determines its label and signature: re-parsing a DOT
/// export's node lines recovers exactly the label set with its
/// signatures.
pub proof fn lemma_node_text_injective(l1: nat, s1: Seq<char>, l2: nat, s2: Seq<char>)
    requires
        node_text(l1, s1) == node_text(l2, s2),
    ensures
        l1 == l2,
        s1 == s2,
{
    reveal_strlit("  ");
    reveal_strlit(" [label=\"");
    reveal_strlit("\"];");
    let r1 = " [label=\""@ + s1 + "\"];"@;
    let r2 = " [label=\""@ + s2 + "\"];"@;
    assert(dec_str(l1) + r1 =~= node_text(l1, s1).skip(2));
    assert(dec_str(l2) + r2 =~= node_text(l2, s2).skip(2));
    assert(r1[0] == ' ' && r2[0] == ' ');
    assert(!is_digit(' '));
    lemma_num_prefix(l1, l2, r1, r2);
    assert(s1 =~= s2) by {
        assert forall|i: int| 0 <= i < s1.len() implies s1[i] == s2[i] by {
            assert(r1[9 + i] == s1[i]);
            assert(r2[9 + i] == s2[i]);
        }
    }
}

/// An edge line determines its endpoints and symbol: re-parsing a DOT
/// export's edge lines recovers exactly the edge set.
pub proof fn lemma_edge_text_injective(
    a1: nat,
    b1: nat,
    c1: char,
    a2: nat,
    b2: nat,
    c2: char,
)
    requires
        edge_text(a1, b1, c1) == edge_text(a2, b2, c2),
    ensures
        a1 == a2,
        b1 == b2,
        c1 == c2,
{
    reveal_strlit("  ");
    reveal_strlit(" -> ");
    reveal_strlit(" [label=\"");
    reveal_strlit("\"];");
    let r1 = " -> "@ + dec_str(b1) + " [label=\""@ + seq![c1] + "\"];"@;
    let r2 = " -> "@ + dec_str(b2) + " [label=\""@ + seq![c2] + "\"];"@;
    assert(dec_str(a1) + r1 =~= edge_text(a1, b1, c1).skip(2));
    assert(dec_str(a2) + r2 =~= edge_text(a2, b2, c2).skip(2));
    assert(r1[0] == ' ' && r2[0] == ' ');
    assert(!is_digit(' '));
    lemma_num_prefix(a1, a2, r1, r2);
    let t1 = " [label=\""@ + seq![c1] + "\"];"@;
    let t2 = " [label=\""@ + seq![c2] + "\"];"@;
    assert(dec_str(b1) + t1 =~= r1.skip(4));
    assert(dec_str(b2) + t2 =~= r2.skip(4));
    assert(t1[0] == ' ' && t2[0] == ' ');
    lemma_num_prefix(b1, b2, t1, t2);
    assert(c1 == c2) by {
        assert(t1[9] == c1 && t2[9] == c2);
    }
}

/// Every entry of the node-line listing is some label's node line.
proof fn lemma_node_lines_member(g: Graph, i: int, x: Seq<char>)
    requires
        node_lines(g, i).contains(x),
    ensures
        exists|l: int| 0 <= l < i && x == node_text(l as nat, #[trigger] g.sig(l)),
    decreases i,
{
    if i > 0 {
        let k = choose|k: int|
            0 <= k < node_lines(g, i).len() && (#[trigger] node_lines(g, i)[k]) == x;
        lemma_node_lines_len(g, i - 1);
        if k < node_lines(g, i - 1).len() {
            assert(node_lines(g, i - 1)[k] == x);
            lemma_node_lines_member(g, i - 1, x);
            let l = choose|l: int| 0 <= l < i - 1 && x == node_text(l as nat, #[trigger] g.sig(l));
            assert(x == node_text(l as nat, g.sig(l)));
        } else {
            assert(x == node_text((i - 1) as nat, g.sig(i - 1)));
        }
    }
}

/// Every entry of the edge-line listing is some adjacency entry's line.
proof fn lemma_edge_lines_member(g: Graph, i: int, x: Seq<char>)
    requires
        edge_lines(g, i).contains(x),
    ensures
        exists|a: int, j: int|
            0 <= a < i && 0 <= j < g.adjacent@[a]@.len() && x == edge_text(
                a as nat,
                (#[trigger] g.adjacent@[a]@[j]).to as nat,
                g.adjacent@[a]@[j].symbol,
            ),
    decreases i,
{
    if i > 0 {
        let k = choose|k: int|
            0 <= k < edge_lines(g, i).len() && (#[trigger] edge_lines(g, i)[k]) == x;
        let prev = edge_lines(g, i - 1);
        let own = edge_lines_of(g, i - 1, g.adjacent@[i - 1]@.len() as int);
        if k < prev.len() {
            assert(prev[k] == x);
            lemma_edge_lines_member(g, i - 1, x);
            let (a, j): (int, int) = choose|a: int, j: int|
                0 <= a < i - 1 && 0 <= j < g.adjacent@[a]@.len() && x == edge_text(
                    a as nat,
                    (#[trigger] g.adjacent@[a]@[j]).to as nat,
                    g.adjacent@[a]@[j].symbol,
                );
            assert(x == edge_text(a as nat, g.adjacent@[a]@[j].to as nat, g.adjacent@[a]@[j].symbol));
        } else {
            assert(own[k - prev.len()] == x);
            lemma_edge_lines_of_member(g, i - 1, g.adjacent@[i - 1]@.len() as int, x);
        }
    }
}

/// Every entry of one class's edge-line listing is one of its edges.
proof fn lemma_edge_lines_of_member(g: Graph, a: int, jj: int, x: Seq<char>)
    requires
        edge_lines_of(g, a, jj).contains(x),
        jj <= g.adjacent@[a]@.len(),
    ensures
        exists|j: int|
            0 <= j < g.adjacent@[a]@.len() && x == edge_text(
                a as nat,
                (#[trigger] g.adjacent@[a]@[j]).to as nat,
                g.adjacent@[a]@[j].symbol,
            ),
    decreases jj,
{
    if jj > 0 {
        let k = choose|k: int|
            0 <= k < edge_lines_of(g, a, jj).len() && (#[trigger] edge_lines_of(g, a, jj)[k]) == x;
        lemma_edge_lines_of_len(g, a, jj - 1);
        if k < jj - 1 {
            assert(edge_lines_of(g, a, jj - 1)[k] == x);
            lemma_edge_lines_of_member(g, a, jj - 1, x);
        } else {
            assert(x == edge_text(a as nat, g.adjacent@[a]@[jj - 1].to as nat, g.adjacent@[a]@[jj - 1].symbol));
            assert(g.adjacent@[a]@[jj - 1] == g.adjacent@[a]@[jj - 1]);
        }
    }
}

/// A node line is never the header, the footer, or an edge line.
proof fn lemma_node_text_shape(l2: nat, sig2: Seq<char>)
    ensures
        node_text(l2, sig2) != "strict digraph {"@,
        node_text(l2, sig2) != "}"@,
        forall|a: nat, b: nat, c: char| node_text(l2, sig2) != #[trigger] edge_text(a, b, c),
{
    reveal_strlit("strict digraph {");
    reveal_strlit("}");
    reveal_strlit("  ");
    reveal_strlit(" [label=\"");
    reveal_strlit(" -> ");
    reveal_strlit("\"];");
    lemma_dec_str_shape(l2);
    assert(node_text(l2, sig2)[0] == ' ');
    assert("strict digraph {"@[0] == 's');
    assert(node_text(l2, sig2).len() >= 2);
    assert("}"@.len() == 1);
    assert forall|a: nat, b: nat, c: char| node_text(l2, sig2) != #[trigger] edge_text(
        a,
        b,
        c,
    ) by {
        if node_text(l2, sig2) == edge_text(a, b, c) {
            lemma_dec_str_shape(a);
            let r1 = " [label=\""@ + sig2 + "\"];"@;
            let r2 = " -> "@ + dec_str(b) + " [label=\""@ + seq![c] + "\"];"@;
            assert(dec_str(l2) + r1 =~= node_text(l2, sig2).skip(2));
            assert(dec_str(a) + r2 =~= edge_text(a, b, c).skip(2));
            assert(r1[0] == ' ' && r2[0] == ' ');
            assert(!is_digit(' '));
            lemma_num_prefix(l2, a, r1, r2);
            assert(r1[1] == '[');
            assert(r2[1] == '-');
        }
    }
}

/// Round trip: the DOT export carries one node line per label and one
/// edge line per adjacency entry, and re-parsing its node and edge lines
/// recovers exactly that label set (with signatures) and edge set.
pub proof fn lemma_dot_round_trip(g: Graph, l2: nat, sig2: Seq<char>)
    requires
        g.wf(),
        dot_lines_spec(g).contains(node_text(l2, sig2)),
    ensures
        l2 < g.n(),
        sig2 == g.sig(l2 as int),
{
    let x = node_text(l2, sig2);
    let i = choose|i: int|
        0 <= i < dot_lines_spec(g).len() && (#[trigger] dot_lines_spec(g)[i]) == x;
    lemma_node_lines_len(g, g.n());
    lemma_node_text_shape(l2, sig2);
    let nl = node_lines(g, g.n());
    let el = edge_lines(g, g.n());
    assert(g.adjacent@.len() as int == g.n());
    if i == 0 {
        assert(x == "strict digraph {"@);
        assert(false);
    } else if i < 1 + g.n() {
        assert(nl[i - 1] == x);
        assert(nl.contains(x));
        lemma_node_lines_member(g, g.n(), x);
        let l = choose|l: int| 0 <= l < g.n() && x == node_text(l as nat, #[trigger] g.sig(l));
        lemma_node_text_injective(l2, sig2, l as nat, g.sig(l));
    } else if i < 1 + g.n() + el.len() {
        assert(el[i - 1 - g.n()] == x);
        assert(el.contains(x));
        lemma_edge_lines_member(g, g.n(), x);
        let (a, j): (int, int) = choose|a: int, j: int|
            0 <= a < g.n() && 0 <= j < g.adjacent@[a]@.len() && x == edge_text(
                a as nat,
                (#[trigger] g.adjacent@[a]@[j]).to as nat,
                g.adjacent@[a]@[j].symbol,
            );
        assert(false);
    } else {
        assert(x == "}"@);
        assert(false);
    }
}

/// Round trip for the edges: any edge line of the DOT export names an
/// edge the graph really has, with its symbol.
pub proof fn lemma_dot_round_trip_edges(g: Graph, a2: nat, b2: nat, c2: char)
    requires
        g.wf(),
        dot_lines_spec(g).contains(edge_text(a2, b2, c2)),
    ensures
        a2 < g.n(),
        b2 < g.n(),
        g.has_edge(a2 as int, b2 as int, c2),
{
    let x = edge_text(a2, b2, c2);
    let i = choose|i: int|
        0 <= i < dot_lines_spec(g).len() && (#[trigger] dot_lines_spec(g)[i]) == x;
    lemma_node_lines_len(g, g.n());
    let nl = node_lines(g, g.n());
    let el = edge_lines(g, g.n());
    assert(g.adjacent@.len() as int == g.n());
    if i == 0 {
        lemma_edge_text_shape(a2, b2, c2);
        assert(false);
    } else if i < 1 + g.n() {
        assert(nl[i - 1] == x);
        assert(nl.contains(x));
        lemma_node_lines_member(g, g.n(), x);
        let l = choose|l: int| 0 <= l < g.n() && x == node_text(l as nat, #[trigger] g.sig(l));
        lemma_node_text_shape(l as nat, g.sig(l));
        assert(false);
    } else if i < 1 + g.n() + el.len() {
        assert(el[i - 1 - g.n()] == x);
        assert(el.contains(x));
        lemma_edge_lines_member(g, g.n(), x);
        let (a, j): (int, int) = choose|a: int, j: int|
            0 <= a < g.n() && 0 <= j < g.adjacent@[a]@.len() && x == edge_text(
                a as nat,
                (#[trigger] g.adjacent@[a]@[j]).to as nat,
                g.adjacent@[a]@[j].symbol,
            );
        lemma_edge_text_injective(
            a2,
            b2,
            c2,
            a as nat,
            g.adjacent@[a]@[j].to as nat,
            g.adjacent@[a]@[j].symbol,
        );
        assert(g.edge_ok(a, g.adjacent@[a]@[j]));
        assert(g.has_edge(a, g.adjacent@[a]@[j].to as int, g.adjacent@[a]@[j].symbol));
    } else {
        lemma_edge_text_shape(a2, b2, c2);
        assert(false);
    }
}

/// An edge line is never the header or the footer.
proof fn lemma_edge_text_shape(a: nat, b: nat, c: char)
    ensures
        edge_text(a, b, c) != "strict digraph {"@,
        edge_text(a, b, c) != "}"@,
{
    reveal_strlit("strict digraph {");
    reveal_strlit("}");
    reveal_strlit("  ");
    assert(edge_text(a, b, c)[0] == ' ');
    assert("strict digraph {"@[0] == 's');
    assert(edge_text(a, b, c).len() >= 2);
    assert("}"@.len() == 1);
}

} // verus!
