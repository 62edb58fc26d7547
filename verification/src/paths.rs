//! Depth-first enumeration of growth paths: chains of classes, each
//! reached from the previous by inserting one symbol, rendered as text and
//! ending at classes with no outgoing edges. The emitted set of strings is
//! a function of the classes and the edge relation alone; only the output
//! order is randomized.

use vstd::prelude::*;
use rand::seq::SliceRandom;
use crate::graph::{Graph, member_views};

verus! {

/// The member words of a class joined with a comma and a space.
pub open spec fn join_members(ms: Seq<Seq<char>>) -> Seq<char>
    decreases ms.len(),
{
    if ms.len() == 0 {
        Seq::empty()
    } else if ms.len() == 1 {
        ms[0]
    } else {
        ms[0] + seq![',', ' '] + join_members(ms.drop_first())
    }
}

/// One class rendered as `{member, member, ...}`.
pub open spec fn brace_str(g: Graph, l: int) -> Seq<char> {
    seq!['{'] + join_members(member_views(g.to_class@[l])) + seq!['}']
}

/// One non-final path segment: the class, the symbol taken, and an arrow.
pub open spec fn step_str(g: Graph, l: int, c: char) -> Seq<char> {
    brace_str(g, l) + seq![' ', '+', ' ', c, ' ', '-', '>', ' ']
}

/// A class with no outgoing edges.
pub open spec fn is_sink(g: Graph, l: int) -> bool {
    g.adjacent@[l]@.len() == 0
}

/// The lower length bound left for the rest of the path after one step.
pub open spec fn dec_lo(lo: int) -> int {
    if lo > 1 {
        lo - 1
    } else {
        0
    }
}

/// Whether a rendered line's first-step symbol is one of the first `j`
/// edges' symbols of class `l`.
pub open spec fn line_sym_ok(g: Graph, l: int, j: int, s: Seq<char>) -> bool {
    exists|jj: int|
        0 <= jj < j && s[brace_str(g, l).len() as int + 3] == (
        #[trigger] g.adjacent@[l]@[jj]).symbol
}

/// A chain of classes where consecutive entries are joined by an edge
/// labelled with the symbol between them.
pub open spec fn valid_chain(g: Graph, p: Seq<int>, syms: Seq<char>) -> bool {
    &&& p.len() >= 1
    &&& syms.len() == p.len() - 1
    &&& forall|k: int| 0 <= k < p.len() ==> 0 <= #[trigger] p[k] < g.n()
    &&& forall|k: int| 0 <= k < syms.len() ==> g.has_edge(p[k], p[k + 1], #[trigger] syms[k])
}

/// A chain rendered as text: each class but the last with its symbol and
/// an arrow, the last class bare.
pub open spec fn render_chain(g: Graph, p: Seq<int>, syms: Seq<char>) -> Seq<char>
    decreases p.len(),
{
    if p.len() <= 1 {
        brace_str(g, p[0])
    } else {
        step_str(g, p[0], syms[0]) + render_chain(g, p.drop_first(), syms.drop_first())
    }
}

/// Whether `s` renders a growth path that starts at class `l`, follows
/// edges to a sink, and visits between `lo` and `hi` classes in all.
pub open spec fn is_path_str(g: Graph, l: int, lo: int, hi: int, s: Seq<char>) -> bool {
    exists|p: Seq<int>, syms: Seq<char>|
        #![trigger valid_chain(g, p, syms), render_chain(g, p, syms)]
        valid_chain(g, p, syms) && p[0] == l && is_sink(g, p.last()) && lo <= p.len() <= hi && s
            == render_chain(g, p, syms)
}

/// Whether `s` is a rendered path from one of the first `l` classes of
/// the source length.
pub open spec fn from_source_below(
    g: Graph,
    l: int,
    src_len: int,
    lo: int,
    hi: int,
    s: Seq<char>,
) -> bool {
    exists|l2: int|
        0 <= l2 < l && (#[trigger] g.sig(l2)).len() == src_len && is_path_str(g, l2, lo, hi, s)
}

/// Whether `s` is emitted for source length `src_len` and inclusive path
/// length bounds `[lo, hi]`.
pub open spec fn emitted_path(g: Graph, src_len: int, lo: int, hi: int, s: Seq<char>) -> bool {
    exists|l: int|
        0 <= l < g.n() && (#[trigger] g.sig(l)).len() == src_len && is_path_str(g, l, lo, hi, s)
}

/// The one-entry chain at a sink renders that class alone.
proof fn lemma_path_single(g: Graph, l: int, lo: int, hi: int)
    requires
        0 <= l < g.n(),
        is_sink(g, l),
        lo <= 1 <= hi,
    ensures
        is_path_str(g, l, lo, hi, brace_str(g, l)),
{
    let p = seq![l];
    let syms = Seq::<char>::empty();
    assert(valid_chain(g, p, syms));
    assert(p.last() == l);
    assert(render_chain(g, p, syms) == brace_str(g, l));
}

/// Prepending one edge's segment to a valid remainder gives a valid path.
proof fn lemma_path_cons(g: Graph, l: int, m: int, c: char, lo: int, hi: int, t: Seq<char>)
    requires
        hi >= 1,
        0 <= l < g.n(),
        0 <= m < g.n(),
        g.has_edge(l, m, c),
        is_path_str(g, m, dec_lo(lo), hi - 1, t),
    ensures
        is_path_str(g, l, lo, hi, step_str(g, l, c) + t),
{
    let (p0, syms0): (Seq<int>, Seq<char>) = choose|p0: Seq<int>, syms0: Seq<char>|
        #![trigger valid_chain(g, p0, syms0), render_chain(g, p0, syms0)]
        valid_chain(g, p0, syms0) && p0[0] == m && is_sink(g, p0.last()) && dec_lo(lo)
            <= p0.len() <= hi - 1 && t == render_chain(g, p0, syms0);
    let p = seq![l] + p0;
    let syms = seq![c] + syms0;
    assert(valid_chain(g, p, syms)) by {
        assert forall|k: int| 0 <= k < syms.len() implies g.has_edge(
            p[k],
            p[k + 1],
            #[trigger] syms[k],
        ) by {
            if k == 0 {
                assert(p[0] == l && p[1] == p0[0] && syms[0] == c);
            } else {
                assert(p[k] == p0[k - 1] && p[k + 1] == p0[k] && syms[k] == syms0[k - 1]);
                assert(g.has_edge(p0[k - 1], p0[k], syms0[k - 1]));
            }
        }
    }
    assert(p.last() == p0.last());
    assert(lo <= p.len() <= hi);
    assert(render_chain(g, p, syms) == step_str(g, l, c) + t) by {
        assert(p.drop_first() =~= p0);
        assert(syms.drop_first() =~= syms0);
    }
}

/// A path from a class of the source length is an emitted path.
proof fn lemma_emitted_at(g: Graph, l: int, src_len: int, lo: int, hi: int, s: Seq<char>)
    requires
        0 <= l < g.n(),
        g.sig(l).len() == src_len,
        is_path_str(g, l, lo, hi, s),
    ensures
        emitted_path(g, src_len, lo, hi, s),
{
}

/// A path from a non-sink splits into its first edge and a shorter path.
proof fn lemma_path_uncons(g: Graph, l: int, lo: int, hi: int, s: Seq<char>)
    requires
        0 <= l < g.n(),
        !is_sink(g, l),
        is_path_str(g, l, lo, hi, s),
    ensures
        exists|m: int, c: char, t: Seq<char>|
            #![trigger g.has_edge(l, m, c), is_path_str(g, m, dec_lo(lo), hi - 1, t)]
            0 <= m < g.n() && g.has_edge(l, m, c) && is_path_str(g, m, dec_lo(lo), hi - 1, t)
                && s == step_str(g, l, c) + t,
{
    let (p, syms): (Seq<int>, Seq<char>) = choose|p: Seq<int>, syms: Seq<char>|
        #![trigger valid_chain(g, p, syms), render_chain(g, p, syms)]
        valid_chain(g, p, syms) && p[0] == l && is_sink(g, p.last()) && lo <= p.len() <= hi && s
            == render_chain(g, p, syms);
    assert(p.len() >= 2) by {
        if p.len() == 1 {
            assert(p.last() == l);
        }
    }
    let p0 = p.drop_first();
    let syms0 = syms.drop_first();
    let m = p[1];
    let c = syms[0];
    let t = render_chain(g, p0, syms0);
    assert(valid_chain(g, p0, syms0)) by {
        assert forall|k: int| 0 <= k < syms0.len() implies g.has_edge(
            p0[k],
            p0[k + 1],
            #[trigger] syms0[k],
        ) by {
            assert(p0[k] == p[k + 1] && p0[k + 1] == p[k + 2] && syms0[k] == syms[k + 1]);
            assert(g.has_edge(p[k + 1], p[k + 2], syms[k + 1]));
        }
    }
    assert(p0[0] == m && p0.last() == p.last());
    assert(dec_lo(lo) <= p0.len() <= hi - 1);
    assert(is_path_str(g, m, dec_lo(lo), hi - 1, t));
    assert(g.has_edge(p[0], p[1], syms[0]));
    assert(s == step_str(g, l, c) + t);
}

/// Relies on rand's `SliceRandom::shuffle` with `rand::thread_rng`:
/// reorders the elements in place; whatever order comes out, the elements
/// themselves are unchanged.
#[verifier::external_body]
fn shuffle_strings(v: &mut Vec<String>)
    ensures
        final(v)@.len() == old(v)@.len(),
        final(v)@.map_values(|s: String| s@).to_multiset() == old(v)@.map_values(
            |s: String| s@,
        ).to_multiset(),
{
    v.shuffle(&mut rand::thread_rng());
}

impl Graph {
    /// Renders one class as `{member, member, ...}`, members in their
    /// sorted order.
    fn render_class(&self, l: usize) -> (r: String)
        requires
            self.wf_base(),
            (l as int) < self.n(),
        ensures
            r@ == brace_str(*self, l as int),
    {
        let ghost views = member_views(self.to_class@[l as int]);
        let mut r = String::new();
        crate::text::push_char(&mut r, '{');
        let m = self.to_class[l].members.len();
        let mut i: usize = m;
        let mut acc = String::new();
        proof {
            assert(views.skip(m as int) =~= Seq::<Seq<char>>::empty());
        }
        while i > 0
            invariant
                self.wf_base(),
                (l as int) < self.n(),
                m == views.len(),
                views == member_views(self.to_class@[l as int]),
                i <= m,
                acc@ == join_members(views.skip(i as int)),
            decreases i,
        {
            i = i - 1;
            let mut piece = self.to_class[l].members[i].clone();
            proof {
                assert(views.skip(i as int)[0] == views[i as int]);
                assert(views.skip(i as int).drop_first() =~= views.skip(i as int + 1));
            }
            if i + 1 < m {
                piece.append(", ");
                proof {
                    reveal_strlit(", ");
                }
            }
            let joined = piece.concat(acc.as_str());
            acc = joined;
            proof {
                if i as int == m - 1 {
                    assert(views.skip(i as int).len() == 1);
                    assert(acc@ =~= join_members(views.skip(i as int)));
                } else {
                    assert(views.skip(i as int).len() > 1);
                    assert(acc@ =~= views[i as int] + seq![',', ' '] + join_members(
                        views.skip(i as int + 1),
                    ));
                }
            }
        }
        proof {
            assert(views.skip(0) =~= views);
        }
        let braced = r.concat(acc.as_str());
        let mut out = braced;
        crate::text::push_char(&mut out, '}');
        proof {
            assert(out@ =~= brace_str(*self, l as int));
        }
        out
    }

    /// Every rendered path from class `l` to a sink whose length, counted
    /// in classes, lies in `[lo, hi]`; exactly the strings `is_path_str`
    /// allows.
    fn paths_from(&self, l: usize, lo: usize, hi: usize) -> (r: Vec<String>)
        requires
            self.wf(),
            (l as int) < self.n(),
        ensures
            forall|i: int|
                0 <= i < r@.len() ==> is_path_str(
                    *self,
                    l as int,
                    lo as int,
                    hi as int,
                    (#[trigger] r@[i])@,
                ),
            forall|s: Seq<char>|
                #[trigger] is_path_str(*self, l as int, lo as int, hi as int, s) ==> exists|i: int|
                    0 <= i < r@.len() && (#[trigger] r@[i])@ == s,
            forall|i1: int, i2: int|
                0 <= i1 < i2 < r@.len() ==> (#[trigger] r@[i1])@ != (#[trigger] r@[i2])@,
        decreases hi,
    {
        let mut r: Vec<String> = Vec::new();
        if hi == 0 {
            return r;
        }
        let deg = self.adjacent[l].len();
        if deg == 0 {
            if lo <= 1 {
                let rendered = self.render_class(l);
                r.push(rendered);
                proof {
                    lemma_path_single(*self, l as int, lo as int, hi as int);
                    assert(r@[0]@ == brace_str(*self, l as int));
                    assert forall|s: Seq<char>| #[trigger] is_path_str(
                        *self,
                        l as int,
                        lo as int,
                        hi as int,
                        s,
                    ) implies exists|i: int| 0 <= i < r@.len() && (#[trigger] r@[i])@ == s by {
                        lemma_sink_path_shape(*self, l as int, lo as int, hi as int, s);
                        assert(r@[0]@ == s);
                    }
                }
            } else {
                proof {
                    assert forall|s: Seq<char>| is_path_str(
                        *self,
                        l as int,
                        lo as int,
                        hi as int,
                        s,
                    ) implies false by {
                        lemma_sink_path_shape(*self, l as int, lo as int, hi as int, s);
                    }
                }
            }
            return r;
        }
        let lo2: usize = if lo > 1 {
            lo - 1
        } else {
            0
        };
        let mut j: usize = 0;
        while j < deg
            invariant
                self.wf(),
                (l as int) < self.n(),
                deg == self.adjacent@[l as int]@.len(),
                deg > 0,
                j <= deg,
                hi > 0,
                lo2 as int == dec_lo(lo as int),
                forall|i: int|
                    0 <= i < r@.len() ==> is_path_str(
                        *self,
                        l as int,
                        lo as int,
                        hi as int,
                        (#[trigger] r@[i])@,
                    ),
                forall|jj: int, t: Seq<char>|
                    #![trigger is_path_str(*self, self.adjacent@[l as int]@[jj].to as int, dec_lo(lo as int), hi as int - 1, t)]
                    0 <= jj < j && is_path_str(
                        *self,
                        self.adjacent@[l as int]@[jj].to as int,
                        dec_lo(lo as int),
                        hi as int - 1,
                        t,
                    ) ==> exists|i: int|
                        0 <= i < r@.len() && (#[trigger] r@[i])@ == step_str(
                            *self,
                            l as int,
                            self.adjacent@[l as int]@[jj].symbol,
                        ) + t,
                forall|i1: int, i2: int|
                    0 <= i1 < i2 < r@.len() ==> (#[trigger] r@[i1])@ != (#[trigger] r@[i2])@,
                forall|idx: int|
                    0 <= idx < r@.len() ==> (#[trigger] r@[idx])@.len() > brace_str(
                        *self,
                        l as int,
                    ).len() + 3,
                forall|idx: int|
                    0 <= idx < r@.len() ==> line_sym_ok(
                        *self,
                        l as int,
                        j as int,
                        (#[trigger] r@[idx])@,
                    ),
            decreases deg - j,
        {
            let e_to = self.adjacent[l][j].to;
            let e_sym = self.adjacent[l][j].symbol;
            proof {
                assert(self.edge_ok(l as int, self.adjacent@[l as int]@[j as int]));
            }
            let sub = self.paths_from(e_to, lo2, hi - 1);
            let mut prefix = self.render_class(l);
            prefix.append(" + ");
            crate::text::push_char(&mut prefix, e_sym);
            prefix.append(" -> ");
            proof {
                reveal_strlit(" + ");
                reveal_strlit(" -> ");
                assert(prefix@ =~= step_str(*self, l as int, e_sym));
            }
            let ghost r_before = r@;
            let mut k: usize = 0;
            while k < sub.len()
                invariant
                    self.wf(),
                    (l as int) < self.n(),
                    (e_to as int) < self.n(),
                    j < deg,
                    deg == self.adjacent@[l as int]@.len(),
                    hi > 0,
                    e_to == self.adjacent@[l as int]@[j as int].to,
                    e_sym == self.adjacent@[l as int]@[j as int].symbol,
                    prefix@ == step_str(*self, l as int, e_sym),
                    lo2 as int == dec_lo(lo as int),
                    k <= sub@.len(),
                    forall|i: int|
                        0 <= i < sub@.len() ==> is_path_str(
                            *self,
                            e_to as int,
                            lo2 as int,
                            hi as int - 1,
                            (#[trigger] sub@[i])@,
                        ),
                    r@.len() == r_before.len() + k,
                    forall|i: int| 0 <= i < r_before.len() ==> r@[i] == r_before[i],
                    forall|i: int|
                        r_before.len() <= i < r@.len() ==> (#[trigger] r@[i])@ == step_str(
                            *self,
                            l as int,
                            e_sym,
                        ) + sub@[i - r_before.len()]@,
                    forall|x1: int, x2: int|
                        0 <= x1 < x2 < sub@.len() ==> (#[trigger] sub@[x1])@ != (
                        #[trigger] sub@[x2])@,
                    forall|i1: int, i2: int|
                        0 <= i1 < i2 < r@.len() ==> (#[trigger] r@[i1])@ != (#[trigger] r@[i2])@,
                    forall|idx: int|
                        0 <= idx < r_before.len() ==> (#[trigger] r@[idx])@.len() > brace_str(
                            *self,
                            l as int,
                        ).len() + 3,
                    forall|idx: int|
                        0 <= idx < r_before.len() ==> line_sym_ok(
                            *self,
                            l as int,
                            j as int,
                            (#[trigger] r@[idx])@,
                        ),
                decreases sub@.len() - k,
            {
                let line = prefix.clone().concat(sub[k].as_str());
                let ghost r_pre_push = r@;
                r.push(line);
                proof {
                    let bl = brace_str(*self, l as int).len() as int;
                    lemma_step_symbol_at(*self, l as int, e_sym, sub@[k as int]@);
                    assert(r@[r@.len() - 1]@ == step_str(*self, l as int, e_sym)
                        + sub@[k as int]@);
                    assert forall|i1: int, i2: int| 0 <= i1 < i2 < r@.len() implies (
                    #[trigger] r@[i1])@ != (#[trigger] r@[i2])@ by {
                        if i2 == r@.len() - 1 {
                            if i1 < r_before.len() {
                                // an earlier edge's line carries a smaller symbol
                                assert(line_sym_ok(*self, l as int, j as int, r@[i1]@));
                                let jj = choose|jj: int|
                                    0 <= jj < j && r@[i1]@[bl + 3] == (
                                    #[trigger] self.adjacent@[l as int]@[jj]).symbol;
                                assert((self.adjacent@[l as int]@[jj].symbol as u32) < (
                                self.adjacent@[l as int]@[j as int].symbol as u32));
                                assert(r@[i2]@[bl + 3] == e_sym);
                                if r@[i1]@ == r@[i2]@ {
                                    assert(r@[i1]@[bl + 3] == r@[i2]@[bl + 3]);
                                }
                            } else {
                                let x = i1 - r_before.len();
                                assert(r@[i1]@ == step_str(*self, l as int, e_sym) + sub@[x]@);
                                assert(sub@[x]@ != sub@[k as int]@);
                                if r@[i1]@ == r@[i2]@ {
                                    lemma_append_cancel(
                                        step_str(*self, l as int, e_sym),
                                        sub@[x]@,
                                        sub@[k as int]@,
                                    );
                                }
                            }
                        } else {
                            assert(r_pre_push[i1] == r@[i1] && r_pre_push[i2] == r@[i2]);
                        }
                    }
                }
                k = k + 1;
            }
            proof {
                // each new line is a rendered path through this edge
                assert forall|i: int| 0 <= i < r@.len() implies is_path_str(
                    *self,
                    l as int,
                    lo as int,
                    hi as int,
                    (#[trigger] r@[i])@,
                ) by {
                    if i < r_before.len() {
                        assert(r@[i] == r_before[i]);
                        assert(is_path_str(*self, l as int, lo as int, hi as int, r_before[i]@));
                    } else {
                        let t = sub@[i - r_before.len()]@;
                        assert(is_path_str(*self, e_to as int, dec_lo(lo as int), hi as int - 1, t));
                        lemma_has_edge_at(self, l as int, j as int);
                        lemma_path_cons(
                            *self,
                            l as int,
                            e_to as int,
                            e_sym,
                            lo as int,
                            hi as int,
                            t,
                        );
                        assert(r@[i]@ == step_str(*self, l as int, e_sym) + t);
                    }
                }
                // every line shows its first step's symbol, so lines of
                // different edges differ
                assert forall|idx: int| 0 <= idx < r@.len() implies ((#[trigger] r@[idx])@.len()
                    > brace_str(*self, l as int).len() + 3) by {
                    if idx >= r_before.len() {
                        lemma_step_symbol_at(
                            *self,
                            l as int,
                            e_sym,
                            sub@[idx - r_before.len()]@,
                        );
                    }
                }
                assert forall|idx: int| 0 <= idx < r@.len() implies line_sym_ok(
                    *self,
                    l as int,
                    j as int + 1,
                    (#[trigger] r@[idx])@,
                ) by {
                    let bl = brace_str(*self, l as int).len() as int;
                    if idx < r_before.len() {
                        assert(line_sym_ok(*self, l as int, j as int, r@[idx]@));
                        let jj = choose|jj: int|
                            0 <= jj < j && r@[idx]@[bl + 3] == (
                            #[trigger] self.adjacent@[l as int]@[jj]).symbol;
                        assert(0 <= jj < j + 1 && r@[idx]@[bl + 3] == self.adjacent@[l as
                            int]@[jj].symbol);
                    } else {
                        lemma_step_symbol_at(
                            *self,
                            l as int,
                            e_sym,
                            sub@[idx - r_before.len()]@,
                        );
                        assert(0 <= j < j + 1 && r@[idx]@[bl + 3] == self.adjacent@[l as
                            int]@[j as int].symbol);
                    }
                }
                // and the new edge's sub-paths are all covered
                assert forall|jj: int, t: Seq<char>|
                    #![trigger is_path_str(*self, self.adjacent@[l as int]@[jj].to as int, dec_lo(lo as int), hi as int - 1, t)]
                    0 <= jj < j + 1 && is_path_str(
                        *self,
                        self.adjacent@[l as int]@[jj].to as int,
                        dec_lo(lo as int),
                        hi as int - 1,
                        t,
                    ) implies exists|i: int|
                    0 <= i < r@.len() && (#[trigger] r@[i])@ == step_str(
                        *self,
                        l as int,
                        self.adjacent@[l as int]@[jj].symbol,
                    ) + t by {
                    if jj == j {
                        assert(is_path_str(*self, e_to as int, lo2 as int, hi as int - 1, t));
                        let k2 = choose|k2: int| 0 <= k2 < sub@.len() && (#[trigger] sub@[k2])@ == t;
                        assert(r@[r_before.len() + k2]@ == step_str(*self, l as int, e_sym) + t);
                    } else {
                        let i = choose|i: int|
                            0 <= i < r_before.len() && (#[trigger] r_before[i])@ == step_str(
                                *self,
                                l as int,
                                self.adjacent@[l as int]@[jj].symbol,
                            ) + t;
                        assert(r@[i]@ == step_str(
                            *self,
                            l as int,
                            self.adjacent@[l as int]@[jj].symbol,
                        ) + t);
                    }
                }
            }
            j = j + 1;
        }
        proof {
            assert forall|s: Seq<char>| #[trigger] is_path_str(
                *self,
                l as int,
                lo as int,
                hi as int,
                s,
            ) implies exists|i: int| 0 <= i < r@.len() && (#[trigger] r@[i])@ == s by {
                assert(!is_sink(*self, l as int));
                lemma_path_uncons(*self, l as int, lo as int, hi as int, s);
                let (m, c, t): (int, char, Seq<char>) = choose|m: int, c: char, t: Seq<char>|
                    #![trigger self.has_edge(l as int, m, c), is_path_str(*self, m, dec_lo(lo as int), hi as int - 1, t)]
                    0 <= m < self.n() && self.has_edge(l as int, m, c) && is_path_str(
                        *self,
                        m,
                        dec_lo(lo as int),
                        hi as int - 1,
                        t,
                    ) && s == step_str(*self, l as int, c) + t;
                let jj = choose|jj: int|
                    0 <= jj < self.adjacent@[l as int]@.len() && self.adjacent@[l as int]@[jj].to
                        == m && self.adjacent@[l as int]@[jj].symbol == c;
                assert(is_path_str(
                    *self,
                    self.adjacent@[l as int]@[jj].to as int,
                    dec_lo(lo as int),
                    hi as int - 1,
                    t,
                ));
            }
        }
        r
    }

    /// Emits every growth path from the classes of signature length
    /// `class_length` that ends at a sink and visits between
    /// `length_bounds.0` and `length_bounds.1` classes, one rendered string
    /// per path, in random order. A source length with no classes yields
    /// the empty listing.
    pub fn to_paths(&self, class_length: usize, length_bounds: (usize, usize)) -> (r: Vec<String>)
        requires
            self.wf(),
        ensures
            forall|i: int|
                0 <= i < r@.len() ==> emitted_path(
                    *self,
                    class_length as int,
                    length_bounds.0 as int,
                    length_bounds.1 as int,
                    (#[trigger] r@[i])@,
                ),
            forall|s: Seq<char>|
                #[trigger] emitted_path(
                    *self,
                    class_length as int,
                    length_bounds.0 as int,
                    length_bounds.1 as int,
                    s,
                ) ==> exists|i: int| 0 <= i < r@.len() && (#[trigger] r@[i])@ == s,
            forall|i1: int, i2: int|
                0 <= i1 < i2 < r@.len() ==> (#[trigger] r@[i1])@ != (#[trigger] r@[i2])@,
    {
        let n = self.to_class.len();
        let (lo, hi) = length_bounds;
        let mut all: Vec<String> = Vec::new();
        let mut l: usize = 0;
        while l < n
            invariant
                self.wf(),
                n == self.n(),
                l <= n,
                lo == length_bounds.0,
                hi == length_bounds.1,
                forall|i: int|
                    0 <= i < all@.len() ==> emitted_path(
                        *self,
                        class_length as int,
                        lo as int,
                        hi as int,
                        (#[trigger] all@[i])@,
                    ),
                forall|l2: int, s: Seq<char>|
                    #![trigger is_path_str(*self, l2, lo as int, hi as int, s)]
                    0 <= l2 < l && self.sig(l2).len() == class_length && is_path_str(
                        *self,
                        l2,
                        lo as int,
                        hi as int,
                        s,
                    ) ==> exists|i: int| 0 <= i < all@.len() && (#[trigger] all@[i])@ == s,
                forall|i1: int, i2: int|
                    0 <= i1 < i2 < all@.len() ==> (#[trigger] all@[i1])@ != (
                    #[trigger] all@[i2])@,
                forall|idx: int|
                    0 <= idx < all@.len() ==> from_source_below(
                        *self,
                        l as int,
                        class_length as int,
                        lo as int,
                        hi as int,
                        (#[trigger] all@[idx])@,
                    ),
            decreases n - l,
        {
            let src_len = self.to_class[l].signature.as_str().unicode_len();
            if src_len == class_length {
                let sub = self.paths_from(l, lo, hi);
                let ghost all_before = all@;
                let mut k: usize = 0;
                while k < sub.len()
                    invariant
                        self.wf(),
                        n == self.n(),
                        l < n,
                        k <= sub@.len(),
                        self.sig(l as int).len() == class_length,
                        lo == length_bounds.0,
                        hi == length_bounds.1,
                        forall|i: int|
                            0 <= i < sub@.len() ==> is_path_str(
                                *self,
                                l as int,
                                lo as int,
                                hi as int,
                                (#[trigger] sub@[i])@,
                            ),
                        all@.len() == all_before.len() + k,
                        forall|i: int| 0 <= i < all_before.len() ==> all@[i] == all_before[i],
                        forall|i: int|
                            all_before.len() <= i < all@.len() ==> (#[trigger] all@[i])
                                == sub@[i - all_before.len()],
                        forall|x1: int, x2: int|
                            0 <= x1 < x2 < sub@.len() ==> (#[trigger] sub@[x1])@ != (
                            #[trigger] sub@[x2])@,
                        forall|i1: int, i2: int|
                            0 <= i1 < i2 < all@.len() ==> (#[trigger] all@[i1])@ != (
                            #[trigger] all@[i2])@,
                        forall|idx: int|
                            0 <= idx < all_before.len() ==> from_source_below(
                                *self,
                                l as int,
                                class_length as int,
                                lo as int,
                                hi as int,
                                (#[trigger] all@[idx])@,
                            ),
                    decreases sub@.len() - k,
                {
                    let line = sub[k].clone();
                    let ghost all_pre_push = all@;
                    all.push(line);
                    proof {
                        assert forall|i1: int, i2: int| 0 <= i1 < i2 < all@.len() implies (
                        #[trigger] all@[i1])@ != (#[trigger] all@[i2])@ by {
                            if i2 == all@.len() - 1 {
                                assert(all@[i2]@ == sub@[k as int]@);
                                if i1 < all_before.len() {
                                    // earlier sources render different texts
                                    assert(from_source_below(
                                        *self,
                                        l as int,
                                        class_length as int,
                                        lo as int,
                                        hi as int,
                                        all@[i1]@,
                                    ));
                                    let l2 = choose|l2: int|
                                        0 <= l2 < l && (#[trigger] self.sig(l2)).len()
                                            == class_length as int && is_path_str(
                                            *self,
                                            l2,
                                            lo as int,
                                            hi as int,
                                            all@[i1]@,
                                        );
                                    assert(is_path_str(
                                        *self,
                                        l as int,
                                        lo as int,
                                        hi as int,
                                        all@[i2]@,
                                    ));
                                    lemma_paths_distinct_sources(
                                        *self,
                                        l2,
                                        l as int,
                                        lo as int,
                                        hi as int,
                                        all@[i1]@,
                                    );
                                } else {
                                    assert(all@[i1]@ == sub@[i1 - all_before.len()]@);
                                    assert(sub@[i1 - all_before.len()]@ != sub@[k as int]@);
                                }
                            } else {
                                assert(all_pre_push[i1] == all@[i1] && all_pre_push[i2]
                                    == all@[i2]);
                            }
                        }
                    }
                    k = k + 1;
                }
                proof {
                    assert forall|i: int| 0 <= i < all@.len() implies emitted_path(
                        *self,
                        class_length as int,
                        lo as int,
                        hi as int,
                        (#[trigger] all@[i])@,
                    ) by {
                        if i < all_before.len() {
                            assert(all@[i] == all_before[i]);
                            assert(emitted_path(
                                *self,
                                class_length as int,
                                lo as int,
                                hi as int,
                                all_before[i]@,
                            ));
                        } else {
                            assert(is_path_str(*self, l as int, lo as int, hi as int, all@[i]@));
                            lemma_emitted_at(
                                *self,
                                l as int,
                                class_length as int,
                                lo as int,
                                hi as int,
                                all@[i]@,
                            );
                        }
                    }
                    assert forall|idx: int| 0 <= idx < all@.len() implies from_source_below(
                        *self,
                        l as int + 1,
                        class_length as int,
                        lo as int,
                        hi as int,
                        (#[trigger] all@[idx])@,
                    ) by {
                        if idx < all_before.len() {
                            assert(from_source_below(
                                *self,
                                l as int,
                                class_length as int,
                                lo as int,
                                hi as int,
                                all@[idx]@,
                            ));
                            let l2 = choose|l2: int|
                                0 <= l2 < l && (#[trigger] self.sig(l2)).len()
                                    == class_length as int && is_path_str(
                                    *self,
                                    l2,
                                    lo as int,
                                    hi as int,
                                    all@[idx]@,
                                );
                            assert(0 <= l2 < l + 1 && self.sig(l2).len() == class_length as int
                                && is_path_str(*self, l2, lo as int, hi as int, all@[idx]@));
                        } else {
                            assert(is_path_str(*self, l as int, lo as int, hi as int, all@[idx]@));
                            assert(0 <= l < l + 1 && self.sig(l as int).len()
                                == class_length as int);
                        }
                    }
                    assert forall|l2: int, s: Seq<char>|
                        #![trigger is_path_str(*self, l2, lo as int, hi as int, s)]
                        0 <= l2 < l + 1 && self.sig(l2).len() == class_length && is_path_str(
                            *self,
                            l2,
                            lo as int,
                            hi as int,
                            s,
                        ) implies exists|i: int|
                        0 <= i < all@.len() && (#[trigger] all@[i])@ == s by {
                        if l2 == l as int {
                            let k2 = choose|k2: int|
                                0 <= k2 < sub@.len() && (#[trigger] sub@[k2])@ == s;
                            assert(all@[all_before.len() + k2]@ == s);
                        } else {
                            let i = choose|i: int|
                                0 <= i < all_before.len() && (#[trigger] all_before[i])@ == s;
                            assert(all@[i]@ == s);
                        }
                    }
                }
            } else {
                proof {
                    assert forall|idx: int| 0 <= idx < all@.len() implies from_source_below(
                        *self,
                        l as int + 1,
                        class_length as int,
                        lo as int,
                        hi as int,
                        (#[trigger] all@[idx])@,
                    ) by {
                        assert(from_source_below(
                            *self,
                            l as int,
                            class_length as int,
                            lo as int,
                            hi as int,
                            all@[idx]@,
                        ));
                        let l2 = choose|l2: int|
                            0 <= l2 < l && (#[trigger] self.sig(l2)).len() == class_length as int
                                && is_path_str(*self, l2, lo as int, hi as int, all@[idx]@);
                        assert(0 <= l2 < l + 1 && self.sig(l2).len() == class_length as int
                            && is_path_str(*self, l2, lo as int, hi as int, all@[idx]@));
                    }
                }
            }
            l = l + 1;
        }
        let ghost all_pre = all@;
        let ghost pre_shuffle = all@.map_values(|s: String| s@);
        shuffle_strings(&mut all);
        proof {
            broadcast use vstd::seq_lib::group_to_multiset_ensures;

            // the shuffle permutes the lines, so distinctness carries over
            assert(pre_shuffle.no_duplicates()) by {
                assert forall|i1: int, i2: int|
                    0 <= i1 < pre_shuffle.len() && 0 <= i2 < pre_shuffle.len() && i1
                        != i2 implies pre_shuffle[i1] != pre_shuffle[i2] by {
                    if i1 < i2 {
                        assert(all_pre[i1]@ != all_pre[i2]@);
                    } else {
                        assert(all_pre[i2]@ != all_pre[i1]@);
                    }
                }
            }
            pre_shuffle.lemma_multiset_has_no_duplicates();
            let post_views = all@.map_values(|s: String| s@);
            assert(forall|x: Seq<char>|
                post_views.to_multiset().contains(x) ==> post_views.to_multiset().count(x) == 1);
            post_views.lemma_multiset_has_no_duplicates_conv();
            assert forall|i1: int, i2: int| 0 <= i1 < i2 < all@.len() implies (
            #[trigger] all@[i1])@ != (#[trigger] all@[i2])@ by {
                assert(post_views[i1] != post_views[i2]);
            }
            let post = all@.map_values(|s: String| s@);
            assert forall|i: int| 0 <= i < all@.len() implies emitted_path(
                *self,
                class_length as int,
                length_bounds.0 as int,
                length_bounds.1 as int,
                (#[trigger] all@[i])@,
            ) by {
                assert(post[i] == all@[i]@);
                assert(post.contains(all@[i]@));
                assert(post.to_multiset().contains(all@[i]@));
                assert(pre_shuffle.to_multiset().contains(all@[i]@));
                assert(pre_shuffle.contains(all@[i]@));
                let k = choose|k: int| 0 <= k < pre_shuffle.len() && pre_shuffle[k] == all@[i]@;
                assert(emitted_path(
                    *self,
                    class_length as int,
                    length_bounds.0 as int,
                    length_bounds.1 as int,
                    pre_shuffle[k],
                ));
                assert(emitted_path(
                    *self,
                    class_length as int,
                    length_bounds.0 as int,
                    length_bounds.1 as int,
                    all@[i]@,
                ));
            }
            assert forall|s: Seq<char>| #[trigger] emitted_path(
                *self,
                class_length as int,
                length_bounds.0 as int,
                length_bounds.1 as int,
                s,
            ) implies exists|i: int| 0 <= i < all@.len() && (#[trigger] all@[i])@ == s by {
                let l2 = choose|l2: int|
                    0 <= l2 < self.n() && (#[trigger] self.sig(l2)).len() == class_length as int
                        && is_path_str(
                        *self,
                        l2,
                        length_bounds.0 as int,
                        length_bounds.1 as int,
                        s,
                    );
                assert(is_path_str(*self, l2, lo as int, hi as int, s));
                let i0 = choose|i0: int| 0 <= i0 < all_pre.len() && (#[trigger] all_pre[i0])@ == s;
                assert(pre_shuffle.contains(s)) by {
                    assert(pre_shuffle[i0] == s);
                }
                assert(pre_shuffle.to_multiset().contains(s));
                let post = all@.map_values(|x: String| x@);
                assert(post.to_multiset().contains(s));
                assert(post.contains(s));
                let i = choose|i: int| 0 <= i < post.len() && post[i] == s;
                assert(all@[i]@ == s);
            }
        }
        all
    }
}

/// The adjacency entry at one index witnesses its own edge.
proof fn lemma_has_edge_at(g: &Graph, a: int, j: int)
    requires
        0 <= a < g.adjacent@.len(),
        0 <= j < g.adjacent@[a]@.len(),
    ensures
        g.has_edge(a, g.adjacent@[a]@[j].to as int, g.adjacent@[a]@[j].symbol),
{
}

/// Every rendered path out of a sink is the sink's own class alone, which
/// exists only when a one-class path already meets the bounds.
proof fn lemma_sink_path_shape(g: Graph, l: int, lo: int, hi: int, s: Seq<char>)
    requires
        0 <= l < g.n(),
        is_sink(g, l),
        is_path_str(g, l, lo, hi, s),
    ensures
        s == brace_str(g, l),
        lo <= 1 <= hi,
{
    let (p, syms): (Seq<int>, Seq<char>) = choose|p: Seq<int>, syms: Seq<char>|
        #![trigger valid_chain(g, p, syms), render_chain(g, p, syms)]
        valid_chain(g, p, syms) && p[0] == l && is_sink(g, p.last()) && lo <= p.len() <= hi && s
            == render_chain(g, p, syms);
    if p.len() >= 2 {
        assert(g.has_edge(p[0], p[1], syms[0]));
        let j = choose|j: int|
            0 <= j < g.adjacent@[l]@.len() && g.adjacent@[l]@[j].to == p[1]
                && g.adjacent@[l]@[j].symbol == syms[0];
        assert(false);
    }
}

/// The emitted path strings depend only on the classes and on which edges
/// exist, never on the order in which the alphabet was scanned or edges
/// were appended: two graphs with the same classes and the same edge
/// relation render exactly the same paths.
pub proof fn lemma_paths_order_independent(
    g1: Graph,
    g2: Graph,
    l: int,
    lo: int,
    hi: int,
    s: Seq<char>,
)
    requires
        g1.to_class@ == g2.to_class@,
        g1.adjacent@.len() == g1.n(),
        g1.adjacent@.len() == g2.adjacent@.len(),
        forall|a: int, b: int, c: char|
            #![trigger g1.has_edge(a, b, c)]
            #![trigger g2.has_edge(a, b, c)]
            0 <= a < g1.adjacent@.len() ==> (g1.has_edge(a, b, c) <==> g2.has_edge(a, b, c)),
        0 <= l < g1.adjacent@.len(),
    ensures
        is_path_str(g1, l, lo, hi, s) == is_path_str(g2, l, lo, hi, s),
{
    assert forall|a: int| 0 <= a < g1.adjacent@.len() implies (is_sink(g1, a) == is_sink(
        g2,
        a,
    )) by {
        if g1.adjacent@[a]@.len() > 0 {
            let e = g1.adjacent@[a]@[0];
            assert(g1.has_edge(a, e.to as int, e.symbol));
            assert(g2.has_edge(a, e.to as int, e.symbol));
        }
        if g2.adjacent@[a]@.len() > 0 {
            let e = g2.adjacent@[a]@[0];
            assert(g2.has_edge(a, e.to as int, e.symbol));
            assert(g1.has_edge(a, e.to as int, e.symbol));
        }
    }
    if is_path_str(g1, l, lo, hi, s) {
        let (p, syms): (Seq<int>, Seq<char>) = choose|p: Seq<int>, syms: Seq<char>|
            #![trigger valid_chain(g1, p, syms), render_chain(g1, p, syms)]
            valid_chain(g1, p, syms) && p[0] == l && is_sink(g1, p.last()) && lo <= p.len() <= hi
                && s == render_chain(g1, p, syms);
        lemma_render_same(g1, g2, p, syms);
        assert(is_sink(g2, p.last()));
        assert(is_path_str(g2, l, lo, hi, s));
    }
    if is_path_str(g2, l, lo, hi, s) {
        let (p, syms): (Seq<int>, Seq<char>) = choose|p: Seq<int>, syms: Seq<char>|
            #![trigger valid_chain(g2, p, syms), render_chain(g2, p, syms)]
            valid_chain(g2, p, syms) && p[0] == l && is_sink(g2, p.last()) && lo <= p.len() <= hi
                && s == render_chain(g2, p, syms);
        lemma_render_same(g2, g1, p, syms);
        assert(is_sink(g1, p.last()));
        assert(is_path_str(g1, l, lo, hi, s));
    }
}

/// With the same classes and the same edge relation, a chain valid in one
/// graph is valid in the other and renders to the same text.
proof fn lemma_render_same(g1: Graph, g2: Graph, p: Seq<int>, syms: Seq<char>)
    requires
        g1.to_class@ == g2.to_class@,
        forall|a: int, b: int, c: char|
            #![trigger g1.has_edge(a, b, c)]
            #![trigger g2.has_edge(a, b, c)]
            0 <= a < g1.adjacent@.len() ==> (g1.has_edge(a, b, c) <==> g2.has_edge(a, b, c)),
        g1.adjacent@.len() == g1.n(),
        valid_chain(g1, p, syms),
    ensures
        valid_chain(g2, p, syms),
        render_chain(g1, p, syms) == render_chain(g2, p, syms),
    decreases p.len(),
{
    assert forall|k: int| 0 <= k < syms.len() implies g2.has_edge(
        p[k],
        p[k + 1],
        #[trigger] syms[k],
    ) by {
        assert(g1.has_edge(p[k], p[k + 1], syms[k]));
    }
    if p.len() <= 1 {
        assert(brace_str(g1, p[0]) == brace_str(g2, p[0]));
    } else {
        assert(valid_chain(g1, p.drop_first(), syms.drop_first())) by {
            assert forall|k: int| 0 <= k < syms.drop_first().len() implies g1.has_edge(
                p.drop_first()[k],
                p.drop_first()[k + 1],
                #[trigger] syms.drop_first()[k],
            ) by {
                assert(g1.has_edge(p[k + 1], p[k + 2], syms[k + 1]));
            }
        }
        lemma_render_same(g1, g2, p.drop_first(), syms.drop_first());
        assert(step_str(g1, p[0], syms[0]) == step_str(g2, p[0], syms[0]));
    }
}

/// Equal texts with the same prefix have equal remainders.
proof fn lemma_append_cancel(a: Seq<char>, t1: Seq<char>, t2: Seq<char>)
    requires
        a + t1 == a + t2,
    ensures
        t1 == t2,
{
    broadcast use vstd::seq::group_seq_axioms;

    assert((a + t1).len() == (a + t2).len());
    assert((a + t1).len() == a.len() + t1.len());
    assert((a + t2).len() == a.len() + t2.len());
    assert(a.len() + t1.len() == a.len() + t2.len());
    assert(t1 =~= t2) by {
        assert forall|k: int| 0 <= k < t1.len() implies t1[k] == t2[k] by {
            assert((a + t1)[a.len() + k] == t1[k]);
            assert((a + t2)[a.len() + k] == t2[k]);
        }
    }
}

/// The symbol of a path's first step can be read off the rendered text.
proof fn lemma_step_symbol_at(g: Graph, l: int, c: char, t: Seq<char>)
    ensures
        (step_str(g, l, c) + t).len() > brace_str(g, l).len() + 3,
        (step_str(g, l, c) + t)[brace_str(g, l).len() as int + 3] == c,
{
    let bl = brace_str(g, l).len() as int;
    assert(step_str(g, l, c)[bl + 3] == c);
}

/// A word over the lowercase alphabet holds letters only.
proof fn lemma_word_char_range(w: Seq<char>, k: int)
    requires
        crate::graph::valid_word(crate::graph::ascii_lower_seq(), w),
        0 <= k < w.len(),
    ensures
        97 <= w[k] as u32 <= 122,
{
    assert(crate::graph::ascii_lower_seq().contains(w[k]));
    let idx = choose|idx: int|
        0 <= idx < 26 && (#[trigger] crate::graph::ascii_lower_seq()[idx]) == w[k];
    assert(crate::graph::ascii_lower_seq()[idx] as u32 == 97 + idx);
}

/// The joined member list holds letters, commas and spaces: nothing at or
/// above a closing brace.
proof fn lemma_join_chars(ms: Seq<Seq<char>>, k: int)
    requires
        forall|i: int|
            0 <= i < ms.len() ==> crate::graph::valid_word(
                crate::graph::ascii_lower_seq(),
                #[trigger] ms[i],
            ),
        0 <= k < join_members(ms).len(),
    ensures
        join_members(ms)[k] as u32 <= 122,
    decreases ms.len(),
{
    if ms.len() == 1 {
        lemma_word_char_range(ms[0], k);
    } else if ms.len() >= 2 {
        let w = ms[0];
        if k < w.len() {
            lemma_word_char_range(w, k);
            assert(join_members(ms)[k] == w[k]);
        } else if k == w.len() {
            assert(join_members(ms)[k] == ',');
            assert(',' as u32 == 44);
        } else if k == w.len() + 1 {
            assert(join_members(ms)[k] == ' ');
            assert(' ' as u32 == 32);
        } else {
            assert(forall|i: int|
                0 <= i < ms.drop_first().len() ==> crate::graph::valid_word(
                    crate::graph::ascii_lower_seq(),
                    #[trigger] ms.drop_first()[i],
                ));
            lemma_join_chars(ms.drop_first(), k - w.len() - 2);
            assert(join_members(ms)[k] == join_members(ms.drop_first())[k - w.len() - 2]);
        }
    }
}

/// The joined member list determines the members.
proof fn lemma_join_injective(ms1: Seq<Seq<char>>, ms2: Seq<Seq<char>>)
    requires
        ms1.len() >= 1,
        ms2.len() >= 1,
        forall|i: int|
            0 <= i < ms1.len() ==> crate::graph::valid_word(
                crate::graph::ascii_lower_seq(),
                #[trigger] ms1[i],
            ),
        forall|i: int|
            0 <= i < ms2.len() ==> crate::graph::valid_word(
                crate::graph::ascii_lower_seq(),
                #[trigger] ms2[i],
            ),
        join_members(ms1) == join_members(ms2),
    ensures
        ms1 == ms2,
    decreases ms1.len(),
{
    let j1 = join_members(ms1);
    let j2 = join_members(ms2);
    let w1 = ms1[0];
    let w2 = ms2[0];
    assert(w1.len() == w2.len()) by {
        if w1.len() < w2.len() {
            // the separator after the first word cannot be a letter
            assert(ms1.len() >= 2) by {
                if ms1.len() == 1 {
                    assert(j1.len() == w1.len());
                    assert(j2.len() >= w2.len()) by {
                        if ms2.len() >= 2 {
                            assert(j2.len() == w2.len() + 2 + join_members(
                                ms2.drop_first(),
                            ).len());
                            lemma_join_len_nonneg(ms2.drop_first());
                        }
                    }
                }
            }
            assert(j1[w1.len() as int] == ',');
            assert(j2[w1.len() as int] == w2[w1.len() as int]) by {
                if ms2.len() >= 2 {
                    assert(j2[w1.len() as int] == w2[w1.len() as int]);
                }
            }
            lemma_word_char_range(w2, w1.len() as int);
            assert(',' as u32 == 44);
            assert(false);
        }
        if w2.len() < w1.len() {
            assert(ms2.len() >= 2) by {
                if ms2.len() == 1 {
                    assert(j2.len() == w2.len());
                    assert(j1.len() >= w1.len()) by {
                        if ms1.len() >= 2 {
                            assert(j1.len() == w1.len() + 2 + join_members(
                                ms1.drop_first(),
                            ).len());
                            lemma_join_len_nonneg(ms1.drop_first());
                        }
                    }
                }
            }
            assert(j2[w2.len() as int] == ',');
            assert(j1[w2.len() as int] == w1[w2.len() as int]) by {
                if ms1.len() >= 2 {
                    assert(j1[w2.len() as int] == w1[w2.len() as int]);
                }
            }
            lemma_word_char_range(w1, w2.len() as int);
            assert(',' as u32 == 44);
            assert(false);
        }
    }
    assert(w1 =~= w2) by {
        assert forall|k: int| 0 <= k < w1.len() implies w1[k] == w2[k] by {
            assert(j1[k] == w1[k]);
            assert(j2[k] == w2[k]);
        }
    }
    if ms1.len() == 1 && ms2.len() == 1 {
        assert(ms1 =~= ms2);
    } else if ms1.len() == 1 {
        assert(j1.len() == w1.len());
        assert(j2.len() == w2.len() + 2 + join_members(ms2.drop_first()).len());
        lemma_join_len_nonneg(ms2.drop_first());
        assert(false);
    } else if ms2.len() == 1 {
        assert(j2.len() == w2.len());
        assert(j1.len() == w1.len() + 2 + join_members(ms1.drop_first()).len());
        lemma_join_len_nonneg(ms1.drop_first());
        assert(false);
    } else {
        let r1 = join_members(ms1.drop_first());
        let r2 = join_members(ms2.drop_first());
        assert(j1 =~= (w1 + seq![',', ' ']) + r1);
        assert(j2 =~= (w1 + seq![',', ' ']) + r2);
        lemma_append_cancel(w1 + seq![',', ' '], r1, r2);
        assert(forall|i: int|
            0 <= i < ms1.drop_first().len() ==> crate::graph::valid_word(
                crate::graph::ascii_lower_seq(),
                #[trigger] ms1.drop_first()[i],
            ));
        assert(forall|i: int|
            0 <= i < ms2.drop_first().len() ==> crate::graph::valid_word(
                crate::graph::ascii_lower_seq(),
                #[trigger] ms2.drop_first()[i],
            ));
        lemma_join_injective(ms1.drop_first(), ms2.drop_first());
        assert(ms1 =~= ms2) by {
            assert forall|k: int| 0 <= k < ms1.len() implies ms1[k] == ms2[k] by {
                if k > 0 {
                    assert(ms1.drop_first()[k - 1] == ms2.drop_first()[k - 1]);
                }
            }
        }
    }
}

/// A joined member list is never negative in length.
proof fn lemma_join_len_nonneg(ms: Seq<Seq<char>>)
    ensures
        join_members(ms).len() >= 0,
{
}

/// Texts that start with the renderings of two different classes differ:
/// the member lists pin the class down.
proof fn lemma_brace_heads_distinct(g: Graph, l1: int, l2: int, t1: Seq<char>, t2: Seq<char>)
    requires
        g.wf_base(),
        0 <= l1 < g.n(),
        0 <= l2 < g.n(),
        l1 != l2,
    ensures
        brace_str(g, l1) + t1 != brace_str(g, l2) + t2,
{
    if brace_str(g, l1) + t1 == brace_str(g, l2) + t2 {
        let mv1 = member_views(g.to_class@[l1]);
        let mv2 = member_views(g.to_class@[l2]);
        let j1 = join_members(mv1);
        let j2 = join_members(mv2);
        assert(g.to_class@[l1].wf());
        assert(g.to_class@[l2].wf());
        assert(forall|i: int|
            0 <= i < mv1.len() ==> crate::graph::valid_word(
                crate::graph::ascii_lower_seq(),
                #[trigger] mv1[i],
            ));
        assert(forall|i: int|
            0 <= i < mv2.len() ==> crate::graph::valid_word(
                crate::graph::ascii_lower_seq(),
                #[trigger] mv2[i],
            ));
        if j1.len() == j2.len() {
            assert(j1 =~= j2) by {
                assert forall|k: int| 0 <= k < j1.len() implies j1[k] == j2[k] by {
                    assert((brace_str(g, l1) + t1)[1 + k] == j1[k]);
                    assert((brace_str(g, l2) + t2)[1 + k] == j2[k]);
                }
            }
            lemma_join_injective(mv1, mv2);
            let w = mv1[0];
            assert(sig_spec_of_member(g, l1, w));
            assert(sig_spec_of_member(g, l2, w));
            if l1 < l2 {
                assert(g.sig(l1) != g.sig(l2));
            } else {
                assert(g.sig(l2) != g.sig(l1));
            }
            assert(false);
        } else if j1.len() < j2.len() {
            assert((brace_str(g, l1) + t1)[1 + j1.len() as int] == '}');
            assert((brace_str(g, l2) + t2)[1 + j1.len() as int] == j2[j1.len() as int]);
            lemma_join_chars(mv2, j1.len() as int);
            assert('}' as u32 == 125);
            assert(false);
        } else {
            assert((brace_str(g, l2) + t2)[1 + j2.len() as int] == '}');
            assert((brace_str(g, l1) + t1)[1 + j2.len() as int] == j1[j2.len() as int]);
            lemma_join_chars(mv1, j2.len() as int);
            assert('}' as u32 == 125);
            assert(false);
        }
    }
}

/// The first member of a class carries the class's signature.
spec fn sig_spec_of_member(g: Graph, l: int, w: Seq<char>) -> bool {
    member_views(g.to_class@[l]).len() >= 1 && member_views(g.to_class@[l])[0] == w
        ==> crate::anagram::sig_spec(w) == g.sig(l)
}

/// A rendered path starts with its first class's rendering.
proof fn lemma_path_brace_form(g: Graph, l: int, lo: int, hi: int, s: Seq<char>)
    requires
        is_path_str(g, l, lo, hi, s),
    ensures
        s.len() >= brace_str(g, l).len(),
        s.take(brace_str(g, l).len() as int) == brace_str(g, l),
{
    let (p, syms): (Seq<int>, Seq<char>) = choose|p: Seq<int>, syms: Seq<char>|
        #![trigger valid_chain(g, p, syms), render_chain(g, p, syms)]
        valid_chain(g, p, syms) && p[0] == l && is_sink(g, p.last()) && lo <= p.len() <= hi && s
            == render_chain(g, p, syms);
    if p.len() <= 1 {
        assert(s =~= brace_str(g, l) + Seq::<char>::empty());
        assert(s.take(brace_str(g, l).len() as int) =~= brace_str(g, l));
    } else {
        let rest = seq![' ', '+', ' ', syms[0], ' ', '-', '>', ' '] + render_chain(
            g,
            p.drop_first(),
            syms.drop_first(),
        );
        assert(s =~= brace_str(g, l) + rest);
        assert(s.take(brace_str(g, l).len() as int) =~= brace_str(g, l));
    }
}

/// One string is never a rendered path from two different classes.
proof fn lemma_paths_distinct_sources(g: Graph, l1: int, l2: int, lo: int, hi: int, s: Seq<char>)
    requires
        g.wf_base(),
        0 <= l1 < g.n(),
        0 <= l2 < g.n(),
        l1 != l2,
        is_path_str(g, l1, lo, hi, s),
    ensures
        !is_path_str(g, l2, lo, hi, s),
{
    if is_path_str(g, l2, lo, hi, s) {
        lemma_path_brace_form(g, l1, lo, hi, s);
        lemma_path_brace_form(g, l2, lo, hi, s);
        let t1 = s.skip(brace_str(g, l1).len() as int);
        let t2 = s.skip(brace_str(g, l2).len() as int);
        assert(s =~= brace_str(g, l1) + t1);
        assert(s =~= brace_str(g, l2) + t2);
        lemma_brace_heads_distinct(g, l1, l2, t1, t2);
    }
}

} // verus!
