//! Read-only analyses over a built graph: breadth-first reachability
//! counts per signature length, the length-bucketed class index, and the
//! aggregate totals behind the report's averages.

use vstd::prelude::*;
use crate::graph::Graph;

verus! {

impl Graph {
    /// The largest signature length among the first `i` classes.
    pub open spec fn max_len_upto(&self, i: int) -> int
        decreases i,
    {
        if i <= 0 {
            0
        } else {
            let m = self.max_len_upto(i - 1);
            let x = self.sig(i - 1).len() as int;
            if x > m {
                x
            } else {
                m
            }
        }
    }

    /// How many of the first `j` classes are reachable from `s` and have
    /// signature length `len`.
    pub open spec fn run_count(&self, s: int, len: int, j: int) -> int
        decreases j,
    {
        if j <= 0 {
            0
        } else {
            self.run_count(s, len, j - 1) + if self.reachable(s, j - 1) && self.sig(j - 1).len()
                == len {
                1int
            } else {
                0int
            }
        }
    }

    /// How many of the first `j` classes are reachable from `s` at all.
    pub open spec fn run_total(&self, s: int, j: int) -> int
        decreases j,
    {
        if j <= 0 {
            0
        } else {
            self.run_total(s, j - 1) + if self.reachable(s, j - 1) {
                1int
            } else {
                0int
            }
        }
    }

    /// The reachability histogram entry for `len`, summed over the sources
    /// among the first `i` classes whose signature length is `src_len`.
    pub open spec fn total_count(&self, src_len: int, len: int, i: int) -> int
        decreases i,
    {
        if i <= 0 {
            0
        } else {
            self.total_count(src_len, len, i - 1) + if self.sig(i - 1).len() == src_len {
                self.run_count(i - 1, len, self.n())
            } else {
                0
            }
        }
    }

    /// The total number of classes visited, over the sources among the
    /// first `i` classes whose signature length is `src_len`, counting each
    /// distinct class once per source run.
    pub open spec fn total_runs(&self, src_len: int, i: int) -> int
        decreases i,
    {
        if i <= 0 {
            0
        } else {
            self.total_runs(src_len, i - 1) + if self.sig(i - 1).len() == src_len {
                self.run_total(i - 1, self.n())
            } else {
                0
            }
        }
    }

    /// The histogram entries for lengths below `len_bound`, summed, with
    /// sources drawn from the first `i` classes.
    pub open spec fn sum_hist_upto(&self, src_len: int, len_bound: int, i: int) -> int
        decreases len_bound,
    {
        if len_bound <= 0 {
            0
        } else {
            self.sum_hist_upto(src_len, len_bound - 1, i) + self.total_count(
                src_len,
                len_bound - 1,
                i,
            )
        }
    }

    /// The histogram entries for lengths below `len_bound`, summed.
    pub open spec fn sum_hist(&self, src_len: int, len_bound: int) -> int {
        self.sum_hist_upto(src_len, len_bound, self.n())
    }

    /// The per-run counts for lengths below `len_bound`, summed.
    pub open spec fn sum_run_counts(&self, s: int, len_bound: int, j: int) -> int
        decreases len_bound,
    {
        if len_bound <= 0 {
            0
        } else {
            self.sum_run_counts(s, len_bound - 1, j) + self.run_count(s, len_bound - 1, j)
        }
    }

    /// The largest signature length in the graph (zero when it is empty).
    pub fn max_sig_len(&self) -> (ml: usize)
        requires
            self.wf_base(),
        ensures
            ml == self.max_len_upto(self.n()),
    {
        let n = self.to_class.len();
        let mut ml: usize = 0;
        let mut l: usize = 0;
        while l < n
            invariant
                self.wf_base(),
                n == self.n(),
                l <= n,
                ml == self.max_len_upto(l as int),
            decreases n - l,
        {
            let x = self.to_class[l].signature.as_str().unicode_len();
            if x > ml {
                ml = x;
            }
            l = l + 1;
        }
        ml
    }

    /// The number of edges among the first `i` adjacency lists.
    pub open spec fn degree_sum(&self, i: int) -> int
        decreases i,
    {
        if i <= 0 {
            0
        } else {
            self.degree_sum(i - 1) + self.adjacent@[i - 1]@.len()
        }
    }

    /// The number of member words among the first `i` classes.
    pub open spec fn member_sum(&self, i: int) -> int
        decreases i,
    {
        if i <= 0 {
            0
        } else {
            self.member_sum(i - 1) + self.to_class@[i - 1].members@.len()
        }
    }

    /// The total out-degree over all classes; its mean over the class
    /// count is the graph's average degree.
    pub fn total_degree(&self) -> (t: u64)
        requires
            self.wf(),
            self.degree_sum(self.n()) <= u64::MAX,
        ensures
            t == self.degree_sum(self.n()),
    {
        let n = self.adjacent.len();
        proof {
            assert(n == self.n());
        }
        let mut t: u64 = 0;
        let mut i: usize = 0;
        while i < n
            invariant
                self.wf(),
                n == self.n(),
                i <= n,
                t == self.degree_sum(i as int),
                self.degree_sum(self.n()) <= u64::MAX,
            decreases n - i,
        {
            proof {
                lemma_degree_sum_monotone(self, i as int + 1, self.n());
            }
            t = t + self.adjacent[i].len() as u64;
            i = i + 1;
        }
        t
    }

    /// The total member count over all classes; its mean over the class
    /// count is the graph's average class size.
    pub fn total_members(&self) -> (t: u64)
        requires
            self.wf_base(),
            self.member_sum(self.n()) <= u64::MAX,
        ensures
            t == self.member_sum(self.n()),
    {
        let n = self.to_class.len();
        let mut t: u64 = 0;
        let mut i: usize = 0;
        while i < n
            invariant
                self.wf_base(),
                n == self.n(),
                i <= n,
                t == self.member_sum(i as int),
                self.member_sum(self.n()) <= u64::MAX,
            decreases n - i,
        {
            proof {
                lemma_member_sum_monotone(self, i as int + 1, self.n());
            }
            t = t + self.to_class[i].members.len() as u64;
            i = i + 1;
        }
        t
    }

    /// Groups the labels by signature length: entry `len` lists, in
    /// ascending label order, every class whose signature has length `len`.
    pub fn classes_by_length(&self) -> (r: Vec<Vec<usize>>)
        requires
            self.wf_base(),
        ensures
            r@.len() == (if self.n() == 0 {
                0int
            } else {
                self.max_len_upto(self.n()) + 1
            }),
            forall|len: int, k: int|
                0 <= len < r@.len() && 0 <= k < r@[len]@.len() ==> (#[trigger] r@[len]@[k])
                    < self.n() && self.sig(r@[len]@[k] as int).len() == len,
            forall|l: int|
                0 <= l < self.n() ==> (self.sig(l).len() < r@.len() && exists|k: int|
                    0 <= k < r@[self.sig(l).len() as int]@.len()
                        && r@[self.sig(l).len() as int]@[k] == l),
            forall|len: int, k1: int, k2: int|
                0 <= len < r@.len() && 0 <= k1 < k2 < r@[len]@.len() ==> r@[len]@[k1]
                    < r@[len]@[k2],
    {
        let n = self.to_class.len();
        let mut r: Vec<Vec<usize>> = Vec::new();
        if n == 0 {
            return r;
        }
        let ml = self.max_sig_len();
        while r.len() <= ml
            invariant
                r@.len() <= ml + 1,
                forall|len: int| 0 <= len < r@.len() ==> (#[trigger] r@[len])@.len() == 0,
            decreases ml + 1 - r@.len(),
        {
            r.push(Vec::new());
        }
        let mut l: usize = 0;
        while l < n
            invariant
                self.wf_base(),
                n == self.n(),
                l <= n,
                ml == self.max_len_upto(self.n()),
                r@.len() == ml + 1,
                forall|len: int, k: int|
                    0 <= len < r@.len() && 0 <= k < r@[len]@.len() ==> (#[trigger] r@[len]@[k])
                        < l && self.sig(r@[len]@[k] as int).len() == len,
                forall|l2: int|
                    0 <= l2 < l ==> (self.sig(l2).len() < r@.len() && exists|k: int|
                        0 <= k < r@[self.sig(l2).len() as int]@.len()
                            && r@[self.sig(l2).len() as int]@[k] == l2),
                forall|len: int, k1: int, k2: int|
                    0 <= len < r@.len() && 0 <= k1 < k2 < r@[len]@.len() ==> r@[len]@[k1]
                        < r@[len]@[k2],
            decreases n - l,
        {
            let len = self.to_class[l].signature.as_str().unicode_len();
            proof {
                lemma_max_len_bound(self, l as int);
            }
            let ghost pre = r@;
            let bucket = &mut r[len];
            bucket.push(l);
            proof {
                assert(r@[len as int]@ == pre[len as int]@.push(l));
                assert(r@ =~= pre.update(len as int, r@[len as int]));
                assert forall|l2: int|
                    0 <= l2 < l + 1 implies (self.sig(l2).len() < r@.len() && exists|k: int|
                    0 <= k < r@[self.sig(l2).len() as int]@.len()
                        && r@[self.sig(l2).len() as int]@[k] == l2) by {
                    let ln = self.sig(l2).len() as int;
                    if l2 == l as int {
                        assert(r@[ln]@[r@[ln]@.len() - 1] == l2);
                    } else {
                        let k = choose|k: int|
                            0 <= k < pre[ln]@.len() && pre[ln]@[k] == l2;
                        assert(r@[ln]@[k] == l2);
                    }
                }
            }
            l = l + 1;
        }
        r
    }

    /// Marks exactly the classes reachable from `source` along edges.
    fn bfs_from(&self, source: usize) -> (seen: Vec<bool>)
        requires
            self.wf(),
            (source as int) < self.n(),
        ensures
            seen@.len() == self.n(),
            forall|b: int|
                0 <= b < self.n() ==> ((#[trigger] seen@[b]) <==> self.reachable(
                    source as int,
                    b,
                )),
    {
        let n = self.to_class.len();
        let mut seen: Vec<bool> = Vec::new();
        while seen.len() < n
            invariant
                seen@.len() <= n,
                forall|b: int| 0 <= b < seen@.len() ==> !(#[trigger] seen@[b]),
            decreases n - seen@.len(),
        {
            seen.push(false);
        }
        let mut queue: Vec<usize> = Vec::new();
        queue.push(source);
        seen[source] = true;
        proof {
            assert(self.reaches(source as int, source as int, 0));
            assert(queue@[0] == source);
            assert forall|b: int|
                0 <= b < n && (#[trigger] seen@[b]) implies exists|qi: int|
                0 <= qi < queue@.len() && queue@[qi] == b by {
                assert(b == source as int);
                assert(queue@[0] == b);
            }
        }
        let mut head: usize = 0;
        while head < queue.len()
            invariant
                self.wf(),
                (source as int) < self.n(),
                n == self.n(),
                seen@.len() == n,
                head <= queue@.len(),
                queue@.len() <= n,
                forall|qi: int| 0 <= qi < queue@.len() ==> (#[trigger] queue@[qi]) < n,
                forall|qi: int| 0 <= qi < queue@.len() ==> seen@[#[trigger] queue@[qi] as int],
                forall|qi: int, qj: int|
                    0 <= qi < qj < queue@.len() ==> queue@[qi] != queue@[qj],
                forall|b: int|
                    0 <= b < n && (#[trigger] seen@[b]) ==> exists|qi: int|
                        0 <= qi < queue@.len() && queue@[qi] == b,
                forall|b: int|
                    0 <= b < n && (#[trigger] seen@[b]) ==> self.reachable(source as int, b),
                seen@[source as int],
                forall|qi: int, j: int|
                    0 <= qi < head && 0 <= j < self.adjacent@[queue@[qi] as int]@.len()
                        ==> seen@[(#[trigger] self.adjacent@[queue@[qi] as int]@[j]).to as int],
            decreases n - head,
        {
            let label = queue[head];
            let deg = self.adjacent[label].len();
            let mut j: usize = 0;
            while j < deg
                invariant
                    self.wf(),
                    (source as int) < self.n(),
                    n == self.n(),
                    seen@.len() == n,
                    head < queue@.len(),
                    queue@.len() <= n,
                    label == queue@[head as int],
                    (label as int) < n,
                    deg == self.adjacent@[label as int]@.len(),
                    j <= deg,
                    forall|qi: int| 0 <= qi < queue@.len() ==> (#[trigger] queue@[qi]) < n,
                    forall|qi: int| 0 <= qi < queue@.len() ==> seen@[#[trigger] queue@[qi] as int],
                    forall|qi: int, qj: int|
                        0 <= qi < qj < queue@.len() ==> queue@[qi] != queue@[qj],
                    forall|b: int|
                        0 <= b < n && (#[trigger] seen@[b]) ==> exists|qi: int|
                            0 <= qi < queue@.len() && queue@[qi] == b,
                    forall|b: int|
                        0 <= b < n && (#[trigger] seen@[b]) ==> self.reachable(source as int, b),
                    seen@[source as int],
                    forall|qi: int, jj: int|
                        0 <= qi < head && 0 <= jj < self.adjacent@[queue@[qi] as int]@.len()
                            ==> seen@[(#[trigger] self.adjacent@[queue@[qi] as int]@[jj]).to as int],
                    forall|jj: int|
                        0 <= jj < j ==> seen@[(#[trigger] self.adjacent@[label as int]@[jj]).to as int],
                decreases deg - j,
            {
                let e_to = self.adjacent[label][j].to;
                proof {
                    assert(self.edge_ok(label as int, self.adjacent@[label as int]@[j as int]));
                }
                if !seen[e_to] {
                    let ghost pre_seen = seen@;
                    let ghost pre_queue = queue@;
                    seen[e_to] = true;
                    queue.push(e_to);
                    proof {
                        assert(queue@[queue@.len() - 1] == e_to);
                        assert forall|bb: int|
                            0 <= bb < n && (#[trigger] seen@[bb]) implies exists|qi: int|
                            0 <= qi < queue@.len() && queue@[qi] == bb by {
                            if bb == e_to as int {
                                assert(queue@[queue@.len() - 1] == bb);
                            } else {
                                assert(pre_seen[bb]);
                                let qi = choose|qi: int|
                                    0 <= qi < pre_queue.len() && pre_queue[qi] == bb;
                                assert(queue@[qi] == bb);
                            }
                        }
                        // the new entry is reachable: source -> label -> e_to
                        assert(self.edge_to(label as int, e_to as int)) by {
                            assert(self.adjacent@[label as int]@[j as int].to == e_to);
                        }
                        assert(self.reachable(source as int, e_to as int)) by {
                            let k = choose|k: nat| self.reaches(source as int, label as int, k);
                            lemma_reaches_step(self, source as int, label as int, e_to as int, k);
                        }
                        // the queue stays duplicate-free: e_to was unseen,
                        // every queued label is seen
                        let q = queue@;
                        assert forall|qi: int, qj: int|
                            0 <= qi < qj < q.len() implies q[qi] != q[qj] by {
                            if qj == q.len() - 1 {
                                assert(q[qj] == e_to);
                            }
                        }
                        lemma_distinct_bounded_len(queue@, n as int);
                    }
                }
                j = j + 1;
            }
            head = head + 1;
        }
        proof {
            assert forall|b: int|
                0 <= b < self.n() && self.reachable(source as int, b) implies seen@[b] by {
                let k = choose|k: nat| self.reaches(source as int, b, k);
                lemma_bfs_closed(self, source as int, b, k, seen@, queue@);
            }
        }
        seen
    }

    /// The reachability histogram from all classes of signature length
    /// `class_length`: entry `len` counts, over every such source class run
    /// independently, the classes of signature length `len` reachable from
    /// it, each distinct class once per run. A length with no classes
    /// yields the empty histogram.
    pub fn reachability(&self, class_length: usize) -> (hist: Vec<u64>)
        requires
            self.wf(),
            self.n() < 0x1_0000_0000,
        ensures
            hist@.len() == (if self.n() == 0 {
                0int
            } else {
                self.max_len_upto(self.n()) + 1
            }),
            forall|len: int|
                0 <= len < hist@.len() ==> (#[trigger] hist@[len]) as int == self.total_count(
                    class_length as int,
                    len,
                    self.n(),
                ),
    {
        let n = self.to_class.len();
        let mut hist: Vec<u64> = Vec::new();
        if n == 0 {
            return hist;
        }
        let ml = self.max_sig_len();
        while hist.len() <= ml
            invariant
                hist@.len() <= ml + 1,
                forall|len: int| 0 <= len < hist@.len() ==> (#[trigger] hist@[len]) == 0,
            decreases ml + 1 - hist@.len(),
        {
            hist.push(0);
        }
        let ghost g = *self;
        let mut i: usize = 0;
        while i < n
            invariant
                self.wf(),
                g == *self,
                n == self.n(),
                n < 0x1_0000_0000,
                i <= n,
                ml == self.max_len_upto(self.n()),
                hist@.len() == ml + 1,
                forall|len: int|
                    0 <= len < hist@.len() ==> (#[trigger] hist@[len]) as int == self.total_count(
                        class_length as int,
                        len,
                        i as int,
                    ),
            decreases n - i,
        {
            let src_len = self.to_class[i].signature.as_str().unicode_len();
            if src_len == class_length {
                let seen = self.bfs_from(i);
                let ghost hist_before = hist@;
                let mut b: usize = 0;
                while b < n
                    invariant
                        self.wf(),
                        g == *self,
                        n == self.n(),
                        n < 0x1_0000_0000,
                        i < n,
                        b <= n,
                        ml == self.max_len_upto(self.n()),
                        hist@.len() == ml + 1,
                        seen@.len() == n,
                        forall|bb: int|
                            0 <= bb < n ==> ((#[trigger] seen@[bb]) <==> self.reachable(
                                i as int,
                                bb,
                            )),
                        self.sig(i as int).len() == class_length,
                        forall|len: int|
                            0 <= len < hist@.len() ==> (#[trigger] hist@[len]) as int
                                == self.total_count(class_length as int, len, i as int)
                                + self.run_count(i as int, len, b as int),
                    decreases n - b,
                {
                    if seen[b] {
                        let blen = self.to_class[b].signature.as_str().unicode_len();
                        proof {
                            lemma_max_len_bound(self, b as int);
                            lemma_total_count_bound(self, class_length as int, blen as int, i as int);
                            lemma_run_count_bound(self, i as int, blen as int, b as int);
                            let nn = self.n();
                            assert(self.total_count(class_length as int, blen as int, i as int)
                                + self.run_count(i as int, blen as int, b as int) + 1 <= nn * nn
                                + nn + 1) by (nonlinear_arith)
                                requires
                                    self.total_count(class_length as int, blen as int, i as int)
                                        <= i as int * nn,
                                    self.run_count(i as int, blen as int, b as int) <= b as int,
                                    0 <= i as int <= nn,
                                    0 <= b as int <= nn,
                            ;
                            assert(nn * nn + nn + 1 < 0xFFFF_FFFF_FFFF_FFFF) by (nonlinear_arith)
                                requires
                                    0 <= nn < 0x1_0000_0000,
                            ;
                        }
                        let cur = hist[blen];
                        hist[blen] = cur + 1;
                    }
                    b = b + 1;
                }
                proof {
                    assert forall|len: int| 0 <= len < hist@.len() implies (#[trigger] hist@[len])
                        as int == self.total_count(class_length as int, len, i as int + 1) by {
                        assert(hist@[len] as int == self.total_count(class_length as int, len, i as int)
                            + self.run_count(i as int, len, self.n()));
                    }
                }
            } else {
                proof {
                    assert forall|len: int| 0 <= len < hist@.len() implies (#[trigger] hist@[len])
                        as int == self.total_count(class_length as int, len, i as int + 1) by {
                        assert(self.sig(i as int).len() != class_length);
                    }
                }
            }
            i = i + 1;
        }
        hist
    }
}

/// Reaching a class and following one more edge is still reaching.
pub proof fn lemma_reaches_step(g: &Graph, a: int, m: int, b: int, k: nat)
    requires
        g.wf(),
        0 <= a < g.n(),
        0 <= m < g.n(),
        0 <= b < g.n(),
        g.reaches(a, m, k),
        g.edge_to(m, b),
    ensures
        g.reaches(a, b, k + 1),
    decreases k,
{
    if a == m {
        assert(g.reaches(b, b, 0));
        assert(g.reaches(a, b, 1));
        lemma_reaches_widen(g, a, b, 1, k + 1);
    } else {
        let mid = choose|mid: int|
            0 <= mid < g.n() && #[trigger] g.edge_to(a, mid) && g.reaches(mid, m, (k - 1) as nat);
        lemma_reaches_step(g, mid, m, b, (k - 1) as nat);
        assert(g.reaches(a, b, k + 1));
    }
}

/// Reaching within `k` steps is reaching within any larger bound.
pub proof fn lemma_reaches_widen(g: &Graph, a: int, b: int, k1: nat, k2: nat)
    requires
        g.wf(),
        0 <= a < g.n(),
        g.reaches(a, b, k1),
        k1 <= k2,
    ensures
        g.reaches(a, b, k2),
    decreases k1,
{
    if a == b {
    } else {
        let mid = choose|mid: int|
            0 <= mid < g.n() && #[trigger] g.edge_to(a, mid) && g.reaches(mid, b, (k1 - 1) as nat);
        lemma_reaches_widen(g, mid, b, (k1 - 1) as nat, (k2 - 1) as nat);
    }
}

/// A sequence of distinct values below `n` has at most `n` entries.
proof fn lemma_distinct_bounded_len(q: Seq<usize>, n: int)
    requires
        n >= 0,
        forall|qi: int| 0 <= qi < q.len() ==> (#[trigger] q[qi]) < n,
        forall|qi: int, qj: int| 0 <= qi < qj < q.len() ==> q[qi] != q[qj],
    ensures
        q.len() <= n,
{
    broadcast use vstd::set::group_set_axioms;
    broadcast use vstd::set_lib::group_set_lib_default;

    let qi_seq = q.map_values(|x: usize| x as int);
    assert(q.no_duplicates());
    q.lemma_no_duplicates_injective(|x: usize| x as int);
    assert(qi_seq.no_duplicates());
    qi_seq.unique_seq_to_set();
    let s = qi_seq.to_set();
    assert(s.len() == q.len());
    let range = vstd::set_lib::set_int_range(0, n);
    vstd::set_lib::lemma_int_range(0, n);
    assert(s.subset_of(range)) by {
        assert forall|x: int| s.contains(x) implies range.contains(x) by {
            let qi = choose|qi: int| 0 <= qi < qi_seq.len() && qi_seq[qi] == x;
            assert(q[qi] < n);
        }
    }
    vstd::set_lib::lemma_len_subset(s, range);
}

/// Once the queue is exhausted, the seen set is closed under edges, so it
/// holds everything reachable from anything it holds.
proof fn lemma_bfs_closed(g: &Graph, a: int, b: int, k: nat, seen: Seq<bool>, queue: Seq<usize>)
    requires
        g.wf(),
        0 <= a < g.n(),
        0 <= b < g.n(),
        seen.len() == g.n(),
        seen[a],
        g.reaches(a, b, k),
        forall|qi: int| 0 <= qi < queue.len() ==> (#[trigger] queue[qi]) < g.n(),
        forall|bb: int|
            0 <= bb < g.n() && (#[trigger] seen[bb]) ==> exists|qi: int|
                0 <= qi < queue.len() && queue[qi] == bb,
        forall|qi: int, j: int|
            0 <= qi < queue.len() && 0 <= j < g.adjacent@[queue[qi] as int]@.len()
                ==> seen[(#[trigger] g.adjacent@[queue[qi] as int]@[j]).to as int],
    ensures
        seen[b],
    decreases k,
{
    if a == b {
    } else {
        let mid = choose|mid: int|
            0 <= mid < g.n() && #[trigger] g.edge_to(a, mid) && g.reaches(mid, b, (k - 1) as nat);
        let j = choose|j: int| 0 <= j < g.adjacent@[a]@.len() && g.adjacent@[a]@[j].to == mid;
        let qi = choose|qi: int| 0 <= qi < queue.len() && queue[qi] == a;
        assert(seen[(g.adjacent@[queue[qi] as int]@[j]).to as int]);
        assert(seen[mid]);
        lemma_bfs_closed(g, mid, b, (k - 1) as nat, seen, queue);
    }
}

/// Within one run at most one class is counted per label.
pub proof fn lemma_run_count_bound(g: &Graph, s: int, len: int, j: int)
    ensures
        0 <= g.run_count(s, len, j) <= (if j >= 0 {
            j
        } else {
            0
        }),
        0 <= g.run_total(s, j) <= (if j >= 0 {
            j
        } else {
            0
        }),
    decreases (if j >= 0 {
        j
    } else {
        0
    }),
{
    if j > 0 {
        lemma_run_count_bound(g, s, len, j - 1);
    }
}

/// The histogram entry grows by at most the class count per source.
pub proof fn lemma_total_count_bound(g: &Graph, src_len: int, len: int, i: int)
    requires
        i >= 0,
    ensures
        0 <= g.total_count(src_len, len, i) <= i * g.n(),
    decreases i,
{
    if i > 0 {
        lemma_total_count_bound(g, src_len, len, i - 1);
        lemma_run_count_bound(g, i - 1, len, g.n());
        if g.n() >= 0 {
            assert((i - 1) * g.n() + g.n() == i * g.n()) by (nonlinear_arith);
        }
    } else {
        assert(0 * g.n() == 0) by (nonlinear_arith);
    }
}

/// No class's signature is longer than the graph's maximum.
pub proof fn lemma_max_len_bound(g: &Graph, l: int)
    requires
        0 <= l < g.n(),
    ensures
        g.sig(l).len() <= g.max_len_upto(g.n()),
{
    lemma_max_len_upto_monotone(g, l + 1, g.n());
}

/// The running maximum never decreases.
pub proof fn lemma_max_len_upto_monotone(g: &Graph, i1: int, i2: int)
    requires
        0 < i1 <= i2,
    ensures
        g.sig(i1 - 1).len() <= g.max_len_upto(i1) <= g.max_len_upto(i2),
    decreases i2 - i1,
{
    if i1 < i2 {
        lemma_max_len_upto_monotone(g, i1 + 1, i2);
    }
}

/// Extending a run by one label adds one to exactly one length bucket.
proof fn lemma_sum_run_counts_step(g: &Graph, s: int, bound: int, j: int)
    requires
        j >= 1,
    ensures
        g.sum_run_counts(s, bound, j) == g.sum_run_counts(s, bound, j - 1) + (
        if g.reachable(s, j - 1) && g.sig(j - 1).len() < bound {
            1int
        } else {
            0int
        }),
    decreases bound,
{
    if bound > 0 {
        lemma_sum_run_counts_step(g, s, bound - 1, j);
    }
}

/// Summed over all lengths, a run's buckets count its distinct classes.
proof fn lemma_sum_run_counts(g: &Graph, s: int, bound: int, j: int)
    requires
        0 <= j,
        forall|l: int| 0 <= l < j ==> (#[trigger] g.sig(l)).len() < bound,
    ensures
        g.sum_run_counts(s, bound, j) == g.run_total(s, j),
    decreases j,
{
    if j > 0 {
        lemma_sum_run_counts(g, s, bound, j - 1);
        lemma_sum_run_counts_step(g, s, bound, j);
    } else {
        lemma_sum_run_counts_zero(g, s, bound);
    }
}

/// An empty run has empty buckets.
proof fn lemma_sum_run_counts_zero(g: &Graph, s: int, bound: int)
    ensures
        g.sum_run_counts(s, bound, 0) == 0,
    decreases bound,
{
    if bound > 0 {
        lemma_sum_run_counts_zero(g, s, bound - 1);
    }
}

/// Adding one source adds its run's buckets to the histogram.
proof fn lemma_sum_hist_step(g: &Graph, src_len: int, bound: int, i: int)
    requires
        i >= 1,
    ensures
        g.sum_hist_upto(src_len, bound, i) == g.sum_hist_upto(src_len, bound, i - 1) + (
        if g.sig(i - 1).len() == src_len {
            g.sum_run_counts(i - 1, bound, g.n())
        } else {
            0int
        }),
    decreases bound,
{
    if bound > 0 {
        lemma_sum_hist_step(g, src_len, bound - 1, i);
    }
}

/// The reachability histogram's total count equals the sum, over every
/// class of the source length taken as an independent search source, of
/// the number of distinct classes reachable from that source. `bound` is
/// any bound above every signature length, so the sum covers the whole
/// histogram.
pub proof fn lemma_reachability_total(g: &Graph, src_len: int, bound: int)
    requires
        forall|l: int| 0 <= l < g.n() ==> (#[trigger] g.sig(l)).len() < bound,
    ensures
        g.sum_hist(src_len, bound) == g.total_runs(src_len, g.n()),
{
    lemma_reachability_total_upto(g, src_len, bound, g.n());
}

/// As `lemma_reachability_total`, source by source.
proof fn lemma_reachability_total_upto(g: &Graph, src_len: int, bound: int, i: int)
    requires
        0 <= i <= g.n(),
        forall|l: int| 0 <= l < g.n() ==> (#[trigger] g.sig(l)).len() < bound,
    ensures
        g.sum_hist_upto(src_len, bound, i) == g.total_runs(src_len, i),
    decreases i,
{
    if i == 0 {
        lemma_sum_hist_zero(g, src_len, bound);
    } else {
        lemma_reachability_total_upto(g, src_len, bound, i - 1);
        lemma_sum_hist_step(g, src_len, bound, i);
        if g.sig(i - 1).len() == src_len {
            lemma_sum_run_counts(g, i - 1, bound, g.n());
        }
    }
}

/// With no sources every bucket is zero.
proof fn lemma_sum_hist_zero(g: &Graph, src_len: int, bound: int)
    ensures
        g.sum_hist_upto(src_len, bound, 0) == 0,
    decreases bound,
{
    if bound > 0 {
        lemma_sum_hist_zero(g, src_len, bound - 1);
    }
}

/// Partial degree sums never shrink as more classes are included.
proof fn lemma_degree_sum_monotone(g: &Graph, i1: int, i2: int)
    requires
        0 <= i1 <= i2,
    ensures
        g.degree_sum(i1) <= g.degree_sum(i2),
        g.degree_sum(i1) >= 0,
    decreases i2 - i1 + i1,
{
    if i1 < i2 {
        lemma_degree_sum_monotone(g, i1, i2 - 1);
        lemma_degree_sum_monotone(g, i2 - 1, i2 - 1);
    } else if i1 > 0 {
        lemma_degree_sum_monotone(g, i1 - 1, i1 - 1);
    }
}

/// Partial member sums never shrink as more classes are included.
proof fn lemma_member_sum_monotone(g: &Graph, i1: int, i2: int)
    requires
        0 <= i1 <= i2,
    ensures
        g.member_sum(i1) <= g.member_sum(i2),
        g.member_sum(i1) >= 0,
    decreases i2 - i1 + i1,
{
    if i1 < i2 {
        lemma_member_sum_monotone(g, i1, i2 - 1);
        lemma_member_sum_monotone(g, i2 - 1, i2 - 1);
    } else if i1 > 0 {
        lemma_member_sum_monotone(g, i1 - 1, i1 - 1);
    }
}

} // verus!
