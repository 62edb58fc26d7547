//! The textual report: an overview with the class count and the two
//! averages, a histogram of class counts per signature length with one
//! sample signature each, and the reachability histogram from the default
//! source length.

use vstd::prelude::*;
use crate::graph::Graph;
use crate::dot::{dec_str, digit};
use crate::text::push_char;

verus! {

/// The source length the report's reachability section always uses.
pub const REPORT_SOURCE_LENGTH: usize = 3;

/// A ratio rendered with two decimal places, rounded to the nearest
/// hundredth (ties upward).
pub open spec fn centi_text(num: int, den: int) -> Seq<char> {
    let frac = ((num % den) * 100 + den / 2) / den;
    if frac == 100 {
        dec_str((num / den + 1) as nat) + seq!['.', digit(0), digit(0)]
    } else {
        dec_str((num / den) as nat) + seq!['.', digit(frac / 10), digit(frac % 10)]
    }
}

/// How many classes among the first `i` have signature length `len`.
pub open spec fn len_count(g: Graph, len: int, i: int) -> int
    decreases i,
{
    if i <= 0 {
        0
    } else {
        len_count(g, len, i - 1) + if g.sig(i - 1).len() == len {
            1int
        } else {
            0int
        }
    }
}

/// The signature of the first class of length `len` at or after label `i`.
pub open spec fn first_sig_of_len(g: Graph, len: int, i: int) -> Seq<char>
    decreases g.n() - i,
{
    if i < 0 || i >= g.n() {
        Seq::empty()
    } else if g.sig(i).len() == len {
        g.sig(i)
    } else {
        first_sig_of_len(g, len, i + 1)
    }
}

/// One histogram line: `COUNT of length LEN (e.g. SIG)`.
pub open spec fn hist_line(g: Graph, len: int) -> Seq<char> {
    dec_str(len_count(g, len, g.n()) as nat) + " of length "@ + dec_str(len as nat) + " (e.g. "@
        + first_sig_of_len(g, len, 0) + ")\n"@
}

/// The histogram lines for lengths below `len_bound`, lengths with no
/// classes left out.
pub open spec fn hist_lines(g: Graph, len_bound: int) -> Seq<char>
    decreases len_bound,
{
    if len_bound <= 0 {
        Seq::empty()
    } else {
        hist_lines(g, len_bound - 1) + if len_count(g, len_bound - 1, g.n()) > 0 {
            hist_line(g, len_bound - 1)
        } else {
            Seq::empty()
        }
    }
}

/// One reachability line: `COUNT of length LEN (avg AVG)`, the average
/// taken over the source classes.
pub open spec fn reach_line(g: Graph, src_len: int, len: int) -> Seq<char> {
    dec_str(g.total_count(src_len, len, g.n()) as nat) + " of length "@ + dec_str(len as nat)
        + " (avg "@ + centi_text(g.total_count(src_len, len, g.n()), len_count(g, src_len, g.n()))
        + ")\n"@
}

/// The reachability lines for lengths below `len_bound`, lengths never
/// reached left out.
pub open spec fn reach_lines(g: Graph, src_len: int, len_bound: int) -> Seq<char>
    decreases len_bound,
{
    if len_bound <= 0 {
        Seq::empty()
    } else {
        reach_lines(g, src_len, len_bound - 1) + if g.total_count(
            src_len,
            len_bound - 1,
            g.n(),
        ) > 0 {
            reach_line(g, src_len, len_bound - 1)
        } else {
            Seq::empty()
        }
    }
}

/// The whole report. An empty graph gets the overview alone; a source
/// length with no classes gets an empty reachability section rather than
/// a failure.
pub open spec fn report_text(g: Graph) -> Seq<char> {
    if g.n() == 0 {
        "overview\n  - number of classes: 0\n(end)"@
    } else {
        "overview\n  - number of classes: "@ + dec_str(g.n() as nat)
            + "\n  - average class size: "@ + centi_text(g.member_sum(g.n()), g.n())
            + "\n  - average degree: "@ + centi_text(g.degree_sum(g.n()), g.n())
            + "\n\nanagram classes\n"@ + hist_lines(g, g.max_len_upto(g.n()) + 1)
            + "\nreachability from class length 3\n"@ + (if len_count(
            g,
            REPORT_SOURCE_LENGTH as int,
            g.n(),
        ) > 0 {
            reach_lines(g, REPORT_SOURCE_LENGTH as int, g.max_len_upto(g.n()) + 1)
        } else {
            Seq::empty()
        }) + "(end)"@
    }
}

/// Renders a ratio with two decimal places, rounded to the nearest
/// hundredth (ties upward).
fn centi_string(num: u64, den: u64) -> (r: String)
    requires
        den > 0,
    ensures
        r@ == centi_text(num as int, den as int),
{
    let ip = num / den;
    let rem = num % den;
    let frac128: u128 = ((rem as u128) * 100 + (den as u128) / 2) / (den as u128);
    proof {
        assert(((rem as int) * 100 + (den as int) / 2) / (den as int) <= 100) by (nonlinear_arith)
            requires
                0 <= (rem as int),
                (rem as int) < (den as int),
                (den as int) > 0;
        assert(frac128 == ((num as int % den as int) * 100 + (den as int) / 2) / (den as int));
    }
    let frac: u64 = frac128 as u64;
    if frac == 100 {
        proof {
            // a full carry needs a remainder, so the divisor is at least two
            // and the integer part has room to grow
            assert(den >= 2) by {
                if den == 1 {
                    assert(rem == 0);
                    assert(((rem as int) * 100 + (den as int) / 2) / (den as int) == 0);
                }
            }
            assert(num as int / den as int <= num as int / 2) by (nonlinear_arith)
                requires
                    (den as int) >= 2,
                    0 <= (num as int);
        }
        let mut r = crate::dot::u64_to_string(ip + 1);
        push_char(&mut r, '.');
        push_char(&mut r, 48u8 as char);
        push_char(&mut r, 48u8 as char);
        proof {
            assert(r@ =~= centi_text(num as int, den as int));
        }
        r
    } else {
        let mut r = crate::dot::u64_to_string(ip);
        push_char(&mut r, '.');
        push_char(&mut r, (48 + (frac / 10) as u8) as char);
        push_char(&mut r, (48 + (frac % 10) as u8) as char);
        proof {
            assert(r@ =~= centi_text(num as int, den as int));
        }
        r
    }
}

impl Graph {
    /// How many classes have signatures of the given length.
    fn count_of_len(&self, len: usize) -> (c: u64)
        requires
            self.wf_base(),
            self.n() < 0x1_0000_0000,
        ensures
            c == len_count(*self, len as int, self.n()),
            c <= self.n(),
    {
        let n = self.to_class.len();
        let mut c: u64 = 0;
        let mut l: usize = 0;
        while l < n
            invariant
                self.wf_base(),
                n == self.n(),
                n < 0x1_0000_0000,
                l <= n,
                c == len_count(*self, len as int, l as int),
                c <= l,
            decreases n - l,
        {
            if self.to_class[l].signature.as_str().unicode_len() == len {
                c = c + 1;
            }
            l = l + 1;
        }
        c
    }

    /// The sample signature shown for a length: the first one in label
    /// order.
    fn sample_sig_of_len(&self, len: usize) -> (r: String)
        requires
            self.wf_base(),
        ensures
            r@ == first_sig_of_len(*self, len as int, 0),
    {
        let n = self.to_class.len();
        let mut l: usize = 0;
        while l < n
            invariant
                self.wf_base(),
                n == self.n(),
                l <= n,
                first_sig_of_len(*self, len as int, 0) == first_sig_of_len(
                    *self,
                    len as int,
                    l as int,
                ),
            decreases n - l,
        {
            if self.to_class[l].signature.as_str().unicode_len() == len {
                return self.to_class[l].signature.clone();
            }
            l = l + 1;
        }
        String::new()
    }

    /// The textual report: overview, class histogram by signature length,
    /// and the reachability histogram from class length three. A source
    /// length with no classes yields an empty reachability section.
    pub fn report(&self) -> (r: String)
        requires
            self.wf(),
            self.n() < 0x1_0000_0000,
            self.max_len_upto(self.n()) < usize::MAX,
            self.member_sum(self.n()) <= u64::MAX,
            self.degree_sum(self.n()) <= u64::MAX,
        ensures
            r@ == report_text(*self),
    {
        let n = self.to_class.len();
        let mut r = String::new();
        if n == 0 {
            r.append("overview\n  - number of classes: 0\n(end)");
            return r;
        }
        r.append("overview\n  - number of classes: ");
        let n_str = crate::dot::u64_to_string(n as u64);
        r.append(n_str.as_str());
        r.append("\n  - average class size: ");
        let members = self.total_members();
        let avg_members = centi_string(members, n as u64);
        r.append(avg_members.as_str());
        r.append("\n  - average degree: ");
        let degrees = self.total_degree();
        let avg_deg = centi_string(degrees, n as u64);
        r.append(avg_deg.as_str());
        r.append("\n\nanagram classes\n");
        let ml = self.max_sig_len();
        let mut len: usize = 0;
        while len <= ml
            invariant
                self.wf(),
                n == self.n(),
                n < 0x1_0000_0000,
                len <= ml + 1,
                ml < usize::MAX,
                ml == self.max_len_upto(self.n()),
                r@ == "overview\n  - number of classes: "@ + dec_str(self.n() as nat)
                    + "\n  - average class size: "@ + centi_text(
                    self.member_sum(self.n()),
                    self.n(),
                ) + "\n  - average degree: "@ + centi_text(self.degree_sum(self.n()), self.n())
                    + "\n\nanagram classes\n"@ + hist_lines(*self, len as int),
            decreases ml + 1 - len,
        {
            let c = self.count_of_len(len);
            if c > 0 {
                let c_str = crate::dot::u64_to_string(c);
                r.append(c_str.as_str());
                r.append(" of length ");
                let len_str = crate::dot::u64_to_string(len as u64);
                r.append(len_str.as_str());
                r.append(" (e.g. ");
                let sample = self.sample_sig_of_len(len);
                r.append(sample.as_str());
                r.append(")\n");
                proof {
                    assert(hist_lines(*self, len as int + 1) =~= hist_lines(*self, len as int)
                        + hist_line(*self, len as int));
                    assert(r@ =~= "overview\n  - number of classes: "@ + dec_str(self.n() as nat)
                        + "\n  - average class size: "@ + centi_text(
                        self.member_sum(self.n()),
                        self.n(),
                    ) + "\n  - average degree: "@ + centi_text(
                        self.degree_sum(self.n()),
                        self.n(),
                    ) + "\n\nanagram classes\n"@ + hist_lines(*self, len as int + 1));
                }
            } else {
                proof {
                    assert(hist_lines(*self, len as int + 1) =~= hist_lines(*self, len as int));
                }
            }
            len = len + 1;
        }
        r.append("\nreachability from class length 3\n");
        let sources = self.count_of_len(REPORT_SOURCE_LENGTH);
        if sources > 0 {
            let hist = self.reachability(REPORT_SOURCE_LENGTH);
            let ghost base = r@;
            let mut len2: usize = 0;
            while len2 < hist.len()
                invariant
                    self.wf(),
                    n == self.n(),
                    n < 0x1_0000_0000,
                    len2 <= hist@.len(),
                    sources == len_count(*self, REPORT_SOURCE_LENGTH as int, self.n()),
                    sources > 0,
                    hist@.len() == self.max_len_upto(self.n()) + 1,
                    forall|ln: int|
                        0 <= ln < hist@.len() ==> (#[trigger] hist@[ln]) as int
                            == self.total_count(REPORT_SOURCE_LENGTH as int, ln, self.n()),
                    r@ == base + reach_lines(*self, REPORT_SOURCE_LENGTH as int, len2 as int),
                decreases hist@.len() - len2,
            {
                let c = hist[len2];
                if c > 0 {
                    let c_str = crate::dot::u64_to_string(c);
                    r.append(c_str.as_str());
                    r.append(" of length ");
                    let len_str = crate::dot::u64_to_string(len2 as u64);
                    r.append(len_str.as_str());
                    r.append(" (avg ");
                    let avg = centi_string(c, sources);
                    r.append(avg.as_str());
                    r.append(")\n");
                    proof {
                        assert(reach_lines(*self, REPORT_SOURCE_LENGTH as int, len2 as int + 1)
                            =~= reach_lines(*self, REPORT_SOURCE_LENGTH as int, len2 as int)
                            + reach_line(*self, REPORT_SOURCE_LENGTH as int, len2 as int));
                        assert(r@ =~= base + reach_lines(
                            *self,
                            REPORT_SOURCE_LENGTH as int,
                            len2 as int + 1,
                        ));
                    }
                } else {
                    proof {
                        assert(reach_lines(*self, REPORT_SOURCE_LENGTH as int, len2 as int + 1)
                            =~= reach_lines(*self, REPORT_SOURCE_LENGTH as int, len2 as int));
                    }
                }
                len2 = len2 + 1;
            }
        }
        r.append("(end)");
        proof {
            assert(r@ =~= report_text(*self));
        }
        r
    }
}

} // verus!
