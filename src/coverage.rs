use vstd::prelude::*;

use crate::lcov::{string_views, LcovReport};

verus! {

/// The line tokens of `r`, in first-arrival order, whose hit count is above
/// zero (`covered`) or is zero (`!covered`).
pub open spec fn lines_by_coverage(r: &LcovReport, covered: bool) -> Seq<Seq<char>> {
    r.ln_data.key_seq().filter(|k: Seq<char>| (r.ln_data.view()[k] > 0) == covered)
}

proof fn lemma_filter_split(s: Seq<Seq<char>>, f: spec_fn(Seq<char>) -> bool, g: spec_fn(Seq<char>) -> bool)
    requires
        forall|k: Seq<char>| #[trigger] f(k) == !g(k),
    ensures
        s.filter(f).len() + s.filter(g).len() == s.len(),
    decreases s.len(),
{
    reveal(Seq::filter);
    if s.len() > 0 {
        lemma_filter_split(s.drop_last(), f, g);
        assert(f(s.last()) == !g(s.last()));
    }
}

/// Every line token of a report is in exactly one of the covered and the
/// uncovered lists, so together they are as long as the line data has keys.
pub proof fn lemma_partition_sizes(r: &LcovReport)
    requires
        r.wf(),
    ensures
        lines_by_coverage(r, true).len() + lines_by_coverage(r, false).len() == r@.ln_data.dom().len(),
{
    r.ln_data.lemma_keys_match();
    lemma_filter_split(
        r.ln_data.key_seq(),
        |k: Seq<char>| (r.ln_data.view()[k] > 0) == true,
        |k: Seq<char>| (r.ln_data.view()[k] > 0) == false,
    );
}

impl LcovReport {
    fn lines_with_coverage(&self, covered: bool) -> (r: Vec<String>)
        requires
            self.wf(),
        ensures
            string_views(r@) == lines_by_coverage(self, covered),
            string_views(r@).no_duplicates(),
            forall|k: Seq<char>|
                string_views(r@).contains(k) <==> (self@.ln_data.contains_key(k)
                    && (self@.ln_data[k] > 0) == covered),
    {
        broadcast use vstd::seq_lib::lemma_seq_contains_after_push;

        proof {
            self.ln_data.lemma_keys_match();
        }
        let ghost pred = |k: Seq<char>| (self.ln_data.view()[k] > 0) == covered;
        let ghost keys = self.ln_data.key_seq();
        let mut out: Vec<String> = Vec::new();
        let n = self.ln_data.len();
        let mut i: usize = 0;
        proof {
            reveal(Seq::filter);
        }
        assert(keys.take(0).filter(pred) =~= Seq::<Seq<char>>::empty());
        assert(string_views(out@) =~= Seq::<Seq<char>>::empty());
        while i < n
            invariant
                self.wf(),
                n == keys.len(),
                keys == self.ln_data.key_seq(),
                pred == (|k: Seq<char>| (self.ln_data.view()[k] > 0) == covered),
                i <= n,
                string_views(out@) == keys.take(i as int).filter(pred),
                keys.no_duplicates(),
                string_views(out@).no_duplicates(),
                forall|k: Seq<char>|
                    string_views(out@).contains(k) <==> (keys.take(i as int).contains(k)
                        && pred(k)),
            decreases n - i,
        {
            let (k, v) = self.ln_data.entry(i);
            let ghost before = out@;
            assert(keys.take(i + 1).drop_last() =~= keys.take(i as int));
            proof {
                reveal(Seq::filter);
            }
            let ghost ov = string_views(before);
            assert(keys.take(i + 1) =~= keys.take(i as int).push(k@));
            assert(!keys.take(i as int).contains(k@)) by {
                if keys.take(i as int).contains(k@) {
                    let j = choose|j: int| 0 <= j < i && #[trigger] keys.take(i as int)[j] == k@;
                    assert(keys[j] == keys[i as int]);
                }
            }
            let ghost oi = keys.take(i as int);
            assert(ov.contains(k@) ==> oi.contains(k@));
            assert(pred(k@) == ((*v > 0) == covered));
            if (*v > 0) == covered {
                out.push(k.clone());
                assert(string_views(out@) =~= ov.push(k@));
                assert forall|x: int, y: int|
                    0 <= x < ov.len() + 1 && 0 <= y < ov.len() + 1 && x != y implies ov.push(k@)[x]
                    != ov.push(k@)[y] by {
                    if x < ov.len() && y < ov.len() {
                        assert(ov[x] != ov[y]);
                    } else if x < ov.len() {
                        assert(ov.contains(ov[x]));
                    } else if y < ov.len() {
                        assert(ov.contains(ov[y]));
                    }
                }
            }
            assert forall|k2: Seq<char>|
                #[trigger] string_views(out@).contains(k2) <==> (keys.take(i + 1).contains(
                    k2,
                ) && pred(k2)) by {
                assert(keys.take(i + 1) == oi.push(k@));
                assert(ov.contains(k2) <==> (oi.contains(k2) && pred(k2)));
                vstd::seq_lib::lemma_seq_contains_after_push(oi, k@, k2);
                vstd::seq_lib::lemma_seq_contains_after_push(ov, k@, k2);
                if (*v > 0) == covered {
                    assert(string_views(out@) == ov.push(k@));
                } else {
                    assert(string_views(out@) == ov);
                }
            }
            i = i + 1;
        }
        assert(keys.take(n as int) =~= keys);
        out
    }

    /// The line tokens with a hit count above zero, in first-arrival order.
    pub fn covered_lines(&self) -> (r: Vec<String>)
        requires
            self.wf(),
        ensures
            string_views(r@) == lines_by_coverage(self, true),
            string_views(r@).no_duplicates(),
            forall|k: Seq<char>|
                string_views(r@).contains(k) <==> (self@.ln_data.contains_key(k)
                    && self@.ln_data[k] > 0),
    {
        self.lines_with_coverage(true)
    }

    /// The line tokens with a hit count of zero, in first-arrival order.
    pub fn uncovered_lines(&self) -> (r: Vec<String>)
        requires
            self.wf(),
        ensures
            string_views(r@) == lines_by_coverage(self, false),
            string_views(r@).no_duplicates(),
            forall|k: Seq<char>|
                string_views(r@).contains(k) <==> (self@.ln_data.contains_key(k)
                    && self@.ln_data[k] == 0),
    {
        self.lines_with_coverage(false)
    }
}

} // verus!
