use vstd::prelude::*;
use crate::outcome::{OutcomeView, ProbeOutcome, StatusKind};

verus! {

/// The ports of a sequence of outcomes, in order.
pub open spec fn ports_of(s: Seq<OutcomeView>) -> Seq<u16> {
    s.map_values(|o: OutcomeView| o.0)
}

pub open spec fn strictly_ascending(s: Seq<u16>) -> bool {
    forall|i: int, j: int| 0 <= i < j < s.len() ==> s[i] < s[j]
}

/// The outcomes of a given kind, in order.
pub open spec fn of_kind(s: Seq<OutcomeView>, k: StatusKind) -> Seq<OutcomeView> {
    s.filter(|o: OutcomeView| o.1 == k)
}

proof fn lemma_of_kind_step(s: Seq<OutcomeView>, k: StatusKind, i: int)
    requires
        0 <= i < s.len(),
    ensures
        of_kind(s.take(i + 1), k) == if s[i].1 == k {
            of_kind(s.take(i), k).push(s[i])
        } else {
            of_kind(s.take(i), k)
        },
{
    reveal(Seq::filter);
    assert(s.take(i + 1).drop_last() =~= s.take(i));
}

/// The outcomes of one scan, ascending by port, at most one per port.
pub struct ResultSet {
    outcomes: Vec<ProbeOutcome>,
    complete: bool,
}

impl ResultSet {
    pub closed spec fn view(&self) -> Seq<OutcomeView> {
        self.outcomes@.map_values(|o: ProbeOutcome| o.view())
    }

    /// Whether the scan that made the set recorded every port of its range.
    pub closed spec fn spec_complete(&self) -> bool {
        self.complete
    }

    pub open spec fn wf(&self) -> bool {
        strictly_ascending(ports_of(self@))
    }

    pub(crate) fn new() -> (r: ResultSet)
        ensures
            r@ == Seq::<OutcomeView>::empty(),
            !r.spec_complete(),
            r.wf(),
    {
        let r = ResultSet { outcomes: Vec::new(), complete: false };
        assert(r@ =~= Seq::<OutcomeView>::empty());
        r
    }

    pub(crate) fn set_complete(&mut self, complete: bool)
        ensures
            final(self)@ == old(self)@,
            final(self).spec_complete() == complete,
    {
        self.complete = complete;
    }

    /// Adds an outcome for a port that the set does not hold yet, at the
    /// place that keeps the ports ascending.
    pub(crate) fn insert(&mut self, o: ProbeOutcome)
        requires
            old(self).wf(),
            !ports_of(old(self)@).contains(o.port),
        ensures
            final(self).wf(),
            final(self).spec_complete() == old(self).spec_complete(),
            exists|pos: int|
                0 <= pos <= old(self)@.len() && final(self)@ == old(self)@.insert(pos, o.view()),
            forall|p: u16|
                ports_of(final(self)@).contains(p) <==> (ports_of(old(self)@).contains(p)
                    || p == o.port),
    {
        let ghost before = self@;
        let n = self.outcomes.len();
        let mut pos: usize = 0;
        while pos < n && self.outcomes[pos].port < o.port
            invariant
                pos <= n == self.outcomes@.len(),
                self@ == before,
                forall|j: int| 0 <= j < pos ==> #[trigger] self.outcomes@[j].port < o.port,
            decreases n - pos,
        {
            pos = pos + 1;
        }
        let ghost v = o.view();
        self.outcomes.insert(pos, o);
        assert(self@ =~= before.insert(pos as int, v));
        proof {
            let ps = ports_of(self@);
            let qs = ports_of(before);
            assert(pos < n ==> qs[pos as int] != v.0);
            assert(pos < n ==> qs[pos as int] > v.0);
            assert forall|j: int| 0 <= j < pos implies qs[j] < v.0 by {
                assert(qs[j] == before[j].0);
                assert(before[j] == self.outcomes@[j].view());
            }
            assert forall|i: int| 0 <= i < ps.len() implies #[trigger] ps[i] == (if i < pos {
                qs[i]
            } else if i == pos {
                v.0
            } else {
                qs[i - 1]
            }) by {}
            assert forall|i: int, j: int| 0 <= i < j < ps.len() implies ps[i] < ps[j] by {
                if j < pos {
                    assert(qs[i] < qs[j]);
                } else if j == pos {
                    assert(qs[i] < v.0);
                } else if i == pos {
                    assert(qs[pos as int] <= qs[j - 1]);
                } else if i < pos {
                    assert(qs[i] < v.0);
                    assert(qs[pos as int] <= qs[j - 1]);
                } else {
                    assert(qs[i - 1] < qs[j - 1]);
                }
            }
            assert forall|p: u16| ps.contains(p) <==> (qs.contains(p) || p == v.0) by {
                if ps.contains(p) {
                    let i = choose|i: int| 0 <= i < ps.len() && ps[i] == p;
                    if i < pos {
                        assert(qs[i] == p);
                    } else if i > pos {
                        assert(qs[i - 1] == p);
                    }
                }
                if qs.contains(p) {
                    let i = choose|i: int| 0 <= i < qs.len() && qs[i] == p;
                    if i < pos {
                        assert(ps[i] == p);
                    } else {
                        assert(ps[i + 1] == p);
                    }
                }
                if p == v.0 {
                    assert(ps[pos as int] == p);
                }
            }
        }
    }

    /// The number of outcomes.
    pub fn len(&self) -> (r: usize)
        ensures
            r == self@.len(),
    {
        self.outcomes.len()
    }

    /// Whether the scan recorded every port of its range.
    pub fn is_complete(&self) -> (r: bool)
        ensures
            r == self.spec_complete(),
    {
        self.complete
    }

    /// The outcome at position `i`, counting in ascending port order.
    pub fn get(&self, i: usize) -> (r: &ProbeOutcome)
        requires
            i < self@.len(),
        ensures
            r.view() == self@[i as int],
    {
        &self.outcomes[i]
    }

    /// The ports of the outcomes, ascending.
    pub fn ports(&self) -> (r: Vec<u16>)
        ensures
            r@ == ports_of(self@),
    {
        let mut r: Vec<u16> = Vec::new();
        let mut i: usize = 0;
        while i < self.outcomes.len()
            invariant
                i <= self.outcomes@.len(),
                r@ == ports_of(self@).take(i as int),
            decreases self.outcomes@.len() - i,
        {
            r.push(self.outcomes[i].port);
            i = i + 1;
            assert(r@ =~= ports_of(self@).take(i as int));
        }
        assert(r@ =~= ports_of(self@));
        r
    }

    /// How many outcomes are of kind `k`.
    pub fn count(&self, k: StatusKind) -> (r: usize)
        ensures
            r == of_kind(self@, k).len(),
    {
        let mut c: usize = 0;
        let mut i: usize = 0;
        while i < self.outcomes.len()
            invariant
                i <= self.outcomes@.len(),
                c == of_kind(self@.take(i as int), k).len(),
                c <= i,
            decreases self.outcomes@.len() - i,
        {
            proof {
                lemma_of_kind_step(self@, k, i as int);
            }
            if self.outcomes[i].status.kind() == k {
                c = c + 1;
            }
            i = i + 1;
        }
        assert(self@.take(i as int) =~= self@);
        c
    }

    /// The outcomes of kind `k`, in the same order; the subset is complete
    /// when the whole set is.
    pub fn filter(&self, k: StatusKind) -> (r: ResultSet)
        requires
            self.wf(),
        ensures
            r@ == of_kind(self@, k),
            r.spec_complete() == self.spec_complete(),
            r.wf(),
    {
        let mut out: Vec<ProbeOutcome> = Vec::new();
        let mut i: usize = 0;
        while i < self.outcomes.len()
            invariant
                i <= self.outcomes@.len(),
                out@.map_values(|o: ProbeOutcome| o.view()) == of_kind(self@.take(i as int), k),
            decreases self.outcomes@.len() - i,
        {
            proof {
                lemma_of_kind_step(self@, k, i as int);
            }
            if self.outcomes[i].status.kind() == k {
                let ghost prev = out@;
                out.push(self.outcomes[i].duplicate());
                assert(out@.map_values(|o: ProbeOutcome| o.view()) =~= prev.map_values(
                    |o: ProbeOutcome| o.view(),
                ).push(self@[i as int]));
            }
            i = i + 1;
        }
        assert(self@.take(i as int) =~= self@);
        let r = ResultSet { outcomes: out, complete: self.complete };
        proof {
            lemma_subsequence_ascending(self@, k);
        }
        r
    }
}

/// Keeping only the outcomes of one kind keeps the ports ascending.
proof fn lemma_subsequence_ascending(s: Seq<OutcomeView>, k: StatusKind)
    requires
        strictly_ascending(ports_of(s)),
    ensures
        strictly_ascending(ports_of(of_kind(s, k))),
        forall|i: int|
            0 <= i < of_kind(s, k).len() ==> ports_of(s).contains(#[trigger] of_kind(s, k)[i].0),
    decreases s.len(),
{
    reveal(Seq::filter);
    if s.len() > 0 {
        let t = s.drop_last();
        assert(strictly_ascending(ports_of(t))) by {
            assert forall|i: int, j: int| 0 <= i < j < ports_of(t).len() implies ports_of(t)[i]
                < ports_of(t)[j] by {
                assert(ports_of(t)[i] == ports_of(s)[i]);
                assert(ports_of(t)[j] == ports_of(s)[j]);
            }
        }
        lemma_subsequence_ascending(t, k);
        let f = of_kind(t, k);
        assert forall|i: int| 0 <= i < f.len() implies #[trigger] f[i].0 < s.last().0 by {
            let q = f[i].0;
            assert(ports_of(t).contains(q));
            let j = choose|j: int| 0 <= j < ports_of(t).len() && ports_of(t)[j] == q;
            assert(ports_of(s)[j] == q);
            assert(ports_of(s)[s.len() - 1] == s.last().0);
        }
        assert forall|i: int| 0 <= i < f.len() implies ports_of(s).contains(#[trigger] f[i].0) by {
            let q = f[i].0;
            assert(ports_of(t).contains(q));
            let j = choose|j: int| 0 <= j < ports_of(t).len() && ports_of(t)[j] == q;
            assert(ports_of(s)[j] == q);
        }
        assert(ports_of(s)[s.len() - 1] == s.last().0);
        if s.last().1 == k {
            let g = f.push(s.last());
            assert(of_kind(s, k) == g);
            assert forall|i: int, j: int| 0 <= i < j < ports_of(g).len() implies ports_of(g)[i]
                < ports_of(g)[j] by {
                if j == f.len() {
                    assert(ports_of(g)[i] == f[i].0);
                } else {
                    assert(ports_of(g)[i] == ports_of(f)[i]);
                    assert(ports_of(g)[j] == ports_of(f)[j]);
                }
            }
            assert forall|i: int| 0 <= i < g.len() implies ports_of(s).contains(#[trigger] g[i].0) by {
                if i < f.len() {
                    assert(g[i] == f[i]);
                }
            }
        } else {
            assert(of_kind(s, k) == f);
        }
    }
}

} // verus!
