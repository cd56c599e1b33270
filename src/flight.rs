//! Fetch coordination for callers that fetch outside a lock: at most one
//! fetch per symbol is in flight, and callers that arrive meanwhile wait.
use crate::cache::{lemma_get_wf, same_text, CacheView, QuoteCache};
use crate::client::{after_record, record};
use crate::quote::{accepted, result_view, FetchError, QuoteResult, QuoteView};
use vstd::prelude::*;

verus! {

/// What a caller does next for the symbol it asked for.
pub enum Step {
    /// Hand out this quote; no fetch is needed.
    Serve(crate::quote::QuoteResponse),
    /// Fetch the symbol, then report the outcome with `complete`.
    Fetch,
    /// Another caller is fetching the symbol: wait for it, then ask again.
    Wait,
}

pub enum StepView {
    Serve(QuoteView),
    Fetch,
    Wait,
}

impl View for Step {
    type V = StepView;

    open spec fn view(&self) -> StepView {
        match self {
            Step::Serve(q) => StepView::Serve(q@),
            Step::Fetch => StepView::Fetch,
            Step::Wait => StepView::Wait,
        }
    }
}

/// The mathematical value of a coordinator: its cache and the symbols
/// whose fetch is in flight, in the order their fetches began.
pub struct FlightView {
    pub cache: CacheView,
    pub in_flight: Seq<Seq<char>>,
}

impl FlightView {
    pub open spec fn wf(self) -> bool {
        self.cache.wf() && self.in_flight.no_duplicates()
    }

    /// The step a caller asking for `s` at `now` is given.
    pub open spec fn step(self, s: Seq<char>, now: u64) -> StepView {
        match self.cache.lookup(s, now) {
            Some(q) => StepView::Serve(q),
            None => if self.in_flight.contains(s) {
                StepView::Wait
            } else {
                StepView::Fetch
            },
        }
    }

    /// The coordinator after a caller asked for `s` at `now`.
    pub open spec fn after_begin(self, s: Seq<char>, now: u64) -> FlightView {
        FlightView {
            cache: self.cache.after_get(s, now),
            in_flight: if self.step(s, now) is Fetch {
                self.in_flight.push(s)
            } else {
                self.in_flight
            },
        }
    }

    /// The coordinator after the fetch of `s` ended with `r` at `now`.
    pub open spec fn after_complete(self, s: Seq<char>, r: Result<QuoteView, FetchError>, now: u64) -> FlightView {
        FlightView {
            cache: after_record(self.cache, s, r, now),
            in_flight: if self.in_flight.contains(s) {
                self.in_flight.remove(self.in_flight.index_of(s))
            } else {
                self.in_flight
            },
        }
    }
}

/// A quote cache together with the symbols being fetched.
pub struct QuoteCoordinator {
    pub cache: QuoteCache,
    in_flight: Vec<String>,
}

impl View for QuoteCoordinator {
    type V = FlightView;

    closed spec fn view(&self) -> FlightView {
        FlightView { cache: self.cache@, in_flight: self.in_flight@.map_values(|s: String| s@) }
    }
}

impl QuoteCoordinator {
    /// A coordinator over `cache` with nothing in flight.
    pub fn new(cache: QuoteCache) -> (r: QuoteCoordinator)
        requires
            cache@.wf(),
        ensures
            r@.wf(),
            r@.cache == cache@,
            r@.in_flight.len() == 0,
    {
        let r = QuoteCoordinator { cache, in_flight: Vec::new() };
        assert(r@.in_flight =~= Seq::<Seq<char>>::empty());
        r
    }

    fn in_flight_at(&self, s: &str) -> (r: Option<usize>)
        ensures
            match r {
                Some(i) => i < self.in_flight.len() && self@.in_flight[i as int] == s@ && self@.in_flight.contains(s@),
                None => !self@.in_flight.contains(s@),
            },
    {
        let mut i: usize = 0;
        while i < self.in_flight.len()
            invariant
                forall|k: int| 0 <= k < i ==> #[trigger] self.in_flight@[k]@ != s@,
            decreases self.in_flight.len() - i,
        {
            if same_text(self.in_flight[i].as_str(), s) {
                assert(self@.in_flight[i as int] == s@);
                return Some(i);
            }
            i = i + 1;
        }
        None
    }

    /// The step for a caller asking for `s` at `now`: a fresh cached quote
    /// is served; otherwise the first caller is told to fetch and later
    /// callers to wait until that fetch completes.
    pub fn begin(&mut self, s: &str, now: u64) -> (r: Step)
        requires
            old(self)@.wf(),
        ensures
            final(self)@.wf(),
            r@ == old(self)@.step(s@, now),
            final(self)@ == old(self)@.after_begin(s@, now),
    {
        proof {
            lemma_get_wf(self.cache@, s@, now);
        }
        match self.cache.get(s, now) {
            Some(q) => Step::Serve(q),
            None => match self.in_flight_at(s) {
                Some(_) => Step::Wait,
                None => {
                    let ghost before = self.in_flight@;
                    self.in_flight.push(s.to_string());
                    proof {
                        assert(self@.in_flight =~= old(self)@.in_flight.push(s@));
                        assert(self@.in_flight.no_duplicates()) by {
                            assert forall|a: int, b: int| 0 <= a < b < self@.in_flight.len() implies
                                self@.in_flight[a] != self@.in_flight[b] by {
                                if b == self@.in_flight.len() - 1 {
                                    assert(old(self)@.in_flight[a] == self@.in_flight[a]);
                                }
                            }
                        }
                    }
                    Step::Fetch
                },
            },
        }
    }

    /// Records the outcome of the fetch of `s` at `now` as `record` does (a
    /// finite quote is stored, anything else is an error), and `s` is no
    /// longer in flight. The outcome is
    /// handed back for the caller that fetched.
    pub fn complete(&mut self, s: &str, r: QuoteResult, now: u64) -> (out: QuoteResult)
        requires
            old(self)@.wf(),
        ensures
            final(self)@.wf(),
            result_view(out) == accepted(result_view(r)),
            final(self)@ == old(self)@.after_complete(s@, result_view(r), now),
    {
        let ghost v0 = self@;
        let out = record(&mut self.cache, s, r, now);
        match self.in_flight_at(s) {
            Some(i) => {
                let ghost before = self@.in_flight;
                self.in_flight.remove(i);
                proof {
                    let j = before.index_of(s@);
                    assert(before[j] == s@);
                    assert(j == i as int) by {
                        if j < i {
                            assert(before[j] != before[i as int]);
                        } else if j > i {
                            assert(before[i as int] != before[j]);
                        }
                    }
                    assert(self@.in_flight =~= before.remove(i as int));
                    assert(self@.in_flight.no_duplicates()) by {
                        assert forall|a: int, b: int| 0 <= a < b < self@.in_flight.len() implies
                            self@.in_flight[a] != self@.in_flight[b] by {
                            let a0 = if a < i { a } else { a + 1 };
                            let b0 = if b < i { b } else { b + 1 };
                            assert(before[a0] != before[b0]);
                        }
                    }
                }
            },
            None => {},
        }
        out
    }
}

/// At most one fetch per symbol is in flight. A caller told to fetch `s`
/// puts `s` in flight; while `s` is in flight every caller asking for `s`
/// is served or told to wait, never told to fetch; and `s` stays in flight
/// through any caller's step and through the completion of any other
/// symbol's fetch, until its own fetch completes.
pub proof fn lemma_single_flight(v: FlightView, s: Seq<char>, other: Seq<char>, r: Result<QuoteView, FetchError>, now: u64)
    requires
        v.wf(),
    ensures
        v.step(s, now) is Fetch ==> v.after_begin(s, now).in_flight.contains(s),
        v.in_flight.contains(s) ==> !(v.step(s, now) is Fetch),
        v.in_flight.contains(s) ==> v.after_begin(other, now).in_flight.contains(s),
        v.in_flight.contains(s) && other != s ==> v.after_complete(other, r, now).in_flight.contains(s),
        !v.after_complete(s, r, now).in_flight.contains(s),
{
    let f = v.in_flight;
    if v.step(s, now) is Fetch {
        assert(f.push(s)[f.len() as int] == s);
    }
    if f.contains(s) {
        let k = f.index_of(s);
        if v.step(other, now) is Fetch {
            assert(f.push(other)[k] == s);
        }
        if other != s && f.contains(other) {
            let j = f.index_of(other);
            let k2 = if k < j { k } else { k - 1 };
            assert(f.remove(j)[k2] == s);
        }
        let w = f.remove(k);
        if w.contains(s) {
            let m = choose|m: int| 0 <= m < w.len() && w[m] == s;
            let m0 = if m < k { m } else { m + 1 };
            assert(f[m0] == s);
            assert(f.index_of(s) == k);
            assert(f[k] == s);
        }
    }
}

} // verus!
