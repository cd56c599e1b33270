//! The coordinator: serves quotes from the cache, fetches on a miss, and
//! answers batches in the order they were asked.
use crate::cache::{lemma_get_wf, lemma_put_wf, lemma_stored_is_served, same_text, CacheView, QuoteCache};
use crate::quote::{accepted, copy_result, quote_finite, result_view, FetchError, Fetcher, QuoteResult, QuoteView};
use vstd::prelude::*;

verus! {

/// How many entries the cache holds at most.
pub const CACHE_CAPACITY: usize = 10_000;

/// How long, in milliseconds, a quote may be served after it was fetched.
pub const TIME_TO_LIVE_MS: u64 = 900_000;

/// How long, in milliseconds, a quote may go unasked before it is dropped.
pub const TIME_TO_IDLE_MS: u64 = 60_000;

/// How many symbols one batch may ask for.
pub const MAX_BATCH: usize = 10;

/// The provider's base address.
pub const IEX_URL: &'static str = "https://cloud.iexapis.com/v1";

/// The coordinator: a fetcher, the cache in front of it, and the batch cap.
pub struct Client<F: Fetcher> {
    pub fetcher: F,
    pub cache: QuoteCache,
    pub max_batch: usize,
}

/// What a lookup of `s` at `now` leaves in the cache, given what it
/// returned: a fresh entry is served as it is; on a miss a returned quote
/// was stored.
pub open spec fn after_lookup(v: CacheView, s: Seq<char>, now: u64, r: Result<QuoteView, FetchError>) -> CacheView {
    if v.lookup(s, now) is Some {
        v.after_get(s, now)
    } else {
        match r {
            Ok(q) => v.after_get(s, now).after_put(s, q, now),
            Err(_) => v.after_get(s, now),
        }
    }
}

/// The cache after the outcome `f` of a fetch of `s` was recorded at `now`.
pub open spec fn after_record(v: CacheView, s: Seq<char>, f: Result<QuoteView, FetchError>, now: u64) -> CacheView {
    match accepted(f) {
        Ok(q) => v.after_put(s, q, now),
        Err(_) => v,
    }
}

/// Records the outcome of a fetch of `symbol` at `now` and hands back what
/// the caller gets: a finite quote is stored and returned as fetched; a
/// quote with a non-finite field is not stored and becomes
/// `FetchError::Decode`; an error is returned unchanged and nothing is stored.
pub fn record(cache: &mut QuoteCache, symbol: &str, fetched: QuoteResult, now: u64) -> (r: QuoteResult)
    requires
        old(cache)@.wf(),
    ensures
        final(cache)@.wf(),
        result_view(r) == accepted(result_view(fetched)),
        final(cache)@ == after_record(old(cache)@, symbol@, result_view(fetched), now),
{
    match fetched {
        Ok(q) => {
            if q.is_finite() {
                proof {
                    lemma_put_wf(cache@, symbol@, q@, now);
                }
                let kept = q.duplicate();
                cache.put(symbol.to_string(), q, now);
                Ok(kept)
            } else {
                Err(FetchError::Decode)
            }
        },
        Err(e) => Err(e),
    }
}

/// `hist` walks a batch. A position whose symbol stood at an earlier
/// position repeats that outcome and leaves the cache alone; any other
/// position `k` is one lookup of `syms[k]` from `hist[k]`, whose outcome is
/// `results[k]` and which leaves `hist[k + 1]`.
pub open spec fn batch_trace(
    syms: Seq<Seq<char>>,
    now: u64,
    results: Seq<Result<QuoteView, FetchError>>,
    hist: Seq<CacheView>,
) -> bool {
    &&& hist.len() == syms.len() + 1
    &&& results.len() == syms.len()
    &&& forall|k: int| 0 < k <= syms.len() ==> #[trigger] hist[k] == if syms.take(k - 1).contains(syms[k - 1]) {
        hist[k - 1]
    } else {
        after_lookup(hist[k - 1], syms[k - 1], now, results[k - 1])
    }
    &&& forall|k: int| 0 <= k < syms.len() && !syms.take(k).contains(syms[k]) ==> (#[trigger] hist[k].lookup(syms[k], now) matches Some(q) ==> results[k] == Ok::<QuoteView, FetchError>(q))
    &&& forall|k: int| 0 <= k < syms.len() ==> (#[trigger] results[k] matches Ok(q) ==> quote_finite(q))
    &&& forall|i: int, j: int| 0 <= i < j < syms.len() && syms[i] == syms[j] ==> #[trigger] results[i] == #[trigger] results[j]
}

pub open spec fn symbols_view(symbols: Seq<String>) -> Seq<Seq<char>> {
    symbols.map_values(|s: String| s@)
}

pub open spec fn results_view(results: Seq<QuoteResult>) -> Seq<Result<QuoteView, FetchError>> {
    results.map_values(|r: QuoteResult| result_view(r))
}

impl<F: Fetcher> Client<F> {
    /// A coordinator with the standard bounds: 10,000 entries, fifteen
    /// minutes of freshness, one minute of idleness, ten symbols a batch.
    pub fn new(fetcher: F) -> (r: Self)
        ensures
            r.fetcher == fetcher,
            r.cache@.entries.len() == 0,
            r.cache@.capacity == CACHE_CAPACITY,
            r.cache@.time_to_live == TIME_TO_LIVE_MS,
            r.cache@.time_to_idle == TIME_TO_IDLE_MS,
            r.max_batch == MAX_BATCH,
            r.cache@.wf(),
            all_finite(r.cache@),
    {
        Self::with_config(fetcher, CACHE_CAPACITY, TIME_TO_LIVE_MS, TIME_TO_IDLE_MS, MAX_BATCH)
    }

    /// A coordinator with the given bounds.
    pub fn with_config(fetcher: F, capacity: usize, time_to_live: u64, time_to_idle: u64, max_batch: usize) -> (r: Self)
        ensures
            r.fetcher == fetcher,
            r.cache@.entries.len() == 0,
            r.cache@.capacity == capacity,
            r.cache@.time_to_live == time_to_live,
            r.cache@.time_to_idle == time_to_idle,
            r.max_batch == max_batch,
            r.cache@.wf(),
            all_finite(r.cache@),
    {
        Client { fetcher, cache: QuoteCache::new(capacity, time_to_live, time_to_idle), max_batch }
    }

    /// The quote for `symbol` at time `now`: served from the cache when a
    /// fresh entry is there, with the fetcher left alone; otherwise the
    /// fetcher is asked for `symbol` and its outcome goes through `record`,
    /// which stores and returns a finite quote and hands errors on.
    pub fn get_quote(&mut self, symbol: &str, now: u64) -> (r: QuoteResult)
        requires
            old(self).cache@.wf(),
            all_finite(old(self).cache@),
        ensures
            final(self).cache@.wf(),
            all_finite(final(self).cache@),
            final(self).max_batch == old(self).max_batch,
            final(self).cache@ == after_lookup(old(self).cache@, symbol@, now, result_view(r)),
            old(self).cache@.lookup(symbol@, now) matches Some(q) ==> result_view(r) == Ok::<QuoteView, FetchError>(q)
                && final(self).fetcher == old(self).fetcher,
            old(self).cache@.lookup(symbol@, now) is None ==> exists|f: Result<QuoteView, FetchError>|
                result_view(r) == accepted(f)
                && final(self).cache@ == after_record(old(self).cache@.after_get(symbol@, now), symbol@, f, now),
            r matches Ok(q) ==> quote_finite(q@),
    {
        let ghost v0 = self.cache@;
        proof {
            lemma_get_wf(v0, symbol@, now);
            lemma_finite_kept(v0, symbol@, arbitrary(), now);
        }
        match self.cache.get(symbol, now) {
            Some(q) => {
                Ok(q)
            },
            None => {
                let fetched = self.fetcher.fetch(symbol);
                proof {
                    if let Ok(q) = accepted(result_view(fetched)) {
                        lemma_finite_kept(self.cache@, symbol@, q, now);
                    }
                }
                record(&mut self.cache, symbol, fetched, now)
            },
        }
    }

    /// The quotes for a batch of symbols, one outcome per position in the
    /// order asked. A symbol is looked up once, at its first position, and
    /// its later positions repeat that outcome; one symbol's failure stays
    /// at its own positions. A batch longer than the cap is refused before
    /// any fetch.
    pub fn get_quotes(&mut self, symbols: &Vec<String>, now: u64) -> (r: Result<Vec<QuoteResult>, FetchError>)
        requires
            old(self).cache@.wf(),
            all_finite(old(self).cache@),
        ensures
            final(self).cache@.wf(),
            all_finite(final(self).cache@),
            final(self).max_batch == old(self).max_batch,
            symbols.len() > old(self).max_batch <==> r is Err,
            r matches Err(e) ==> e == FetchError::TooManySymbols && final(self).cache@ == old(self).cache@
                && final(self).fetcher == old(self).fetcher,
            r matches Ok(v) ==> v.len() == symbols.len() && exists|hist: Seq<CacheView>|
                hist[0] == old(self).cache@ && hist.last() == final(self).cache@
                && batch_trace(symbols_view(symbols@), now, results_view(v@), hist),
    {
        if symbols.len() > self.max_batch {
            return Err(FetchError::TooManySymbols);
        }
        let mut out: Vec<QuoteResult> = Vec::new();
        let mut i: usize = 0;
        let ghost mut hist: Seq<CacheView> = seq![self.cache@];
        while i < symbols.len()
            invariant
                self.cache@.wf(),
                all_finite(self.cache@),
                self.max_batch == old(self).max_batch,
                out.len() == i,
                i <= symbols.len(),
                hist.len() == i + 1,
                hist[0] == old(self).cache@,
                hist.last() == self.cache@,
                batch_trace(symbols_view(symbols@).take(i as int), now, results_view(out@), hist),
            decreases symbols.len() - i,
        {
            let ghost syms = symbols_view(symbols@);
            let ghost out_before = out@;
            let mut j: usize = 0;
            while j < i && !same_text(symbols[j].as_str(), symbols[i].as_str())
                invariant
                    j <= i < symbols.len(),
                    forall|k: int| 0 <= k < j ==> #[trigger] symbols@[k]@ != symbols@[i as int]@,
                decreases i - j,
            {
                j = j + 1;
            }
            let r = if j < i {
                copy_result(&out[j])
            } else {
                self.get_quote(symbols[i].as_str(), now)
            };
            out.push(r);
            proof {
                assert(results_view(out@) =~= results_view(out_before).push(result_view(r)));
                if j < i {
                    assert(syms[j as int] == syms[i as int]);
                    assert(results_view(out_before)[j as int] == result_view(r));
                } else {
                    assert forall|k: int| 0 <= k < i implies syms[k] != syms[i as int] by {
                        assert(symbols@[k]@ != symbols@[i as int]@);
                    }
                }
                lemma_trace_extend(syms, i as int, now, results_view(out_before), hist, result_view(r), self.cache@, j as int);
                hist = hist.push(self.cache@);
            }
            i = i + 1;
        }
        assert(symbols_view(symbols@).take(i as int) =~= symbols_view(symbols@));
        Ok(out)
    }
}

/// A batch trace grows by one position: a repeat of the earlier position
/// `j` of the same symbol, or (with `j == i`) a lookup of a new symbol.
pub proof fn lemma_trace_extend(
    syms: Seq<Seq<char>>,
    i: int,
    now: u64,
    rs: Seq<Result<QuoteView, FetchError>>,
    hist: Seq<CacheView>,
    r: Result<QuoteView, FetchError>,
    next: CacheView,
    j: int,
)
    requires
        0 <= i < syms.len(),
        batch_trace(syms.take(i), now, rs, hist),
        0 <= j < i ==> syms[j] == syms[i] && r == rs[j] && next == hist[i],
        j == i ==> (forall|k: int| 0 <= k < i ==> syms[k] != syms[i]) && next == after_lookup(hist[i], syms[i], now, r)
            && (hist[i].lookup(syms[i], now) matches Some(q) ==> r == Ok::<QuoteView, FetchError>(q)),
        0 <= j <= i,
        r matches Ok(q) ==> quote_finite(q),
    ensures
        batch_trace(syms.take(i + 1), now, rs.push(r), hist.push(next)),
{
    let pre = syms.take(i);
    let post = syms.take(i + 1);
    let h = hist.push(next);
    let rs2 = rs.push(r);
    assert(post =~= pre.push(syms[i]));
    assert(pre.contains(syms[i]) <==> j < i) by {
        if j < i {
            assert(pre[j] == syms[i]);
        } else if pre.contains(syms[i]) {
            let k = choose|k: int| 0 <= k < pre.len() && pre[k] == syms[i];
            assert(syms[k] == syms[i]);
        }
    }
    assert forall|a: int, b: int| 0 <= a < b < post.len() && post[a] == post[b] implies
        #[trigger] rs2[a] == #[trigger] rs2[b] by {
        if b == i {
            if j < i {
                assert(pre[a] == pre[j]);
                if a < j {
                    assert(rs[a] == rs[j]);
                } else if j < a {
                    assert(rs[j] == rs[a]);
                }
            } else {
                assert(syms[a] != syms[i]);
            }
        } else {
            assert(pre[a] == pre[b]);
            assert(rs[a] == rs[b]);
        }
    }
    assert forall|k: int| 0 <= k < post.len() implies (#[trigger] rs2[k] matches Ok(q) ==> quote_finite(q)) by {
        if k < i {
            assert(rs2[k] == rs[k]);
        }
    }
    assert forall|k: int| 0 <= k < post.len() && !post.take(k).contains(post[k]) implies
        (#[trigger] h[k].lookup(post[k], now) matches Some(q) ==> rs2[k] == Ok::<QuoteView, FetchError>(q)) by {
        if k < i {
            assert(post.take(k) =~= pre.take(k));
            assert(h[k] == hist[k]);
            assert(post[k] == pre[k]);
        } else {
            assert(post.take(k) =~= pre);
        }
    }
    assert forall|k: int| 0 < k <= post.len() implies #[trigger] h[k] == if post.take(k - 1).contains(post[k - 1]) {
        h[k - 1]
    } else {
        after_lookup(h[k - 1], post[k - 1], now, rs2[k - 1])
    } by {
        if k - 1 < i {
            assert(post.take(k - 1) =~= pre.take(k - 1));
            assert(post[k - 1] == pre[k - 1]);
            assert(h[k] == hist[k]);
        } else {
            assert(post.take(k - 1) =~= pre);
        }
    }
}

/// Every quote the cache holds is finite.
pub open spec fn all_finite(v: CacheView) -> bool {
    forall|i: int| 0 <= i < v.entries.len() ==> quote_finite(#[trigger] v.entries[i].quote)
}

/// Lookups and the storing of finite quotes keep every held quote finite,
/// so every quote served is finite.
pub proof fn lemma_finite_kept(v: CacheView, s: Seq<char>, q: QuoteView, now: u64)
    requires
        v.wf(),
        all_finite(v),
    ensures
        v.lookup(s, now) matches Some(p) ==> quote_finite(p),
        all_finite(v.after_get(s, now)),
        quote_finite(q) ==> all_finite(v.after_put(s, q, now)),
{
    if v.has(s) {
        let i = v.pos(s);
        assert(v.entries[i].symbol == s);
        let w = v.after_get(s, now);
        assert forall|k: int| 0 <= k < w.entries.len() implies quote_finite(#[trigger] w.entries[k].quote) by {
            if !v.fresh(v.entries[i], now) && k >= i {
                assert(w.entries[k] == v.entries[k + 1]);
            }
        }
    }
    if quote_finite(q) {
        let w = v.after_put(s, q, now);
        if !v.has(s) && v.capacity > 0 && v.entries.len() >= v.capacity {
            crate::cache::lemma_victim_exists(v);
        }
        assert forall|k: int| 0 <= k < w.entries.len() implies quote_finite(#[trigger] w.entries[k].quote) by {
            if !v.has(s) && v.capacity > 0 && v.entries.len() >= v.capacity && k < w.entries.len() - 1 {
                let m = v.victim();
                if k >= m {
                    assert(w.entries[k] == v.entries[k + 1]);
                }
            }
        }
    }
}

/// Two lookups of a symbol in immediate succession fetch at most once: when
/// the first missed and its fetch succeeded, the second is served from the
/// cache with what was fetched.
pub proof fn lemma_second_lookup_served(v: CacheView, s: Seq<char>, now: u64, r: Result<QuoteView, FetchError>)
    requires
        v.wf(),
        v.capacity > 0,
        v.time_to_live > 0,
        v.time_to_idle > 0,
        r is Ok || v.lookup(s, now) is Some,
    ensures
        after_lookup(v, s, now, r).lookup(s, now) is Some,
        v.lookup(s, now) is None ==> (r matches Ok(q) ==> after_lookup(v, s, now, r).lookup(s, now) == Some(q)),
        v.lookup(s, now) matches Some(q) ==> after_lookup(v, s, now, r).lookup(s, now) == Some(q),
{
    lemma_get_wf(v, s, now);
    if v.lookup(s, now) is Some {
        let i = v.pos(s);
        let w = v.after_get(s, now);
        assert(w.entries[i].symbol == s);
        crate::cache::lemma_pos_of_entry(w, i);
    } else if let Ok(q) = r {
        lemma_stored_is_served(v, s, q, now);
    }
}

/// A lookup keeps the cache well formed, whatever the fetcher answered.
pub proof fn lemma_lookup_wf(v: CacheView, s: Seq<char>, now: u64, r: Result<QuoteView, FetchError>)
    requires
        v.wf(),
    ensures
        after_lookup(v, s, now, r).wf(),
        after_lookup(v, s, now, r).capacity == v.capacity,
        after_lookup(v, s, now, r).time_to_live == v.time_to_live,
        after_lookup(v, s, now, r).time_to_idle == v.time_to_idle,
{
    lemma_get_wf(v, s, now);
    if let Ok(q) = r {
        lemma_put_wf(v.after_get(s, now), s, q, now);
    }
}

} // verus!
