//! A bounded quote cache whose entries expire by age and by idleness.
use crate::quote::{QuoteResponse, QuoteView};
use vstd::prelude::*;

verus! {

/// One stored quote with the times, in milliseconds, of its insertion and
/// of its last access.
pub struct CacheEntry {
    pub symbol: String,
    pub quote: QuoteResponse,
    pub inserted: u64,
    pub accessed: u64,
}

pub struct EntryView {
    pub symbol: Seq<char>,
    pub quote: QuoteView,
    pub inserted: u64,
    pub accessed: u64,
}

impl View for CacheEntry {
    type V = EntryView;

    open spec fn view(&self) -> EntryView {
        EntryView {
            symbol: self.symbol@,
            quote: self.quote@,
            inserted: self.inserted,
            accessed: self.accessed,
        }
    }
}

/// The mathematical value of a cache: its entries, its bound and its two
/// lifetimes (in milliseconds).
pub struct CacheView {
    pub entries: Seq<EntryView>,
    pub capacity: nat,
    pub time_to_live: nat,
    pub time_to_idle: nat,
}

impl CacheView {
    /// The entry may still be served at `now`: younger than the freshness
    /// lifetime and accessed within the idle lifetime.
    pub open spec fn fresh(self, e: EntryView, now: u64) -> bool {
        now < e.inserted + self.time_to_live && now < e.accessed + self.time_to_idle
    }

    pub open spec fn has(self, s: Seq<char>) -> bool {
        exists|i: int| 0 <= i < self.entries.len() && #[trigger] self.entries[i].symbol == s
    }

    /// Where the entry for `s` stands, if `has(s)`.
    pub open spec fn pos(self, s: Seq<char>) -> int {
        choose|i: int| 0 <= i < self.entries.len() && #[trigger] self.entries[i].symbol == s
    }

    /// The entry that a new symbol displaces when the cache is full: the
    /// first of those accessed least recently.
    pub open spec fn is_victim(self, i: int) -> bool {
        &&& 0 <= i < self.entries.len()
        &&& forall|j: int| 0 <= j < self.entries.len() ==> self.entries[i].accessed <= #[trigger] self.entries[j].accessed
        &&& forall|j: int| 0 <= j < i ==> self.entries[i].accessed < #[trigger] self.entries[j].accessed
    }

    pub open spec fn victim(self) -> int {
        choose|i: int| self.is_victim(i)
    }

    pub open spec fn wf(self) -> bool {
        &&& self.entries.len() <= self.capacity
        &&& forall|i: int, j: int|
            0 <= i < j < self.entries.len() ==> #[trigger] self.entries[i].symbol != #[trigger] self.entries[j].symbol
    }

    /// What a lookup of `s` at `now` serves.
    pub open spec fn lookup(self, s: Seq<char>, now: u64) -> Option<QuoteView> {
        if self.has(s) && self.fresh(self.entries[self.pos(s)], now) {
            Some(self.entries[self.pos(s)].quote)
        } else {
            None
        }
    }

    pub open spec fn with_entries(self, entries: Seq<EntryView>) -> CacheView {
        CacheView { entries, ..self }
    }

    /// The cache after a lookup of `s` at `now`: a served entry has its
    /// access time moved to `now`, an expired one is dropped.
    pub open spec fn after_get(self, s: Seq<char>, now: u64) -> CacheView {
        if self.has(s) {
            let i = self.pos(s);
            let e = self.entries[i];
            if self.fresh(e, now) {
                self.with_entries(self.entries.update(i, EntryView { accessed: now, ..e }))
            } else {
                self.with_entries(self.entries.remove(i))
            }
        } else {
            self
        }
    }

    /// The cache after storing `q` under `s` at `now`: an entry for `s` is
    /// replaced whole; a new symbol displaces the victim when the cache is
    /// full; a cache of capacity zero stores nothing.
    pub open spec fn after_put(self, s: Seq<char>, q: QuoteView, now: u64) -> CacheView {
        let e = EntryView { symbol: s, quote: q, inserted: now, accessed: now };
        if self.has(s) {
            self.with_entries(self.entries.update(self.pos(s), e))
        } else if self.capacity == 0 {
            self
        } else if self.entries.len() < self.capacity {
            self.with_entries(self.entries.push(e))
        } else {
            self.with_entries(self.entries.remove(self.victim()).push(e))
        }
    }
}

/// Whether two texts hold the same characters.
pub(crate) fn same_text(a: &str, b: &str) -> (r: bool)
    ensures
        r == (a@ == b@),
{
    let n = a.unicode_len();
    if n != b.unicode_len() {
        return false;
    }
    let mut i: usize = 0;
    while i < n
        invariant
            n == a@.len(),
            n == b@.len(),
            forall|k: int| 0 <= k < i ==> a@[k] == b@[k],
        decreases n - i,
    {
        if a.get_char(i) != b.get_char(i) {
            return false;
        }
        i = i + 1;
    }
    assert(a@ =~= b@);
    true
}

/// In a well-formed cache each entry is the one found for its symbol.
pub proof fn lemma_pos_of_entry(v: CacheView, i: int)
    requires
        v.wf(),
        0 <= i < v.entries.len(),
    ensures
        v.has(v.entries[i].symbol),
        v.pos(v.entries[i].symbol) == i,
{
    let s = v.entries[i].symbol;
    assert(v.entries[i].symbol == s);
    let p = v.pos(s);
    assert(v.entries[p].symbol == s);
    if p < i {
        assert(v.entries[p].symbol != v.entries[i].symbol);
    } else if p > i {
        assert(v.entries[i].symbol != v.entries[p].symbol);
    }
}

/// A lookup keeps the cache well formed.
pub proof fn lemma_get_wf(v: CacheView, s: Seq<char>, now: u64)
    requires
        v.wf(),
    ensures
        v.after_get(s, now).wf(),
        v.after_get(s, now).capacity == v.capacity,
        v.after_get(s, now).time_to_live == v.time_to_live,
        v.after_get(s, now).time_to_idle == v.time_to_idle,
{
    let w = v.after_get(s, now);
    if v.has(s) {
        let i = v.pos(s);
        assert forall|a: int, b: int| 0 <= a < b < w.entries.len() implies
            #[trigger] w.entries[a].symbol != #[trigger] w.entries[b].symbol by {
            if v.fresh(v.entries[i], now) {
                assert(v.entries[a].symbol != v.entries[b].symbol);
            } else {
                let a0 = if a < i { a } else { a + 1 };
                let b0 = if b < i { b } else { b + 1 };
                assert(v.entries[a0].symbol != v.entries[b0].symbol);
            }
        }
    }
}

/// The number of entries never exceeds the configured capacity: storing a
/// quote keeps the cache well formed, whatever it held before.
pub proof fn lemma_put_wf(v: CacheView, s: Seq<char>, q: QuoteView, now: u64)
    requires
        v.wf(),
    ensures
        v.after_put(s, q, now).wf(),
        v.after_put(s, q, now).entries.len() <= v.capacity,
        v.after_put(s, q, now).capacity == v.capacity,
        v.after_put(s, q, now).time_to_live == v.time_to_live,
        v.after_put(s, q, now).time_to_idle == v.time_to_idle,
{
    let w = v.after_put(s, q, now);
    if v.has(s) {
        assert forall|a: int, b: int| 0 <= a < b < w.entries.len() implies
            #[trigger] w.entries[a].symbol != #[trigger] w.entries[b].symbol by {
            let i = v.pos(s);
            assert(v.entries[i].symbol == s);
            assert(v.entries[a].symbol != v.entries[b].symbol);
        }
    } else if v.capacity > 0 {
        let u = if v.entries.len() < v.capacity {
            v.entries
        } else {
            let k: int = choose|i: int| v.is_victim(i);
            lemma_victim_exists(v);
            v.entries.remove(k)
        };
        assert(w.entries == u.push(EntryView { symbol: s, quote: q, inserted: now, accessed: now }));
        assert forall|a: int, b: int| 0 <= a < b < w.entries.len() implies
            #[trigger] w.entries[a].symbol != #[trigger] w.entries[b].symbol by {
            if b == w.entries.len() - 1 {
                if v.entries.len() < v.capacity {
                    assert(v.entries[a].symbol == w.entries[a].symbol);
                } else {
                    let k = v.victim();
                    let a0 = if a < k { a } else { a + 1 };
                    assert(v.entries[a0].symbol == w.entries[a].symbol);
                }
            } else if v.entries.len() < v.capacity {
                assert(v.entries[a].symbol != v.entries[b].symbol);
            } else {
                let k = v.victim();
                let a0 = if a < k { a } else { a + 1 };
                let b0 = if b < k { b } else { b + 1 };
                assert(v.entries[a0].symbol != v.entries[b0].symbol);
            }
        }
    }
}

/// A full cache of positive capacity has a victim.
pub proof fn lemma_victim_exists(v: CacheView)
    requires
        v.entries.len() > 0,
    ensures
        v.is_victim(v.victim()),
    decreases v.entries.len(),
{
    let n = v.entries.len();
    let last = v.entries[n - 1];
    if n == 1 {
        assert(v.is_victim(0));
    } else {
        let u = v.with_entries(v.entries.drop_last());
        lemma_victim_exists(u);
        let k = u.victim();
        assert(forall|j: int| 0 <= j < n - 1 ==> #[trigger] v.entries[j] == u.entries[j]);
        if last.accessed < v.entries[k].accessed {
            assert forall|j: int| 0 <= j < n implies v.entries[n - 1].accessed <= #[trigger] v.entries[j].accessed by {
                if j < n - 1 {
                    assert(u.entries[k].accessed <= u.entries[j].accessed);
                }
            }
            assert(v.is_victim(n - 1));
        } else {
            assert(v.is_victim(k));
        }
    }
}

/// Right after `q` is stored under `s`, a lookup of `s` at the same moment
/// serves `q`, whether or not the lookup before it was served.
pub proof fn lemma_stored_is_served(v: CacheView, s: Seq<char>, q: QuoteView, now: u64)
    requires
        v.wf(),
        v.capacity > 0,
        v.time_to_live > 0,
        v.time_to_idle > 0,
    ensures
        v.after_put(s, q, now).lookup(s, now) == Some(q),
        v.after_get(s, now).after_put(s, q, now).lookup(s, now) == Some(q),
{
    lemma_put_stores(v, s, q, now);
    lemma_get_wf(v, s, now);
    lemma_put_stores(v.after_get(s, now), s, q, now);
}

/// After storing, the entry found for `s` is the new one, stamped `now`.
pub proof fn lemma_put_stores(v: CacheView, s: Seq<char>, q: QuoteView, now: u64)
    requires
        v.wf(),
        v.capacity > 0,
    ensures
        v.after_put(s, q, now).has(s),
        v.after_put(s, q, now).entries[v.after_put(s, q, now).pos(s)] == (EntryView {
            symbol: s,
            quote: q,
            inserted: now,
            accessed: now,
        }),
{
    let w = v.after_put(s, q, now);
    lemma_put_wf(v, s, q, now);
    let i = if v.has(s) { v.pos(s) } else { w.entries.len() - 1 };
    if !v.has(s) && v.entries.len() >= v.capacity {
        lemma_victim_exists(v);
    }
    assert(w.entries[i].symbol == s);
    lemma_pos_of_entry(w, i);
}

/// The freshness lifetime is absolute: once it has run out since `q` was
/// stored, `s` is not served, however recently it was looked up.
pub proof fn lemma_ttl_is_absolute(v: CacheView, s: Seq<char>, q: QuoteView, stored: u64, touched: u64, now: u64)
    requires
        v.wf(),
        v.capacity > 0,
        now >= stored + v.time_to_live,
    ensures
        v.after_put(s, q, stored).lookup(s, now) is None,
        v.after_put(s, q, stored).after_get(s, touched).lookup(s, now) is None,
{
    let w = v.after_put(s, q, stored);
    lemma_put_stores(v, s, q, stored);
    lemma_put_wf(v, s, q, stored);
    lemma_get_keeps_insertion(w, s, touched);
}

/// After a lookup of `s`, an entry for `s` is still there only if it was
/// fresh, and it stands where it stood.
pub proof fn lemma_get_found(v: CacheView, s: Seq<char>, now: u64)
    requires
        v.wf(),
    ensures
        v.after_get(s, now).has(s) ==> v.has(s) && v.fresh(v.entries[v.pos(s)], now)
            && v.after_get(s, now).pos(s) == v.pos(s),
{
    let w = v.after_get(s, now);
    lemma_get_wf(v, s, now);
    if w.has(s) {
        let j = w.pos(s);
        assert(w.entries[j].symbol == s);
        assert(v.has(s));
        let i = v.pos(s);
        assert(v.fresh(v.entries[i], now)) by {
            if !v.fresh(v.entries[i], now) {
                let j0 = if j < i { j } else { j + 1 };
                assert(v.entries[j0].symbol == s);
                lemma_pos_of_entry(v, j0);
            }
        }
        assert(w.entries[i].symbol == s);
        lemma_pos_of_entry(w, i);
    }
}

/// A lookup changes no entry's insertion time: an entry found for `s`
/// after it was found before it, with the same insertion time.
pub proof fn lemma_get_keeps_insertion(v: CacheView, s: Seq<char>, now: u64)
    requires
        v.wf(),
    ensures
        v.after_get(s, now).has(s) ==> v.has(s) && v.after_get(s, now).entries[v.after_get(s, now).pos(s)].inserted
            == v.entries[v.pos(s)].inserted,
{
    lemma_get_found(v, s, now);
}

/// The idle lifetime: when a lookup of `s` is followed by another after the
/// idle lifetime has run out, the second is a miss.
pub proof fn lemma_idle_expiry(v: CacheView, s: Seq<char>, first: u64, second: u64)
    requires
        v.wf(),
        second >= first + v.time_to_idle,
    ensures
        v.after_get(s, first).lookup(s, second) is None,
{
    lemma_get_found(v, s, first);
}

/// A bounded map from symbol to quote with freshness and idle lifetimes.
pub struct QuoteCache {
    entries: Vec<CacheEntry>,
    capacity: usize,
    time_to_live: u64,
    time_to_idle: u64,
}

impl View for QuoteCache {
    type V = CacheView;

    closed spec fn view(&self) -> CacheView {
        CacheView {
            entries: self.entries@.map_values(|e: CacheEntry| e@),
            capacity: self.capacity as nat,
            time_to_live: self.time_to_live as nat,
            time_to_idle: self.time_to_idle as nat,
        }
    }
}

impl QuoteCache {
    /// An empty cache holding at most `capacity` entries.
    pub fn new(capacity: usize, time_to_live: u64, time_to_idle: u64) -> (r: QuoteCache)
        ensures
            r@.entries.len() == 0,
            r@.capacity == capacity,
            r@.time_to_live == time_to_live,
            r@.time_to_idle == time_to_idle,
            r@.wf(),
    {
        let r = QuoteCache { entries: Vec::new(), capacity, time_to_live, time_to_idle };
        assert(r@.entries =~= Seq::<EntryView>::empty());
        r
    }

    /// The number of entries held, expired ones included until dropped.
    pub fn len(&self) -> (r: usize)
        ensures
            r == self@.entries.len(),
    {
        self.entries.len()
    }

    pub fn capacity(&self) -> (r: usize)
        ensures
            r == self@.capacity,
    {
        self.capacity
    }

    fn is_fresh(&self, i: usize, now: u64) -> (r: bool)
        requires
            i < self.entries.len(),
        ensures
            r == self@.fresh(self@.entries[i as int], now),
    {
        let e = &self.entries[i];
        (now as u128) < (e.inserted as u128) + (self.time_to_live as u128)
            && (now as u128) < (e.accessed as u128) + (self.time_to_idle as u128)
    }

    fn find(&self, s: &str) -> (r: Option<usize>)
        requires
            self@.wf(),
        ensures
            match r {
                Some(i) => self@.has(s@) && i == self@.pos(s@) && i < self@.entries.len(),
                None => !self@.has(s@),
            },
    {
        let mut i: usize = 0;
        while i < self.entries.len()
            invariant
                self@.wf(),
                forall|k: int| 0 <= k < i ==> #[trigger] self@.entries[k].symbol != s@,
            decreases self.entries.len() - i,
        {
            if same_text(self.entries[i].symbol.as_str(), s) {
                assert(self@.entries[i as int].symbol == s@);
                let ghost p = self@.pos(s@);
                assert(self@.entries[p].symbol == s@);
                assert(p == i as int) by {
                    if p < i {
                    } else if p > i {
                    }
                }
                return Some(i);
            }
            i = i + 1;
        }
        None
    }

    /// The quote stored for `s`, unless it is absent or expired at `now`; a
    /// hit refreshes the entry's idle clock, an expired entry is dropped.
    pub fn get(&mut self, s: &str, now: u64) -> (r: Option<QuoteResponse>)
        requires
            old(self)@.wf(),
        ensures
            final(self)@.wf(),
            final(self)@ == old(self)@.after_get(s@, now),
            match r {
                Some(q) => old(self)@.lookup(s@, now) == Some(q@),
                None => old(self)@.lookup(s@, now) is None,
            },
    {
        match self.find(s) {
            None => None,
            Some(i) => {
                let ghost v0 = self@;
                if self.is_fresh(i, now) {
                    let mut e = self.entries.remove(i);
                    e.accessed = now;
                    let q = e.quote.duplicate();
                    self.entries.insert(i, e);
                    assert(self@.entries =~= v0.entries.update(
                        i as int,
                        EntryView { accessed: now, ..v0.entries[i as int] },
                    ));
                    Some(q)
                } else {
                    self.entries.remove(i);
                    assert(self@.entries =~= v0.entries.remove(i as int));
                    None
                }
            },
        }
    }

    fn victim_index(&self) -> (r: usize)
        requires
            self.entries.len() > 0,
        ensures
            self@.is_victim(r as int),
            r == self@.victim(),
    {
        let mut best: usize = 0;
        let mut i: usize = 1;
        while i < self.entries.len()
            invariant
                self.entries.len() > 0,
                self@.entries.len() == self.entries.len(),
                best < i <= self.entries.len(),
                forall|j: int| 0 <= j < i ==> self@.entries[best as int].accessed <= #[trigger] self@.entries[j].accessed,
                forall|j: int| 0 <= j < best ==> self@.entries[best as int].accessed < #[trigger] self@.entries[j].accessed,
            decreases self.entries.len() - i,
        {
            if self.entries[i].accessed < self.entries[best].accessed {
                best = i;
            }
            i = i + 1;
        }
        let ghost v = self@.victim();
        assert(i == self.entries.len());
        assert(0 <= best < self@.entries.len());
        assert(forall|j: int| 0 <= j < self@.entries.len() ==> self@.entries[best as int].accessed <= #[trigger] self@.entries[j].accessed);
        assert(self@.is_victim(best as int));
        assert(v == best as int) by {
            assert(self@.is_victim(v));
            if v < best {
            } else if v > best {
            }
        }
        best
    }

    /// Stores `q` under `s` at `now`, replacing any entry for `s` whole and
    /// displacing the least recently accessed entry when a new symbol finds
    /// the cache full.
    pub fn put(&mut self, s: String, q: QuoteResponse, now: u64)
        requires
            old(self)@.wf(),
        ensures
            final(self)@.wf(),
            final(self)@ == old(self)@.after_put(s@, q@, now),
    {
        let ghost v0 = self@;
        let e = CacheEntry { symbol: s, quote: q, inserted: now, accessed: now };
        let ghost ev = e@;
        match self.find(e.symbol.as_str()) {
            Some(i) => {
                self.entries.set(i, e);
                assert(self@.entries =~= v0.entries.update(i as int, ev));
                assert(self@.wf()) by {
                    assert forall|a: int, b: int| 0 <= a < b < self@.entries.len() implies
                        #[trigger] self@.entries[a].symbol != #[trigger] self@.entries[b].symbol by {
                        assert(v0.entries[a].symbol != v0.entries[b].symbol);
                    }
                }
            },
            None => {
                if self.capacity == 0 {
                    return;
                }
                if self.entries.len() < self.capacity {
                    self.entries.push(e);
                    assert(self@.entries =~= v0.entries.push(ev));
                } else {
                    let k = self.victim_index();
                    self.entries.remove(k);
                    assert(self@.entries =~= v0.entries.remove(k as int));
                    self.entries.push(e);
                    assert(self@.entries =~= v0.entries.remove(k as int).push(ev));
                }
                assert(self@.wf()) by {
                    assert forall|a: int, b: int| 0 <= a < b < self@.entries.len() implies
                        #[trigger] self@.entries[a].symbol != #[trigger] self@.entries[b].symbol by {
                        if b == self@.entries.len() - 1 {
                            assert(!v0.has(ev.symbol));
                        }
                    }
                }
            },
        }
    }
}

} // verus!
