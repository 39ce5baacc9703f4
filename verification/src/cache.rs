//! The response cache: canonical URL string to cached body, with optional
//! expiry. A stale entry is hidden from lookups but never deleted; storing
//! overwrites unconditionally. Time is a caller-supplied millisecond clock.

use vstd::prelude::*;

verus! {

use crate::url::{HttpUrl, unparse_http};

/// One cached response in the mathematical model.
pub struct CacheEntryView {
    pub response: Seq<char>,
    pub max_age: Option<u64>,
    pub fetched_at: u64,
}

/// A cached response body with its expiry data: `max_age` in seconds,
/// `fetched_at` in clock milliseconds.
pub struct CacheEntry {
    pub response: String,
    pub max_age: Option<u64>,
    pub fetched_at: u64,
}

impl View for CacheEntry {
    type V = CacheEntryView;

    open spec fn view(&self) -> CacheEntryView {
        CacheEntryView {
            response: self.response@,
            max_age: self.max_age,
            fetched_at: self.fetched_at,
        }
    }
}

/// Staleness: more than `max_age` seconds of clock time have passed since
/// the entry was fetched. An entry without `max_age` never goes stale.
pub open spec fn spec_is_stale(e: CacheEntryView, now: u64) -> bool {
    match e.max_age {
        Some(age) => now > e.fetched_at + age * 1000,
        None => false,
    }
}

impl CacheEntry {
    /// Whether the entry has outlived its `max_age` at clock time `now`.
    pub fn is_stale(&self, now: u64) -> (r: bool)
        ensures
            r == spec_is_stale(self@, now),
    {
        match self.max_age {
            Some(age) => {
                match age.checked_mul(1000) {
                    Some(ms) => now > self.fetched_at && now - self.fetched_at > ms,
                    None => false,
                }
            },
            None => false,
        }
    }
}

struct CacheSlot {
    key: String,
    entry: CacheEntry,
}

/// One cache slot in the mathematical model: canonical URL key and entry.
pub struct CacheSlotView {
    pub key: Seq<char>,
    pub entry: CacheEntryView,
}

impl View for CacheSlot {
    type V = CacheSlotView;

    closed spec fn view(&self) -> CacheSlotView {
        CacheSlotView { key: self.key@, entry: self.entry@ }
    }
}

/// Index of the slot stored under `key`, or -1 when absent.
pub open spec fn slot_index_of(s: Seq<CacheSlotView>, key: Seq<char>) -> int
    decreases s.len(),
{
    if s.len() == 0 {
        -1
    } else if s[0].key == key {
        0
    } else {
        let r = slot_index_of(s.subrange(1, s.len() as int), key);
        if r < 0 {
            -1
        } else {
            r + 1
        }
    }
}

pub proof fn lemma_slot_index_of(s: Seq<CacheSlotView>, key: Seq<char>)
    ensures
        slot_index_of(s, key) == -1 || (0 <= slot_index_of(s, key) < s.len()),
        slot_index_of(s, key) >= 0 ==> s[slot_index_of(s, key)].key == key,
        forall|i: int| 0 <= i < s.len() && #[trigger] s[i].key == key ==> slot_index_of(s, key)
            >= 0,
        forall|i: int| 0 <= i < slot_index_of(s, key) ==> #[trigger] s[i].key != key,
    decreases s.len(),
{
    if s.len() > 0 && s[0].key != key {
        let tail = s.subrange(1, s.len() as int);
        lemma_slot_index_of(tail, key);
        assert forall|i: int|
            0 <= i < s.len() && #[trigger] s[i].key == key implies slot_index_of(s, key) >= 0 by {
            if i > 0 {
                assert(tail[i - 1] == s[i]);
            }
        }
        assert forall|i: int| 0 <= i < slot_index_of(s, key) implies #[trigger] s[i].key != key by {
            if i > 0 {
                assert(s[i] == tail[i - 1]);
            }
        }
    }
}

/// The canonical cache key of an HTTP(S) URL is its canonical string form.
pub open spec fn cache_key(h: crate::url::HttpUrlView) -> Seq<char> {
    unparse_http(h)
}

/// The entry stored under `key` in a slot sequence, staleness ignored.
pub open spec fn lookup_entry(s: Seq<CacheSlotView>, key: Seq<char>) -> Option<CacheEntryView> {
    let i = slot_index_of(s, key);
    if i >= 0 {
        Some(s[i].entry)
    } else {
        None
    }
}

/// `post` is `pre` with exactly the entry under `key` set to `e`: looking
/// up `key` yields `e`, and every other lookup is unchanged.
pub open spec fn stores_exactly(
    pre: Seq<CacheSlotView>,
    post: Seq<CacheSlotView>,
    key: Seq<char>,
    e: CacheEntryView,
) -> bool {
    forall|k: Seq<char>|
        #[trigger] lookup_entry(post, k) == if k == key {
            Some(e)
        } else {
            lookup_entry(pre, k)
        }
}

/// The cache either kept every entry, or gained or replaced exactly one,
/// and that one holds `body`.
pub open spec fn cache_extended_with(
    pre: Seq<CacheSlotView>,
    post: Seq<CacheSlotView>,
    body: Seq<char>,
) -> bool {
    post == pre || (exists|key: Seq<char>, ma: Option<u64>, t: u64|
        stores_exactly(pre, post, key, CacheEntryView { response: body, max_age: ma, fetched_at: t }))
}

/// An in-memory response cache keyed by canonical URL string.
pub struct RequestCache {
    slots: Vec<CacheSlot>,
}

impl View for RequestCache {
    type V = Seq<CacheSlotView>;

    closed spec fn view(&self) -> Seq<CacheSlotView> {
        self.slots@.map_values(|s: CacheSlot| s@)
    }
}

impl RequestCache {
    /// Keys are unique: no two slots share a key.
    pub open spec fn wf(&self) -> bool {
        forall|i: int, j: int|
            0 <= i < j < self@.len() ==> (#[trigger] self@[i].key) != (#[trigger] self@[j].key)
    }

    /// The entry stored under `key`, staleness ignored.
    pub open spec fn spec_entry(&self, key: Seq<char>) -> Option<CacheEntryView> {
        lookup_entry(self@, key)
    }

    /// What a lookup at clock time `now` returns: the stored body, unless
    /// the key is absent or its entry is stale.
    pub open spec fn spec_get(&self, key: Seq<char>, now: u64) -> Option<Seq<char>> {
        match self.spec_entry(key) {
            Some(e) => if spec_is_stale(e, now) {
                None
            } else {
                Some(e.response)
            },
            None => None,
        }
    }

    /// An empty cache.
    pub fn new() -> (r: RequestCache)
        ensures
            r@ == Seq::<CacheSlotView>::empty(),
            r.wf(),
    {
        let r = RequestCache { slots: Vec::new() };
        proof {
            assert(r@ =~= Seq::<CacheSlotView>::empty());
        }
        r
    }

    fn find_slot(&self, key: &Vec<char>) -> (r: Option<usize>)
        ensures
            match r {
                Some(i) => i == slot_index_of(self@, key@) && i < self@.len(),
                None => slot_index_of(self@, key@) == -1,
            },
    {
        proof {
            lemma_slot_index_of(self@, key@);
        }
        let mut i: usize = 0;
        while i < self.slots.len()
            invariant
                i <= self@.len(),
                self@.len() == self.slots@.len(),
                forall|j: int| 0 <= j < self@.len() ==> self@[j] == self.slots@[j]@,
                forall|j: int| 0 <= j < i ==> (#[trigger] self@[j].key) != key@,
                slot_index_of(self@, key@) == -1 || (0 <= slot_index_of(self@, key@) < self@.len()
                    && self@[slot_index_of(self@, key@)].key == key@),
                forall|j: int|
                    0 <= j < self@.len() && (#[trigger] self@[j].key) == key@ ==> slot_index_of(
                        self@,
                        key@,
                    ) >= 0,
                forall|j: int|
                    0 <= j < slot_index_of(self@, key@) ==> (#[trigger] self@[j].key) != key@,
            decreases self@.len() - i,
        {
            let slot_key = crate::text::chars_of(self.slots[i].key.as_str());
            if crate::text::chars_eq(&slot_key, key) {
                proof {
                    assert(self@[i as int] == self.slots@[i as int]@);
                    assert(self@[i as int].key == key@);
                }
                return Some(i);
            }
            proof {
                assert(self@[i as int] == self.slots@[i as int]@);
                assert(self@[i as int].key != key@);
            }
            i = i + 1;
        }
        None
    }

    /// The cached body for `http_url` at clock time `now`: present only when
    /// an entry exists and is not stale.
    pub fn get(&self, http_url: &HttpUrl, now: u64) -> (r: Option<&str>)
        ensures
            match r {
                Some(v) => self.spec_get(cache_key(http_url@), now) == Some(v@),
                None => self.spec_get(cache_key(http_url@), now) == None::<Seq<char>>,
            },
    {
        let key = crate::text::chars_of(http_url.to_display_string().as_str());
        match self.find_slot(&key) {
            Some(i) => {
                if self.slots[i].entry.is_stale(now) {
                    None
                } else {
                    proof {
                        assert(self@[i as int] == self.slots@[i as int]@);
                    }
                    Some(self.slots[i].entry.response.as_str())
                }
            },
            None => None,
        }
    }

    /// Stores `response` under the canonical key of `http_url`, overwriting
    /// any previous entry, with `fetched_at = now`.
    pub fn set(&mut self, http_url: &HttpUrl, response: &str, max_age: Option<u64>, now: u64)
        requires
            old(self).wf(),
        ensures
            final(self).wf(),
            stores_exactly(
                old(self)@,
                final(self)@,
                cache_key(http_url@),
                CacheEntryView { response: response@, max_age, fetched_at: now },
            ),
    {
        proof {
            lemma_slot_index_of(self@, cache_key(http_url@));
        }
        let key_string = http_url.to_display_string();
        let key = crate::text::chars_of(key_string.as_str());
        let slot = CacheSlot {
            key: key_string,
            entry: CacheEntry { response: response.to_owned(), max_age, fetched_at: now },
        };
        let ghost e = CacheEntryView { response: response@, max_age, fetched_at: now };
        let found = self.find_slot(&key);
        match found {
            Some(i) => {
                self.slots.set(i, slot);
                proof {
                    assert(self@ =~= old(self)@.update(
                        i as int,
                        CacheSlotView { key: cache_key(http_url@), entry: e },
                    ));
                }
            },
            None => {
                self.slots.push(slot);
                proof {
                    assert(self@ =~= old(self)@.push(
                        CacheSlotView { key: cache_key(http_url@), entry: e },
                    ));
                }
            },
        }
        proof {
            let key_s = cache_key(http_url@);
            let i = slot_index_of(old(self)@, key_s);
            assert forall|p: int, q: int| 0 <= p < q < self@.len() implies (
            #[trigger] self@[p].key) != (#[trigger] self@[q].key) by {
                if i >= 0 {
                    assert(old(self)@[p].key == (if p == i {
                        old(self)@[p].key
                    } else {
                        self@[p].key
                    }));
                } else {
                    if q < old(self)@.len() {
                        assert(self@[p] == old(self)@[p]);
                        assert(self@[q] == old(self)@[q]);
                    } else {
                        assert(self@[p] == old(self)@[p]);
                        assert(old(self)@[p].key != key_s);
                    }
                }
            }
            assert forall|k: Seq<char>| #[trigger] lookup_entry(final(self)@, k) == (if k == key_s {
                Some(e)
            } else {
                lookup_entry(old(self)@, k)
            }) by {
                lemma_slot_index_of(self@, k);
                lemma_slot_index_of(old(self)@, k);
                let m = slot_index_of(self@, k);
                let mo = slot_index_of(old(self)@, k);
                if k == key_s {
                    if i >= 0 {
                        assert(self@[i].key == k);
                        assert(m >= 0);
                        assert(m == i);
                    } else {
                        let last = self@.len() - 1;
                        assert(self@[last].key == k);
                        assert(m >= 0);
                        assert(m == last);
                    }
                } else {
                    if m >= 0 {
                        assert(self@[m] == old(self)@[m]);
                        assert(mo >= 0);
                        assert(mo <= m);
                        assert(old(self)@[mo] == self@[mo]);
                        assert(m <= mo);
                    } else {
                        if mo >= 0 {
                            assert(old(self)@[mo].key == k);
                            assert(self@[mo] == old(self)@[mo]);
                            assert(m >= 0);
                        }
                    }
                }
            }
        }
    }
}

impl Default for RequestCache {
    /// An empty cache.
    fn default() -> (r: RequestCache)
        ensures
            r@ == Seq::<CacheSlotView>::empty(),
            r.wf(),
    {
        RequestCache::new()
    }
}

// ---------------------------------------------------------------------------
// Cache laws
// ---------------------------------------------------------------------------

/// Cache idempotence: a stored entry that is not yet stale is what a lookup
/// returns — byte for byte the stored body, with no network involved.
pub proof fn lemma_fresh_entry_is_served(c: &RequestCache, key: Seq<char>, now: u64)
    requires
        c.spec_entry(key) is Some,
        !spec_is_stale(c.spec_entry(key)->Some_0, now),
    ensures
        c.spec_get(key, now) == Some(c.spec_entry(key)->Some_0.response),
{
}

/// Staleness window: an entry with `max_age` seconds is served exactly at
/// clock times within `max_age * 1000` milliseconds of its fetch, and is
/// treated as absent afterwards.
pub proof fn lemma_staleness_window(c: &RequestCache, key: Seq<char>, now: u64)
    requires
        c.spec_entry(key) is Some,
        c.spec_entry(key)->Some_0.max_age is Some,
    ensures
        ({
            let e = c.spec_entry(key)->Some_0;
            let age = e.max_age->Some_0;
            c.spec_get(key, now) == if now <= e.fetched_at + age * 1000 {
                Some(e.response)
            } else {
                None::<Seq<char>>
            }
        }),
{
}

} // verus!
