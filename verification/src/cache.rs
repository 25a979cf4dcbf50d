//! The cache of translations: bounded, in memory, first in first out.

use crate::text;
use vstd::prelude::*;

verus! {

/// A key of the cache.
pub trait CacheKey: Sized {
    /// What a key says.
    type Name;

    /// What this key says.
    spec fn name(&self) -> Self::Name;

    /// Whether two keys say the same.
    fn same(&self, other: &Self) -> (yes: bool)
        ensures
            yes == (self.name() == other.name()),
    ;
}

/// The key of a translation: account, folder, uid, source and target language. With the
/// languages in it, another choice of languages finds no stale translation.
pub type TransKey = (String, String, u32, String, String);

/// The key of a translation that also names the engine that made it: account, folder, uid,
/// engine, source and target language.
pub type EngineKey = (String, String, u32, String, String, String);

impl CacheKey for (String, String, u32, String, String) {
    type Name = (Seq<char>, Seq<char>, u32, Seq<char>, Seq<char>);

    open spec fn name(&self) -> (Seq<char>, Seq<char>, u32, Seq<char>, Seq<char>) {
        (self.0@, self.1@, self.2, self.3@, self.4@)
    }

    fn same(&self, other: &(String, String, u32, String, String)) -> (yes: bool) {
        self.2 == other.2 && text::same_text(&self.0, &other.0) && text::same_text(
            &self.1,
            &other.1,
        ) && text::same_text(&self.3, &other.3) && text::same_text(&self.4, &other.4)
    }
}

impl CacheKey for (String, String, u32, String, String, String) {
    type Name = (Seq<char>, Seq<char>, u32, Seq<char>, Seq<char>, Seq<char>);

    open spec fn name(&self) -> (Seq<char>, Seq<char>, u32, Seq<char>, Seq<char>, Seq<char>) {
        (self.0@, self.1@, self.2, self.3@, self.4@, self.5@)
    }

    fn same(&self, other: &(String, String, u32, String, String, String)) -> (yes: bool) {
        self.2 == other.2 && text::same_text(&self.0, &other.0) && text::same_text(
            &self.1,
            &other.1,
        ) && text::same_text(&self.3, &other.3) && text::same_text(&self.4, &other.4)
            && text::same_text(&self.5, &other.5)
    }
}

/// What a [`TransCache`] holds: at most `cap` entries, the oldest first.
pub struct TransCacheView<N> {
    pub cap: nat,
    pub entries: Seq<(N, Seq<char>)>,
}

impl<N> TransCacheView<N> {
    /// There is room for an entry, there are not too many of them, and no two have one key.
    pub open spec fn well_formed(self) -> bool {
        &&& 1 <= self.cap
        &&& self.entries.len() <= self.cap
        &&& forall|i: int, j: int|
            0 <= i < j < self.entries.len() ==> (#[trigger] self.entries[i]).0 != (
            #[trigger] self.entries[j]).0
    }

    /// There is an entry for `key`.
    pub open spec fn has(self, key: N) -> bool {
        exists|i: int| 0 <= i < self.entries.len() && (#[trigger] self.entries[i]).0 == key
    }

    /// The place of the entry for `key`.
    pub open spec fn place(self, key: N) -> int {
        choose|i: int| 0 <= i < self.entries.len() && (#[trigger] self.entries[i]).0 == key
    }

    /// What is cached for `key`.
    pub open spec fn lookup(self, key: N) -> Option<Seq<char>> {
        if self.has(key) {
            Some(self.entries[self.place(key)].1)
        } else {
            None
        }
    }

    /// The cache after `html` was put under `key`: an entry for `key` is replaced where it
    /// stands; a new one comes last, and where that is one too many, the oldest leaves.
    pub open spec fn with(self, key: N, html: Seq<char>) -> TransCacheView<N> {
        let entries = if self.has(key) {
            self.entries.update(self.place(key), (key, html))
        } else {
            self.entries.push((key, html))
        };
        TransCacheView {
            cap: self.cap,
            entries: if entries.len() > self.cap {
                entries.drop_first()
            } else {
                entries
            },
        }
    }
}

/// A cache of translations in memory. It is bounded; the oldest entry leaves first.
pub struct TransCache<K> {
    cap: usize,
    entries: Vec<(K, String)>,
}

impl<K: CacheKey> View for TransCache<K> {
    type V = TransCacheView<K::Name>;

    closed spec fn view(&self) -> TransCacheView<K::Name> {
        TransCacheView {
            cap: self.cap as nat,
            entries: self.entries@.map_values(|e: (K, String)| (e.0.name(), e.1@)),
        }
    }
}

impl<K: CacheKey> TransCache<K> {
    /// An empty cache for `cap` translations, or for one where `cap` is zero.
    pub fn new(cap: usize) -> (cache: TransCache<K>)
        ensures
            cache@.well_formed(),
            cache@.cap == (if cap == 0 {
                1
            } else {
                cap as int
            }),
            cache@.entries == Seq::<(K::Name, Seq<char>)>::empty(),
    {
        let cache = TransCache {
            cap: if cap == 0 {
                1
            } else {
                cap
            },
            entries: Vec::new(),
        };
        assert(cache@.entries =~= Seq::<(K::Name, Seq<char>)>::empty());
        cache
    }

    fn find(&self, key: &K) -> (place: Option<usize>)
        requires
            self@.well_formed(),
        ensures
            place is Some <==> self@.has(key.name()),
            place is Some ==> place->0 == self@.place(key.name()) && place->0
                < self@.entries.len(),
    {
        let mut i: usize = 0;
        while i < self.entries.len()
            invariant
                i <= self.entries.len(),
                self@.well_formed(),
                forall|j: int| 0 <= j < i ==> (#[trigger] self@.entries[j]).0 != key.name(),
            decreases self.entries.len() - i,
        {
            if self.entries[i].0.same(key) {
                assert(self@.entries[i as int].0 == key.name());
                return Some(i);
            }
            assert(self@.entries[i as int].0 != key.name());
            i += 1;
        }
        None
    }

    /// What is cached for `key`.
    pub fn get(&self, key: &K) -> (html: Option<String>)
        requires
            self@.well_formed(),
        ensures
            text::opt(html) == self@.lookup(key.name()),
    {
        match self.find(key) {
            Some(i) => Some(self.entries[i].1.clone()),
            None => None,
        }
    }

    /// Caches `html` for `key`. Where there is no room for a new entry, the oldest leaves.
    pub fn put(&mut self, key: K, html: String)
        requires
            old(self)@.well_formed(),
        ensures
            final(self)@ == old(self)@.with(key.name(), html@),
            final(self)@.well_formed(),
    {
        let ghost name = key.name();
        let ghost was = self@;
        match self.find(&key) {
            Some(i) => {
                self.entries[i] = (key, html);
                assert(self@.entries =~= was.entries.update(i as int, (name, html@)));
            },
            None => {
                self.entries.push((key, html));
                assert(self@.entries =~= was.entries.push((name, html@)));
                if self.entries.len() > self.cap {
                    let ghost full = self@.entries;
                    self.entries.remove(0);
                    assert(self@.entries =~= full.drop_first());
                }
            },
        }
    }
}

/// What was put last under a key is found there.
pub proof fn lemma_put_then_get<N>(cache: TransCacheView<N>, key: N, html: Seq<char>)
    requires
        cache.well_formed(),
    ensures
        cache.with(key, html).lookup(key) == Some(html),
{
    let next = cache.with(key, html);
    if cache.has(key) {
        let i = cache.place(key);
        assert(next.entries[i] == (key, html));
    } else {
        let last = next.entries.len() - 1;
        assert(next.entries[last] == (key, html));
    }
    assert(next.has(key));
    let i = next.place(key);
    if cache.has(key) {
        let k = cache.place(key);
        assert(next.entries[i].0 == key);
        if i != k {
            assert(cache.entries[i].0 == key);
        }
    } else {
        let full = cache.entries.push((key, html));
        let shift = full.len() - next.entries.len();
        assert(next.entries[i] == full[i + shift]);
        if i + shift < cache.entries.len() {
            assert(cache.entries[i + shift].0 == key);
        }
    }
}

/// Putting keeps the cache within its bound and its keys apart.
pub proof fn lemma_put_keeps_bound<N>(cache: TransCacheView<N>, key: N, html: Seq<char>)
    requires
        cache.well_formed(),
    ensures
        cache.with(key, html).well_formed(),
{
    let next = cache.with(key, html);
    if !cache.has(key) {
        let full = cache.entries.push((key, html));
        let shift = full.len() - next.entries.len();
        assert forall|i: int, j: int| 0 <= i < j < next.entries.len() implies (
        #[trigger] next.entries[i]).0 != (#[trigger] next.entries[j]).0 by {
            assert(next.entries[i] == full[i + shift]);
            assert(next.entries[j] == full[j + shift]);
            assert(full[i + shift] == cache.entries[i + shift]);
        }
    }
}

/// Another key's entry stays as it is, unless it is the oldest of a full cache and a new one
/// comes.
pub proof fn lemma_put_keeps_others<N>(cache: TransCacheView<N>, key: N, html: Seq<char>, other: N)
    requires
        cache.well_formed(),
        other != key,
        cache.has(key) || cache.entries.len() < cache.cap || cache.entries[0].0 != other,
    ensures
        cache.with(key, html).lookup(other) == cache.lookup(other),
{
    let next = cache.with(key, html);
    lemma_put_keeps_bound(cache, key, html);
    let full = if cache.has(key) {
        cache.entries.update(cache.place(key), (key, html))
    } else {
        cache.entries.push((key, html))
    };
    let shift = full.len() - next.entries.len();
    if cache.has(other) {
        let i = cache.place(other);
        assert(full[i] == cache.entries[i]);
        assert(next.entries[i - shift] == cache.entries[i]);
        assert(next.has(other));
        let j = next.place(other);
        assert(next.entries[j].0 == next.entries[i - shift].0);
        assert(j == i - shift);
    } else if next.has(other) {
        let j = next.place(other);
        assert(next.entries[j] == full[j + shift]);
        assert(full[j + shift] == cache.entries[j + shift]);
    }
}

/// A new entry in a full cache drives out the oldest one, and it alone.
pub proof fn lemma_oldest_leaves_first<N>(cache: TransCacheView<N>, key: N, html: Seq<char>)
    requires
        cache.well_formed(),
        !cache.has(key),
        cache.entries.len() == cache.cap,
    ensures
        cache.with(key, html).lookup(cache.entries[0].0) is None,
        cache.with(key, html).entries == cache.entries.drop_first().push((key, html)),
{
    let next = cache.with(key, html);
    let oldest = cache.entries[0].0;
    assert(next.entries =~= cache.entries.drop_first().push((key, html)));
    if next.has(oldest) {
        let i = next.place(oldest);
        if i < next.entries.len() - 1 {
            assert(next.entries[i] == cache.entries[i + 1]);
        }
    }
}

/// A translation is found under a key exactly if there is an entry for that key, and it is what
/// that entry holds.
pub proof fn lemma_lookup_finds_the_entry<N>(cache: TransCacheView<N>, key: N, html: Seq<char>)
    requires
        cache.well_formed(),
    ensures
        cache.lookup(key) == Some(html) <==> exists|i: int|
            0 <= i < cache.entries.len() && #[trigger] cache.entries[i] == (key, html),
        cache.lookup(key) is None <==> forall|i: int|
            0 <= i < cache.entries.len() ==> (#[trigger] cache.entries[i]).0 != key,
{
    if cache.has(key) {
        let p = cache.place(key);
        assert(0 <= p < cache.entries.len() && cache.entries[p].0 == key);
        assert(cache.entries[p] == (key, cache.entries[p].1));
        if exists|i: int| 0 <= i < cache.entries.len() && #[trigger] cache.entries[i] == (
            key,
            html,
        ) {
            let i = choose|i: int|
                0 <= i < cache.entries.len() && #[trigger] cache.entries[i] == (key, html);
            if i < p {
                assert(cache.entries[i].0 != cache.entries[p].0);
            } else if p < i {
                assert(cache.entries[p].0 != cache.entries[i].0);
            }
        }
    }
}

/// A key that is there keeps its place and its age; the other entries stay as they are.
pub proof fn lemma_put_replaces_in_place<N>(
    cache: TransCacheView<N>,
    key: N,
    html: Seq<char>,
    i: int,
)
    requires
        cache.well_formed(),
        0 <= i < cache.entries.len(),
        cache.entries[i].0 == key,
    ensures
        cache.with(key, html).entries == cache.entries.update(i, (key, html)),
        cache.with(key, html).cap == cache.cap,
{
    let p = cache.place(key);
    assert(cache.has(key));
    assert(0 <= p < cache.entries.len() && cache.entries[p].0 == key);
    if i < p {
        assert(cache.entries[i].0 != cache.entries[p].0);
    } else if p < i {
        assert(cache.entries[p].0 != cache.entries[i].0);
    }
}

} // verus!
