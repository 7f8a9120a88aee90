//! Memoisation of the anchor generator in a bounded least-recently-used cache.

use vstd::prelude::*;
use cached::Cached;
use cached::SizedCache;
use crate::anchors::anchor_config;
use crate::anchors::config_is_valid;
use crate::anchors::generate_priors;
use crate::anchors::AnchorConfig;
use crate::anchors::Prior;

verus! {

/// The key under which the anchors of a configuration are kept: the four
/// arguments of the generator.
pub type ConfigKey = (Vec<Vec<usize>>, Vec<usize>, bool, [usize; 2]);

/// An entry of the cache in the model: a configuration and its anchors.
pub type Entry = (AnchorConfig, Seq<Prior>);

/// Declares `cached::SizedCache` as an opaque type. Nothing is known of a
/// value of it but what the trusted functions below say.
#[verifier::external_type_specification]
#[verifier::external_body]
#[verifier::reject_recursive_types(K)]
#[verifier::reject_recursive_types(V)]
pub struct ExSizedCache<K, V>(SizedCache<K, V>);

/// The entries that a `cached::SizedCache` holds, in the order in which
/// `SizedCache::key_order` walks them: the most recently used first. Each
/// entry is given by the model of its key and the view of its value.
pub uninterp spec fn cache_entries(cache: SizedCache<ConfigKey, Vec<Prior>>) -> Seq<Entry>;

/// The size that a `cached::SizedCache` was made with: the number of
/// entries beyond which it evicts.
pub uninterp spec fn cache_limit(cache: SizedCache<ConfigKey, Vec<Prior>>) -> nat;

/// The place of the first entry under `key`, if there is one.
pub open spec fn position_of(entries: Seq<Entry>, key: AnchorConfig) -> Option<int>
    decreases entries.len(),
{
    if entries.len() == 0 {
        None
    } else if entries.last().0 == key {
        match position_of(entries.drop_last(), key) {
            Some(i) => Some(i),
            None => Some(entries.len() - 1),
        }
    } else {
        position_of(entries.drop_last(), key)
    }
}

/// The entries after the one at `i` was used: it moves to the front.
pub open spec fn touched(entries: Seq<Entry>, i: int) -> Seq<Entry> {
    seq![entries[i]] + entries.remove(i)
}

/// The entries after `value` was stored under `key` in a cache of `limit`
/// entries. An entry under that key is replaced where it stands. A new one
/// goes to the front, and the last entry leaves where that makes one too many.
pub open spec fn stored(entries: Seq<Entry>, limit: nat, key: AnchorConfig, value: Seq<Prior>) -> Seq<
    Entry,
> {
    match position_of(entries, key) {
        Some(i) => entries.update(i, (key, value)),
        None => {
            let grown = seq![(key, value)] + entries;
            if grown.len() > limit {
                grown.drop_last()
            } else {
                grown
            }
        },
    }
}

/// The largest size this crate makes a cache with.
pub const MAX_CACHE_SIZE: usize = 65536;

/// Trusted: `cached::SizedCache::with_size`.
///
/// Assumed of it: for a size from 1 to `MAX_CACHE_SIZE` it returns a cache
/// with no entry and with that size as its limit. It panics on a size of 0,
/// and it allocates for `size` entries at once, so both ends are left out.
#[verifier::external_body]
fn cache_with_size(size: usize) -> (cache: SizedCache<ConfigKey, Vec<Prior>>)
    requires
        0 < size <= MAX_CACHE_SIZE,
    ensures
        cache_entries(cache) == Seq::<Entry>::empty(),
        cache_limit(cache) == size,
{
    SizedCache::with_size(size)
}

/// Trusted: `cached::Cached::cache_get` on a `SizedCache`, under the key
/// made of the four arguments, with a copy of the value it found.
///
/// Assumed of it: it finds the entry whose key equals the given one. On a
/// hit it returns the value of that entry and moves the entry to the front
/// of the order, leaving the other entries in their order. On a miss it
/// returns nothing and leaves the entries as they are. The limit stays.
#[verifier::external_body]
fn cache_lookup(
    cache: &mut SizedCache<ConfigKey, Vec<Prior>>,
    min_sizes: &Vec<Vec<usize>>,
    steps: &Vec<usize>,
    clip: bool,
    image_size: [usize; 2],
) -> (found: Option<Vec<Prior>>)
    ensures
        cache_limit(*final(cache)) == cache_limit(*old(cache)),
        match position_of(
            cache_entries(*old(cache)),
            anchor_config(*min_sizes, *steps, clip, image_size),
        ) {
            Some(i) => {
                &&& found matches Some(priors)
                &&& priors@ == cache_entries(*old(cache))[i].1
                &&& cache_entries(*final(cache)) == touched(cache_entries(*old(cache)), i)
            },
            None => {
                &&& found is None
                &&& cache_entries(*final(cache)) == cache_entries(*old(cache))
            },
        },
{
    let key = (min_sizes.clone(), steps.clone(), clip, image_size);
    cache.cache_get(&key).cloned()
}

/// Trusted: `cached::Cached::cache_set` on a `SizedCache`, under the key
/// made of the first four arguments.
///
/// Assumed of it: where an entry has that key, its value is replaced and it
/// stays where it stands in the order. Else the new entry goes to the front,
/// and if the cache then holds more entries than its limit, the last entry
/// of the order is evicted. The limit stays.
#[verifier::external_body]
fn cache_store(
    cache: &mut SizedCache<ConfigKey, Vec<Prior>>,
    min_sizes: Vec<Vec<usize>>,
    steps: Vec<usize>,
    clip: bool,
    image_size: [usize; 2],
    priors: Vec<Prior>,
)
    ensures
        cache_limit(*final(cache)) == cache_limit(*old(cache)),
        cache_entries(*final(cache)) == stored(
            cache_entries(*old(cache)),
            cache_limit(*old(cache)),
            anchor_config(min_sizes, steps, clip, image_size),
            priors@,
        ),
{
    cache.cache_set((min_sizes, steps, clip, image_size), priors);
}

/// Trusted: `cached::SizedCache::key_order`, with a copy of each key.
///
/// Assumed of it: it walks the keys of the entries from the most to the
/// least recently used, which is the order of `cache_entries`.
#[verifier::external_body]
fn cache_keys(cache: &SizedCache<ConfigKey, Vec<Prior>>) -> (keys: Vec<ConfigKey>)
    ensures
        keys@.len() == cache_entries(*cache).len(),
        forall|i: int|
            0 <= i < keys@.len() ==> key_model(#[trigger] keys@[i]) == cache_entries(*cache)[i].0,
{
    cache.key_order().cloned().collect()
}

/// The model of a key.
pub open spec fn key_model(key: ConfigKey) -> AnchorConfig {
    anchor_config(key.0, key.1, key.2, key.3)
}

/// What `position_of` finds: the first entry under the key, or that there is none.
pub proof fn lemma_position_of(entries: Seq<Entry>, key: AnchorConfig)
    ensures
        match position_of(entries, key) {
            Some(i) => {
                &&& 0 <= i < entries.len()
                &&& entries[i].0 == key
                &&& forall|j: int| 0 <= j < i ==> entries[j].0 != key
            },
            None => forall|j: int| 0 <= j < entries.len() ==> entries[j].0 != key,
        },
    decreases entries.len(),
{
    if entries.len() > 0 {
        let front = entries.drop_last();
        lemma_position_of(front, key);
        assert forall|j: int| 0 <= j < front.len() implies front[j] == entries[j] by {}
    }
}

/// An entry whose anchors are those of its configuration.
pub open spec fn entry_ok(entry: Entry) -> bool {
    &&& entry.0.valid()
    &&& entry.1 == entry.0.priors()
}

/// No two entries share a key.
pub open spec fn distinct_keys(entries: Seq<Entry>) -> bool {
    forall|i: int, j: int|
        0 <= i < j < entries.len() ==> (#[trigger] entries[i]).0 != (#[trigger] entries[j]).0
}

/// The anchor generator behind a bounded cache: the anchors of a
/// configuration are computed once and kept while the configuration stays
/// among the most recently used.
pub struct AnchorCache {
    store: SizedCache<ConfigKey, Vec<Prior>>,
}

impl AnchorCache {
    /// The entries of the cache, the most recently used first.
    pub closed spec fn entries(&self) -> Seq<Entry> {
        cache_entries(self.store)
    }

    /// The number of entries the cache holds at most.
    pub closed spec fn limit(&self) -> nat {
        cache_limit(self.store)
    }

    /// Whether the anchors of `config` are in the cache.
    pub open spec fn holds(&self, config: AnchorConfig) -> bool {
        position_of(self.entries(), config) is Some
    }

    /// The invariant of the cache: it is within its limit, keeps one entry
    /// per configuration, and each entry holds the anchors of its configuration.
    pub open spec fn wf(&self) -> bool {
        &&& 0 < self.limit()
        &&& self.entries().len() <= self.limit()
        &&& distinct_keys(self.entries())
        &&& forall|i: int| 0 <= i < self.entries().len() ==> entry_ok(#[trigger] self.entries()[i])
    }

    /// An empty cache for 100 configurations.
    pub fn new() -> (cache: AnchorCache)
        ensures
            cache.wf(),
            cache.limit() == 100,
            cache.entries() == Seq::<Entry>::empty(),
    {
        AnchorCache { store: cache_with_size(100) }
    }

    /// An empty cache for `size` configurations, for a `size` from 1 to
    /// `MAX_CACHE_SIZE`; no cache for another.
    pub fn with_size(size: usize) -> (made: Option<AnchorCache>)
        ensures
            made is Some <==> 0 < size <= MAX_CACHE_SIZE,
            made matches Some(cache) ==> {
                &&& cache.wf()
                &&& cache.limit() == size
                &&& cache.entries() == Seq::<Entry>::empty()
            },
    {
        if size == 0 || size > MAX_CACHE_SIZE {
            None
        } else {
            Some(AnchorCache { store: cache_with_size(size) })
        }
    }

    /// The configurations in the cache, the most recently used first.
    pub fn configs(&self) -> (keys: Vec<ConfigKey>)
        ensures
            keys@.len() == self.entries().len(),
            forall|i: int|
                0 <= i < keys@.len() ==> key_model(#[trigger] keys@[i]) == self.entries()[i].0,
    {
        cache_keys(&self.store)
    }

    /// The anchors of a configuration and their number, as
    /// `get_or_compute` gives them, where the generator accepts the
    /// configuration; else nothing, and the cache stays as it is.
    pub fn try_get_or_compute(
        &mut self,
        min_sizes: Vec<Vec<usize>>,
        steps: Vec<usize>,
        clip: bool,
        image_size: [usize; 2],
    ) -> (out: Option<(Vec<Prior>, usize)>)
        requires
            old(self).wf(),
        ensures
            final(self).wf(),
            final(self).limit() == old(self).limit(),
            out is Some <==> anchor_config(min_sizes, steps, clip, image_size).valid(),
            out matches Some(found) ==> {
                &&& found.0@ == anchor_config(min_sizes, steps, clip, image_size).priors()
                &&& found.1 == anchor_config(min_sizes, steps, clip, image_size).count()
                &&& found.1 == found.0@.len()
                &&& final(self).entries() == after_use(
                    old(self).entries(),
                    old(self).limit(),
                    anchor_config(min_sizes, steps, clip, image_size),
                )
                &&& final(self).holds(anchor_config(min_sizes, steps, clip, image_size))
            },
            out is None ==> final(self).entries() == old(self).entries(),
    {
        if config_is_valid(&min_sizes, &steps, clip, image_size) {
            Some(self.get_or_compute(min_sizes, steps, clip, image_size))
        } else {
            None
        }
    }

    /// The anchors of a configuration and their number, from the cache where
    /// it has them, else from the generator and from then on in the cache.
    ///
    /// What comes back is the same whatever the cache held. A configuration
    /// that was found becomes the most recently used. One that was not is
    /// stored as the most recently used, and the least recently used entry
    /// leaves if the cache was full.
    pub fn get_or_compute(
        &mut self,
        min_sizes: Vec<Vec<usize>>,
        steps: Vec<usize>,
        clip: bool,
        image_size: [usize; 2],
    ) -> (out: (Vec<Prior>, usize))
        requires
            old(self).wf(),
            anchor_config(min_sizes, steps, clip, image_size).valid(),
        ensures
            final(self).wf(),
            out.0@ == anchor_config(min_sizes, steps, clip, image_size).priors(),
            out.1 == anchor_config(min_sizes, steps, clip, image_size).count(),
            out.1 == out.0@.len(),
            final(self).limit() == old(self).limit(),
            final(self).entries() == after_use(
                old(self).entries(),
                old(self).limit(),
                anchor_config(min_sizes, steps, clip, image_size),
            ),
            final(self).holds(anchor_config(min_sizes, steps, clip, image_size)),
    {
        let ghost config = anchor_config(min_sizes, steps, clip, image_size);
        let ghost before = self.entries();
        proof {
            lemma_position_of(before, config);
            lemma_after_use(before, self.limit(), config);
            config.lemma_priors_upto_len(config.levels());
        }
        match cache_lookup(&mut self.store, &min_sizes, &steps, clip, image_size) {
            Some(priors) => {
                let count: usize = priors.len();
                (priors, count)
            },
            None => {
                let (priors, count) = generate_priors(&min_sizes, &steps, clip, image_size);
                let kept = priors.clone();
                assert(kept@ =~= priors@);
                cache_store(&mut self.store, min_sizes, steps, clip, image_size, kept);
                (priors, count)
            },
        }
    }
}

/// The entries after the anchors of `config` were asked for.
pub open spec fn after_use(entries: Seq<Entry>, limit: nat, config: AnchorConfig) -> Seq<Entry> {
    match position_of(entries, config) {
        Some(i) => touched(entries, i),
        None => stored(entries, limit, config, config.priors()),
    }
}

/// Asking for the anchors of a valid configuration keeps the invariant of
/// the cache, and leaves the configuration in it.
pub proof fn lemma_after_use(entries: Seq<Entry>, limit: nat, config: AnchorConfig)
    requires
        0 < limit,
        entries.len() <= limit,
        distinct_keys(entries),
        forall|i: int| 0 <= i < entries.len() ==> entry_ok(#[trigger] entries[i]),
        config.valid(),
    ensures
        after_use(entries, limit, config).len() <= limit,
        distinct_keys(after_use(entries, limit, config)),
        forall|i: int|
            0 <= i < after_use(entries, limit, config).len() ==> entry_ok(
                #[trigger] after_use(entries, limit, config)[i],
            ),
        after_use(entries, limit, config).len() > 0,
        after_use(entries, limit, config)[0].0 == config,
        position_of(after_use(entries, limit, config), config) == Some(0int),
{
    lemma_position_of(entries, config);
    lemma_position_of(after_use(entries, limit, config), config);
}

/// Asking twice is asking once: the second time the configuration is found
/// at the front, and the cache stays as the first time left it.
pub proof fn lemma_use_is_idempotent(entries: Seq<Entry>, limit: nat, config: AnchorConfig)
    requires
        0 < limit,
        entries.len() <= limit,
        distinct_keys(entries),
        forall|i: int| 0 <= i < entries.len() ==> entry_ok(#[trigger] entries[i]),
        config.valid(),
    ensures
        position_of(after_use(entries, limit, config), config) == Some(0int),
        after_use(after_use(entries, limit, config), limit, config) == after_use(
            entries,
            limit,
            config,
        ),
{
    lemma_after_use(entries, limit, config);
    let once = after_use(entries, limit, config);
    assert(touched(once, 0) =~= once);
}

} // verus!
