//! Authoritative replay: backpressure and caching.
//!
//! A replay is run by the engine outside; this module decides whether one may
//! run, and remembers what came out.

use crate::api::ClientPreview;
use crate::crypto::{sha256, sha256_of};
use crate::domain::{ProgramMetrics, ScoreResult, Terminal};
use crate::number::Real;
use crate::text::{hex_bytes_text, hex_of_bytes, same};
use vstd::prelude::*;

verus! {

/// Build identifier reported with every score, so a result can be traced to the
/// engine that produced it.
pub const ENGINE_VERSION: &'static str = "hcr_sim/0.1.0";

/// How many outcomes a pool remembers unless told otherwise.
pub const DEFAULT_CACHE_CAPACITY: usize = 1024;

/// Replay settings in force.
#[derive(Clone, Copy, Debug, PartialEq, Eq, Structural)]
pub struct ReplayOptions {
    /// Simulated milliseconds per tick.
    pub tick_ms: Real,
}

/// What a replay produced.
#[derive(Debug, PartialEq, Eq)]
pub struct ReplayOutcome {
    /// The score of record.
    pub score: ScoreResult,
    /// Program size and timing.
    pub metrics: ProgramMetrics,
    /// Canonical hash of the remaining voxels.
    pub result_voxels_hash: String,
    /// Why the run ended.
    pub terminal: Terminal,
    /// Simulated milliseconds consumed.
    pub simulated_ms: Real,
}

impl Clone for ReplayOutcome {
    fn clone(&self) -> (r: Self)
        ensures
            r == *self,
    {
        ReplayOutcome {
            score: self.score,
            metrics: self.metrics,
            result_voxels_hash: self.result_voxels_hash.clone(),
            terminal: self.terminal.clone(),
            simulated_ms: self.simulated_ms,
        }
    }
}

/// What an outcome depends on: challenge, version and program hash.
pub type CacheKey = (Seq<char>, u32, Seq<char>);

/// The remembered outcomes.
pub type Cache = Map<CacheKey, ReplayOutcome>;

/// The remembered outcomes once one more is remembered. A full cache is emptied
/// first: replays are deterministic and cheap to run again, so a cold cache
/// costs latency, never correctness.
pub open spec fn cache_with(
    cache: Cache,
    capacity: nat,
    key: CacheKey,
    outcome: ReplayOutcome,
) -> Cache {
    if cache.len() >= capacity {
        Map::<CacheKey, ReplayOutcome>::empty().insert(key, outcome)
    } else {
        cache.insert(key, outcome)
    }
}

/// A cache never outgrows its capacity, but for the one outcome that a cache
/// without capacity still holds.
pub proof fn law_cache_stays_bounded(
    cache: Cache,
    capacity: nat,
    key: CacheKey,
    outcome: ReplayOutcome,
)
    requires
        cache.dom().finite(),
        cache.len() <= capacity || cache.len() <= 1,
    ensures
        cache_with(cache, capacity, key, outcome).len() <= capacity || cache_with(
            cache,
            capacity,
            key,
            outcome,
        ).len() <= 1,
        cache_with(cache, capacity, key, outcome).contains_key(key),
        cache_with(cache, capacity, key, outcome)[key] == outcome,
{
    let empty = Map::<CacheKey, ReplayOutcome>::empty();
    assert(empty.insert(key, outcome).dom() =~= Set::empty().insert(key));
    assert(cache.insert(key, outcome).dom() =~= cache.dom().insert(key));
}

struct CacheEntry {
    challenge_id: String,
    version: u32,
    hash: String,
    outcome: ReplayOutcome,
}

spec fn key_of(entry: CacheEntry) -> CacheKey {
    (entry.challenge_id@, entry.version, entry.hash@)
}

spec fn keys_of(entries: Seq<CacheEntry>) -> Seq<CacheKey> {
    Seq::new(entries.len(), |i: int| key_of(entries[i]))
}

spec fn held(entries: Seq<CacheEntry>, key: CacheKey, i: int) -> bool {
    0 <= i < entries.len() && key_of(entries[i]) == key
}

spec fn cache_of(entries: Seq<CacheEntry>) -> Cache {
    Map::new(
        |key: CacheKey| exists|i: int| held(entries, key, i),
        |key: CacheKey| entries[choose|i: int| held(entries, key, i)].outcome,
    )
}

proof fn lemma_cache_entry(entries: Seq<CacheEntry>, i: int)
    requires
        keys_of(entries).no_duplicates(),
        0 <= i < entries.len(),
    ensures
        cache_of(entries).contains_key(key_of(entries[i])),
        cache_of(entries)[key_of(entries[i])] == entries[i].outcome,
{
    let key = key_of(entries[i]);
    assert(held(entries, key, i));
    let j = choose|j: int| held(entries, key, j);
    assert(keys_of(entries)[i] == key && keys_of(entries)[j] == key);
}

proof fn lemma_cache_size(entries: Seq<CacheEntry>)
    requires
        keys_of(entries).no_duplicates(),
    ensures
        cache_of(entries).dom().finite(),
        cache_of(entries).len() == entries.len(),
{
    let keys = keys_of(entries);
    assert forall|key: CacheKey| cache_of(entries).dom().contains(key) <==> keys.to_set().contains(key) by {
        if cache_of(entries).dom().contains(key) {
            let i = choose|i: int| held(entries, key, i);
            assert(keys[i] == key);
        }
        if keys.to_set().contains(key) {
            let i = choose|i: int| 0 <= i < keys.len() && keys[i] == key;
            assert(held(entries, key, i));
        }
    }
    assert(cache_of(entries).dom() =~= keys.to_set());
    keys.unique_seq_to_set();
    vstd::seq_lib::seq_to_set_is_finite(keys);
}

proof fn lemma_cache_push(entries: Seq<CacheEntry>, entry: CacheEntry)
    requires
        keys_of(entries).no_duplicates(),
        !cache_of(entries).contains_key(key_of(entry)),
    ensures
        keys_of(entries.push(entry)).no_duplicates(),
        cache_of(entries.push(entry)) == cache_of(entries).insert(key_of(entry), entry.outcome),
{
    let after = entries.push(entry);
    assert forall|i: int, j: int|
        0 <= i < after.len() && 0 <= j < after.len() && i != j implies keys_of(after)[i] != keys_of(
        after,
    )[j] by {
        if i < entries.len() && j < entries.len() {
            assert(keys_of(entries)[i] != keys_of(entries)[j]);
        } else if i < entries.len() {
            lemma_cache_entry(entries, i);
        } else {
            lemma_cache_entry(entries, j);
        }
    }
    let grown = cache_of(entries).insert(key_of(entry), entry.outcome);
    assert forall|key: CacheKey| #![auto]
        cache_of(after).dom().contains(key) <==> grown.dom().contains(key) by {
        if cache_of(after).dom().contains(key) {
            let i = choose|i: int| held(after, key, i);
            if i < entries.len() {
                assert(held(entries, key, i));
            }
        }
        if cache_of(entries).dom().contains(key) {
            let i = choose|i: int| held(entries, key, i);
            assert(held(after, key, i));
        }
        assert(held(after, key_of(entry), entries.len() as int));
    }
    assert forall|key: CacheKey| grown.dom().contains(key) implies cache_of(after)[key] == grown[key] by {
        let i = choose|i: int| held(after, key, i);
        lemma_cache_entry(after, i);
        if i < entries.len() {
            lemma_cache_entry(entries, i);
        }
    }
    assert(cache_of(after) =~= grown);
}

proof fn lemma_cache_update(entries: Seq<CacheEntry>, i: int, entry: CacheEntry)
    requires
        keys_of(entries).no_duplicates(),
        0 <= i < entries.len(),
        key_of(entries[i]) == key_of(entry),
    ensures
        keys_of(entries.update(i, entry)).no_duplicates(),
        cache_of(entries.update(i, entry)) == cache_of(entries).insert(key_of(entry), entry.outcome),
{
    let after = entries.update(i, entry);
    assert(keys_of(after) =~= keys_of(entries));
    let grown = cache_of(entries).insert(key_of(entry), entry.outcome);
    assert forall|key: CacheKey| #![auto]
        cache_of(after).dom().contains(key) <==> grown.dom().contains(key) by {
        if cache_of(after).dom().contains(key) {
            let j = choose|j: int| held(after, key, j);
            assert(held(entries, key, j));
        }
        if cache_of(entries).dom().contains(key) {
            let j = choose|j: int| held(entries, key, j);
            assert(held(after, key, j));
        }
        assert(held(after, key_of(entry), i));
    }
    assert forall|key: CacheKey| grown.dom().contains(key) implies cache_of(after)[key] == grown[key] by {
        let j = choose|j: int| held(after, key, j);
        assert(cache_of(after).dom().contains(key));
        lemma_cache_entry(after, j);
        if j != i {
            assert(keys_of(after)[j] != keys_of(after)[i]);
            lemma_cache_entry(entries, j);
        }
    }
    assert(cache_of(after) =~= grown);
}

/// Whether a replay may run.
#[derive(Debug, PartialEq, Eq)]
pub enum Admission {
    /// It ran before; here is what came out.
    Cached(ReplayOutcome),
    /// It may run now. Whoever runs it reports back.
    Admitted,
    /// Every permit is taken.
    Saturated,
}

/// Bounds how many replays run at once, and remembers what they produced.
pub struct ReplayPool {
    entries: Vec<CacheEntry>,
    cache_capacity: usize,
    concurrency: usize,
    running: usize,
    options: ReplayOptions,
}

/// A pool, by value.
pub struct PoolView {
    /// The remembered outcomes.
    pub cache: Cache,
    /// How many are remembered at most.
    pub capacity: nat,
    /// How many replays may run at once.
    pub concurrency: nat,
    /// How many are running.
    pub running: nat,
    /// Replay settings in force.
    pub options: ReplayOptions,
}

impl View for ReplayPool {
    type V = PoolView;

    closed spec fn view(&self) -> PoolView {
        PoolView {
            cache: cache_of(self.entries@),
            capacity: self.cache_capacity as nat,
            concurrency: self.concurrency as nat,
            running: self.running as nat,
            options: self.options,
        }
    }
}

impl ReplayPool {
    #[verifier::type_invariant]
    spec fn wf(self) -> bool {
        keys_of(self.entries@).no_duplicates() && self.running <= self.concurrency
            && self.concurrency >= 1
    }

    /// Build a pool allowing `concurrency` simultaneous replays, at least one.
    pub fn new(concurrency: usize, options: ReplayOptions) -> (r: Self)
        ensures
            r@ == (PoolView {
                cache: Map::empty(),
                capacity: DEFAULT_CACHE_CAPACITY as nat,
                concurrency: if concurrency == 0 {
                    1
                } else {
                    concurrency as nat
                },
                running: 0,
                options,
            }),
    {
        let r = ReplayPool {
            entries: Vec::new(),
            cache_capacity: DEFAULT_CACHE_CAPACITY,
            concurrency: if concurrency == 0 {
                1
            } else {
                concurrency
            },
            running: 0,
            options,
        };
        assert(cache_of(r.entries@) =~= Map::<CacheKey, ReplayOutcome>::empty());
        r
    }

    /// Bound on cached outcomes.
    pub fn with_cache_capacity(self, capacity: usize) -> (r: Self)
        ensures
            r@ == (PoolView { capacity: capacity as nat, ..self@ }),
    {
        proof {
            use_type_invariant(&self);
        }
        ReplayPool {
            entries: self.entries,
            cache_capacity: capacity,
            concurrency: self.concurrency,
            running: self.running,
            options: self.options,
        }
    }

    /// Replay options in force.
    pub fn options(&self) -> (r: ReplayOptions)
        ensures
            r == self@.options,
    {
        self.options
    }

    /// Replays that may still start.
    pub fn available(&self) -> (r: usize)
        ensures
            r == self@.concurrency - self@.running,
            self@.running <= self@.concurrency,
    {
        proof {
            use_type_invariant(self);
        }
        self.concurrency - self.running
    }

    /// Replays that have started and not reported back.
    pub fn running(&self) -> (r: usize)
        ensures
            r == self@.running,
    {
        self.running
    }

    fn position(&self, challenge_id: &str, version: u32, hash: &str) -> (r: Option<usize>)
        ensures
            match r {
                Some(i) => held(self.entries@, (challenge_id@, version, hash@), i as int),
                None => !self@.cache.contains_key((challenge_id@, version, hash@)),
            },
    {
        let ghost key = (challenge_id@, version, hash@);
        for i in 0..self.entries.len()
            invariant
                key == (challenge_id@, version, hash@),
                forall|j: int| 0 <= j < i ==> !#[trigger] held(self.entries@, key, j),
        {
            let entry = &self.entries[i];
            if entry.version == version && same(entry.challenge_id.as_str(), challenge_id) && same(
                entry.hash.as_str(),
                hash,
            ) {
                return Some(i);
            }
        }
        assert(forall|j: int| !held(self.entries@, key, j));
        None
    }

    /// What a replay produced, if it is remembered.
    pub fn lookup(&self, challenge_id: &str, version: u32, hash: &str) -> (r: Option<&ReplayOutcome>)
        ensures
            match r {
                Some(outcome) => self@.cache.contains_key((challenge_id@, version, hash@)) && *outcome
                    == self@.cache[(challenge_id@, version, hash@)],
                None => !self@.cache.contains_key((challenge_id@, version, hash@)),
            },
    {
        match self.position(challenge_id, version, hash) {
            Some(i) => {
                proof {
                    use_type_invariant(self);
                    lemma_cache_entry(self.entries@, i as int);
                }
                Some(&self.entries[i].outcome)
            },
            None => None,
        }
    }

    /// Ask to replay a program. A remembered outcome is handed out without a
    /// permit; otherwise the call fails fast when every permit is taken instead
    /// of queueing without bound.
    pub fn begin(&mut self, challenge_id: &str, version: u32, hash: &str) -> (r: Admission)
        ensures
            ({
                let key = (challenge_id@, version, hash@);
                if old(self)@.cache.contains_key(key) {
                    r == Admission::Cached(old(self)@.cache[key]) && final(self)@ == old(self)@
                } else if old(self)@.running >= old(self)@.concurrency {
                    r == Admission::Saturated && final(self)@ == old(self)@
                } else {
                    r == Admission::Admitted && final(self)@ == (PoolView {
                        running: old(self)@.running + 1,
                        ..old(self)@
                    })
                }
            }),
    {
        proof {
            use_type_invariant(&*self);
        }
        match self.lookup(challenge_id, version, hash) {
            Some(outcome) => {
                return Admission::Cached(outcome.clone());
            },
            None => {},
        }
        if self.running >= self.concurrency {
            return Admission::Saturated;
        }
        self.running = self.running + 1;
        Admission::Admitted
    }

    /// Report that an admitted replay is over: its permit is free again, and an
    /// outcome is remembered.
    pub fn finish(
        &mut self,
        challenge_id: &str,
        version: u32,
        hash: &str,
        outcome: Option<&ReplayOutcome>,
    )
        requires
            old(self)@.running > 0,
        ensures
            final(self)@.running == old(self)@.running - 1,
            final(self)@.cache == match outcome {
                Some(outcome) => cache_with(
                    old(self)@.cache,
                    old(self)@.capacity,
                    (challenge_id@, version, hash@),
                    *outcome,
                ),
                None => old(self)@.cache,
            },
            final(self)@.capacity == old(self)@.capacity,
            final(self)@.concurrency == old(self)@.concurrency,
            final(self)@.options == old(self)@.options,
    {
        proof {
            use_type_invariant(&*self);
        }
        self.running = self.running - 1;
        match outcome {
            Some(outcome) => {
                self.store(challenge_id, version, hash, outcome);
            },
            None => {},
        }
    }

    fn store(&mut self, challenge_id: &str, version: u32, hash: &str, outcome: &ReplayOutcome)
        ensures
            final(self)@ == (PoolView {
                cache: cache_with(
                    old(self)@.cache,
                    old(self)@.capacity,
                    (challenge_id@, version, hash@),
                    *outcome,
                ),
                ..old(self)@
            }),
    {
        proof {
            use_type_invariant(&*self);
            lemma_cache_size(self.entries@);
        }
        let entry = CacheEntry {
            challenge_id: challenge_id.to_owned(),
            version,
            hash: hash.to_owned(),
            outcome: outcome.clone(),
        };
        let found = self.position(challenge_id, version, hash);
        let ghost before = self.entries@;
        let mut entries: Vec<CacheEntry> = Vec::new();
        assert(cache_of(entries@) =~= Map::<CacheKey, ReplayOutcome>::empty());
        if self.entries.len() < self.cache_capacity {
            std::mem::swap(&mut entries, &mut self.entries);
            match found {
                Some(i) => {
                    proof {
                        lemma_cache_update(before, i as int, entry);
                    }
                    entries.set(i, entry);
                },
                None => {
                    proof {
                        lemma_cache_push(before, entry);
                    }
                    entries.push(entry);
                },
            }
        } else {
            proof {
                lemma_cache_push(entries@, entry);
            }
            entries.push(entry);
        }
        self.entries = entries;
    }

    /// Number of cached outcomes.
    pub fn cached(&self) -> (r: usize)
        ensures
            r == self@.cache.len(),
            self@.cache.dom().finite(),
    {
        proof {
            use_type_invariant(self);
            lemma_cache_size(self.entries@);
        }
        self.entries.len()
    }
}

/// Stable hash of an encoded program, used as a cache key.
///
/// It keys a cache, not a signature: a collision would serve a stale score,
/// which is why the challenge and its version are part of the key too.
pub fn program_hash(encoded: &[u8]) -> (r: String)
    ensures
        r@ == hex_bytes_text(sha256_of(encoded@)),
{
    let digest = sha256(encoded);
    hex_of_bytes(digest.as_slice())
}

/// Whether a client's run disagrees with the authoritative one.
pub open spec fn disagrees(preview: Option<ClientPreview>, result_voxels_hash: Seq<char>) -> bool {
    match preview {
        Some(preview) => preview.result_voxels_hash@ != result_voxels_hash,
        None => false,
    }
}

/// Whether the client's own run disagrees with the authoritative one. Result
/// hashes are compared exactly; a client that sent none does not disagree.
pub fn diverged(preview: Option<&ClientPreview>, outcome: &ReplayOutcome) -> (r: bool)
    ensures
        r == disagrees(
            match preview {
                Some(preview) => Some(*preview),
                None => None,
            },
            outcome.result_voxels_hash@,
        ),
{
    match preview {
        Some(preview) => !same(
            preview.result_voxels_hash.as_str(),
            outcome.result_voxels_hash.as_str(),
        ),
        None => false,
    }
}


/// Below its capacity the cache forgets nothing: what was remembered of another challenge, another
/// version or another program is still there.
pub proof fn law_other_outcomes_stay_remembered(
    cache: Cache,
    capacity: nat,
    key: CacheKey,
    outcome: ReplayOutcome,
    other: CacheKey,
)
    requires
        cache.len() < capacity,
        cache.contains_key(other),
        other != key,
    ensures
        cache_with(cache, capacity, key, outcome).contains_key(other),
        cache_with(cache, capacity, key, outcome)[other] == cache[other],
{
}

/// A client disagrees with a replay when it sent a preview whose hash is another one; a preview that
/// claims the hash that was found agrees, and a client that sent none claims nothing.
pub proof fn law_only_a_different_claim_disagrees(preview: ClientPreview, found: Seq<char>)
    ensures
        !disagrees(None, found),
        preview.result_voxels_hash@ == found ==> !disagrees(Some(preview), found),
        preview.result_voxels_hash@ != found ==> disagrees(Some(preview), found),
{
}

}
