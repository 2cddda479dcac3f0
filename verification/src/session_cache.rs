//! Sessions kept from one request to the next.

use vstd::prelude::*;

use crate::error::{custom_error, Error};
use crate::time::{Duration, Instant};

verus! {

/// What a session is found by.
pub trait SessionKey: View + Sized {
    /// Whether this is the same key as another.
    fn is_same(&self, other: &Self) -> (result: bool)
        ensures
            result == (self@ == other@),
    ;

    /// A copy of this key.
    fn copy_key(&self) -> (result: Self)
        ensures
            result@ == self@,
    ;
}

impl SessionKey for String {
    fn is_same(&self, other: &String) -> (result: bool) {
        *self == *other
    }

    fn copy_key(&self) -> (result: String) {
        self.clone()
    }
}

impl SessionKey for &'static str {
    fn is_same(&self, other: &&'static str) -> (result: bool) {
        crate::strings::text_equal(self, other)
    }

    fn copy_key(&self) -> (result: &'static str) {
        self
    }
}

/// When a session ends.
#[derive(Debug, Clone, Copy, PartialEq, Eq, Structural)]
pub enum ExpirationPolicy {
    /// So long after it was made.
    Absolute(Duration),
    /// So long after it was last used.
    Sliding(Duration),
}

// ---------------------------------------------------------------------------
// The cache
// ---------------------------------------------------------------------------

/// A session with its key and the point in time at which it ends.
pub struct SessionCacheEntry<K, V> {
    pub key: K,
    pub value: V,
    pub expires_at: Option<Instant>,
}

/// A bounded number of sessions, the least recently used first.
pub struct SessionCache<K: SessionKey, V> {
    capacity: usize,
    entries: Vec<SessionCacheEntry<K, V>>,
}

/// Whether a session has not ended by `now`. At its deadline it has.
pub open spec fn is_live<K, V>(entry: SessionCacheEntry<K, V>, now: int) -> bool {
    entry.expires_at matches Some(deadline) ==> deadline@ > now
}

/// The sessions that have not ended by `now`.
pub open spec fn live<K, V>(
    entries: Seq<SessionCacheEntry<K, V>>,
    now: int,
) -> Seq<SessionCacheEntry<K, V>> {
    entries.filter(|entry: SessionCacheEntry<K, V>| is_live(entry, now))
}

/// The sessions with another key.
pub open spec fn others<K: SessionKey, V>(
    entries: Seq<SessionCacheEntry<K, V>>,
    key: K::V,
) -> Seq<SessionCacheEntry<K, V>> {
    entries.filter(|entry: SessionCacheEntry<K, V>| entry.key@ != key)
}

/// The place of the first session from `i` on that has this key.
pub open spec fn place_of<K: SessionKey, V>(
    entries: Seq<SessionCacheEntry<K, V>>,
    key: K::V,
    i: int,
) -> Option<int>
    decreases entries.len() - i,
{
    if i >= entries.len() {
        None
    } else if entries[i].key@ == key {
        Some(i)
    } else {
        place_of(entries, key, i + 1)
    }
}

/// The sessions once the one at `place` was used.
pub open spec fn with_used<K, V>(
    entries: Seq<SessionCacheEntry<K, V>>,
    place: int,
) -> Seq<SessionCacheEntry<K, V>> {
    entries.remove(place).push(entries[place])
}

/// The sessions with room for one more: where there is none, the least
/// recently used one goes.
pub open spec fn with_room<K, V>(
    entries: Seq<SessionCacheEntry<K, V>>,
    capacity: int,
) -> Seq<SessionCacheEntry<K, V>> {
    if entries.len() >= capacity {
        entries.remove(0)
    } else {
        entries
    }
}

/// Whether no two sessions have the same key.
pub open spec fn keys_distinct<K: SessionKey, V>(entries: Seq<SessionCacheEntry<K, V>>) -> bool {
    forall|i: int, j: int|
        0 <= i < j < entries.len() ==> (#[trigger] entries[i]).key@ != (#[trigger] entries[j]).key@
}

proof fn lemma_filter_step<A>(values: Seq<A>, i: int, keep: spec_fn(A) -> bool)
    requires
        0 <= i < values.len(),
    ensures
        values.take(i + 1).filter(keep) == if keep(values[i]) {
            values.take(i).filter(keep).push(values[i])
        } else {
            values.take(i).filter(keep)
        },
{
    reveal(Seq::filter);
    assert(values.take(i + 1).drop_last() =~= values.take(i));
}

/// What a filter keeps stays in its order: each kept value comes from a place
/// of its own, further back for those further back.
proof fn lemma_filter_distinct<K: SessionKey, V>(
    entries: Seq<SessionCacheEntry<K, V>>,
    keep: spec_fn(SessionCacheEntry<K, V>) -> bool,
)
    requires
        keys_distinct(entries),
    ensures
        keys_distinct(entries.filter(keep)),
        entries.filter(keep).len() <= entries.len(),
        forall|i: int|
            0 <= i < entries.filter(keep).len() ==> keep(#[trigger] entries.filter(keep)[i])
                && entries.contains(entries.filter(keep)[i]),
        forall|entry: SessionCacheEntry<K, V>| #[trigger]
            entries.contains(entry) && keep(entry) ==> entries.filter(keep).contains(entry),
    decreases entries.len(),
{
    reveal(Seq::filter);
    if entries.len() > 0 {
        let shorter = entries.drop_last();
        lemma_filter_distinct(shorter, keep);
        let before = shorter.filter(keep);
        let after = entries.filter(keep);
        assert forall|i: int| 0 <= i < after.len() implies keep(#[trigger] after[i])
            && entries.contains(after[i]) by {
            if i < before.len() {
                assert(after[i] == before[i]);
                assert(shorter.contains(before[i]));
                let k = choose|k: int| 0 <= k < shorter.len() && shorter[k] == before[i];
                assert(entries[k] == after[i]);
            } else {
                assert(entries[entries.len() - 1] == after[i]);
            }
        }
        assert forall|i: int, j: int| 0 <= i < j < after.len() implies (
        #[trigger] after[i]).key@ != (#[trigger] after[j]).key@ by {
            if j < before.len() {
                assert(after[i] == before[i] && after[j] == before[j]);
            } else {
                assert(after[i] == before[i]);
                assert(shorter.contains(before[i]));
                let k = choose|k: int| 0 <= k < shorter.len() && shorter[k] == before[i];
                assert(entries[k].key@ != entries[entries.len() - 1].key@);
            }
        }
        assert forall|entry: SessionCacheEntry<K, V>| #[trigger]
            entries.contains(entry) && keep(entry) implies after.contains(entry) by {
            let k = choose|k: int| 0 <= k < entries.len() && entries[k] == entry;
            if k < shorter.len() {
                assert(shorter[k] == entry);
                assert(shorter.contains(entry));
                assert(before.contains(entry));
                let m = choose|m: int| 0 <= m < before.len() && before[m] == entry;
                assert(after[m] == entry);
            } else {
                assert(after[after.len() - 1] == entry);
            }
        }
    }
}

proof fn lemma_place_of<K: SessionKey, V>(
    entries: Seq<SessionCacheEntry<K, V>>,
    key: K::V,
    i: int,
)
    requires
        0 <= i <= entries.len(),
    ensures
        match place_of(entries, key, i) {
            Some(place) => i <= place < entries.len() && entries[place].key@ == key,
            None => forall|j: int| i <= j < entries.len() ==> (#[trigger] entries[j]).key@ != key,
        },
    decreases entries.len() - i,
{
    if i < entries.len() && entries[i].key@ != key {
        lemma_place_of(entries, key, i + 1);
    }
}

/// Keeps the sessions that have not ended.
fn keep_live<K: SessionKey, V>(entries: Vec<SessionCacheEntry<K, V>>, now: Instant) -> (result: Vec<
    SessionCacheEntry<K, V>,
>)
    ensures
        result@ == live(entries@, now@),
{
    let ghost all = entries@;
    let ghost keep = |entry: SessionCacheEntry<K, V>| is_live(entry, now@);
    let mut kept: Vec<SessionCacheEntry<K, V>> = Vec::new();
    proof {
        reveal(Seq::filter);
        assert(all.take(0).filter(keep) =~= Seq::empty());
    }
    for entry in iter: entries
        invariant
            iter.seq() == all,
            keep == (|entry: SessionCacheEntry<K, V>| is_live(entry, now@)),
            kept@ == all.take(iter.index() as int).filter(keep),
    {
        proof {
            lemma_filter_step(all, iter.index() as int, keep);
        }
        let stays = match &entry.expires_at {
            Some(deadline) => deadline.is_after(&now),
            None => true,
        };
        if stays {
            kept.push(entry);
        }
    }
    assert(all.take(all.len() as int) =~= all);
    kept
}

/// Keeps the sessions with another key.
fn keep_others<K: SessionKey, V>(entries: Vec<SessionCacheEntry<K, V>>, key: &K) -> (result: Vec<
    SessionCacheEntry<K, V>,
>)
    ensures
        result@ == others(entries@, key@),
{
    let ghost all = entries@;
    let ghost keep = |entry: SessionCacheEntry<K, V>| entry.key@ != key@;
    let mut kept: Vec<SessionCacheEntry<K, V>> = Vec::new();
    proof {
        reveal(Seq::filter);
        assert(all.take(0).filter(keep) =~= Seq::empty());
    }
    for entry in iter: entries
        invariant
            iter.seq() == all,
            keep == (|entry: SessionCacheEntry<K, V>| entry.key@ != key@),
            kept@ == all.take(iter.index() as int).filter(keep),
    {
        proof {
            lemma_filter_step(all, iter.index() as int, keep);
        }
        if !entry.key.is_same(key) {
            kept.push(entry);
        }
    }
    assert(all.take(all.len() as int) =~= all);
    kept
}

impl<K: SessionKey, V> SessionCache<K, V> {
    /// The sessions, the least recently used first.
    pub closed spec fn sessions(self) -> Seq<SessionCacheEntry<K, V>> {
        self.entries@
    }

    /// How many sessions are kept at most.
    pub closed spec fn room(self) -> int {
        self.capacity as int
    }

    #[verifier::type_invariant]
    spec fn sound(self) -> bool {
        &&& self.capacity >= 1
        &&& self.entries@.len() <= self.capacity
        &&& keys_distinct(self.entries@)
    }
}

impl<K: SessionKey, V: Clone> SessionCache<K, V> {
    /// Whether a cache keeps no more sessions than it has room for, and none
    /// with the key of another.
    pub open spec fn is_sound(self) -> bool {
        &&& self.room() >= 1
        &&& self.sessions().len() <= self.room()
        &&& keys_distinct(self.sessions())
    }

    /// An empty cache with room for `capacity` sessions, and for one at least.
    pub fn new(capacity: usize) -> (result: Self)
        ensures
            result.is_sound(),
            result.sessions() == Seq::<SessionCacheEntry<K, V>>::empty(),
            result.room() == if capacity == 0 {
                1
            } else {
                capacity as int
            },
    {
        let room: usize = if capacity == 0 { 1 } else { capacity };
        SessionCache { capacity: room, entries: Vec::new() }
    }

    /// Drops the sessions that have ended.
    pub fn remove_expired(&mut self, now: Instant)
        ensures
            final(self).is_sound(),
            final(self).room() == old(self).room(),
            final(self).sessions() == live(old(self).sessions(), now@),
    {
        proof {
            use_type_invariant(&*self);
            lemma_filter_distinct(
                self.entries@,
                |entry: SessionCacheEntry<K, V>| is_live(entry, now@),
            );
        }
        let mut entries: Vec<SessionCacheEntry<K, V>> = Vec::new();
        core::mem::swap(&mut entries, &mut self.entries);
        self.entries = keep_live(entries, now);
    }

    /// The session with this key, unless it has ended; it becomes the most
    /// recently used one. Sessions that have ended are dropped.
    pub fn get(&mut self, key: &K, now: Instant) -> (result: Option<V>)
        ensures
            final(self).is_sound(),
            final(self).room() == old(self).room(),
            ({
                let left = live(old(self).sessions(), now@);
                match (result, place_of(left, key@, 0)) {
                    (Some(value), Some(place)) => final(self).sessions() == with_used(left, place)
                        && cloned(left[place].value, value),
                    (None, None) => final(self).sessions() == left,
                    _ => false,
                }
            }),
    {
        self.remove_expired(now);
        let ghost left = self.sessions();
        proof {
            use_type_invariant(&*self);
            lemma_place_of(left, key@, 0);
        }
        let mut index: usize = 0;
        while index < self.entries.len()
            invariant
                index <= self.entries@.len(),
                self.sessions() == left,
                self.is_sound(),
                self.room() == old(self).room(),
                left == live(old(self).sessions(), now@),
                place_of(left, key@, 0) == place_of(left, key@, index as int),
            decreases self.entries@.len() - index,
        {
            if self.entries[index].key.is_same(key) {
                let value = self.entries[index].value.clone();
                let mut entries: Vec<SessionCacheEntry<K, V>> = Vec::new();
                core::mem::swap(&mut entries, &mut self.entries);
                let entry = entries.remove(index);
                entries.push(entry);
                proof {
                    lemma_with_used_distinct(left, index as int);
                }
                assert(entries@ =~= with_used(left, index as int));
                self.entries = entries;
                return Some(value);
            }
            index += 1;
        }
        None
    }

    /// Keeps a session, as the most recently used one, in place of any that
    /// has its key. Where there is no room, the least recently used one goes.
    pub fn insert(&mut self, key: K, value: V, expires_at: Option<Instant>)
        ensures
            final(self).is_sound(),
            final(self).room() == old(self).room(),
            final(self).sessions() == with_room(
                others(old(self).sessions(), key@),
                old(self).room(),
            ).push(SessionCacheEntry { key, value, expires_at }),
    {
        proof {
            use_type_invariant(&*self);
            lemma_filter_distinct(
                self.entries@,
                |entry: SessionCacheEntry<K, V>| entry.key@ != key@,
            );
        }
        let mut entries: Vec<SessionCacheEntry<K, V>> = Vec::new();
        core::mem::swap(&mut entries, &mut self.entries);
        let mut kept = keep_others(entries, &key);
        let ghost remaining = kept@;
        if kept.len() >= self.capacity {
            let _ = kept.remove(0);
        }
        assert(kept@ =~= with_room(remaining, self.capacity as int));
        let ghost entry = SessionCacheEntry { key, value, expires_at };
        kept.push(SessionCacheEntry { key, value, expires_at });
        proof {
            let shorter = with_room(remaining, self.capacity as int);
            assert forall|i: int, j: int| 0 <= i < j < kept@.len() implies (
            #[trigger] kept@[i]).key@ != (#[trigger] kept@[j]).key@ by {
                let shift = if remaining.len() >= self.capacity { 1int } else { 0int };
                assert(kept@[i] == remaining[i + shift]);
                if j < shorter.len() {
                    assert(kept@[j] == remaining[j + shift]);
                }
            }
        }
        self.entries = kept;
    }
}

proof fn lemma_with_used_distinct<K: SessionKey, V>(
    entries: Seq<SessionCacheEntry<K, V>>,
    place: int,
)
    requires
        keys_distinct(entries),
        0 <= place < entries.len(),
    ensures
        keys_distinct(with_used(entries, place)),
        with_used(entries, place).len() == entries.len(),
{
    let used = with_used(entries, place);
    assert forall|i: int, j: int| 0 <= i < j < used.len() implies (#[trigger] used[i]).key@ != (
    #[trigger] used[j]).key@ by {
        let a = if i < place { i } else { i + 1 };
        assert(used[i] == entries[a]);
        if j < used.len() - 1 {
            let b = if j < place { j } else { j + 1 };
            assert(used[j] == entries[b]);
        } else {
            assert(used[j] == entries[place]);
        }
    }
}

// ---------------------------------------------------------------------------
// What a cache promises
// ---------------------------------------------------------------------------

/// The sessions once one more is kept.
pub open spec fn with_session<K: SessionKey, V>(
    entries: Seq<SessionCacheEntry<K, V>>,
    entry: SessionCacheEntry<K, V>,
    room: int,
) -> Seq<SessionCacheEntry<K, V>> {
    with_room(others(entries, entry.key@), room).push(entry)
}

/// The session that is found by a key.
pub open spec fn found<K: SessionKey, V>(
    entries: Seq<SessionCacheEntry<K, V>>,
    key: K::V,
    now: int,
) -> Option<SessionCacheEntry<K, V>> {
    match place_of(live(entries, now), key, 0) {
        Some(place) => Some(live(entries, now)[place]),
        None => None,
    }
}

/// With distinct keys, the session found by a key is the one that has it,
/// unless it has ended.
proof fn lemma_found<K: SessionKey, V>(
    entries: Seq<SessionCacheEntry<K, V>>,
    place: int,
    now: int,
)
    requires
        keys_distinct(entries),
        0 <= place < entries.len(),
    ensures
        found(entries, entries[place].key@, now) == if is_live(entries[place], now) {
            Some(entries[place])
        } else {
            None
        },
{
    let entry = entries[place];
    let keep = |entry: SessionCacheEntry<K, V>| is_live(entry, now);
    let left = live(entries, now);
    lemma_filter_distinct(entries, keep);
    lemma_place_of(left, entry.key@, 0);
    if is_live(entry, now) {
        assert(entries.contains(entry) && keep(entry));
        assert(left.contains(entry));
        let k = choose|k: int| 0 <= k < left.len() && left[k] == entry;
        assert(left[k].key@ == entry.key@);
        let p = place_of(left, entry.key@, 0).unwrap();
        if p < k {
            assert(left[p].key@ != left[k].key@);
        } else if k < p {
            assert(left[k].key@ != left[p].key@);
        }
    } else {
        if place_of(left, entry.key@, 0) is Some {
            let p = place_of(left, entry.key@, 0).unwrap();
            assert(keep(left[p]) && entries.contains(left[p]));
            let m = choose|m: int| 0 <= m < entries.len() && entries[m] == left[p];
            if m < place {
                assert(entries[m].key@ != entries[place].key@);
            } else if place < m {
                assert(entries[place].key@ != entries[m].key@);
            }
        }
    }
}

proof fn lemma_with_session_distinct<K: SessionKey, V>(
    entries: Seq<SessionCacheEntry<K, V>>,
    entry: SessionCacheEntry<K, V>,
    room: int,
)
    requires
        keys_distinct(entries),
        room >= 1,
    ensures
        keys_distinct(with_session(entries, entry, room)),
{
    let keep = |other: SessionCacheEntry<K, V>| other.key@ != entry.key@;
    lemma_filter_distinct(entries, keep);
    let remaining = others(entries, entry.key@);
    let after = with_session(entries, entry, room);
    let shift = if remaining.len() >= room { 1int } else { 0int };
    assert forall|i: int, j: int| 0 <= i < j < after.len() implies (#[trigger] after[i]).key@ != (
    #[trigger] after[j]).key@ by {
        assert(after[i] == remaining[i + shift]);
        if j < after.len() - 1 {
            assert(after[j] == remaining[j + shift]);
        } else {
            assert(after[j] == entry);
            assert(keep(remaining[i + shift]));
        }
    }
}

/// A session that was kept is found by its key until its deadline, and not
/// from then on.
pub proof fn lemma_kept_session_is_found_until_it_ends<K: SessionKey, V>(
    entries: Seq<SessionCacheEntry<K, V>>,
    entry: SessionCacheEntry<K, V>,
    room: int,
    now: int,
)
    requires
        keys_distinct(entries),
        room >= 1,
    ensures
        found(with_session(entries, entry, room), entry.key@, now) == if is_live(entry, now) {
            Some(entry)
        } else {
            None
        },
{
    lemma_with_session_distinct(entries, entry, room);
    let after = with_session(entries, entry, room);
    assert(after[after.len() - 1] == entry);
    lemma_found(after, after.len() - 1, now);
}

/// A session that was just used outlasts the next one that is kept under
/// another key, as long as there is room for two.
pub proof fn lemma_used_session_outlasts_the_next<K: SessionKey, V>(
    entries: Seq<SessionCacheEntry<K, V>>,
    place: int,
    entry: SessionCacheEntry<K, V>,
    room: int,
    now: int,
)
    requires
        keys_distinct(entries),
        entries.len() <= room,
        room >= 2,
        0 <= place < entries.len(),
        entries[place].key@ != entry.key@,
        is_live(entries[place], now),
    ensures
        found(
            with_session(with_used(entries, place), entry, room),
            entries[place].key@,
            now,
        ) == Some(entries[place]),
{
    let used = with_used(entries, place);
    let kept = entries[place];
    lemma_with_used_distinct(entries, place);
    lemma_with_session_distinct(used, entry, room);
    let keep = |other: SessionCacheEntry<K, V>| other.key@ != entry.key@;
    let remaining = others(used, entry.key@);
    let after = with_session(used, entry, room);
    reveal(Seq::filter);
    assert(used.last() == kept);
    assert(remaining == used.drop_last().filter(keep).push(kept));
    lemma_filter_distinct(used, keep);
    let shift = if remaining.len() >= room { 1int } else { 0int };
    assert(after[remaining.len() - 1 - shift] == kept);
    lemma_found(after, remaining.len() - 1 - shift, now);
}

// ---------------------------------------------------------------------------
// Builds under way
// ---------------------------------------------------------------------------

/// Whether putting `value` into a slot that held `before` leaves `after` there.
/// A session that is there stays.
pub open spec fn completes<V>(before: Option<V>, value: V, after: Option<V>) -> bool {
    match before {
        Some(_) => after == before,
        None => after == Some(value),
    }
}

/// Whether a request whose turn to build has come gets `result` from a slot that
/// held `before`, and leaves `after` there: the session in the slot, else the one
/// that is cached, which the slot then keeps. With neither it gets nothing.
pub open spec fn resumes<V: Clone>(
    before: Option<V>,
    cached: Option<V>,
    result: Option<V>,
    after: Option<V>,
) -> bool {
    match (before, cached, result) {
        (Some(value), _, Some(copy)) => cloned(value, copy) && after == Some(value),
        (None, Some(value), Some(copy)) => copy == value && exists|kept: V|
            after == Some(kept) && #[trigger] cloned(value, kept),
        (None, None, None) => after is None,
        _ => false,
    }
}

/// The session of one build, once it is there.
pub struct BuildSlot<V> {
    built: Option<V>,
}

impl<V: Clone> BuildSlot<V> {
    /// The session, if it is there.
    pub closed spec fn value(self) -> Option<V> {
        self.built
    }

    pub fn new() -> (result: Self)
        ensures
            result.value() is None,
    {
        BuildSlot { built: None }
    }

    /// The session, if it is there.
    pub fn result(&self) -> (result: Option<V>)
        ensures
            match (result, self.value()) {
                (Some(copy), Some(value)) => cloned(value, copy),
                (None, None) => true,
                _ => false,
            },
    {
        match &self.built {
            Some(value) => Some(value.clone()),
            None => None,
        }
    }

    /// Puts the session in, unless there is one.
    pub fn complete(&mut self, value: V) -> (result: Result<(), Error>)
        ensures
            completes(old(self).value(), value, final(self).value()),
            match result {
                Ok(_) => old(self).value() is None,
                Err(error) => {
                    &&& old(self).value() is Some
                    &&& error@ == crate::error::PluginErrorView::Custom(
                        "session build state completed more than once"@,
                    )
                },
            },
    {
        if self.built.is_some() {
            return Err(custom_error("session build state completed more than once"));
        }
        self.built = Some(value);
        Ok(())
    }

    /// What a request gets whose turn to build has come: the session that
    /// another request built meanwhile, else the one that is cached. With
    /// neither it has to build.
    pub fn resume(&mut self, cached: Option<V>) -> (result: Result<Option<V>, Error>)
        ensures
            result is Ok,
            resumes(old(self).value(), cached, result->Ok_0, final(self).value()),
    {
        match self.result() {
            Some(value) => Ok(Some(value)),
            None => match cached {
                Some(value) => {
                    let kept = value.clone();
                    assert(cloned(value, kept));
                    match self.complete(kept) {
                        Ok(_) => Ok(Some(value)),
                        Err(error) => Err(error),
                    }
                },
                None => Ok(None),
            },
        }
    }
}

/// A build under way: its key, its slot and the requests that wait for it.
pub struct BuildEntry<K> {
    pub key: K,
    pub slot: u64,
    pub leases: usize,
}

/// The builds under way, one for each key.
pub struct BuildTable<K: SessionKey> {
    entries: Vec<BuildEntry<K>>,
    next_slot: u64,
}

/// A build under way, with its key by its view.
pub struct BuildView<T> {
    pub key: T,
    pub slot: u64,
    pub leases: int,
}

pub open spec fn build_views<K: SessionKey>(entries: Seq<BuildEntry<K>>) -> Seq<BuildView<K::V>> {
    Seq::new(
        entries.len(),
        |i: int|
            BuildView {
                key: entries[i].key@,
                slot: entries[i].slot,
                leases: entries[i].leases as int,
            },
    )
}

/// Whether no two builds have the same key.
pub open spec fn keys_apart<T>(builds: Seq<BuildView<T>>) -> bool {
    forall|i: int, j: int|
        0 <= i < j < builds.len() ==> (#[trigger] builds[i]).key != (#[trigger] builds[j]).key
}

/// The place of the first build from `i` on that has this key.
pub open spec fn build_place<T>(builds: Seq<BuildView<T>>, key: T, i: int) -> Option<int>
    decreases builds.len() - i,
{
    if i >= builds.len() {
        None
    } else if builds[i].key == key {
        Some(i)
    } else {
        build_place(builds, key, i + 1)
    }
}

/// The builds once one more request waits for the build of a key. A key
/// without a build gets the slot `fresh`.
pub open spec fn with_lease<T>(builds: Seq<BuildView<T>>, key: T, fresh: u64) -> Seq<BuildView<T>> {
    match build_place(builds, key, 0) {
        Some(place) => builds.update(
            place,
            BuildView { leases: builds[place].leases + 1, ..builds[place] },
        ),
        None => builds.push(BuildView { key, slot: fresh, leases: 1 }),
    }
}

/// The builds once a request no longer waits: with the last one the build
/// goes. A request that waited for another slot changes nothing.
pub open spec fn without_lease<T>(builds: Seq<BuildView<T>>, key: T, slot: u64) -> Seq<
    BuildView<T>,
> {
    match build_place(builds, key, 0) {
        Some(place) => if builds[place].slot != slot {
            builds
        } else if builds[place].leases <= 1 {
            builds.remove(place)
        } else {
            builds.update(place, BuildView { leases: builds[place].leases - 1, ..builds[place] })
        },
        None => builds,
    }
}

proof fn lemma_build_place<T>(builds: Seq<BuildView<T>>, key: T, i: int)
    requires
        0 <= i <= builds.len(),
    ensures
        match build_place(builds, key, i) {
            Some(place) => i <= place < builds.len() && builds[place].key == key && forall|j: int|
                i <= j < place ==> (#[trigger] builds[j]).key != key,
            None => forall|j: int| i <= j < builds.len() ==> (#[trigger] builds[j]).key != key,
        },
    decreases builds.len() - i,
{
    if i < builds.len() && builds[i].key != key {
        lemma_build_place(builds, key, i + 1);
    }
}

proof fn lemma_build_place_is<T>(builds: Seq<BuildView<T>>, key: T, i: int, place: int)
    requires
        0 <= i <= place < builds.len(),
        builds[place].key == key,
        forall|j: int| i <= j < place ==> (#[trigger] builds[j]).key != key,
    ensures
        build_place(builds, key, i) == Some(place),
    decreases place - i,
{
    if i < place {
        lemma_build_place_is(builds, key, i + 1, place);
    }
}

/// Taking a lease and giving it back leave one build for each key.
proof fn lemma_leases_keep_keys_apart<T>(
    builds: Seq<BuildView<T>>,
    key: T,
    fresh: u64,
    slot: u64,
)
    requires
        keys_apart(builds),
    ensures
        keys_apart(with_lease(builds, key, fresh)),
        keys_apart(without_lease(builds, key, slot)),
{
    lemma_build_place(builds, key, 0);
}

/// Giving a lease back undoes taking it.
pub proof fn lemma_release_undoes_lease<T>(builds: Seq<BuildView<T>>, key: T, fresh: u64)
    requires
        forall|i: int| 0 <= i < builds.len() ==> (#[trigger] builds[i]).leases >= 1,
    ensures
        ({
            let taken = with_lease(builds, key, fresh);
            let place = build_place(taken, key, 0);
            &&& place is Some
            &&& without_lease(taken, key, taken[place.unwrap()].slot) == builds
        }),
{
    lemma_build_place(builds, key, 0);
    let taken = with_lease(builds, key, fresh);
    match build_place(builds, key, 0) {
        Some(place) => {
            lemma_build_place_is(taken, key, 0, place);
            assert(without_lease(taken, key, taken[place].slot) =~= builds);
        },
        None => {
            let place = builds.len() as int;
            assert forall|j: int| 0 <= j < place implies (#[trigger] taken[j]).key != key by {
                assert(builds[j].key != key);
            }
            lemma_build_place_is(taken, key, 0, place);
            assert(without_lease(taken, key, taken[place].slot) =~= builds);
        },
    }
}

impl<K: SessionKey> BuildTable<K> {
    pub closed spec fn builds(self) -> Seq<BuildView<K::V>> {
        build_views(self.entries@)
    }

    /// The slot that the next new build gets.
    pub closed spec fn fresh(self) -> u64 {
        self.next_slot
    }

    /// There is one build for each key, with a slot that was given out and a
    /// request waiting.
    #[verifier::type_invariant]
    spec fn is_sound(self) -> bool {
        &&& keys_apart(build_views(self.entries@))
        &&& forall|i: int|
            0 <= i < self.entries@.len() ==> (#[trigger] self.entries@[i]).slot < self.next_slot
                && self.entries@[i].leases >= 1
    }

    pub fn new() -> (result: Self)
        ensures
            result.builds() == Seq::<BuildView<K::V>>::empty(),
            result.fresh() == 0,
    {
        let table = BuildTable { entries: Vec::new(), next_slot: 0 };
        assert(table.builds() =~= Seq::empty());
        table
    }

    pub fn is_empty(&self) -> (result: bool)
        ensures
            result == (self.builds().len() == 0),
    {
        self.entries.len() == 0
    }

    /// Finds the build of a key.
    fn find(&self, key: &K) -> (result: Option<usize>)
        ensures
            match result {
                Some(place) => build_place(self.builds(), key@, 0) == Some(place as int) && place
                    < self.entries@.len(),
                None => build_place(self.builds(), key@, 0) is None,
            },
    {
        let mut index: usize = 0;
        while index < self.entries.len()
            invariant
                index <= self.entries@.len(),
                build_place(self.builds(), key@, 0) == build_place(
                    self.builds(),
                    key@,
                    index as int,
                ),
            decreases self.entries@.len() - index,
        {
            assert(self.builds()[index as int].key == self.entries@[index as int].key@);
            if self.entries[index].key.is_same(key) {
                return Some(index);
            }
            index += 1;
        }
        None
    }

    /// How many requests wait for the build of a key.
    pub fn leases(&self, key: &K) -> (result: usize)
        ensures
            result == match build_place(self.builds(), key@, 0) {
                Some(place) => self.builds()[place].leases,
                None => 0,
            },
    {
        match self.find(key) {
            Some(place) => self.entries[place].leases,
            None => 0,
        }
    }

    /// Lets one more request wait for the build of a key, and says for which
    /// slot. All requests that wait for one key at a time share a slot.
    pub fn build_lock(&mut self, key: &K) -> (result: Result<u64, Error>)
        ensures
            ({
                let builds = old(self).builds();
                let place = build_place(builds, key@, 0);
                match result {
                    Ok(slot) => {
                        &&& final(self).builds() == with_lease(builds, key@, old(self).fresh())
                        &&& slot == match place {
                            Some(place) => builds[place].slot,
                            None => old(self).fresh(),
                        }
                        &&& final(self).fresh() == old(self).fresh() + if place is Some {
                            0int
                        } else {
                            1
                        }
                    },
                    Err(error) => {
                        &&& *final(self) == *old(self)
                        &&& error@ == crate::error::PluginErrorView::Custom(
                            "too many concurrent session builds"@,
                        )
                        &&& match place {
                            Some(place) => builds[place].leases == usize::MAX,
                            None => old(self).fresh() == u64::MAX,
                        }
                    },
                }
            }),
    {
        proof {
            use_type_invariant(&*self);
        }
        let ghost before = self.builds();
        match self.find(key) {
            Some(place) => {
                let leases: usize = self.entries[place].leases;
                if leases == usize::MAX {
                    return Err(custom_error("too many concurrent session builds"));
                }
                let slot: u64 = self.entries[place].slot;
                let mut entries: Vec<BuildEntry<K>> = Vec::new();
                core::mem::swap(&mut entries, &mut self.entries);
                let entry = BuildEntry {
                    key: entries[place].key.copy_key(),
                    slot,
                    leases: leases + 1,
                };
                entries.set(place, entry);
                proof {
                    lemma_leases_keep_keys_apart(before, key@, old(self).fresh(), slot);
                    assert(build_views(entries@) =~= with_lease(before, key@, old(self).fresh()));
                }
                self.entries = entries;
                Ok(slot)
            },
            None => {
                let slot: u64 = self.next_slot;
                if slot == u64::MAX {
                    return Err(custom_error("too many concurrent session builds"));
                }
                let mut entries: Vec<BuildEntry<K>> = Vec::new();
                core::mem::swap(&mut entries, &mut self.entries);
                entries.push(BuildEntry { key: key.copy_key(), slot, leases: 1 });
                self.next_slot = slot + 1;
                proof {
                    lemma_leases_keep_keys_apart(before, key@, slot, slot);
                    assert(build_views(entries@) =~= with_lease(before, key@, slot));
                }
                self.entries = entries;
                Ok(slot)
            },
        }
    }

    /// Takes a request out that waited for a slot.
    pub fn release_build_lease(&mut self, key: &K, slot: u64)
        ensures
            final(self).fresh() == old(self).fresh(),
            final(self).builds() == without_lease(old(self).builds(), key@, slot),
    {
        proof {
            use_type_invariant(&*self);
        }
        let ghost before = self.builds();
        match self.find(key) {
            Some(place) => {
                assert(before[place as int].slot == self.entries@[place as int].slot);
                if self.entries[place].slot != slot {
                    return;
                }
                let leases: usize = self.entries[place].leases;
                let mut entries: Vec<BuildEntry<K>> = Vec::new();
                core::mem::swap(&mut entries, &mut self.entries);
                if leases <= 1 {
                    let _ = entries.remove(place);
                } else {
                    let entry = BuildEntry {
                        key: entries[place].key.copy_key(),
                        slot,
                        leases: leases - 1,
                    };
                    entries.set(place, entry);
                }
                proof {
                    lemma_leases_keep_keys_apart(before, key@, slot, slot);
                    assert(build_views(entries@) =~= without_lease(before, key@, slot));
                }
                self.entries = entries;
            },
            None => {},
        }
    }
}

// ---------------------------------------------------------------------------
// Requests that share a build
// ---------------------------------------------------------------------------

/// What came of the build of a request whose turn has come.
pub enum BuildOutcome<V> {
    /// There was a session already.
    NotRun,
    Failed,
    Built(V),
}

/// What a request does with the builds under way.
pub enum PoolEvent<T, V> {
    /// It waits for the build of a key, which has this slot.
    Lease { key: T, slot: u64 },
    /// Its turn to build has come: it finds this cached, and gets a session
    /// unless its build fails.
    Turn { slot: u64, cached: Option<V>, outcome: BuildOutcome<V>, got: Option<V> },
    /// It no longer waits.
    Release { key: T, slot: u64 },
}

/// The builds under way and the sessions in their slots.
pub struct PoolView<T, V> {
    pub builds: Seq<BuildView<T>>,
    pub fresh: u64,
    pub slots: Map<u64, Option<V>>,
}

/// Whether a request whose turn has come gets `got` where the slot held `before`,
/// and leaves `after` in it: it builds only where there is neither a session in
/// the slot nor a cached one, and what it builds is put into the slot.
pub open spec fn takes_turn<V: Clone>(
    before: Option<V>,
    cached: Option<V>,
    outcome: BuildOutcome<V>,
    got: Option<V>,
    after: Option<V>,
) -> bool {
    exists|resumed: Option<V>, left: Option<V>| #[trigger]
        resumes(before, cached, resumed, left) && match (resumed, outcome) {
            (Some(_), BuildOutcome::NotRun) => got == resumed && after == left,
            (None, BuildOutcome::Failed) => got is None && after == left,
            (None, BuildOutcome::Built(value)) => got == Some(value) && exists|copy: V| #[trigger]
                cloned(value, copy) && completes(left, copy, after),
            _ => false,
        }
}

/// The slot of the build of a key.
pub open spec fn slot_of<T>(builds: Seq<BuildView<T>>, key: T) -> Option<u64> {
    match build_place(builds, key, 0) {
        Some(place) => Some(builds[place].slot),
        None => None,
    }
}

/// Whether an event leads from one state to the next.
pub open spec fn pool_step<T, V: Clone>(
    before: PoolView<T, V>,
    event: PoolEvent<T, V>,
    after: PoolView<T, V>,
) -> bool {
    match event {
        PoolEvent::Lease { key, slot } => {
            &&& after.builds == with_lease(before.builds, key, before.fresh)
            &&& match slot_of(before.builds, key) {
                Some(shared) => {
                    &&& slot == shared
                    &&& after.fresh == before.fresh
                    &&& after.slots == before.slots
                },
                None => {
                    &&& slot == before.fresh
                    &&& after.fresh == before.fresh + 1
                    &&& after.slots == before.slots.insert(slot, None)
                },
            }
        },
        PoolEvent::Turn { slot, cached, outcome, got } => {
            &&& after.builds == before.builds
            &&& after.fresh == before.fresh
            &&& after.slots == before.slots.insert(slot, after.slots[slot])
            &&& takes_turn(before.slots[slot], cached, outcome, got, after.slots[slot])
        },
        PoolEvent::Release { key, slot } => {
            &&& after.builds == without_lease(before.builds, key, slot)
            &&& after.fresh == before.fresh
            &&& after.slots == before.slots
        },
    }
}

/// Whether there is one build for each key, with a slot that was given out.
pub open spec fn pool_sound<T, V>(pool: PoolView<T, V>) -> bool {
    &&& keys_apart(pool.builds)
    &&& forall|i: int| 0 <= i < pool.builds.len() ==> (#[trigger] pool.builds[i]).slot < pool.fresh
}

/// Whether some events lead through these states, one at a time.
pub open spec fn is_history<T, V: Clone>(
    states: Seq<PoolView<T, V>>,
    events: Seq<PoolEvent<T, V>>,
) -> bool {
    &&& states.len() == events.len() + 1
    &&& pool_sound(states[0])
    &&& forall|i: int|
        0 <= i < events.len() ==> pool_step(states[i], #[trigger] events[i], states[i + 1])
}

/// Whether the build of a key is under way in all states from `from` to `to`.
pub open spec fn is_under_way<T, V>(
    states: Seq<PoolView<T, V>>,
    key: T,
    from: int,
    to: int,
) -> bool {
    forall|i: int|
        from <= i <= to ==> build_place((#[trigger] states[i]).builds, key, 0) is Some
}

/// Taking and giving back leases keeps the builds sound, and a build that stays
/// under way keeps its slot.
proof fn lemma_step_keeps_slot<T, V: Clone>(
    before: PoolView<T, V>,
    event: PoolEvent<T, V>,
    after: PoolView<T, V>,
    key: T,
)
    requires
        pool_sound(before),
        pool_step(before, event, after),
    ensures
        pool_sound(after),
        slot_of(before.builds, key) is Some && slot_of(after.builds, key) is Some ==> slot_of(
            after.builds,
            key,
        ) == slot_of(before.builds, key),
{
    lemma_build_place(before.builds, key, 0);
    lemma_build_place(after.builds, key, 0);
    match event {
        PoolEvent::Lease { key: leased, slot: _ } => {
            lemma_build_place(before.builds, leased, 0);
            let place = build_place(before.builds, key, 0);
            if place is Some {
                assert(after.builds[place.unwrap()].key == key);
            }
        },
        PoolEvent::Turn { .. } => {},
        PoolEvent::Release { key: released, slot: _ } => {
            lemma_build_place(before.builds, released, 0);
            let found = build_place(after.builds, key, 0);
            if found is Some && after.builds != before.builds {
                let place = build_place(before.builds, released, 0).unwrap();
                let at = found.unwrap();
                if after.builds.len() < before.builds.len() {
                    let origin = if at < place { at } else { at + 1 };
                    assert(after.builds[at] == before.builds[origin]);
                }
            }
        },
    }
}

proof fn lemma_slot_is_kept<T, V: Clone>(
    states: Seq<PoolView<T, V>>,
    events: Seq<PoolEvent<T, V>>,
    key: T,
    from: int,
    to: int,
)
    requires
        is_history(states, events),
        0 <= from <= to < states.len(),
        is_under_way(states, key, from, to),
    ensures
        slot_of(states[to].builds, key) == slot_of(states[from].builds, key),
    decreases to - from,
{
    if from < to {
        lemma_slot_is_kept(states, events, key, from, to - 1);
        lemma_states_sound(states, events, to - 1);
        assert(pool_step(states[to - 1], events[to - 1], states[to - 1 + 1]));
        lemma_step_keeps_slot(states[to - 1], events[to - 1], states[to], key);
        assert(build_place(states[to].builds, key, 0) is Some);
        assert(build_place(states[to - 1].builds, key, 0) is Some);
    }
}

proof fn lemma_states_sound<T, V: Clone>(
    states: Seq<PoolView<T, V>>,
    events: Seq<PoolEvent<T, V>>,
    at: int,
)
    requires
        is_history(states, events),
        0 <= at < states.len(),
    ensures
        pool_sound(states[at]),
    decreases at,
{
    if at > 0 {
        lemma_states_sound(states, events, at - 1);
        assert(pool_step(states[at - 1], events[at - 1], states[at - 1 + 1]));
        match events[at - 1] {
            PoolEvent::Lease { key, .. } => {
                lemma_step_keeps_slot(states[at - 1], events[at - 1], states[at], key);
            },
            PoolEvent::Turn { .. } => {},
            PoolEvent::Release { key, .. } => {
                lemma_step_keeps_slot(states[at - 1], events[at - 1], states[at], key);
            },
        }
    }
}

/// Once a slot that was given out holds a session, it holds that for good.
proof fn lemma_session_stays<T, V: Clone>(
    states: Seq<PoolView<T, V>>,
    events: Seq<PoolEvent<T, V>>,
    slot: u64,
    from: int,
    to: int,
)
    requires
        is_history(states, events),
        0 <= from <= to < states.len(),
        slot < states[from].fresh,
        states[from].slots[slot] is Some,
    ensures
        slot < states[to].fresh,
        states[to].slots[slot] == states[from].slots[slot],
    decreases to - from,
{
    if from < to {
        lemma_session_stays(states, events, slot, from, to - 1);
        assert(pool_step(states[to - 1], events[to - 1], states[to - 1 + 1]));
    }
}

/// All requests that wait for the build of a key while it is under way share one
/// slot and, once one of them has a session, that session. The first turn that
/// gives a session is the last one that builds; every later turn gets a copy of
/// what is kept of it. A build that fails leaves nothing in the slot.
pub proof fn lemma_waiting_requests_share_the_build<T, V: Clone>(
    states: Seq<PoolView<T, V>>,
    events: Seq<PoolEvent<T, V>>,
    key: T,
    from: int,
    to: int,
    first: int,
    later: int,
)
    requires
        is_history(states, events),
        0 <= from <= to < states.len(),
        is_under_way(states, key, from, to),
        from <= first < later < to,
        is_turn_at(events[first], slot_of(states[from].builds, key)),
        is_turn_at(events[later], slot_of(states[from].builds, key)),
        got_session(events[first]) is Some,
    ensures
        forall|i: int|
            from <= i < to ==> (#[trigger] events[i] matches PoolEvent::Lease { key: leased, slot }
                ==> leased == key ==> Some(slot) == slot_of(states[from].builds, key)),
        !runs_build(events[later]),
        exists|kept: V|
            (kept == got_session(events[first]).unwrap() || cloned(
                got_session(events[first]).unwrap(),
                kept,
            ) || cloned(kept, got_session(events[first]).unwrap())) && #[trigger] cloned(
                kept,
                got_session(events[later]).unwrap(),
            ) && got_session(events[later]) is Some,
{
    let slot = slot_of(states[from].builds, key).unwrap();
    assert(build_place(states[from].builds, key, 0) is Some);
    lemma_states_sound(states, events, from);
    lemma_states_sound(states, events, first);
    lemma_build_place(states[from].builds, key, 0);
    lemma_slot_is_kept(states, events, key, from, first);
    lemma_build_place(states[first].builds, key, 0);
    assert(build_place(states[first].builds, key, 0) is Some);
    assert(slot < states[first].fresh);
    assert(pool_step(states[first], events[first], states[first + 1]));
    assert(states[first + 1].slots[slot] is Some);
    lemma_session_stays(states, events, slot, first + 1, later);
    assert(pool_step(states[later], events[later], states[later + 1]));
    let kept = states[first + 1].slots[slot].unwrap();
    assert(states[later].slots[slot] == Some(kept));
    assert forall|i: int| from <= i < to implies (#[trigger] events[i] matches PoolEvent::Lease {
        key: leased,
        slot: given,
    } ==> leased == key ==> Some(given) == slot_of(states[from].builds, key)) by {
        lemma_slot_is_kept(states, events, key, from, i);
        assert(pool_step(states[i], events[i], states[i + 1]));
        assert(build_place(states[i].builds, key, 0) is Some);
    }
    assert(cloned(kept, got_session(events[later]).unwrap()));
}

/// Whether an event is a turn at this slot.
pub open spec fn is_turn_at<T, V>(event: PoolEvent<T, V>, at: Option<u64>) -> bool {
    event matches PoolEvent::Turn { slot, .. } && at == Some(slot)
}

/// The session that a turn gives.
pub open spec fn got_session<T, V>(event: PoolEvent<T, V>) -> Option<V> {
    match event {
        PoolEvent::Turn { got, .. } => got,
        _ => None,
    }
}

/// Whether a turn runs its build.
pub open spec fn runs_build<T, V>(event: PoolEvent<T, V>) -> bool {
    event matches PoolEvent::Turn { outcome, .. } && !(outcome is NotRun)
}

/// A failed build is that of its own request only: the slot stays empty, and the
/// next request that finds nothing cached builds in its turn.
pub proof fn lemma_failed_build_is_retried<V: Clone>(
    cached: Option<V>,
    after: Option<V>,
    outcome: BuildOutcome<V>,
    got: Option<V>,
    last: Option<V>,
)
    requires
        takes_turn(None, cached, BuildOutcome::Failed, None, after),
        takes_turn(after, None, outcome, got, last),
    ensures
        after is None,
        !(outcome is NotRun),
        outcome matches BuildOutcome::Built(value) ==> got == Some(value) && last is Some,
        outcome is Failed ==> got is None && last is None,
{
}

/// The builds once `count` requests no longer wait for a slot.
pub open spec fn released<T>(builds: Seq<BuildView<T>>, key: T, slot: u64, count: nat) -> Seq<
    BuildView<T>,
>
    decreases count,
{
    if count == 0 {
        builds
    } else {
        released(without_lease(builds, key, slot), key, slot, (count - 1) as nat)
    }
}

/// Once all requests that waited for a key have given their leases back, there
/// is no build of the key.
pub proof fn lemma_last_release_ends_the_build<T>(builds: Seq<BuildView<T>>, key: T)
    requires
        keys_apart(builds),
        build_place(builds, key, 0) matches Some(place) && builds[place].leases >= 1,
    ensures
        ({
            let build = builds[build_place(builds, key, 0).unwrap()];
            build_place(released(builds, key, build.slot, build.leases as nat), key, 0) is None
        }),
    decreases builds[build_place(builds, key, 0).unwrap()].leases,
{
    lemma_build_place(builds, key, 0);
    let place = build_place(builds, key, 0).unwrap();
    let build = builds[place];
    let next = without_lease(builds, key, build.slot);
    if build.leases <= 1 {
        lemma_build_place(next, key, 0);
        let found = build_place(next, key, 0);
        if found is Some {
            let at = found.unwrap();
            let origin = if at < place { at } else { at + 1 };
            assert(next[at] == builds[origin]);
        }
        assert(released(next, key, build.slot, 0) == next);
    } else {
        assert forall|j: int| 0 <= j < place implies (#[trigger] next[j]).key != key by {
            assert(next[j] == builds[j]);
        }
        lemma_build_place_is(next, key, 0, place);
        lemma_last_release_ends_the_build(next, key);
    }
}

/// A session has ended at its deadline and after it, and not before; one without
/// a deadline does not end.
pub proof fn lemma_sessions_end_at_their_deadline<K: SessionKey, V>(
    entries: Seq<SessionCacheEntry<K, V>>,
    place: int,
    now: int,
)
    requires
        keys_distinct(entries),
        0 <= place < entries.len(),
    ensures
        ({
            let entry = entries[place];
            let lasts = match entry.expires_at {
                Some(deadline) => now < deadline@,
                None => true,
            };
            &&& lasts ==> found(entries, entry.key@, now) == Some(entry)
            &&& !lasts ==> found(entries, entry.key@, now) is None
        }),
{
    lemma_found(entries, place, now);
}

/// Keeping a session drops none but the one that it replaces and, where there is
/// no room without it, the one that was used least recently.
pub proof fn lemma_only_the_least_recently_used_session_goes<K: SessionKey, V>(
    entries: Seq<SessionCacheEntry<K, V>>,
    entry: SessionCacheEntry<K, V>,
    room: int,
    i: int,
    now: int,
)
    requires
        keys_distinct(entries),
        entries.len() <= room,
        room >= 1,
        0 <= i < entries.len(),
        entries[i].key@ != entry.key@,
        match entries[i].expires_at {
            Some(deadline) => now < deadline@,
            None => true,
        },
    ensures
        ({
            let after = with_session(entries, entry, room);
            &&& entries.len() < room || i > 0 ==> found(after, entries[i].key@, now) == Some(
                entries[i],
            )
            &&& after.len() <= room
            &&& i == 0 && entries.len() == room && (forall|j: int|
                0 <= j < entries.len() ==> (#[trigger] entries[j]).key@ != entry.key@) ==> found(
                after,
                entries[i].key@,
                now,
            ) is None
        }),
{
    let keep = |other: SessionCacheEntry<K, V>| other.key@ != entry.key@;
    let remaining = others(entries, entry.key@);
    let after = with_session(entries, entry, room);
    let kept = entries[i];
    lemma_filter_distinct(entries, keep);
    lemma_with_session_distinct(entries, entry, room);
    lemma_others_first(entries, entry.key@);
    assert(entries.contains(kept) && keep(kept));
    let at = remaining.index_of(kept);
    assert(remaining[at] == kept);
    if remaining.len() >= room {
        lemma_all_others(entries, entry.key@);
        assert(remaining =~= entries);
        if at > 0 {
            assert(after[at - 1] == kept);
            lemma_found(after, at - 1, now);
        } else {
            assert(i == 0);
            assert forall|j: int| 0 <= j < after.len() implies (#[trigger] after[j]).key@
                != kept.key@ by {
                if j < after.len() - 1 {
                    assert(after[j] == entries[j + 1]);
                }
            }
            lemma_not_found(after, kept.key@, now);
        }
    } else {
        assert(after[at] == kept);
        lemma_found(after, at, now);
        if i == 0 && entries.len() == room && (forall|j: int|
            0 <= j < entries.len() ==> (#[trigger] entries[j]).key@ != entry.key@) {
            lemma_none_replaced(entries, entry.key@);
        }
    }
}

proof fn lemma_not_found<K: SessionKey, V>(
    entries: Seq<SessionCacheEntry<K, V>>,
    key: K::V,
    now: int,
)
    requires
        keys_distinct(entries),
        forall|j: int| 0 <= j < entries.len() ==> (#[trigger] entries[j]).key@ != key,
    ensures
        found(entries, key, now) is None,
{
    let keep = |entry: SessionCacheEntry<K, V>| is_live(entry, now);
    lemma_filter_distinct(entries, keep);
    let left = live(entries, now);
    lemma_place_of(left, key, 0);
    if place_of(left, key, 0) is Some {
        let place = place_of(left, key, 0).unwrap();
        assert(keep(left[place]) && entries.contains(left[place]));
        let j = entries.index_of(left[place]);
        assert(entries[j] == left[place]);
    }
}

proof fn lemma_others_first<K: SessionKey, V>(entries: Seq<SessionCacheEntry<K, V>>, key: K::V)
    ensures
        others(entries, key).len() <= entries.len(),
    decreases entries.len(),
{
    reveal(Seq::filter);
    if entries.len() > 0 {
        lemma_others_first(entries.drop_last(), key);
    }
}

/// Where as many sessions have another key as there are, all have.
proof fn lemma_all_others<K: SessionKey, V>(entries: Seq<SessionCacheEntry<K, V>>, key: K::V)
    ensures
        others(entries, key).len() == entries.len() ==> others(entries, key) == entries,
    decreases entries.len(),
{
    reveal(Seq::filter);
    if entries.len() > 0 {
        lemma_all_others(entries.drop_last(), key);
        lemma_others_first(entries.drop_last(), key);
        assert(entries =~= entries.drop_last().push(entries.last()));
    }
}

proof fn lemma_none_replaced<K: SessionKey, V>(entries: Seq<SessionCacheEntry<K, V>>, key: K::V)
    requires
        forall|j: int| 0 <= j < entries.len() ==> (#[trigger] entries[j]).key@ != key,
    ensures
        others(entries, key).len() == entries.len(),
    decreases entries.len(),
{
    reveal(Seq::filter);
    if entries.len() > 0 {
        let shorter = entries.drop_last();
        assert forall|j: int| 0 <= j < shorter.len() implies (#[trigger] shorter[j]).key@ != key by {
            assert(shorter[j] == entries[j]);
        }
        lemma_none_replaced(shorter, key);
        assert(entries[entries.len() - 1].key@ != key);
    }
}

/// The session that is built first stays in its slot: a later one is not put over
/// it, and a request whose turn comes gets it, before any that is cached.
pub proof fn lemma_first_built_session_stays<V: Clone>(
    first: V,
    later: V,
    cached: Option<V>,
    result: Option<V>,
    after: Option<V>,
)
    ensures
        completes(None, first, after) <==> after == Some(first),
        completes(Some(first), later, after) <==> after == Some(first),
        resumes(Some(first), cached, result, after) <==> after == Some(first) && (result matches Some(
            copy,
        ) && cloned(first, copy)),
        resumes(None, Some(later), result, after) ==> result == Some(later) && (after matches Some(
            kept,
        ) && cloned(later, kept)),
        resumes(None, None, result, after) <==> result is None && after is None,
{
}

} // verus!
