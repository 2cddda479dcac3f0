//! Sessions and the builds that make them.

use media_parser::error::custom_error;
use media_parser::session_cache::{BuildSlot, BuildTable, SessionCache};
use media_parser::time::{Duration, Instant};

fn at(seconds: u64) -> Instant {
    Instant::from_nanos(0)
        .checked_add(Duration::from_secs(seconds))
        .expect("point in time is near")
}

#[test]
fn session_cache_session_cache_evicts_the_least_recently_used_entry() {
    let now = at(1);
    let mut cache = SessionCache::new(2);
    cache.insert("first".to_string(), 1, None);
    cache.insert("second".to_string(), 2, None);

    assert_eq!(cache.get(&"first".to_string(), now), Some(1));
    cache.insert("third".to_string(), 3, None);

    assert_eq!(cache.get(&"second".to_string(), now), None);
    assert_eq!(cache.get(&"first".to_string(), now), Some(1));
    assert_eq!(cache.get(&"third".to_string(), now), Some(3));
}

#[test]
fn session_cache_session_cache_drops_an_entry_at_its_expiration_deadline() {
    let now = at(1);
    let deadline = at(31);
    let mut cache = SessionCache::new(1);
    cache.insert("remote".to_string(), 1, Some(deadline));

    assert_eq!(cache.get(&"remote".to_string(), now), Some(1));
    assert_eq!(cache.get(&"remote".to_string(), deadline), None);
}

#[test]
fn sessions_of_one_key_replace_each_other() {
    let mut cache = SessionCache::new(2);
    cache.insert("a", 1, None);
    cache.insert("b", 2, None);
    cache.insert("a", 3, None);

    assert_eq!(cache.get(&"a", at(0)), Some(3));
    assert_eq!(cache.get(&"b", at(0)), Some(2));
}

#[test]
fn expired_sessions_are_removed() {
    let mut cache = SessionCache::new(2);
    cache.insert("a", 1, Some(at(5)));
    cache.insert("b", 2, None);

    cache.remove_expired(at(5));

    assert_eq!(cache.get(&"a", at(0)), None);
    assert_eq!(cache.get(&"b", at(0)), Some(2));
}

#[test]
fn session_caches_hold_at_least_one_session() {
    let mut cache = SessionCache::new(0);
    cache.insert("a", 1, None);

    assert_eq!(cache.get(&"a", at(0)), Some(1));
}

#[test]
fn overlapping_lease_cleanup_immediately_removes_the_matching_weak_entry() {
    let mut table = BuildTable::new();
    let first = table.build_lock(&"shared").expect("first lease");
    let second = table.build_lock(&"shared").expect("second lease");
    assert_eq!(first, second);
    assert_eq!(table.leases(&"shared"), 2);

    table.release_build_lease(&"shared", first);
    table.release_build_lease(&"shared", second);

    assert!(
        table.is_empty(),
        "the final overlapping cleanup must remove the exact matching entry"
    );
}

#[test]
fn stale_lease_cleanup_never_removes_a_newer_slot_for_the_same_key() {
    let mut table = BuildTable::new();
    let stale = table.build_lock(&"shared").expect("stale lease");
    table.release_build_lease(&"shared", stale);
    let newer = table.build_lock(&"shared").expect("newer lease");
    assert_ne!(stale, newer);

    table.release_build_lease(&"shared", stale);

    assert_eq!(table.leases(&"shared"), 1, "newer slot must remain");

    table.release_build_lease(&"shared", newer);
    assert!(table.is_empty());
}

#[test]
fn builds_of_two_keys_have_two_slots() {
    let mut table = BuildTable::new();
    let first = table.build_lock(&"first").expect("first lease");
    let second = table.build_lock(&"second").expect("second lease");

    assert_ne!(first, second);
    table.release_build_lease(&"second", first);
    assert_eq!((table.leases(&"first"), table.leases(&"second")), (1, 1));
}

#[test]
fn finished_builds_are_shared() {
    let mut slot = BuildSlot::new();
    assert_eq!(slot.resume(None).expect("nothing is built"), None);

    slot.complete(42).expect("first session");

    assert_eq!(slot.result(), Some(42));
    assert_eq!(slot.resume(Some(7)).expect("session is there"), Some(42));
}

#[test]
fn cached_sessions_end_a_build() {
    let mut slot = BuildSlot::new();

    assert_eq!(slot.resume(Some(7)).expect("session is cached"), Some(7));
    assert_eq!(slot.result(), Some(7));
}

#[test]
fn builds_complete_once() {
    let mut slot = BuildSlot::new();
    slot.complete(1).expect("first session");

    let error = slot.complete(2).expect_err("second session");

    assert_eq!(
        error.message(),
        custom_error("session build state completed more than once").message()
    );
    assert_eq!(slot.result(), Some(1));
}

#[test]
fn waiting_requests_share_the_build_that_succeeds() {
    let mut table = BuildTable::new();
    let slots: Vec<u64> = (0..4)
        .map(|_| table.build_lock(&"shared").expect("lease"))
        .collect();
    assert!(slots.iter().all(|slot| *slot == slots[0]));

    let mut slot = BuildSlot::new();
    let mut builds = 0;
    let mut results = Vec::new();
    for _ in &slots {
        let got = match slot.resume(None).expect("slot is there") {
            Some(session) => Some(session),
            None => {
                builds += 1;
                if builds == 1 {
                    None
                } else {
                    slot.complete(9).expect("first session");
                    Some(9)
                }
            }
        };
        results.push(got);
    }
    for lease in &slots {
        table.release_build_lease(&"shared", *lease);
    }

    assert_eq!(builds, 2);
    assert_eq!(results, vec![None, Some(9), Some(9), Some(9)]);
    assert!(table.is_empty());
}
