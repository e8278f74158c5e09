use docuum::classify::{classify, LifecycleEvent};
use docuum::codec::{load_from_bytes, save_to_bytes};
use docuum::recency::RecencyStore;
use docuum::supervisor::{
    observe_event, supervisor_step, SupervisorAction, SupervisorInput, SupervisorState,
};
use docuum::vacuum::{plan_pass, total_size, ImageRecord, PassOutcome, Snapshot};

fn id(s: &str) -> Vec<u8> {
    s.as_bytes().to_vec()
}

fn img(name: &str, size: u64, created: u64) -> ImageRecord {
    ImageRecord { id: id(name), size, created }
}

const GB: u64 = 1_000_000_000;

#[test]
fn touch_stores_latest_timestamp() {
    let mut store = RecencyStore::new();
    store.touch(id("a"), 5);
    store.touch(id("b"), 7);
    store.touch(id("a"), 9);
    assert_eq!(store.lookup(&id("a")), Some(9));
    assert_eq!(store.lookup(&id("b")), Some(7));
}

#[test]
fn touch_never_moves_backwards() {
    let mut store = RecencyStore::new();
    store.touch(id("a"), 9);
    store.touch(id("a"), 3);
    assert_eq!(store.lookup(&id("a")), Some(9));
}

#[test]
fn lookup_absent_is_none() {
    let store = RecencyStore::new();
    assert_eq!(store.lookup(&id("ghost")), None);
}

#[test]
fn remove_absent_is_no_error() {
    let mut store = RecencyStore::new();
    store.touch(id("a"), 1);
    store.remove(&id("missing"));
    assert_eq!(store.lookup(&id("a")), Some(1));
    store.remove(&id("a"));
    assert_eq!(store.lookup(&id("a")), None);
}

#[test]
fn save_load_round_trip() {
    let mut store = RecencyStore::new();
    store.touch(id("sha256:aa"), 11);
    store.touch(id("sha256:bb"), 22);
    store.touch(id("sha256:cc"), 33);
    store.remove(&id("sha256:bb"));
    store.touch(id("sha256:aa"), 44);
    let blob = save_to_bytes(&store);
    let reloaded = load_from_bytes(&blob);
    assert_eq!(reloaded.lookup(&id("sha256:aa")), Some(44));
    assert_eq!(reloaded.lookup(&id("sha256:bb")), None);
    assert_eq!(reloaded.lookup(&id("sha256:cc")), Some(33));
    assert_eq!(reloaded.snapshot_entries().len(), store.snapshot_entries().len());
}

#[test]
fn round_trip_handles_awkward_identities_and_extreme_timestamps() {
    // identities are hex-encoded, so bytes that would break a line-oriented
    // format — line feeds, spaces — survive the round trip, as does the
    // largest possible timestamp
    let mut store = RecencyStore::new();
    let odd_id = vec![0x0au8, 0x20, 0x00, 0xff];
    store.touch(odd_id.clone(), u64::MAX);
    store.touch(id("plain"), 0);
    let reloaded = load_from_bytes(&save_to_bytes(&store));
    assert_eq!(reloaded.lookup(&odd_id), Some(u64::MAX));
    assert_eq!(reloaded.lookup(&id("plain")), Some(0));
    assert_eq!(reloaded.snapshot_entries().len(), 2);
}

#[test]
fn empty_store_blob_is_bare_header() {
    let store = RecencyStore::new();
    assert_eq!(save_to_bytes(&store), b"v1\n".to_vec());
}

#[test]
fn single_entry_blob_is_exact() {
    let mut store = RecencyStore::new();
    store.touch(vec![0xabu8], 1);
    assert_eq!(save_to_bytes(&store), b"v1\n0000000000000001ab\n".to_vec());
}

#[test]
fn corrupt_blob_loads_empty_then_fills() {
    let garbage = b"not a state file at all \xff\xfe".to_vec();
    let mut store = load_from_bytes(&garbage);
    assert_eq!(store.snapshot_entries().len(), 0);
    store.touch(id("a"), 1);
    assert_eq!(store.lookup(&id("a")), Some(1));
}

#[test]
fn truncated_blob_loads_empty() {
    // header plus an entry line missing its final line feed
    let blob = b"v1\n0000000000000001ab".to_vec();
    let store = load_from_bytes(&blob);
    assert_eq!(store.snapshot_entries().len(), 0);
}

#[test]
fn wrong_version_loads_empty() {
    let blob = b"v2\n0000000000000001ab\n".to_vec();
    let store = load_from_bytes(&blob);
    assert_eq!(store.snapshot_entries().len(), 0);
}

#[test]
fn classify_container_create_counts() {
    let e = LifecycleEvent {
        kind: "container".to_string(),
        action: "create".to_string(),
        image_id: id("sha256:aa"),
    };
    assert_eq!(classify(e), Some(id("sha256:aa")));
}

#[test]
fn classify_container_start_counts() {
    let e = LifecycleEvent {
        kind: "container".to_string(),
        action: "start".to_string(),
        image_id: id("sha256:aa"),
    };
    assert_eq!(classify(e), Some(id("sha256:aa")));
}

#[test]
fn classify_ignores_other_events() {
    let destroy = LifecycleEvent {
        kind: "container".to_string(),
        action: "destroy".to_string(),
        image_id: id("sha256:aa"),
    };
    assert_eq!(classify(destroy), None);
    let image_event = LifecycleEvent {
        kind: "image".to_string(),
        action: "create".to_string(),
        image_id: id("sha256:aa"),
    };
    assert_eq!(classify(image_event), None);
    let nameless = LifecycleEvent {
        kind: "container".to_string(),
        action: "create".to_string(),
        image_id: Vec::new(),
    };
    assert_eq!(classify(nameless), None);
}

#[test]
fn observe_event_updates_recency() {
    let mut store = RecencyStore::new();
    let e = LifecycleEvent {
        kind: "container".to_string(),
        action: "create".to_string(),
        image_id: id("a"),
    };
    assert!(observe_event(&mut store, e, 42));
    assert_eq!(store.lookup(&id("a")), Some(42));
    let junk = LifecycleEvent {
        kind: "volume".to_string(),
        action: "mount".to_string(),
        image_id: id("a"),
    };
    assert!(!observe_event(&mut store, junk, 99));
    assert_eq!(store.lookup(&id("a")), Some(42));
}

#[test]
fn vacuum_scenario_evicts_lru_until_under_threshold() {
    // threshold 10 GB; a: 6 GB used at t=1, b: 5 GB used at t=2,
    // c: 3 GB never used; total 14 GB.
    let mut store = RecencyStore::new();
    store.touch(id("a"), 1);
    store.touch(id("b"), 2);
    let snapshot = Snapshot {
        images: vec![img("a", 6 * GB, 10), img("b", 5 * GB, 20), img("c", 3 * GB, 30)],
        in_use: Vec::new(),
    };
    let mut pass = plan_pass(snapshot, &store, 10 * GB);
    assert_eq!(pass.total, 14 * GB as u128);

    let mut deleted: Vec<Vec<u8>> = Vec::new();
    while !pass.finished() {
        let (tid, _size) = pass.target();
        deleted.push(tid.clone());
        pass.record_success(&mut store);
    }
    // c goes first (no recency), still 11 GB > 10 GB; then a (older than b);
    // at 5 GB the pass stops and b survives.
    assert_eq!(deleted, vec![id("c"), id("a")]);
    assert_eq!(pass.total, 5 * GB as u128);
    assert_eq!(pass.outcome(), PassOutcome::UnderThreshold);
    assert_eq!(store.lookup(&id("a")), None);
    assert_eq!(store.lookup(&id("b")), Some(2));
}

#[test]
fn vacuum_spares_in_use_images() {
    // the oldest image is in use and must survive even though eviction
    // order would pick it first
    let mut store = RecencyStore::new();
    store.touch(id("old"), 1);
    store.touch(id("new"), 9);
    let snapshot = Snapshot {
        images: vec![img("old", 8 * GB, 1), img("new", 8 * GB, 2)],
        in_use: vec![id("old")],
    };
    let mut pass = plan_pass(snapshot, &store, 10 * GB);
    assert_eq!(pass.candidates.len(), 1);
    let mut deleted: Vec<Vec<u8>> = Vec::new();
    while !pass.finished() {
        let (tid, _size) = pass.target();
        deleted.push(tid.clone());
        pass.record_success(&mut store);
    }
    assert_eq!(deleted, vec![id("new")]);
    // only the in-use image is left; over threshold is the expected
    // steady state, not an error
    assert_eq!(pass.outcome(), PassOutcome::UnderThreshold);
    assert_eq!(store.lookup(&id("old")), Some(1));
}

#[test]
fn exhausted_candidates_is_a_steady_state() {
    let store = RecencyStore::new();
    let snapshot = Snapshot {
        images: vec![img("busy1", 8 * GB, 1), img("busy2", 8 * GB, 2)],
        in_use: vec![id("busy1"), id("busy2")],
    };
    let pass = plan_pass(snapshot, &store, 10 * GB);
    assert_eq!(pass.candidates.len(), 0);
    assert!(pass.finished());
    assert_eq!(pass.outcome(), PassOutcome::CandidatesExhausted);
}

#[test]
fn deletion_failure_skips_candidate_and_continues() {
    let mut store = RecencyStore::new();
    let snapshot = Snapshot {
        images: vec![img("a", 6 * GB, 1), img("b", 6 * GB, 2), img("c", 6 * GB, 3)],
        in_use: Vec::new(),
    };
    let mut pass = plan_pass(snapshot, &store, 10 * GB);
    // the first candidate cannot be deleted; the pass goes on to the next
    let (first, _) = pass.target();
    let first = first.clone();
    pass.record_failure();
    assert!(!pass.finished());
    let (second, _) = pass.target();
    assert_ne!(&first, second);
    pass.record_success(&mut store);
    // 18 GB - 6 GB = 12 GB, still over; third candidate is attempted
    assert!(!pass.finished());
    pass.record_success(&mut store);
    assert!(pass.finished());
    assert_eq!(pass.outcome(), PassOutcome::UnderThreshold);
    assert_eq!(pass.total, 6 * GB as u128);
}

#[test]
fn never_used_images_evicted_before_used_ones() {
    let mut store = RecencyStore::new();
    store.touch(id("used"), 1);
    let snapshot = Snapshot {
        images: vec![img("used", GB, 1), img("fresh", GB, 99)],
        in_use: Vec::new(),
    };
    let pass = plan_pass(snapshot, &store, 0);
    assert_eq!(pass.candidates[0].id, id("fresh"));
    assert_eq!(pass.candidates[1].id, id("used"));
}

#[test]
fn eviction_order_tie_breaks() {
    let store = RecencyStore::new();
    // equal recency (none): older creation first
    let snapshot = Snapshot {
        images: vec![img("young", GB, 50), img("elder", GB, 5)],
        in_use: Vec::new(),
    };
    let pass = plan_pass(snapshot, &store, 0);
    assert_eq!(pass.candidates[0].id, id("elder"));
    // equal creation: identity order makes the pass deterministic
    let snapshot2 = Snapshot {
        images: vec![img("bb", GB, 5), img("aa", GB, 5)],
        in_use: Vec::new(),
    };
    let pass2 = plan_pass(snapshot2, &store, 0);
    assert_eq!(pass2.candidates[0].id, id("aa"));
}

#[test]
fn vacuum_under_threshold_is_idempotent() {
    let mut store = RecencyStore::new();
    store.touch(id("a"), 1);
    let images = vec![img("a", 2 * GB, 1), img("b", 3 * GB, 2)];
    let snapshot = Snapshot { images, in_use: Vec::new() };
    let pass = plan_pass(snapshot, &store, 10 * GB);
    assert!(pass.finished());
    assert_eq!(pass.attempted, 0);
    assert_eq!(pass.outcome(), PassOutcome::UnderThreshold);
    // run again with no intervening events: still zero deletions
    let snapshot2 = Snapshot {
        images: vec![img("a", 2 * GB, 1), img("b", 3 * GB, 2)],
        in_use: Vec::new(),
    };
    let pass2 = plan_pass(snapshot2, &store, 10 * GB);
    assert!(pass2.finished());
    assert_eq!(pass2.attempted, 0);
}

#[test]
fn total_size_is_exact() {
    let images = vec![img("a", 1, 0), img("b", 2, 0), img("c", u64::MAX, 0)];
    assert_eq!(total_size(&images), 3u128 + u64::MAX as u128);
}

#[test]
fn failed_inventory_query_leaves_store_unchanged() {
    // the runtime is unreachable: no snapshot exists, so no pass is
    // planned and no deletion happens; the supervisor restarts the
    // session and the recency record is exactly as before
    let mut store = RecencyStore::new();
    store.touch(id("a"), 1);
    store.touch(id("b"), 2);
    let query_result: Option<Snapshot> = None;
    let aborted = match query_result {
        Some(snapshot) => {
            let _ = plan_pass(snapshot, &store, 10 * GB);
            false
        }
        None => true,
    };
    assert!(aborted);
    let (state, action) = supervisor_step(
        SupervisorState::Streaming,
        SupervisorInput::SessionFailed,
    );
    assert_eq!(state, SupervisorState::Restarting);
    assert_eq!(action, SupervisorAction::WaitBackoff);
    assert_eq!(store.lookup(&id("a")), Some(1));
    assert_eq!(store.lookup(&id("b")), Some(2));
}

#[test]
fn supervisor_self_heals() {
    let (s1, a1) = supervisor_step(SupervisorState::Streaming, SupervisorInput::EventHandled);
    assert_eq!(s1, SupervisorState::Streaming);
    assert_eq!(a1, SupervisorAction::ContinueStreaming);
    let (s2, a2) = supervisor_step(SupervisorState::Streaming, SupervisorInput::SessionFailed);
    assert_eq!(s2, SupervisorState::Restarting);
    assert_eq!(a2, SupervisorAction::WaitBackoff);
    let (s3, a3) = supervisor_step(SupervisorState::Restarting, SupervisorInput::BackoffElapsed);
    assert_eq!(s3, SupervisorState::Streaming);
    assert_eq!(a3, SupervisorAction::Resubscribe);
}
