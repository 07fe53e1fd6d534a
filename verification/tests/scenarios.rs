use drive_manager::engine::{RetryOutcome, TierUsage, TieringEngine, UsageSample};
use drive_manager::file_metadata::{FileMoveInfo, Observation};
use drive_manager::paths::FileKey;
use drive_manager::policy::Config;
use drive_manager::tier::{Tier, TierAvailability};

fn usage(hot: u64, warm: u64, cold: u64) -> UsageSample {
    UsageSample {
        hot: TierUsage { used: hot, total: 100 },
        warm: TierUsage { used: warm, total: 100 },
        cold: TierUsage { used: cold, total: 100 },
    }
}

fn key(tier: Tier, rel: &str) -> FileKey {
    FileKey { tier, rel: rel.to_string() }
}

/// Three scans a minute apart, the access time refreshed each minute, push
/// a cold file over the promotion thresholds; the move lands it in hot.
#[test]
fn promote_on_heat() {
    let config = Config::new(80, 3600, 3, false).unwrap();
    let mut engine = TieringEngine::new(config, TierAvailability::all());
    let calm = usage(10, 10, 10);
    for minute in 0..3u64 {
        let now = 1000 + 60 * minute;
        let obs = vec![Observation::new(Tier::Cold, "a.bin".to_string(), now, 1048576)];
        engine.scan_pass(&obs, &calm, now);
    }
    assert_eq!(engine.move_queue.len(), 1);
    let task = engine.next_move().unwrap();
    assert_eq!(task.src, "a.bin");
    assert_eq!(task.source_tier, Tier::Cold);
    assert_eq!(task.target_tier, Tier::Hot);
    assert_eq!(task.retries, 0);
    engine.record_move_result(&task, true, 1200);
    let hot = engine.store.get(&key(Tier::Hot, "a.bin")).unwrap();
    assert_eq!(hot.tier, Tier::Hot);
    assert_eq!(hot.last_tier_move, Some(1200));
    assert_eq!(hot.access_count, 3);
    assert_eq!(hot.file_size, 1048576);
    assert!(engine.store.get(&key(Tier::Cold, "a.bin")).is_none());
}

/// A hot tier at 90% with a threshold of 80 demotes exactly the ten oldest
/// of twenty files, hot to warm, oldest first.
#[test]
fn demote_on_pressure() {
    let config = Config::new(80, 3600, 3, false).unwrap();
    let mut engine = TieringEngine::new(config, TierAvailability::all());
    let mut obs = Vec::new();
    for i in 0..20u64 {
        // f00 is the newest, f19 the oldest.
        let rel = format!("f{:02}", i);
        obs.push(Observation::new(Tier::Hot, rel, 2000 - 10 * i, 512));
    }
    engine.scan_pass(&obs, &usage(90, 10, 10), 2000);
    assert_eq!(engine.move_queue.len(), 10);
    for (pos, task) in engine.move_queue.iter().enumerate() {
        assert_eq!(task.source_tier, Tier::Hot);
        assert_eq!(task.target_tier, Tier::Warm);
        assert_eq!(task.retries, 0);
        // The oldest access time comes first: f19, f18, ..., f10.
        let expected = format!("f{:02}", 19 - pos);
        assert_eq!(task.src, expected);
    }
}

/// A task that keeps failing flows between the queues until its fourth
/// arrival at the retry worker, where it is dropped for good; the store is
/// never touched.
#[test]
fn retry_then_give_up() {
    let config = Config::new(80, 3600, 3, false).unwrap();
    let mut engine = TieringEngine::new(config, TierAvailability::all());
    let task = FileMoveInfo::new("stuck.bin".to_string(), Tier::Cold, Tier::Hot);
    engine.enqueue_move(task);
    let mut gave_up = false;
    let mut retries_seen = Vec::new();
    for _round in 0..4 {
        let task = engine.next_move().unwrap();
        retries_seen.push(task.retries);
        engine.record_move_result(&task, false, 0);
        match engine.retry_step() {
            RetryOutcome::Requeued(t) => {
                assert!(t.retries <= 3);
            },
            RetryOutcome::GaveUp(t) => {
                assert_eq!(t.retries, 3);
                gave_up = true;
            },
            RetryOutcome::Idle => panic!("retry queue should not be empty"),
        }
    }
    assert_eq!(retries_seen, vec![0, 1, 2, 3]);
    assert!(gave_up);
    assert!(engine.move_queue.is_empty());
    assert!(engine.retry_queue.is_empty());
    assert!(engine.active.is_empty());
    assert_eq!(engine.store.len(), 0);
}

/// A record whose backing file is gone disappears after one reconciler
/// pass.
#[test]
fn reconcile_removal() {
    let config = Config::new(80, 3600, 3, false).unwrap();
    let mut engine = TieringEngine::new(config, TierAvailability::all());
    let obs = vec![Observation::new(Tier::Warm, "x".to_string(), 100, 10)];
    engine.scan_pass(&obs, &usage(10, 10, 10), 100);
    assert!(engine.store.get(&key(Tier::Warm, "x")).is_some());
    // The file is deleted out of band: the next walk sees nothing.
    let empty: Vec<Observation> = Vec::new();
    engine.reconcile_pass(&empty);
    assert!(engine.store.get(&key(Tier::Warm, "x")).is_none());
    assert_eq!(engine.store.len(), 0);
}

/// A record filed under cold while the file really lives under warm is
/// repaired by one reconciler pass: the key gains the warm prefix and the
/// stale cold record is gone.
#[test]
fn reconcile_mislabel() {
    let config = Config::new(80, 3600, 3, false).unwrap();
    let mut engine = TieringEngine::new(config, TierAvailability::all());
    let stale = vec![Observation::new(Tier::Cold, "x".to_string(), 100, 10)];
    engine.scan_pass(&stale, &usage(10, 10, 10), 100);
    assert!(engine.store.get(&key(Tier::Cold, "x")).is_some());
    // The walk finds the file under warm instead.
    let truth = vec![Observation::new(Tier::Warm, "x".to_string(), 100, 10)];
    engine.reconcile_pass(&truth);
    let repaired = engine.store.get(&key(Tier::Warm, "x")).unwrap();
    assert_eq!(repaired.tier, Tier::Warm);
    assert!(engine.store.get(&key(Tier::Cold, "x")).is_none());
    assert_eq!(engine.store.len(), 1);
}

/// In a dry run the daemon never spawns the copy tool; it reports success
/// straight back, and the store is updated as if the move ran.
#[test]
fn dry_run() {
    let config = Config::new(80, 3600, 1, true).unwrap();
    assert!(config.dryrun);
    let mut engine = TieringEngine::new(config, TierAvailability::all());
    let obs = vec![Observation::new(Tier::Cold, "a.bin".to_string(), 1000, 2048)];
    engine.scan_pass(&obs, &usage(10, 10, 10), 1000);
    assert_eq!(engine.move_queue.len(), 1);
    let task = engine.next_move().unwrap();
    // Dry run: no child process; success is assumed.
    engine.record_move_result(&task, true, 1001);
    let hot = engine.store.get(&key(Tier::Hot, "a.bin")).unwrap();
    assert_eq!(hot.tier, Tier::Hot);
    assert_eq!(hot.last_tier_move, Some(1001));
    assert!(engine.store.get(&key(Tier::Cold, "a.bin")).is_none());
}
