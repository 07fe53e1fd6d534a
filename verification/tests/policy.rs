use drive_manager::engine::{EnqueueOutcome, TierUsage, TieringEngine, UsageSample};
use drive_manager::file_metadata::{FileMetadata, FileMoveInfo, Observation};
use drive_manager::paths::{lex_less, tier_name, FileKey};
use drive_manager::policy::{
    promotion_eligible, select_demotions, tier_over_capacity, Config, ConfigError,
};
use drive_manager::store::MetadataStore;
use drive_manager::tier::{classify_device, BlockClass, Tier, TierAvailability};

#[test]
fn capacity_threshold_is_strict() {
    // 90% used against a threshold of 80: over.
    assert!(tier_over_capacity(90, 100, 80));
    // Exactly at the threshold: not over.
    assert!(!tier_over_capacity(80, 100, 80));
    // An absent tier reports no blocks and is never over.
    assert!(!tier_over_capacity(0, 0, 80));
    // The formula is exact on odd totals: 5/7 is over 70%, 4/7 is not.
    assert!(tier_over_capacity(5, 7, 70));
    assert!(!tier_over_capacity(4, 7, 70));
}

#[test]
fn config_validation() {
    assert_eq!(Config::new(80, 3600, 0, false), Err(ConfigError::AccessCountThresholdZero));
    assert_eq!(Config::new(101, 3600, 3, false), Err(ConfigError::CapacityThresholdOutOfRange));
    let config = Config::new(100, 3600, 1, true).unwrap();
    assert_eq!(config.tier_capacity_threshold, 100);
    assert_eq!(config.access_time_threshold, 3600);
    assert_eq!(config.access_count_threshold, 1);
    assert!(config.dryrun);
}

#[test]
fn promotion_eligibility() {
    let config = Config::new(80, 3600, 3, false).unwrap();
    let meta = FileMetadata {
        last_access_time: 10000,
        access_count: 3,
        file_size: 1,
        tier: Tier::Cold,
        last_tier_move: None,
    };
    // Hot already: never promoted.
    let hot = FileMetadata { tier: Tier::Hot, ..meta };
    assert!(!promotion_eligible(&hot, &config, 10000));
    // Seen often enough and recently: eligible.
    assert!(promotion_eligible(&meta, &config, 10000));
    // Exactly at the age limit: still eligible.
    assert!(promotion_eligible(&meta, &config, 13600));
    // One second past the age limit: not eligible.
    assert!(!promotion_eligible(&meta, &config, 13601));
    // One sighting short: not eligible.
    let cool = FileMetadata { access_count: 2, ..meta };
    assert!(!promotion_eligible(&cool, &config, 10000));
}

#[test]
fn device_classification() {
    assert_eq!(classify_device(false, true), BlockClass::Nvme);
    assert_eq!(classify_device(false, false), BlockClass::Ssd);
    assert_eq!(classify_device(true, false), BlockClass::Hdd);
    assert_eq!(classify_device(true, true), BlockClass::Hdd);
    assert_eq!(BlockClass::Nvme.tier(), Tier::Hot);
    assert_eq!(BlockClass::Ssd.tier(), Tier::Warm);
    assert_eq!(BlockClass::Hdd.tier(), Tier::Cold);
}

#[test]
fn demotion_targets() {
    assert_eq!(Tier::Hot.demotion_target(), Tier::Warm);
    assert_eq!(Tier::Warm.demotion_target(), Tier::Cold);
    assert_eq!(Tier::Cold.demotion_target(), Tier::Cold);
}

#[test]
fn tier_availability_from_classes() {
    let classes = vec![BlockClass::Nvme, BlockClass::Hdd];
    let avail = TierAvailability::from_classes(&classes);
    assert!(avail.hot);
    assert!(!avail.warm);
    assert!(avail.cold);
}

#[test]
fn lexicographic_order() {
    assert!(lex_less(&"a".to_string(), &"b".to_string()));
    assert!(lex_less(&"a".to_string(), &"ab".to_string()));
    assert!(!lex_less(&"ab".to_string(), &"a".to_string()));
    assert!(!lex_less(&"same".to_string(), &"same".to_string()));
    assert!(lex_less(&"".to_string(), &"a".to_string()));
    assert!(lex_less(&"dir/a".to_string(), &"dir/b".to_string()));
}

#[test]
fn key_renders_union_path() {
    assert_eq!(tier_name(Tier::Hot), "hot");
    assert_eq!(tier_name(Tier::Warm), "warm");
    assert_eq!(tier_name(Tier::Cold), "cold");
    let key = FileKey { tier: Tier::Hot, rel: "dir/a.bin".to_string() };
    assert_eq!(key.path(), "hot/dir/a.bin");
}

#[test]
fn task_paths_under_union_root() {
    let task = FileMoveInfo::new("dir/a.bin".to_string(), Tier::Cold, Tier::Hot);
    assert_eq!(task.source_path("/mnt/merged"), "/mnt/merged/cold/dir/a.bin");
    assert_eq!(task.target_path("/mnt/merged"), "/mnt/merged/hot/dir/a.bin");
}

fn meta(tier: Tier, atime: u64, size: u64) -> FileMetadata {
    FileMetadata {
        last_access_time: atime,
        access_count: 1,
        file_size: size,
        tier,
        last_tier_move: None,
    }
}

#[test]
fn demotion_order_and_tie_breaks() {
    let mut store = MetadataStore::new();
    // Oldest access time wins; among equal times the larger file, then the
    // lexicographically smaller path.
    store.upsert(FileKey { tier: Tier::Hot, rel: "young".to_string() }, meta(Tier::Hot, 900, 5));
    store.upsert(FileKey { tier: Tier::Hot, rel: "big".to_string() }, meta(Tier::Hot, 100, 50));
    store.upsert(FileKey { tier: Tier::Hot, rel: "bb".to_string() }, meta(Tier::Hot, 100, 5));
    store.upsert(FileKey { tier: Tier::Hot, rel: "ba".to_string() }, meta(Tier::Hot, 100, 5));
    store.upsert(FileKey { tier: Tier::Warm, rel: "other".to_string() }, meta(Tier::Warm, 1, 1));
    let victims = select_demotions(&store, Tier::Hot, 3);
    assert_eq!(victims.len(), 3);
    assert_eq!(victims[0].key.rel, "big");
    assert_eq!(victims[1].key.rel, "ba");
    assert_eq!(victims[2].key.rel, "bb");
    // The batch size caps the selection.
    let all = select_demotions(&store, Tier::Hot, 10);
    assert_eq!(all.len(), 4);
    assert_eq!(all[3].key.rel, "young");
}

#[test]
fn enqueue_outcomes() {
    let config = Config::new(80, 3600, 3, false).unwrap();
    // No warm devices: a demotion to warm is dropped at enqueue time.
    let sparse = TierAvailability { hot: true, warm: false, cold: true };
    let mut engine = TieringEngine::new(config, sparse);
    let demote = FileMoveInfo::new("a".to_string(), Tier::Hot, Tier::Warm);
    assert_eq!(engine.enqueue_move(demote), EnqueueOutcome::DroppedNoDevice);
    assert!(engine.move_queue.is_empty());
    // A second task for an in-flight path is skipped.
    let first = FileMoveInfo::new("b".to_string(), Tier::Warm, Tier::Cold);
    assert_eq!(engine.enqueue_move(first), EnqueueOutcome::Enqueued);
    let again = FileMoveInfo::new("b".to_string(), Tier::Cold, Tier::Hot);
    assert_eq!(engine.enqueue_move(again), EnqueueOutcome::SkippedInFlight);
    assert_eq!(engine.move_queue.len(), 1);
}

#[test]
fn retry_idle_on_empty_queue() {
    let config = Config::new(80, 3600, 3, false).unwrap();
    let mut engine = TieringEngine::new(config, TierAvailability::all());
    assert!(matches!(engine.retry_step(), drive_manager::engine::RetryOutcome::Idle));
}

#[test]
fn scan_statistics_fold() {
    // One record seen again: the access time is the max of stored and
    // observed, the pass count goes up by one, the size is the last seen.
    let m = meta(Tier::Warm, 500, 10);
    let seen = m.scanned(400, 20);
    assert_eq!(seen.last_access_time, 500);
    assert_eq!(seen.access_count, 2);
    assert_eq!(seen.file_size, 20);
    let seen2 = seen.scanned(800, 30);
    assert_eq!(seen2.last_access_time, 800);
    assert_eq!(seen2.access_count, 3);
    // The pass count saturates rather than wrapping.
    let capped = FileMetadata { access_count: u64::MAX, ..m };
    assert_eq!(capped.scanned(0, 0).access_count, u64::MAX);
}

#[test]
fn scan_twice_only_counts_change() {
    let config = Config::new(80, 3600, 100, false).unwrap();
    let mut engine = TieringEngine::new(config, TierAvailability::all());
    let calm = UsageSample {
        hot: TierUsage { used: 0, total: 100 },
        warm: TierUsage { used: 0, total: 100 },
        cold: TierUsage { used: 0, total: 100 },
    };
    let obs = vec![
        Observation::new(Tier::Warm, "x".to_string(), 700, 10),
        Observation::new(Tier::Cold, "y".to_string(), 600, 20),
    ];
    engine.scan_pass(&obs, &calm, 700);
    let x1 = engine.store.get(&FileKey { tier: Tier::Warm, rel: "x".to_string() }).unwrap();
    let y1 = engine.store.get(&FileKey { tier: Tier::Cold, rel: "y".to_string() }).unwrap();
    engine.scan_pass(&obs, &calm, 700);
    let x2 = engine.store.get(&FileKey { tier: Tier::Warm, rel: "x".to_string() }).unwrap();
    let y2 = engine.store.get(&FileKey { tier: Tier::Cold, rel: "y".to_string() }).unwrap();
    assert_eq!(engine.store.len(), 2);
    assert_eq!(x2.access_count, x1.access_count + 1);
    assert_eq!(y2.access_count, y1.access_count + 1);
    assert_eq!(x2.last_access_time, x1.last_access_time);
    assert_eq!(x2.file_size, x1.file_size);
    assert_eq!(x2.tier, x1.tier);
    assert_eq!(x2.last_tier_move, x1.last_tier_move);
    assert_eq!(y2.last_access_time, y1.last_access_time);
}

#[test]
fn reconcile_keeps_known_records_untouched() {
    let config = Config::new(80, 3600, 100, false).unwrap();
    let mut engine = TieringEngine::new(config, TierAvailability::all());
    let key = FileKey { tier: Tier::Warm, rel: "x".to_string() };
    engine.store.upsert(key, meta(Tier::Warm, 100, 10));
    // The reconciler sees the file with a newer stat but repairs only
    // membership; statistics belong to the scan.
    let obs = vec![Observation::new(Tier::Warm, "x".to_string(), 999, 99)];
    engine.reconcile_pass(&obs);
    let kept = engine.store.get(&FileKey { tier: Tier::Warm, rel: "x".to_string() }).unwrap();
    assert_eq!(kept.last_access_time, 100);
    assert_eq!(kept.file_size, 10);
}
