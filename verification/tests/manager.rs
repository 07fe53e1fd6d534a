use drive_manager::engine::{TierUsage, TieringEngine, UsageSample};
use drive_manager::file_metadata::Observation;
use drive_manager::policy::{select_demotions, Config};
use drive_manager::store::MetadataStore;
use drive_manager::tier::{BlockClass, Tier, TierAvailability};

fn fresh_engine() -> TieringEngine {
    let config = Config::new(80, 3600, 3, true).unwrap();
    TieringEngine::new(config, TierAvailability::all())
}

fn calm_usage() -> UsageSample {
    UsageSample {
        hot: TierUsage { used: 0, total: 100 },
        warm: TierUsage { used: 0, total: 100 },
        cold: TierUsage { used: 0, total: 100 },
    }
}

#[test]
fn test_update_file_metadata() {
    let mut engine = fresh_engine();
    let obs = vec![Observation::new(Tier::Warm, "test_file".to_string(), 50, 10)];
    engine.scan_pass(&obs, &calm_usage(), 60);
    let key = obs[0].key();
    assert!(engine.store.get(&key).is_some());
}

#[test]
fn test_check_tier_capacities() {
    let mut engine = fresh_engine();
    let obs: Vec<Observation> = Vec::new();
    engine.scan_pass(&obs, &calm_usage(), 0);
    assert!(engine.move_queue.is_empty());
}

#[test]
fn test_sort_block_device() {
    let result = BlockClass::Nvme.rank();
    assert_eq!(result, 0);
}

#[test]
fn test_move_files_down() {
    let store = MetadataStore::new();
    let victims = select_demotions(&store, Tier::Hot, 10);
    assert!(victims.is_empty());
}

#[test]
fn test_move_files_based_on_rules() {
    let mut engine = fresh_engine();
    let obs: Vec<Observation> = Vec::new();
    engine.scan_pass(&obs, &calm_usage(), 0);
    assert!(engine.move_queue.is_empty());
}

#[test]
fn test_validate_and_update_database() {
    let mut engine = fresh_engine();
    let obs: Vec<Observation> = Vec::new();
    engine.reconcile_pass(&obs);
    assert_eq!(engine.store.len(), 0);
}
