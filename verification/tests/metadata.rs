use drive_manager::file_metadata::{FileMetadata, FileMoveInfo};
use drive_manager::tier::Tier;

#[test]
fn test_file_move_info_clone() {
    let file_info = FileMoveInfo {
        src: "test_file".to_string(),
        source_tier: Tier::Hot,
        target_tier: Tier::Warm,
        retries: 0,
    };
    let cloned_info = file_info.clone();
    assert_eq!(file_info.src, cloned_info.src);
    assert_eq!(file_info.source_tier, cloned_info.source_tier);
    assert_eq!(file_info.target_tier, cloned_info.target_tier);
    assert_eq!(file_info.retries, cloned_info.retries);
}

#[test]
fn test_file_metadata_clone() {
    let now = std::time::SystemTime::now()
        .duration_since(std::time::UNIX_EPOCH)
        .unwrap()
        .as_secs();
    let file_metadata = FileMetadata {
        last_access_time: now,
        access_count: 1,
        file_size: 1024,
        tier: Tier::Hot,
        last_tier_move: None,
    };
    let cloned_metadata = file_metadata.clone();
    assert_eq!(file_metadata.last_access_time, cloned_metadata.last_access_time);
    assert_eq!(file_metadata.access_count, cloned_metadata.access_count);
    assert_eq!(file_metadata.file_size, cloned_metadata.file_size);
    assert_eq!(file_metadata.tier, cloned_metadata.tier);
}
