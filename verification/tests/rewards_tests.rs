use reward_vault::manager::RewardVaultManager;
use reward_vault::metrics::StorageMetrics;
use reward_vault::receipt::StorageReceipt;
use reward_vault::schedule::RateSchedule;

fn canonical_metrics_bytes(m: &StorageMetrics) -> Vec<u8> {
    let mut out = Vec::new();
    out.extend_from_slice(&m.bytes_stored.to_le_bytes());
    out.extend_from_slice(&m.retrievals.to_le_bytes());
    out.extend_from_slice(&m.operations_count.to_le_bytes());
    out.push(m.uptime_percentage);
    out.extend_from_slice(&(m.regions.len() as u64).to_le_bytes());
    for region in &m.regions {
        out.extend_from_slice(&(region.as_bytes().len() as u64).to_le_bytes());
        out.extend_from_slice(region.as_bytes());
    }
    out
}

fn make_receipt(
    node: &str,
    start: u64,
    end: u64,
    bytes: u64,
    retrievals: u64,
    uptime: u8,
    regions: Vec<String>,
) -> StorageReceipt {
    let metrics = StorageMetrics {
        bytes_stored: bytes,
        retrievals,
        operations_count: 0,
        uptime_percentage: uptime,
        regions,
    };
    let mut preimage = Vec::new();
    preimage.extend_from_slice(node.as_bytes());
    preimage.extend_from_slice(b"client");
    preimage.extend_from_slice(&start.to_le_bytes());
    preimage.extend_from_slice(&end.to_le_bytes());
    preimage.extend_from_slice(&canonical_metrics_bytes(&metrics));
    let hash = *blake3::hash(&preimage).as_bytes();
    StorageReceipt {
        node_id: node.to_string(),
        client_id: "client".to_string(),
        service_period: (start, end),
        storage_metrics: metrics,
        receipt_hash: hash,
        client_signature: vec![1],
        node_signature: vec![2],
    }
}

#[test]
fn reward_one_day_one_byte_two_retrievals() {
    let mut manager = RewardVaultManager::new();
    manager
        .process_receipt(make_receipt("n1", 0, 86_400, 1, 2, 100, Vec::new()))
        .unwrap();
    let node = "n1".to_string();
    // 100 tokens per byte-day plus 10 per retrieval: 100*1*1 + 10*2
    assert_eq!(manager.calculate_node_rewards(&node, 0, 86_400).unwrap(), 120);
}

#[test]
fn reward_zero_duration_receipt_contributes_zero() {
    let mut manager = RewardVaultManager::new();
    manager
        .process_receipt(make_receipt("n1", 100, 100, 1_000, 0, 100, Vec::new()))
        .unwrap();
    let node = "n1".to_string();
    assert_eq!(manager.calculate_node_rewards(&node, 0, 1_000).unwrap(), 0);
}

#[test]
fn reward_no_receipts_is_zero() {
    let manager = RewardVaultManager::new();
    let node = "nobody".to_string();
    assert_eq!(manager.calculate_node_rewards(&node, 0, u64::MAX).unwrap(), 0);
}

#[test]
fn reward_window_outside_period_is_zero() {
    let mut manager = RewardVaultManager::new();
    manager
        .process_receipt(make_receipt("n1", 0, 100, 1_000, 5, 100, Vec::new()))
        .unwrap();
    let node = "n1".to_string();
    assert_eq!(manager.calculate_node_rewards(&node, 100, 200).unwrap(), 0);
}

#[test]
fn reward_uptime_scales_linearly() {
    let mut manager = RewardVaultManager::new();
    manager
        .process_receipt(make_receipt("n1", 0, 86_400, 10, 0, 50, Vec::new()))
        .unwrap();
    let node = "n1".to_string();
    // base 100*10*1 = 1000, halved by 50% uptime
    assert_eq!(manager.calculate_node_rewards(&node, 0, 86_400).unwrap(), 500);
}

#[test]
fn reward_region_multiplier_applies() {
    let mut manager = RewardVaultManager::new();
    let mut schedule = RewardVaultManager::default_rate_schedule();
    schedule.region_multipliers = vec![("eu".to_string(), 2_000_000)];
    manager.update_rate_schedule(schedule).unwrap();
    manager
        .process_receipt(make_receipt("n1", 0, 86_400, 1, 0, 100, vec!["eu".to_string()]))
        .unwrap();
    let node = "n1".to_string();
    // base 100, doubled by the eu multiplier
    assert_eq!(manager.calculate_node_rewards(&node, 0, 86_400).unwrap(), 200);
}

#[test]
fn reward_unknown_region_multiplier_is_one() {
    let mut manager = RewardVaultManager::new();
    manager
        .process_receipt(make_receipt("n1", 0, 86_400, 1, 0, 100, vec!["mars".to_string()]))
        .unwrap();
    let node = "n1".to_string();
    assert_eq!(manager.calculate_node_rewards(&node, 0, 86_400).unwrap(), 100);
}

#[test]
fn reward_split_windows_sum_within_tolerance() {
    let mut manager = RewardVaultManager::new();
    let mut schedule = RewardVaultManager::default_rate_schedule();
    schedule.retrieval_rate = 0;
    manager.update_rate_schedule(schedule).unwrap();
    // three receipts, one of which spans the split point
    manager
        .process_receipt(make_receipt("n1", 0, 50_000, 7, 0, 93, Vec::new()))
        .unwrap();
    manager
        .process_receipt(make_receipt("n1", 40_000, 120_000, 13, 0, 77, Vec::new()))
        .unwrap();
    manager
        .process_receipt(make_receipt("n1", 90_000, 200_000, 3, 0, 100, Vec::new()))
        .unwrap();
    let node = "n1".to_string();
    let whole = manager.calculate_node_rewards(&node, 0, 200_000).unwrap();
    let left = manager.calculate_node_rewards(&node, 0, 86_400).unwrap();
    let right = manager.calculate_node_rewards(&node, 86_400, 200_000).unwrap();
    assert!(left + right <= whole);
    // every receipt overlaps the split at 86_400 in at most one piece here
    // except the spanning one; three units of truncation per spanning receipt
    assert!(whole <= left + right + 3);
}

#[test]
fn reward_only_overlap_counts() {
    let mut manager = RewardVaultManager::new();
    let mut schedule = RewardVaultManager::default_rate_schedule();
    schedule.retrieval_rate = 0;
    manager.update_rate_schedule(schedule).unwrap();
    manager
        .process_receipt(make_receipt("n1", 0, 172_800, 1, 0, 100, Vec::new()))
        .unwrap();
    let node = "n1".to_string();
    // only one of the receipt's two days falls inside the window
    assert_eq!(manager.calculate_node_rewards(&node, 0, 86_400).unwrap(), 100);
}
