use reward_vault::manager::RewardVaultManager;
use reward_vault::metrics::StorageMetrics;
use reward_vault::receipt::{verify_receipt, StorageReceipt};

fn canonical_metrics_bytes(m: &StorageMetrics) -> Vec<u8> {
    let mut out = Vec::new();
    out.extend_from_slice(&m.bytes_stored.to_le_bytes());
    out.extend_from_slice(&m.retrievals.to_le_bytes());
    out.extend_from_slice(&m.operations_count.to_le_bytes());
    out.push(m.uptime_percentage);
    out.extend_from_slice(&(m.regions.len() as u64).to_le_bytes());
    for region in &m.regions {
        out.extend_from_slice(&(region.as_bytes().len() as u64).to_le_bytes());
        out.extend_from_slice(region.as_bytes());
    }
    out
}

fn make_receipt(
    node: &str,
    client: &str,
    start: u64,
    end: u64,
    metrics: StorageMetrics,
) -> StorageReceipt {
    let mut preimage = Vec::new();
    preimage.extend_from_slice(node.as_bytes());
    preimage.extend_from_slice(client.as_bytes());
    preimage.extend_from_slice(&start.to_le_bytes());
    preimage.extend_from_slice(&end.to_le_bytes());
    preimage.extend_from_slice(&canonical_metrics_bytes(&metrics));
    let hash = *blake3::hash(&preimage).as_bytes();
    StorageReceipt {
        node_id: node.to_string(),
        client_id: client.to_string(),
        service_period: (start, end),
        storage_metrics: metrics,
        receipt_hash: hash,
        client_signature: vec![1],
        node_signature: vec![2],
    }
}

fn simple_metrics() -> StorageMetrics {
    StorageMetrics {
        bytes_stored: 1,
        retrievals: 0,
        operations_count: 0,
        uptime_percentage: 100,
        regions: Vec::new(),
    }
}

#[test]
fn receipt_hash_reproducible() {
    let receipt = make_receipt("N", "C", 10, 20, simple_metrics());
    assert_eq!(verify_receipt(&receipt).unwrap(), true);
    let mut manager = RewardVaultManager::new();
    assert!(manager.process_receipt(receipt).is_ok());
}

#[test]
fn receipt_hash_mismatch_rejected() {
    let mut receipt = make_receipt("N", "C", 10, 20, simple_metrics());
    receipt.receipt_hash[0] ^= 0xff;
    let e = verify_receipt(&receipt).unwrap_err();
    assert_eq!(e.kind_label(), "invalid-argument");
    let mut manager = RewardVaultManager::new();
    assert!(manager.process_receipt(receipt).is_err());
}

#[test]
fn receipt_content_change_changes_hash() {
    let receipt = make_receipt("N", "C", 10, 20, simple_metrics());
    let mut other_metrics = simple_metrics();
    other_metrics.bytes_stored = 2;
    let other = make_receipt("N", "C", 10, 20, other_metrics);
    assert_ne!(receipt.receipt_hash, other.receipt_hash);
}

#[test]
fn receipt_missing_signature_rejected() {
    let mut receipt = make_receipt("N", "C", 10, 20, simple_metrics());
    receipt.client_signature = Vec::new();
    assert!(verify_receipt(&receipt).is_err());
    let mut receipt2 = make_receipt("N", "C", 10, 20, simple_metrics());
    receipt2.node_signature = Vec::new();
    assert!(verify_receipt(&receipt2).is_err());
}

#[test]
fn receipt_unsorted_regions_rejected() {
    let mut metrics = simple_metrics();
    metrics.regions = vec!["eu".to_string(), "ap".to_string()];
    let receipt = make_receipt("N", "C", 10, 20, metrics);
    assert!(verify_receipt(&receipt).is_err());
}

#[test]
fn receipt_sorted_regions_accepted() {
    let mut metrics = simple_metrics();
    metrics.regions = vec!["ap".to_string(), "eu".to_string()];
    let receipt = make_receipt("N", "C", 10, 20, metrics);
    assert_eq!(verify_receipt(&receipt).unwrap(), true);
}

#[test]
fn receipt_backwards_period_rejected() {
    let receipt = make_receipt("N", "C", 20, 10, simple_metrics());
    assert!(verify_receipt(&receipt).is_err());
}

#[test]
fn receipt_uptime_above_hundred_rejected() {
    let mut metrics = simple_metrics();
    metrics.uptime_percentage = 101;
    let receipt = make_receipt("N", "C", 10, 20, metrics);
    assert!(verify_receipt(&receipt).is_err());
}

#[test]
fn duplicate_receipts_both_recorded() {
    let mut manager = RewardVaultManager::new();
    let r1 = make_receipt("N", "C", 0, 86_400, simple_metrics());
    let r2 = make_receipt("N", "C", 0, 86_400, simple_metrics());
    manager.process_receipt(r1).unwrap();
    manager.process_receipt(r2).unwrap();
    // both copies contribute: the total is twice one receipt's reward
    let node = "N".to_string();
    let total = manager.calculate_node_rewards(&node, 0, 86_400).unwrap();
    assert_eq!(total, 200);
}

#[test]
fn metrics_constructor_canonicalizes_regions() {
    let metrics = reward_vault::metrics::StorageMetrics::new(
        1,
        0,
        0,
        250,
        vec![
            "eu".to_string(),
            "ap".to_string(),
            "eu".to_string(),
            "us".to_string(),
        ],
    );
    assert_eq!(metrics.uptime_percentage, 100);
    assert_eq!(metrics.regions, vec!["ap", "eu", "us"]);
    assert!(metrics.check_canonical());
}
