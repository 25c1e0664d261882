use reward_vault::content::{decode_vault_content, encode_vault_content, VaultContent};
use reward_vault::manager::{validate_recipients, RewardVaultManager};
use reward_vault::ratio::Ratio;
use reward_vault::vault::VaultStatus;

fn recipients_of(raws: &[(&str, u64)]) -> Vec<(String, Ratio)> {
    raws.iter()
        .map(|(n, raw)| (n.to_string(), Ratio::from_raw(*raw).unwrap()))
        .collect()
}

fn create_simple_vault(manager: &mut RewardVaultManager, id: &str, dist_time: u64) {
    let token = "tok".to_string();
    manager
        .create_reward_vault(
            &vec![0xab, 0x01],
            1_000,
            &token,
            dist_time,
            recipients_of(&[("a", 600_000), ("b", 400_000)]),
            vec![9, 9, 9],
            id.to_string(),
            VaultStatus::Pending,
            50,
        )
        .unwrap();
}

#[test]
fn vault_empty_recipients_rejected() {
    let manager = RewardVaultManager::new();
    let token = "tok".to_string();
    let r = manager.plan_reward_vault(1_000, &token, 100, &Vec::new(), &vec![1]);
    assert!(r.is_err());
    assert_eq!(r.unwrap_err().kind_label(), "invalid-argument");
}

#[test]
fn vault_ratio_sum_boundaries() {
    // exactly one is accepted
    assert!(validate_recipients(&recipients_of(&[("a", 600_000), ("b", 400_000)])).is_ok());
    // one raw unit below the tolerance floor is rejected
    assert!(validate_recipients(&recipients_of(&[("a", 589_999), ("b", 400_000)])).is_err());
    // the tolerance bounds themselves are accepted
    assert!(validate_recipients(&recipients_of(&[("a", 590_000), ("b", 400_000)])).is_ok());
    assert!(validate_recipients(&recipients_of(&[("a", 610_000), ("b", 400_000)])).is_ok());
    // just above the ceiling is rejected
    assert!(validate_recipients(&recipients_of(&[("a", 610_001), ("b", 400_000)])).is_err());
}

#[test]
fn vault_duplicate_recipient_rejected() {
    assert!(validate_recipients(&recipients_of(&[("a", 500_000), ("a", 500_000)])).is_err());
}

#[test]
fn vault_failed_creation_leaves_no_trace() {
    let mut manager = RewardVaultManager::new();
    let token = "tok".to_string();
    let r = manager.create_reward_vault(
        &vec![1, 2],
        1_000,
        &token,
        100,
        recipients_of(&[("a", 589_999), ("b", 400_000)]),
        vec![1],
        "v1".to_string(),
        VaultStatus::Pending,
        50,
    );
    assert_eq!(r.unwrap_err().kind_label(), "invalid-argument");
    assert_eq!(manager.get_vaults().unwrap().len(), 0);
    assert_eq!(manager.take_ready(u64::MAX).len(), 0);
}

#[test]
fn vault_creation_records_metadata_and_queues() {
    let mut manager = RewardVaultManager::new();
    create_simple_vault(&mut manager, "v1", 100);
    let id = "v1".to_string();
    let md = manager.get_vault(&id).unwrap();
    assert_eq!(md.vault_id, "v1");
    assert_eq!(md.creator_id, "ab01");
    assert_eq!(md.token_amount, 1_000);
    assert_eq!(md.token_id, "tok");
    assert_eq!(md.created_at, 50);
    assert_eq!(md.distribution_time, 100);
    assert_eq!(md.status, VaultStatus::Pending);
    assert_eq!(md.purpose, "Reward distribution for tok");
    assert_eq!(manager.get_vaults().unwrap().len(), 1);
    let ready = manager.take_ready(100);
    assert_eq!(ready.len(), 1);
    assert_eq!(ready[0].vault_id, "v1");
    assert_eq!(ready[0].timestamp, 100);
    assert_eq!(ready[0].reference_state_hash, vec![9, 9, 9]);
}

#[test]
fn vault_duplicate_id_refused() {
    let mut manager = RewardVaultManager::new();
    create_simple_vault(&mut manager, "v1", 100);
    let token = "tok".to_string();
    let r = manager.create_reward_vault(
        &vec![1],
        5,
        &token,
        200,
        recipients_of(&[("a", 1_000_000)]),
        vec![1],
        "v1".to_string(),
        VaultStatus::Pending,
        60,
    );
    assert_eq!(r.unwrap_err().kind_label(), "internal");
    assert_eq!(manager.get_vaults().unwrap().len(), 1);
}

#[test]
fn vault_missing_lookup_is_not_found() {
    let manager = RewardVaultManager::new();
    let id = "ghost".to_string();
    assert_eq!(manager.get_vault(&id).unwrap_err().kind_label(), "not-found");
}

#[test]
fn vault_status_progresses_only_forward() {
    let mut manager = RewardVaultManager::new();
    create_simple_vault(&mut manager, "v1", 100);
    let id = "v1".to_string();
    manager.update_vault_status(&id, VaultStatus::Claimed).unwrap();
    assert_eq!(manager.get_vault(&id).unwrap().status, VaultStatus::Claimed);
    // a terminal status cannot move back or sideways
    let back = manager.update_vault_status(&id, VaultStatus::Pending);
    assert_eq!(back.unwrap_err().kind_label(), "invalid-argument");
    let sideways = manager.update_vault_status(&id, VaultStatus::Revoked);
    assert!(sideways.is_err());
    assert_eq!(manager.get_vault(&id).unwrap().status, VaultStatus::Claimed);
    // updating an unknown vault is not-found
    let ghost = "ghost".to_string();
    let r = manager.update_vault_status(&ghost, VaultStatus::Claimed);
    assert_eq!(r.unwrap_err().kind_label(), "not-found");
}

#[test]
fn vault_content_round_trips() {
    let content = VaultContent {
        token_amount: 1_000,
        token_id: "tok".to_string(),
        recipients: recipients_of(&[("a", 600_000), ("b", 400_000)]),
        metadata: vec![("k".to_string(), "v".to_string())],
    };
    let bytes = encode_vault_content(&content);
    let decoded = decode_vault_content(&bytes).unwrap();
    assert_eq!(decoded.token_amount, 1_000);
    assert_eq!(decoded.token_id, "tok");
    assert_eq!(decoded.recipients.len(), 2);
    assert_eq!(decoded.recipients[0].0, "a");
    assert_eq!(decoded.recipients[0].1.raw_value(), 600_000);
    assert_eq!(decoded.recipients[1].0, "b");
    assert_eq!(decoded.recipients[1].1.raw_value(), 400_000);
    assert_eq!(decoded.metadata.len(), 1);
    assert_eq!(decoded.metadata[0].0, "k");
    assert_eq!(decoded.metadata[0].1, "v");
}

#[test]
fn vault_content_same_input_same_bytes() {
    let make = || VaultContent {
        token_amount: 7,
        token_id: "t".to_string(),
        recipients: recipients_of(&[("a", 1_000_000)]),
        metadata: Vec::new(),
    };
    assert_eq!(encode_vault_content(&make()), encode_vault_content(&make()));
}

#[test]
fn vault_content_garbage_rejected() {
    let e = decode_vault_content(&[1, 2, 3]).unwrap_err();
    assert_eq!(e.kind_label(), "serialization");
    // trailing bytes are refused too
    let content = VaultContent {
        token_amount: 7,
        token_id: "t".to_string(),
        recipients: recipients_of(&[("a", 1_000_000)]),
        metadata: Vec::new(),
    };
    let mut bytes = encode_vault_content(&content);
    bytes.push(0);
    assert!(decode_vault_content(&bytes).is_err());
    // a ratio above one in the wire bytes is refused
    let mut content_bytes = encode_vault_content(&content);
    // the ratio raw value sits in the last eight bytes of the recipient list
    let n = content_bytes.len();
    content_bytes[n - 16..n - 8].copy_from_slice(&2_000_000u64.to_le_bytes());
    assert!(decode_vault_content(&content_bytes).is_err());
}
