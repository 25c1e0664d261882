use reward_vault::manager::{
    DistributionOutcome, DistributionStep, RewardVaultManager, RESULT_CHANNEL_CAPACITY,
};
use reward_vault::queue::{DistributionRequest, DistributionResult};
use reward_vault::ratio::Ratio;
use reward_vault::vault::VaultStatus;

fn recipients_of(raws: &[(&str, u64)]) -> Vec<(String, Ratio)> {
    raws.iter()
        .map(|(n, raw)| (n.to_string(), Ratio::from_raw(*raw).unwrap()))
        .collect()
}

fn create_vault_with_content(
    manager: &mut RewardVaultManager,
    id: &str,
    dist_time: u64,
    now: u64,
) -> Vec<u8> {
    let token = "tok".to_string();
    let recipients = recipients_of(&[("a", 600_000), ("b", 400_000)]);
    let plan = manager
        .plan_reward_vault(1_000, &token, dist_time, &recipients, &vec![7])
        .unwrap();
    assert_eq!(plan.unlock_time, dist_time);
    assert_eq!(plan.post_expiry, dist_time + 30 * 86_400);
    assert_eq!(plan.purpose, "Reward distribution for tok");
    manager
        .create_reward_vault(
            &vec![1, 2],
            1_000,
            &token,
            dist_time,
            recipients,
            vec![7],
            id.to_string(),
            VaultStatus::Pending,
            now,
        )
        .unwrap();
    plan.content_bytes
}

#[test]
fn premature_tick_emits_nothing() {
    let mut manager = RewardVaultManager::new();
    let now = 10_000;
    create_vault_with_content(&mut manager, "v1", now + 3_600, now);
    let ready = manager.take_ready(now + 60);
    assert_eq!(ready.len(), 0);
    let id = "v1".to_string();
    assert_eq!(manager.get_vault(&id).unwrap().status, VaultStatus::Pending);
    // the request is still queued for a later tick
    let later = manager.take_ready(now + 3_600);
    assert_eq!(later.len(), 1);
}

#[test]
fn distribution_time_equal_to_now_is_ready() {
    let mut manager = RewardVaultManager::new();
    create_vault_with_content(&mut manager, "v1", 500, 100);
    let ready = manager.take_ready(500);
    assert_eq!(ready.len(), 1);
}

#[test]
fn queue_keeps_insertion_order() {
    let mut manager = RewardVaultManager::new();
    create_vault_with_content(&mut manager, "v1", 300, 100);
    create_vault_with_content(&mut manager, "v2", 900, 100);
    create_vault_with_content(&mut manager, "v3", 200, 100);
    let ready = manager.take_ready(500);
    assert_eq!(ready.len(), 2);
    assert_eq!(ready[0].vault_id, "v1");
    assert_eq!(ready[1].vault_id, "v3");
    let rest = manager.take_ready(1_000);
    assert_eq!(rest.len(), 1);
    assert_eq!(rest[0].vault_id, "v2");
}

#[test]
fn successful_distribution_claims_and_details() {
    let mut manager = RewardVaultManager::new();
    let content = create_vault_with_content(&mut manager, "v1", 500, 100);
    let ready = manager.take_ready(500);
    assert_eq!(ready.len(), 1);
    let attempt = match manager.begin_distribution(&ready[0], 500) {
        DistributionStep::AttemptUnlock(a) => a,
        DistributionStep::Finished(res) => panic!("expected an unlock attempt, got {:?}", res),
    };
    assert_eq!(attempt.vault_id, "v1");
    assert_eq!(attempt.reference_state_hash, vec![7]);
    let id = "v1".to_string();
    let result = manager.finish_distribution(&id, 500, DistributionOutcome::Claimed(content));
    assert!(result.success);
    assert_eq!(result.vault_id, "v1");
    assert_eq!(result.timestamp, 500);
    assert!(result.error.is_none());
    let details = result.distribution_details.clone().unwrap();
    assert_eq!(details.len(), 2);
    assert_eq!(details[0], ("a".to_string(), 600));
    assert_eq!(details[1], ("b".to_string(), 400));
    assert_eq!(manager.get_vault(&id).unwrap().status, VaultStatus::Claimed);
    assert!(manager.publish_result(result));
    // a second tick sees nothing in the queue, and even a re-queued request
    // ends in a non-success without touching the adapter
    assert_eq!(manager.take_ready(10_000).len(), 0);
    let request = DistributionRequest {
        vault_id: "v1".to_string(),
        reference_state_hash: vec![7],
        timestamp: 500,
    };
    match manager.begin_distribution(&request, 600) {
        DistributionStep::Finished(res) => {
            assert!(!res.success);
            assert!(res.error.is_some());
        },
        DistributionStep::AttemptUnlock(_) => panic!("claimed vault must not be retried"),
    }
    let second = manager.finish_distribution(&id, 600, DistributionOutcome::UnlockDeclined);
    assert!(!second.success);
}

#[test]
fn not_yet_due_request_finishes_without_adapter() {
    let mut manager = RewardVaultManager::new();
    create_vault_with_content(&mut manager, "v1", 900, 100);
    let request = DistributionRequest {
        vault_id: "v1".to_string(),
        reference_state_hash: vec![7],
        timestamp: 900,
    };
    match manager.begin_distribution(&request, 200) {
        DistributionStep::Finished(res) => {
            assert!(!res.success);
            assert_eq!(res.timestamp, 200);
        },
        DistributionStep::AttemptUnlock(_) => panic!("not yet due"),
    }
}

#[test]
fn unknown_vault_finishes_without_adapter() {
    let manager = RewardVaultManager::new();
    let request = DistributionRequest {
        vault_id: "ghost".to_string(),
        reference_state_hash: vec![7],
        timestamp: 0,
    };
    match manager.begin_distribution(&request, 100) {
        DistributionStep::Finished(res) => assert!(!res.success),
        DistributionStep::AttemptUnlock(_) => panic!("unknown vault"),
    }
}

#[test]
fn declined_unlock_leaves_vault_pending() {
    let mut manager = RewardVaultManager::new();
    create_vault_with_content(&mut manager, "v1", 500, 100);
    let id = "v1".to_string();
    let result = manager.finish_distribution(&id, 500, DistributionOutcome::UnlockDeclined);
    assert!(!result.success);
    assert!(result.error.is_some());
    assert!(result.distribution_details.is_none());
    assert_eq!(manager.get_vault(&id).unwrap().status, VaultStatus::Pending);
}

#[test]
fn claim_failure_leaves_vault_pending() {
    let mut manager = RewardVaultManager::new();
    create_vault_with_content(&mut manager, "v1", 500, 100);
    let id = "v1".to_string();
    let result = manager.finish_distribution(
        &id,
        500,
        DistributionOutcome::ClaimFailed("storage unreachable".to_string()),
    );
    assert!(!result.success);
    assert_eq!(result.error.as_deref(), Some("storage unreachable"));
    assert_eq!(manager.get_vault(&id).unwrap().status, VaultStatus::Pending);
    let result2 = manager.finish_distribution(
        &id,
        501,
        DistributionOutcome::UnlockFailed("adapter error".to_string()),
    );
    assert!(!result2.success);
    assert_eq!(manager.get_vault(&id).unwrap().status, VaultStatus::Pending);
}

#[test]
fn malformed_content_is_a_failed_distribution() {
    let mut manager = RewardVaultManager::new();
    create_vault_with_content(&mut manager, "v1", 500, 100);
    let id = "v1".to_string();
    let result = manager.finish_distribution(&id, 500, DistributionOutcome::Claimed(vec![0, 1]));
    assert!(!result.success);
    assert_eq!(manager.get_vault(&id).unwrap().status, VaultStatus::Pending);
}

#[test]
fn result_channel_is_bounded_fifo() {
    let mut manager = RewardVaultManager::new();
    for i in 0..RESULT_CHANNEL_CAPACITY {
        let ok = manager.publish_result(DistributionResult {
            vault_id: format!("v{}", i),
            success: false,
            timestamp: i as u64,
            error: None,
            distribution_details: None,
        });
        assert!(ok);
    }
    let refused = manager.publish_result(DistributionResult {
        vault_id: "overflow".to_string(),
        success: false,
        timestamp: 0,
        error: None,
        distribution_details: None,
    });
    assert!(!refused);
    let first = manager.next_result().unwrap();
    assert_eq!(first.vault_id, "v0");
    let second = manager.next_result().unwrap();
    assert_eq!(second.vault_id, "v1");
}
