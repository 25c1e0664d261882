use reward_vault::errors::EngineError;
use reward_vault::ratio::Ratio;

#[test]
fn ratio_quarter_of_thousand() {
    let r = Ratio::from_raw(250_000).unwrap();
    assert_eq!(r.apply_to(1_000), 250);
}

#[test]
fn ratio_one_applied_to_max_does_not_overflow() {
    let r = Ratio::from_raw(1_000_000).unwrap();
    assert_eq!(r.apply_to(u64::MAX), u64::MAX);
}

#[test]
fn ratio_raw_value_round_trips() {
    let r = Ratio::from_raw(123_456).unwrap();
    assert_eq!(r.raw_value(), 123_456);
}

#[test]
fn ratio_above_one_rejected() {
    assert!(Ratio::from_raw(1_000_001).is_err());
    assert!(Ratio::from_raw(1_000_000).is_ok());
    assert!(Ratio::from_raw(0).is_ok());
}

#[test]
fn ratio_never_exceeds_amount() {
    for raw in [0u64, 1, 333_333, 999_999, 1_000_000] {
        let r = Ratio::from_raw(raw).unwrap();
        for v in [0u64, 1, 7, 1_000, u64::MAX / 3, u64::MAX] {
            assert!(r.apply_to(v) <= v);
        }
    }
}

#[test]
fn ratio_zero_allots_nothing() {
    let r = Ratio::from_raw(0).unwrap();
    assert_eq!(r.apply_to(u64::MAX), 0);
}

#[test]
fn error_kinds_have_their_labels() {
    assert_eq!(
        EngineError::InvalidArgument("x".to_string()).kind_label(),
        "invalid-argument"
    );
    assert_eq!(EngineError::NotFound("x".to_string()).kind_label(), "not-found");
    assert_eq!(
        EngineError::Serialization("x".to_string()).kind_label(),
        "serialization"
    );
    assert_eq!(
        EngineError::DependencyFailure("x".to_string()).kind_label(),
        "dependency-failure"
    );
    assert_eq!(EngineError::Internal.kind_label(), "internal");
}
