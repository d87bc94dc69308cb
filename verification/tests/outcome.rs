use cache_sim::AccessResult;

#[test]
fn hit_is_true() {
    assert!(bool::from(AccessResult::Hit));
}

#[test]
fn miss_is_false() {
    assert!(!bool::from(AccessResult::Miss));
}

#[test]
fn true_is_hit() {
    assert_eq!(AccessResult::from(true), AccessResult::Hit);
}

#[test]
fn false_is_miss() {
    assert_eq!(AccessResult::from(false), AccessResult::Miss);
}

#[test]
fn into_works_in_both_directions() {
    let hit: bool = AccessResult::Hit.into();
    let miss: bool = AccessResult::Miss.into();
    assert!(hit);
    assert!(!miss);
    let from_true: AccessResult = true.into();
    let from_false: AccessResult = false.into();
    assert_eq!(from_true, AccessResult::Hit);
    assert_eq!(from_false, AccessResult::Miss);
}

#[test]
fn conversion_round_trips() {
    for outcome in [AccessResult::Hit, AccessResult::Miss] {
        assert_eq!(AccessResult::from(bool::from(outcome)), outcome);
    }
    for flag in [true, false] {
        assert_eq!(bool::from(AccessResult::from(flag)), flag);
    }
}
