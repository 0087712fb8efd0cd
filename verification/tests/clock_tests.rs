use bnb_rust::clock::time_limit_exceeded;

#[test]
fn zero_time_limit_is_unlimited() {
    assert!(!time_limit_exceeded(0, 0));
    assert!(!time_limit_exceeded(0, 1));
    assert!(!time_limit_exceeded(0, u64::MAX));
}

#[test]
fn time_limit_is_exceeded_only_beyond_it() {
    assert!(!time_limit_exceeded(5, 0));
    assert!(!time_limit_exceeded(5, 4));
    assert!(!time_limit_exceeded(5, 5));
    assert!(time_limit_exceeded(5, 6));
    assert!(time_limit_exceeded(1, 2));
    assert!(time_limit_exceeded(1, u64::MAX));
}
