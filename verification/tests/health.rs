use oxide_federation::Health;

#[test]
fn test_ternary_health_values() {
    assert_eq!(Health::Healthy.as_i8(), 1);
    assert_eq!(Health::Recovering.as_i8(), 0);
    assert_eq!(Health::Offline.as_i8(), -1);
    assert_eq!(Health::from_i8(1), Some(Health::Healthy));
    assert_eq!(Health::from_i8(0), Some(Health::Recovering));
    assert_eq!(Health::from_i8(-1), Some(Health::Offline));
    assert_eq!(Health::from_i8(42), None);
}
