use hat_protocol::residue::ModulusInformation;

#[test]
fn test_new_and_none() {
    let r = ModulusInformation::new(5, 3);
    assert_eq!(r.modulus, 5);
    assert_eq!(r.value, 3);
    let n = ModulusInformation::none();
    assert_eq!(n.modulus, 1);
    assert_eq!(n.value, 0);
}

#[test]
fn test_combine_exact() {
    // value' = a.value + a.modulus * b.value, modulus' = min(c, m1 * m2)
    let mut a = ModulusInformation::new(3, 2);
    let b = ModulusInformation::new(4, 1);
    a.combine(b, 20);
    assert_eq!(a.value, 2 + 3 * 1);
    assert_eq!(a.modulus, 12);
}

#[test]
fn test_combine_capped_by_ceiling() {
    let mut a = ModulusInformation::new(2, 0);
    let b = ModulusInformation::new(3, 2);
    a.combine(b, 5);
    assert_eq!(a.value, 0 + 2 * 2);
    // 2 * 3 = 6 exceeds the ceiling 5
    assert_eq!(a.modulus, 5);
}

#[test]
fn test_combine_with_identity() {
    let mut a = ModulusInformation::new(6, 4);
    a.combine(ModulusInformation::none(), 6);
    assert_eq!(a.modulus, 6);
    assert_eq!(a.value, 4);
}

#[test]
fn test_info_remaining_tight() {
    let a = ModulusInformation::new(3, 2);
    let r = a.info_remaining(20);
    assert_eq!(r, (20 - 2 - 1) / 3 + 1);
    assert_eq!(r, 6);
    // a residue of modulus r always fits under the ceiling ...
    assert!(2 + 3 * (r - 1) < 20);
    // ... while one of modulus r + 1 can overflow it
    assert!(2 + 3 * ((r + 1) - 1) >= 20);
}

#[test]
fn test_split_round_trip_dividing() {
    let original = ModulusInformation::new(12, 7);
    let mut high = original;
    let low = high.split(4);
    assert_eq!(low.modulus, 4);
    assert_eq!(low.value, 3);
    assert_eq!(high.modulus, 3);
    assert_eq!(high.value, 1);
    // recombining under the original modulus restores it exactly
    let mut rebuilt = low;
    rebuilt.combine(high, 12);
    assert_eq!(rebuilt.modulus, original.modulus);
    assert_eq!(rebuilt.value, original.value);
}

#[test]
fn test_split_round_trip_non_dividing() {
    let original = ModulusInformation::new(5, 1);
    let mut high = original;
    let low = high.split(2);
    assert_eq!(low.modulus, 2);
    assert_eq!(low.value, 1);
    assert_eq!(high.modulus, 2);
    assert_eq!(high.value, 0);
    let mut rebuilt = low;
    rebuilt.combine(high, 5);
    // the value always comes back exactly ...
    assert_eq!(rebuilt.value, original.value);
    // ... but with a non-dividing split point the modulus lands below the
    // ceiling and needs a final widening
    assert_eq!(rebuilt.modulus, 4);
    rebuilt.cast_up(5);
    assert_eq!(rebuilt.modulus, original.modulus);
    assert_eq!(rebuilt.value, original.value);
}

#[test]
fn test_cast_up_keeps_value() {
    let mut r = ModulusInformation::new(3, 2);
    r.cast_up(7);
    assert_eq!(r.modulus, 7);
    assert_eq!(r.value, 2);
}

#[test]
fn test_add_then_subtract_restores_value() {
    let mut r = ModulusInformation::new(7, 5);
    let other = ModulusInformation::new(7, 4);
    r.add(&other);
    assert_eq!(r.modulus, 7);
    assert_eq!(r.value, (5 + 4) % 7);
    r.subtract(&other);
    assert_eq!(r.modulus, 7);
    assert_eq!(r.value, 5);
}

#[test]
fn test_subtract_wraps_around() {
    let mut r = ModulusInformation::new(6, 1);
    let other = ModulusInformation::new(6, 4);
    r.subtract(&other);
    assert_eq!(r.value, 3);
}
