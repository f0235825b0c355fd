//! The cap on integer properties.
use open_world::entity::WorldEntity;
use open_world::stats::{
    check_stats_cap_warn, compute_stats_cap, normalize_entity_stats, stats_over_cap, stats_sum,
};

fn mk_entity(entity_type: &str, name: &str, props: &[(&str, i64)]) -> WorldEntity {
    let mut e = WorldEntity::new(1, entity_type, name, 0, 0);
    for (k, v) in props {
        e.set_int(k, *v);
    }
    e
}

fn scale(v: i64, cap: i128, sum: i128) -> i64 {
    let scale = cap as f64 / sum as f64;
    (v as f64 * scale).round() as i64
}

#[test]
fn cap_formula_basic() {
    assert_eq!(compute_stats_cap(10), 150);
    assert_eq!(compute_stats_cap(100), 600);
    assert_eq!(compute_stats_cap(1), 105);
    assert_eq!(compute_stats_cap(0), 105);
    assert_eq!(compute_stats_cap(-5), 105);
}

#[test]
fn cap_of_the_greatest_power_does_not_overflow() {
    assert_eq!(compute_stats_cap(i64::MAX), 9223372036854775807i128 * 5 + 100);
}

#[test]
fn sum_includes_power_and_uses_signed() {
    let e = mk_entity(
        "character",
        "Tester",
        &[("power", 10), ("morale", 50), ("wealth", 30), ("visibility", -5)],
    );
    assert_eq!(stats_sum(&e), 85);
}

#[test]
fn sum_of_empty_entity_is_zero() {
    let e = mk_entity("character", "Blank", &[]);
    assert_eq!(stats_sum(&e), 0);
}

#[test]
fn under_cap_is_noop() {
    let mut e = mk_entity("character", "Within", &[("power", 10), ("morale", 50), ("wealth", 30)]);
    let result = normalize_entity_stats(&mut e, &scale);
    assert!(result.is_none(), "under-cap entity should not be normalized");
    assert_eq!(e.properties_int.get("power"), Some(&10));
    assert_eq!(e.properties_int.get("morale"), Some(&50));
}

#[test]
fn over_cap_scales_proportionally() {
    let mut e = mk_entity("character", "Over", &[("power", 10), ("morale", 200), ("wealth", 100)]);
    let result = normalize_entity_stats(&mut e, &scale);
    assert!(result.is_some(), "over-cap entity should be normalized");
    let (old_sum, cap) = result.unwrap();
    assert_eq!(old_sum, 310);
    assert_eq!(cap, 150);
    let factor = cap as f64 / old_sum as f64;
    assert!((factor - 0.4838).abs() < 0.001, "scale ≈ 0.4838, got {factor}");
    assert_eq!(stats_sum(&e), cap, "post-normalize sum should equal cap");
    assert_eq!(e.properties_int.get("power"), Some(&5));
    assert_eq!(e.properties_int.get("morale"), Some(&97));
    assert_eq!(e.properties_int.get("wealth"), Some(&48));
}

#[test]
fn normalize_is_sign_preserving() {
    let mut e =
        mk_entity("character", "Mixed", &[("power", 100), ("wealth", 800), ("visibility", -200)]);
    let result = normalize_entity_stats(&mut e, &scale);
    assert!(result.is_some());
    assert!(
        e.properties_int.get("visibility").copied().unwrap() < 0,
        "visibility must stay negative after scaling"
    );
}

#[test]
fn sum_zero_is_noop_not_div_by_zero() {
    let mut e = mk_entity("character", "AllZero", &[("power", 0), ("morale", 0)]);
    let result = normalize_entity_stats(&mut e, &scale);
    assert!(result.is_none(), "zero-sum must be a no-op, not a panic");
}

#[test]
fn power_is_included_in_sum() {
    let mut e =
        mk_entity("faction", "BigFaction", &[("power", 197), ("morale", 900), ("wealth", 200)]);
    let result = normalize_entity_stats(&mut e, &scale);
    assert!(result.is_some(), "197-power entity with 900 morale should be over cap");
    let (old_sum, cap) = result.unwrap();
    assert_eq!(old_sum, 1297);
    assert_eq!(cap, 1085);
    let new_power = e.properties_int.get("power").copied().unwrap();
    assert!(new_power < 197, "power should be scaled down, got {new_power}");
}

#[test]
fn warn_emitted_when_over_cap() {
    let e = mk_entity("character", "Over", &[("power", 10), ("morale", 200), ("wealth", 50)]);
    let mut warnings: Vec<String> = Vec::new();
    check_stats_cap_warn(&e, &mut warnings);
    assert_eq!(warnings.len(), 1);
    assert!(warnings[0].contains("Over"));
    assert!(warnings[0].contains("sum=260"));
    assert!(warnings[0].contains("cap=150"));
    assert!(warnings[0].contains("overage=110"));
    assert_eq!(
        warnings[0],
        "Stats cap exceeded for 'Over': sum=260 > cap=150 (overage=110, cap formula = max(1, 10*5) + 100 = 150). Run `python3 code/normalize_stats.py normalize` to fix."
    );
}

#[test]
fn no_warn_when_under_cap() {
    let e = mk_entity("character", "Fine", &[("power", 10), ("morale", 50), ("wealth", 30)]);
    let mut warnings: Vec<String> = Vec::new();
    check_stats_cap_warn(&e, &mut warnings);
    assert!(warnings.is_empty());
}

#[test]
fn no_warn_at_exact_cap() {
    let e = mk_entity(
        "character",
        "Exactly",
        &[("power", 10), ("morale", 50), ("wealth", 30), ("visibility", 60)],
    );
    let mut warnings: Vec<String> = Vec::new();
    check_stats_cap_warn(&e, &mut warnings);
    assert!(warnings.is_empty(), "sum == cap should not trigger a warning, got: {warnings:?}");
    assert_eq!(stats_over_cap(&e), None);
}

#[test]
fn setting_a_property_moves_the_sum_by_the_difference() {
    let mut e = mk_entity("character", "Sum", &[("a", 7), ("b", i64::MAX), ("c", i64::MAX)]);
    let before = stats_sum(&e);
    e.set_int("a", -3);
    assert_eq!(stats_sum(&e), before - 10);
    assert!(stats_over_cap(&e).is_some());
    e.delete_int("b");
    assert_eq!(stats_sum(&e), -3 + i64::MAX as i128);
}
