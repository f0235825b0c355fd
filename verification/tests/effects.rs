//! Effects: bounds, routing, normalization and application.
use open_world::apply::{last_changes, Change, Scaling, Written};
use open_world::apply_all::{
    apply_all_effects, effect_targets, effects_on, find_entity, normalization_weights, EffectsReport,
};
use open_world::double::{float_oversize, whole_number};
use open_world::effects::{
    build_name_index, compute_effect_normalization_cap, effect_delta, effect_weight, int_oversize,
    magnitude_check, parse_effects, unknown_names_notice, Delta, Effect, EffectTarget, EffectValue,
    ParsedEffect, Real, EFFECT_NORMALIZATION_CAP_PCT,
    EFFECT_NORMALIZATION_MAX_AMOUNT, EFFECT_NORMALIZATION_MIN_CAP,
};
use open_world::entity::WorldEntity;
use serde_json::Value;

fn double(f: f64) -> Real {
    Real { bits: f.to_bits(), text: format!("{}", f) }
}

fn value_of(v: &Value) -> EffectValue {
    match v {
        Value::Bool(b) => EffectValue::Bool(*b),
        Value::Number(n) => match n.as_i64() {
            Some(i) => EffectValue::Int { value: i, text: format!("{}", i as f64) },
            None => EffectValue::Float(double(n.as_f64().unwrap())),
        },
        Value::String(s) => EffectValue::Text {
            text: s.clone(),
            reading: s.trim().parse::<f64>().ok().map(double),
            weight: s.trim_start_matches('+').parse::<f64>().ok().map(|f| f.to_bits()),
        },
        _ => EffectValue::Other,
    }
}

fn effect(key: &str, v: Value) -> Effect {
    Effect { key: key.to_string(), value: value_of(&v), shown: format!("{:?}", v) }
}

fn parsed(target: EffectTarget, prop: &str, raw: &str, v: Value) -> ParsedEffect {
    ParsedEffect {
        target,
        prop_name: prop.to_string(),
        raw_key: raw.to_string(),
        value: value_of(&v),
        shown: format!("{:?}", v),
    }
}

fn other(name: &str, id: u128) -> EffectTarget {
    EffectTarget::Other { name: name.to_string(), id }
}

fn sum(a: u64, b: u64) -> Real {
    double(f64::from_bits(a) + f64::from_bits(b))
}

/// The total of the changes and the factor that brings them down to the cap.
fn total_and_scale(power: i64, effects: &Vec<&ParsedEffect>, protected: bool) -> (f64, f64, f64) {
    let cap = compute_effect_normalization_cap(power) as f64 / 100.0;
    let mut total = 0.0;
    for w in normalization_weights(effects, protected) {
        total += f64::from_bits(w).abs();
    }
    let scale = if total > cap && total > 0.0 { cap / total } else { 1.0 };
    (total, scale, cap)
}

fn scaling_for(name: &str, power: i64, effects: &Vec<&ParsedEffect>) -> Scaling {
    let (total, scale, cap) = total_and_scale(power, effects, false);
    if scale == 1.0 {
        return Scaling::identity();
    }
    let mut ints = Vec::new();
    let mut floats = Vec::new();
    for e in effects {
        let (i, f) = match effect_delta(&e.value) {
            Some(Delta::Int(n)) => ((n as f64 * scale).round() as i64, 0.0),
            Some(Delta::Float(r)) => (0, f64::from_bits(r.bits) * scale),
            _ => (0, 0.0),
        };
        ints.push(i);
        floats.push(double(f));
    }
    Scaling {
        notice: Some(format!(
            "Effects normalized on '{}': total |Δ|={:.3} exceeds cap {:.3}; scaled by {:.4}.",
            name, total, cap, scale
        )),
        ints,
        floats,
    }
}

fn run(
    entities: &mut Vec<WorldEntity>,
    actor_id: u128,
    effects: &Vec<ParsedEffect>,
    warnings: &mut Vec<String>,
) -> EffectsReport {
    let mut scalings = Vec::new();
    for id in effect_targets(effects, actor_id) {
        let landed = effects_on(effects, actor_id, id);
        scalings.push(match find_entity(entities, id) {
            Some(i) => scaling_for(
                &entities[i].name,
                entities[i].properties_int.get_or_zero("power"),
                &landed,
            ),
            None => Scaling::identity(),
        });
    }
    apply_all_effects(entities, actor_id, effects, &scalings, &sum, warnings)
}

fn entity(id: u128, kind: &str, name: &str) -> WorldEntity {
    WorldEntity::new(id, kind, name, 0.0f64.to_bits(), 0.0f64.to_bits())
}

fn get(entities: &Vec<WorldEntity>, id: u128) -> &WorldEntity {
    &entities[find_entity(entities, id).unwrap()]
}

fn written_int(changes: &[Change], prop: &str) -> Option<i64> {
    let mut found = None;
    for c in changes {
        if c.prop_name == prop {
            if let Written::Int { new, .. } = &c.written {
                found = Some(*new);
            }
        }
    }
    found
}

fn written_to(report: &EffectsReport, name: &str, prop: &str) -> Option<i64> {
    let mut found = None;
    for o in &report.others {
        if o.name == name {
            found = written_int(&o.changes, prop);
        }
    }
    found
}

const KIRA: u128 = 11;
const MIRA: u128 = 22;
const FOREST: u128 = 33;

fn make_test_world() -> Vec<WorldEntity> {
    vec![
        entity(KIRA, "hero", "Kira Dawnblade"),
        entity(MIRA, "merchant", "Mira the Merchant"),
        entity(FOREST, "location", "Whisperwood Forest"),
    ]
}

fn mk(pairs: &[(&str, f64)]) -> Vec<Effect> {
    let mut out = Vec::new();
    for (k, v) in pairs {
        out.push(effect(k, Value::from(*v)));
    }
    out
}

fn route(effects: &Vec<Effect>) -> (Vec<ParsedEffect>, Vec<String>) {
    let names = build_name_index(&make_test_world());
    parse_effects(effects, KIRA, "Kira Dawnblade", &names)
}

// ---------------------------------------------------------------------------
// Bounds
// ---------------------------------------------------------------------------
#[test]
fn magnitude_check_accepts_normal_values() {
    assert!(magnitude_check(&value_of(&Value::from(5))).is_none());
    assert!(magnitude_check(&value_of(&Value::from(-12.5))).is_none());
    assert!(magnitude_check(&value_of(&Value::from("+3"))).is_none());
    assert!(magnitude_check(&value_of(&Value::from("42"))).is_none());
    assert!(magnitude_check(&value_of(&Value::from(0))).is_none());
}

#[test]
fn magnitude_check_rejects_huge_deltas() {
    let r = magnitude_check(&value_of(&Value::from(1e18)));
    assert!(r.is_some(), "1e18 must be rejected");
    assert!(r.unwrap().contains("MAX_DELTA_ABS"));
}

#[test]
fn magnitude_check_rejects_string_deltas() {
    assert!(magnitude_check(&value_of(&Value::from("9999999999"))).is_some());
}

#[test]
fn magnitude_check_rejects_nan_and_inf() {
    let r = magnitude_check(&value_of(&Value::from(1e308)));
    assert!(r.is_some(), "huge finite values are still rejected by the delta cap");
    let inf = magnitude_check(&value_of(&Value::from("inf")));
    assert_eq!(inf.unwrap(), "non-finite value (inf)");
    let nan = magnitude_check(&value_of(&Value::from("NaN")));
    assert_eq!(nan.unwrap(), "non-finite value (NaN)");
}

#[test]
fn magnitude_check_boundary_is_inclusive() {
    assert!(magnitude_check(&value_of(&Value::from(1_000_000))).is_none());
    assert!(magnitude_check(&value_of(&Value::from(-1_000_000))).is_none());
    assert_eq!(
        magnitude_check(&value_of(&Value::from(1_000_001))).unwrap(),
        "|1000001| > MAX_DELTA_ABS (1000000)"
    );
    assert!(magnitude_check(&value_of(&Value::from(-1_000_000.5))).is_some());
    assert!(magnitude_check(&value_of(&Value::from(true))).is_none());
    assert!(magnitude_check(&value_of(&Value::Null)).is_none());
}

#[test]
fn int_oversize_classifies() {
    assert!(!int_oversize(0));
    assert!(!int_oversize(999_999_999));
    assert!(int_oversize(1_000_000_001));
    assert!(int_oversize(-1_000_000_001));
}

#[test]
fn int_oversize_at_the_ends() {
    assert!(!int_oversize(1_000_000_000));
    assert!(!int_oversize(-1_000_000_000));
    assert!(int_oversize(i64::MIN));
    assert!(int_oversize(i64::MAX));
}

#[test]
fn float_oversize_classifies() {
    assert!(!float_oversize((0.0f64).to_bits()));
    assert!(!float_oversize((1.0e9f64 - 1.0).to_bits()));
    assert!(float_oversize((1.0e9f64 + 1.0).to_bits()));
    assert!(float_oversize(f64::INFINITY.to_bits()));
}

#[test]
fn float_oversize_agrees_with_doubles() {
    for f in [
        -0.0, 1.0e9, -1.0e9, 1.0e9 + 0.5, -1.0e9 - 0.5, 5e-324, f64::MIN, f64::NAN, f64::NEG_INFINITY,
        123.456,
    ] {
        let expected = !f.is_finite() || f.abs() > 1.0e9;
        assert_eq!(float_oversize(f.to_bits()), expected, "{}", f);
    }
}

#[test]
fn whole_numbers_of_doubles() {
    for f in [
        0.0, -0.0, 1.0, -1.0, 0.5, 1.5, 2.0, 1e3, -1e3, 123456789.0, 999999999999999.0, 1e15, -1e15,
        1e14 + 0.5, 5e-324, f64::NAN, f64::INFINITY, 4503599627370497.0,
    ] {
        let expected: Option<i64> =
            if f.fract() == 0.0 && f.abs() < 1e15 { Some(f as i64) } else { None };
        assert_eq!(whole_number(f.to_bits()), expected, "{}", f);
    }
}

// ---------------------------------------------------------------------------
// Routing
// ---------------------------------------------------------------------------
#[test]
fn parse_effects_self_prefix_is_actor() {
    let (parsed, unknown) = route(&mk(&[("self.morale", 1.0)]));
    assert_eq!(parsed.len(), 1);
    assert_eq!(parsed[0].target, EffectTarget::Actor);
    assert_eq!(parsed[0].prop_name, "morale");
    assert_eq!(parsed[0].raw_key, "self.morale");
    assert!(unknown.is_empty());
}

#[test]
fn parse_effects_actor_literal_name_is_actor() {
    let (parsed, unknown) = route(&mk(&[("Kira Dawnblade.morale", 2.0)]));
    assert_eq!(parsed.len(), 1);
    assert_eq!(parsed[0].target, EffectTarget::Actor);
    assert_eq!(parsed[0].prop_name, "morale");
    assert!(unknown.is_empty());
}

#[test]
fn parse_effects_other_entity_resolves_by_name() {
    let (parsed, unknown) = route(&mk(&[("Mira the Merchant.wealth", -2.0)]));
    assert_eq!(parsed.len(), 1);
    assert_eq!(parsed[0].target, other("Mira the Merchant", MIRA));
    assert_eq!(parsed[0].prop_name, "wealth");
    assert!(unknown.is_empty());
}

#[test]
fn parse_effects_unknown_entity_name_collected() {
    let (parsed, unknown) = route(&mk(&[("Miar the Merchant.wealth", -1.0)]));
    assert!(parsed.is_empty(), "unknown-name effect must be skipped, not parsed");
    assert_eq!(unknown, vec!["Miar the Merchant".to_string()]);
}

#[test]
fn parse_effects_case_sensitive() {
    let (parsed, unknown) = route(&mk(&[("mira the merchant.wealth", -1.0)]));
    assert!(parsed.is_empty());
    assert_eq!(unknown, vec!["mira the merchant".to_string()]);
}

#[test]
fn parse_effects_no_dot_is_actor() {
    let (parsed, unknown) = route(&mk(&[("morale", 1.0)]));
    assert_eq!(parsed.len(), 1);
    assert_eq!(parsed[0].target, EffectTarget::Actor);
    assert_eq!(parsed[0].prop_name, "morale");
    assert_eq!(parsed[0].raw_key, "morale");
    assert!(unknown.is_empty());
}

#[test]
fn parse_effects_mixed_self_other_unknown_garbage() {
    let mut effects = mk(&[
        ("self.morale", 1.0),
        ("Kira Dawnblade.power", 2.0),
        ("Mira the Merchant.wealth", -2.0),
        ("Whisperwood Forest.knowledge", 3.0),
        ("Miar the Merchant.wealth", -1.0),
    ]);
    effects.push(effect("self.power", Value::from(1e18)));
    let (parsed, unknown) = route(&effects);
    assert_eq!(parsed.len(), 5, "all 5 known-name effects parsed; unknown skipped");
    assert_eq!(unknown, vec!["Miar the Merchant".to_string()]);
    let actor_count = parsed.iter().filter(|p| p.target == EffectTarget::Actor).count();
    let other_count =
        parsed.iter().filter(|p| matches!(p.target, EffectTarget::Other { .. })).count();
    assert_eq!(actor_count, 3, "self.morale + literal name + garbage = 3 Actor");
    assert_eq!(other_count, 2, "Mira + Whisperwood = 2 Other");
    let other_ids: std::collections::HashSet<u128> = parsed
        .iter()
        .filter_map(|p| match p.target {
            EffectTarget::Other { id, .. } => Some(id),
            _ => None,
        })
        .collect();
    assert!(other_ids.contains(&MIRA));
    assert!(other_ids.contains(&FOREST));
}

#[test]
fn keys_are_split_at_the_first_dot() {
    let (parsed, unknown) = route(&mk(&[("self.a.b", 1.0), ("self.", 1.0), (".x", 1.0), ("x.y", 1.0), ("x.z", 1.0)]));
    assert_eq!(parsed.len(), 2);
    assert_eq!(parsed[0].prop_name, "a.b");
    assert_eq!(parsed[1].prop_name, "");
    assert_eq!(parsed[1].raw_key, "self.");
    assert_eq!(unknown, vec!["".to_string(), "x".to_string()]);
}

#[test]
fn the_last_of_two_names_wins() {
    let mut world = make_test_world();
    world.push(entity(44, "merchant", "Mira the Merchant"));
    let names = build_name_index(&world);
    assert_eq!(names.get("Mira the Merchant"), Some(&44));
    assert_eq!(names.get("Nobody"), None);
}

#[test]
fn unknown_names_are_listed_with_quotes() {
    let names = vec!["Miar".to_string(), "a \"b\"".to_string()];
    assert_eq!(
        unknown_names_notice(&names, "effect(s)").unwrap(),
        "Unknown entity names in effects (2 effect(s) skipped):\n  - \"Miar\" (no entity with that exact name; check spelling and case)\n  - \"a \\\"b\\\"\" (no entity with that exact name; check spelling and case)"
    );
    assert_eq!(unknown_names_notice(&Vec::new(), "name(s)"), None);
}

#[test]
fn values_are_read_as_the_kind_they_are() {
    let int = |v: Value| match effect_delta(&value_of(&v)) {
        Some(Delta::Int(n)) => Some(n),
        _ => None,
    };
    assert_eq!(int(Value::from(true)), Some(1));
    assert_eq!(int(Value::from(false)), Some(0));
    assert_eq!(int(Value::from(-7)), Some(-7));
    assert_eq!(int(Value::from(" +5 ")), Some(5));
    assert_eq!(int(Value::from("1e3")), Some(1000));
    assert_eq!(int(Value::from("5.0")), None);
    assert!(matches!(effect_delta(&value_of(&Value::from("5.0"))), Some(Delta::Float(_))));
    assert!(matches!(effect_delta(&value_of(&Value::from(1.0))), Some(Delta::Float(_))));
    match effect_delta(&value_of(&Value::from("  calm  "))) {
        Some(Delta::Text(t)) => assert_eq!(t, "calm"),
        _ => panic!("expected a text"),
    }
    assert!(effect_delta(&value_of(&Value::Null)).is_none());
}

// ---------------------------------------------------------------------------
// Normalization
// ---------------------------------------------------------------------------
fn scale_of(power: i64, effects: &Vec<Effect>, protected: bool) -> (f64, f64) {
    let (parsed, _) = route(effects);
    let all: Vec<&ParsedEffect> = parsed.iter().collect();
    let (total, scale, _) = total_and_scale(power, &all, protected);
    (total, scale)
}

#[test]
fn actor_normalization_scale_excludes_other_effects() {
    let effects = mk(&[
        ("self.morale", 5.0),
        ("Mira the Merchant.wealth", -8.0),
        ("Whisperwood Forest.knowledge", 20.0),
    ]);
    let (parsed, _) = route(&effects);
    let own = effects_on(&parsed, KIRA, KIRA);
    let (total, scale, _) = total_and_scale(100, &own, false);
    assert!((total - 5.0).abs() < 1e-9, "actor total should be 5.0, got {total}");
    assert!((scale - 1.0).abs() < 1e-9, "actor scale should be 1.0, got {scale}");
}

#[test]
fn normalization_no_scale_when_under_cap() {
    let (_, s) = scale_of(100, &mk(&[("power", 2.0), ("morale", 3.0)]), false);
    assert!((s - 1.0).abs() < 1e-9, "expected no scale, got {s}");
}

#[test]
fn normalization_scales_down_proportionally_when_over_cap() {
    let (_, s) = scale_of(1000, &mk(&[("power", 50.0), ("morale", 80.0)]), false);
    let expected = 110.0 / 130.0;
    assert!((s - expected).abs() < 1e-9, "expected scale {expected}, got {s}");
    let new_total: f64 = 50.0 * s + 80.0 * s;
    assert!((new_total - 110.0).abs() < 1e-6, "post-scale total should equal cap, got {new_total}");
}

#[test]
fn normalization_negatives_count_as_positive() {
    let (_, s) = scale_of(100, &mk(&[("power", -15.0), ("morale", -10.0)]), false);
    let expected = 20.0 / 25.0;
    assert!((s - expected).abs() < 1e-9, "expected scale {expected}, got {s}");
}

#[test]
fn normalization_power_zero_uses_floor_ten() {
    let (_, s) = scale_of(0, &mk(&[("power", 0.4), ("morale", 0.4)]), false);
    assert!((s - 1.0).abs() < 1e-9, "expected no scale, got {s}");
}

#[test]
fn normalization_power_zero_over_cap_scales_to_eleven() {
    let (_, s) = scale_of(0, &mk(&[("power", 7.0), ("morale", 6.0)]), false);
    let expected = 11.0 / 13.0;
    assert!((s - expected).abs() < 1e-9, "expected scale {expected}, got {s}");
    let new_total: f64 = 7.0 * s + 6.0 * s;
    assert!((new_total - 11.0).abs() < 1e-6, "post-scale total should equal cap, got {new_total}");
}

#[test]
fn normalization_mixed_signs_treated_as_magnitudes() {
    let (_, s) = scale_of(200, &mk(&[("power", 20.0), ("morale", -15.0)]), false);
    let expected = 30.0 / 35.0;
    assert!((s - expected).abs() < 1e-9, "expected scale {expected}, got {s}");
}

#[test]
fn normalization_max_amount_term_gives_low_power_room() {
    let (_, s) = scale_of(0, &mk(&[("morale", 7.0), ("power", 4.0)]), false);
    assert!((s - 1.0).abs() < 1e-9, "11 should fit exactly in cap of 11, got {s}");
    let (_, s2) = scale_of(0, &mk(&[("morale", 8.0), ("power", 4.0)]), false);
    let expected2 = 11.0 / 12.0;
    assert!((s2 - expected2).abs() < 1e-9, "expected scale {expected2}, got {s2}");
}

#[test]
fn normalization_protected_entity_skips_all_effects() {
    let (_, s) = scale_of(100, &mk(&[("power", 1000.0), ("morale", 5000.0)]), true);
    assert!((s - 1.0).abs() < 1e-9);
}

#[test]
fn normalization_oversize_deltas_excluded_from_total() {
    let mut eff = mk(&[("power", 5.0)]);
    eff.push(effect("evil", Value::from(1e18)));
    let (_, s) = scale_of(100, &eff, false);
    assert!((s - 1.0).abs() < 1e-9, "1e18 must be excluded; expected no scale, got {s}");
}

#[test]
fn normalization_garbage_does_not_drag_sibling_to_zero() {
    let mut eff = mk(&[("morale", 1.0)]);
    eff.push(effect("evil", Value::from(1e18)));
    let (total, scale) = scale_of(100, &eff, false);
    assert!((total - 1.0).abs() < 1e-9, "total should be 1.0 (garbage excluded), got {total}");
    assert!((scale - 1.0).abs() < 1e-9, "scale should be 1.0, got {scale}");
    let mut eff2 = mk(&[("morale", 2.0)]);
    eff2.push(effect("evil", Value::from("not a number")));
    let (total2, scale2) = scale_of(100, &eff2, false);
    assert!((total2 - 2.0).abs() < 1e-9, "non-numeric garbage excluded; got total={total2}");
    assert!((scale2 - 1.0).abs() < 1e-9);
}

#[test]
fn normalization_constant_values_are_pickable() {
    assert!((EFFECT_NORMALIZATION_CAP_PCT as f64 / 100.0 - 0.10).abs() < 1e-9);
    assert!((EFFECT_NORMALIZATION_MAX_AMOUNT as f64 - 10.0).abs() < 1e-9);
    assert!((EFFECT_NORMALIZATION_MIN_CAP as f64 - 1.0).abs() < 1e-9);
}

#[test]
fn weights_of_values() {
    let w = |v: Value| effect_weight(&value_of(&v)).map(f64::from_bits);
    assert_eq!(w(Value::from(5)), Some(5.0));
    assert_eq!(w(Value::from("+5")), Some(5.0));
    assert_eq!(w(Value::from(" 5")), None);
    assert_eq!(w(Value::from(1e18)), None);
    assert_eq!(w(Value::from(true)), None);
    assert_eq!(w(Value::from("calm")), None);
}

// ---------------------------------------------------------------------------
// Application
// ---------------------------------------------------------------------------
fn make_two_entity_world() -> Vec<WorldEntity> {
    let mut actor = entity(KIRA, "hero", "Kira Dawnblade");
    actor.set_int("power", 100);
    actor.set_int("morale", 50);
    let mut mira = entity(MIRA, "merchant", "Mira the Merchant");
    mira.set_int("power", 50);
    mira.set_int("wealth", 100);
    vec![actor, mira]
}

fn on_mira(prop: &str, v: Value) -> ParsedEffect {
    parsed(other("Mira the Merchant", MIRA), prop, &format!("Mira the Merchant.{prop}"), v)
}

fn on_self(prop: &str, v: Value) -> ParsedEffect {
    parsed(EffectTarget::Actor, prop, &format!("self.{prop}"), v)
}

#[test]
fn cross_entity_effect_applies_to_named_target() {
    let mut world = make_two_entity_world();
    let effects = vec![on_mira("wealth", Value::from(-5))];
    let mut warnings = Vec::new();
    let report = run(&mut world, KIRA, &effects, &mut warnings);
    assert!(report.actor.is_empty(), "actor should have no applied effects");
    assert_eq!(get(&world, MIRA).properties_int.get("wealth"), Some(&95));
    assert_eq!(report.others.len(), 1);
    assert_eq!(report.others[0].name, "Mira the Merchant");
    assert_eq!(written_to(&report, "Mira the Merchant", "wealth"), Some(95));
    assert!(warnings.is_empty(), "no warnings expected, got: {warnings:?}");
}

#[test]
fn actor_and_cross_entity_effects_both_apply() {
    let mut world = make_two_entity_world();
    let effects = vec![on_self("morale", Value::from(5)), on_mira("wealth", Value::from(10))];
    let mut warnings = Vec::new();
    let report = run(&mut world, KIRA, &effects, &mut warnings);
    assert_eq!(get(&world, KIRA).properties_int.get("morale"), Some(&55));
    assert_eq!(written_int(&report.actor, "morale"), Some(55));
    assert_eq!(get(&world, MIRA).properties_int.get("wealth"), Some(&110));
    assert_eq!(written_to(&report, "Mira the Merchant", "wealth"), Some(110));
}

#[test]
fn cross_entity_target_system_entity_is_rejected() {
    let mut actor = entity(KIRA, "hero", "Kira Dawnblade");
    actor.set_int("power", 100);
    let clock_id: u128 = 77;
    let clock = entity(clock_id, "world_clock", "World Clock");
    assert!(clock.is_system_entity());
    let mut world = vec![actor, clock];
    let clock_before = get(&world, clock_id).properties_int.get_or_zero("history_entries");
    let effects = vec![parsed(
        other("World Clock", clock_id),
        "history_entries",
        "World Clock.history_entries",
        Value::from(1.0),
    )];
    let mut warnings = Vec::new();
    let report = run(&mut world, KIRA, &effects, &mut warnings);
    assert!(report.actor.is_empty());
    assert!(report.others.iter().all(|o| o.name != "World Clock"));
    let clock_after = get(&world, clock_id).properties_int.get_or_zero("history_entries");
    assert_eq!(clock_before, clock_after, "system-entity write must be rejected");
    let w = warnings
        .iter()
        .find(|w| w.contains("Skipped effect on abstract/system entity"))
        .expect("expected a warning");
    assert!(w.contains("'World Clock'"), "warning should name the entity: {w}");
    assert!(w.contains("'history_entries'"), "warning should name the property: {w}");
    assert!(w.contains("Number(1.0)") || w.contains("1.0"), "the change value: {w}");
    assert!(w.contains("abstract entities are write-protected"));
}

#[test]
fn cross_entity_per_target_normalization_uses_target_power() {
    let mut world = make_two_entity_world();
    let effects = vec![on_mira("wealth", Value::from(20))];
    let mut warnings = Vec::new();
    let _ = run(&mut world, KIRA, &effects, &mut warnings);
    assert_eq!(
        get(&world, MIRA).properties_int.get("wealth"),
        Some(&115),
        "cross-entity effect should scale to target's cap of 15 (not actor's cap of 20)"
    );
    assert!(
        warnings.iter().any(|w| w.contains("Effects normalized on 'Mira the Merchant'")),
        "expected per-target 'Effects normalized' warning, got: {warnings:?}"
    );
}

#[test]
fn cross_entity_garbage_value_does_not_drag_sibling_to_zero() {
    let mut world = make_two_entity_world();
    let effects = vec![
        on_mira("wealth", Value::from(5)),
        on_mira("evil_garbage", Value::from(1e18)),
    ];
    let mut warnings = Vec::new();
    let _ = run(&mut world, KIRA, &effects, &mut warnings);
    let mira = get(&world, MIRA);
    assert_eq!(mira.properties_int.get("wealth"), Some(&105));
    assert!(!mira.properties_int.contains_key("evil_garbage"), "garbage must not be written");
    assert!(!mira.properties_float.contains_key("evil_garbage"));
    assert!(
        warnings.iter().any(|w| w.contains("evil_garbage") || w.contains("MAX_DELTA_ABS")),
        "expected a magnitude-rejection warning: {warnings:?}"
    );
}

#[test]
fn kinds_of_properties_do_not_mix() {
    let mut world = make_two_entity_world();
    world[0].set_float("mana", 1.5f64.to_bits());
    world[0].set_string("mood", "calm");
    let effects = vec![
        on_self("mana", Value::from(1)),
        on_self("mood", Value::from(1)),
        on_self("morale", Value::from(0.5)),
        on_self("mood", Value::from(0.25)),
        on_self("morale", Value::from("sad")),
        on_self("mana", Value::from("sad")),
    ];
    let mut warnings = Vec::new();
    let report = run(&mut world, KIRA, &effects, &mut warnings);
    assert!(report.actor.is_empty());
    assert_eq!(
        warnings,
        vec![
            "Type mismatch: 'mana' is float, tried to set int (1). Skipped.",
            "Type mismatch: 'mood' is string, tried to set int (1). Skipped.",
            "Type mismatch: 'morale' is int, tried to set float (0.5). Skipped.",
            "Type mismatch: 'mood' is string, tried to set float (0.25). Skipped.",
            "Type mismatch: 'morale' is int, tried to set string value=\"sad\". Skipped.",
            "Type mismatch: mana is float, tried to set string (val=\"sad\"). Skipped.",
        ]
    );
}

#[test]
fn floats_and_texts_are_written() {
    let mut world = make_two_entity_world();
    let effects = vec![
        on_self("mana", Value::from(1.5)),
        on_self("mana", Value::from(2.25)),
        on_self("mood", Value::from(" brave ")),
    ];
    let mut warnings = Vec::new();
    let report = run(&mut world, KIRA, &effects, &mut warnings);
    assert!(warnings.is_empty(), "{warnings:?}");
    assert_eq!(report.actor.len(), 3);
    assert_eq!(world[0].properties_float.get("mana"), Some(&3.75f64.to_bits()));
    assert_eq!(world[0].properties_string.get("mood").unwrap(), "brave");
    match &report.actor[1].written {
        Written::Float { old, new } => {
            assert_eq!(f64::from_bits(*old), 1.5);
            assert_eq!(f64::from_bits(new.bits), 3.75);
        }
        _ => panic!("expected a float"),
    }
}

#[test]
fn writes_out_of_bounds_are_skipped() {
    let mut world = make_two_entity_world();
    world[0].set_int("gold", 999_999_999);
    world[0].set_int("debt", i64::MAX);
    world[0].set_float("mana", 999_999_999.5f64.to_bits());
    let effects = vec![
        on_self("gold", Value::from(5)),
        on_self("debt", Value::from(3)),
        on_self("mana", Value::from(2.5)),
    ];
    let mut warnings = Vec::new();
    let report = run(&mut world, KIRA, &effects, &mut warnings);
    assert!(report.actor.is_empty());
    assert_eq!(world[0].properties_int.get("gold"), Some(&999_999_999));
    assert_eq!(world[0].properties_int.get("debt"), Some(&i64::MAX));
    assert_eq!(world[0].properties_float.get("mana"), Some(&999_999_999.5f64.to_bits()));
    assert_eq!(
        warnings[0],
        "Skipped oversize int write on 'gold': new_val=1000000004 (|val| > 1000000000)"
    );
    assert_eq!(
        warnings[1],
        "Integer overflow on 'debt' (old=9223372036854775807, delta=3); skipped"
    );
    assert_eq!(warnings[2], "Skipped oversize float write on 'mana': new_val=1000000002");
}

#[test]
fn overflow_is_refused_both_ways() {
    let mut world = make_two_entity_world();
    world[0].set_int("up", i64::MAX);
    world[0].set_int("down", i64::MIN);
    let effects = vec![on_self("up", Value::from(5)), on_self("down", Value::from(-5))];
    let mut warnings = Vec::new();
    let report = run(&mut world, KIRA, &effects, &mut warnings);
    assert!(report.actor.is_empty());
    assert_eq!(world[0].properties_int.get("up"), Some(&i64::MAX));
    assert_eq!(world[0].properties_int.get("down"), Some(&i64::MIN));
    assert_eq!(
        warnings,
        vec![
            "Integer overflow on 'up' (old=9223372036854775807, delta=5); skipped".to_string(),
            "Integer overflow on 'down' (old=-9223372036854775808, delta=-5); skipped".to_string(),
        ]
    );
}

#[test]
fn effects_without_a_target_property_are_skipped() {
    let mut world = make_two_entity_world();
    let effects = vec![
        parsed(EffectTarget::Actor, "", "self.", Value::from(1)),
        on_self("last_processed_other_tick", Value::from(1)),
        on_self("odd", Value::Null),
    ];
    let mut warnings = Vec::new();
    let report = run(&mut world, KIRA, &effects, &mut warnings);
    assert!(report.actor.is_empty());
    assert_eq!(warnings[0], "Empty property name in effect 'self.'; skipped");
    assert_eq!(
        warnings[1],
        "Skipped effect on internal/operator-only property 'last_processed_other_tick' (entity='Kira Dawnblade', reason='LLM-emit effects cannot write to internal properties; use the per-property PUT endpoint to override')"
    );
    assert_eq!(warnings[2], "Unsupported effect type for 'self.odd': Null");
}

#[test]
fn tagged_meta_entities_are_protected_too() {
    let mut world = make_two_entity_world();
    world[1].add_tag("meta");
    let effects = vec![on_mira("wealth", Value::from(5)), on_mira("power", Value::from(1))];
    let mut warnings = Vec::new();
    let _ = run(&mut world, KIRA, &effects, &mut warnings);
    assert_eq!(warnings.len(), 2);
    assert_eq!(
        warnings[0],
        "Skipped effect on abstract/system entity 'Mira the Merchant' (entity_type=merchant, reason='system entities are protected'): property='wealth', value=Number(5)"
    );
    assert_eq!(get(&world, MIRA).properties_int.get("wealth"), Some(&100));
}

#[test]
fn effects_on_missing_entities_are_dropped() {
    let mut world = make_two_entity_world();
    let effects = vec![parsed(other("Ghost", 99), "x", "Ghost.x", Value::from(1))];
    let mut warnings = Vec::new();
    let report = run(&mut world, KIRA, &effects, &mut warnings);
    assert!(report.actor.is_empty() && report.others.is_empty());
    assert!(warnings.is_empty());
}

#[test]
fn targets_come_in_the_order_of_their_ids() {
    let effects = vec![
        parsed(other("c", 33), "x", "c.x", Value::from(1)),
        on_self("y", Value::from(1)),
        parsed(other("c", 33), "z", "c.z", Value::from(1)),
        on_mira("w", Value::from(1)),
    ];
    assert_eq!(effect_targets(&effects, KIRA), vec![KIRA, MIRA, FOREST]);
    let landed = effects_on(&effects, KIRA, FOREST);
    assert_eq!(landed.len(), 2);
    assert_eq!(landed[0].prop_name, "x");
    assert_eq!(landed[1].prop_name, "z");
}

#[test]
fn the_last_change_of_a_property_counts() {
    let change = |name: &str, new: i64| Change {
        prop_name: name.to_string(),
        written: Written::Int { old: 0, new },
        warnings: 0,
    };
    let all = vec![change("gold", 1), change("power", 2), change("gold", 3)];
    assert_eq!(last_changes(&all), vec![1, 2]);
    assert_eq!(last_changes(&Vec::new()), Vec::<usize>::new());
}

#[test]
fn the_cap_is_a_share_of_power_and_an_amount() {
    assert_eq!(compute_effect_normalization_cap(0), 1100);
    assert_eq!(compute_effect_normalization_cap(-50), 1100);
    assert_eq!(compute_effect_normalization_cap(10), 1100);
    assert_eq!(compute_effect_normalization_cap(11), 1110);
    assert_eq!(compute_effect_normalization_cap(100), 2000);
    assert_eq!(compute_effect_normalization_cap(i64::MAX), 92233720368547758070i128 + 1000);
}
