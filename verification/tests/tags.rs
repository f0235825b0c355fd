//! The tags that follow from properties.
use open_world::apply::Scaling;
use open_world::apply_all::{apply_all_effects, find_entity, EffectsReport, TagToggle};
use open_world::effects::{EffectTarget, EffectValue, ParsedEffect, Real};
use open_world::entity::WorldEntity;
use open_world::tag_rules::{
    tag_notice, update_corrupted_tag, update_hidden_tag, TagUpdate, CORRUPTED_TAG, HIDDEN_TAG,
};

const ACTOR: u128 = 1;
const MIRA: u128 = 2;

fn double(f: f64) -> Real {
    Real { bits: f.to_bits(), text: format!("{}", f) }
}

fn sum(a: u64, b: u64) -> Real {
    double(f64::from_bits(a) + f64::from_bits(b))
}

fn with_props(id: u128, name: &str, props: &[(&str, i64)], tags: &[&str]) -> WorldEntity {
    let mut e = WorldEntity::new(id, "character", name, 0, 0);
    for (k, v) in props {
        e.set_int(k, *v);
    }
    for t in tags {
        e.add_tag(t);
    }
    e
}

fn hidden_entity(power: i64, visibility: i64, tags: &[&str]) -> WorldEntity {
    with_props(ACTOR, "tester", &[("power", power), ("visibility", visibility)], tags)
}

fn corrupted_entity(power: i64, corruption: i64, tags: &[&str]) -> WorldEntity {
    with_props(ACTOR, "tester", &[("power", power), ("corruption", corruption)], tags)
}

fn delta(target: EffectTarget, key: String, prop: &str, value: i64) -> ParsedEffect {
    ParsedEffect {
        target,
        prop_name: prop.to_string(),
        raw_key: key,
        value: EffectValue::Int { value, text: format!("{}", value as f64) },
        shown: format!("Number({})", value),
    }
}

fn actor_int_delta(prop: &str, value: i64) -> ParsedEffect {
    delta(EffectTarget::Actor, format!("self.{prop}"), prop, value)
}

fn other_int_delta(name: &str, id: u128, prop: &str, value: i64) -> ParsedEffect {
    let target = EffectTarget::Other { name: name.to_string(), id };
    delta(target, format!("{name}.{prop}"), prop, value)
}

/// Changes of 11 in all fit an entity of power 10; more is scaled down to 11.
fn scaled_to_eleven(effects: &[ParsedEffect]) -> Scaling {
    let mut total = 0.0;
    let mut values = Vec::new();
    for e in effects {
        if let EffectValue::Int { value, .. } = &e.value {
            total += (*value as f64).abs();
            values.push(*value);
        }
    }
    if total <= 11.0 {
        return Scaling::identity();
    }
    let scale = 11.0 / total;
    Scaling {
        notice: None,
        ints: values.iter().map(|v| (*v as f64 * scale).round() as i64).collect(),
        floats: Vec::new(),
    }
}

fn run(
    world: &mut Vec<WorldEntity>,
    effects: Vec<ParsedEffect>,
    warnings: &mut Vec<String>,
) -> EffectsReport {
    let scalings = vec![scaled_to_eleven(&effects)];
    apply_all_effects(world, ACTOR, &effects, &scalings, &sum, warnings)
}

fn toggle<'a>(list: &'a [TagToggle], name: &str) -> Option<&'a TagToggle> {
    list.iter().find(|t| t.name == name)
}

fn actor_and_mira(prop: &str, actor: (i64, i64), mira: (i64, i64)) -> Vec<WorldEntity> {
    vec![
        with_props(ACTOR, "Actor", &[("power", actor.0), (prop, actor.1)], &[]),
        with_props(MIRA, "Mira the Merchant", &[("power", mira.0), (prop, mira.1)], &[]),
    ]
}

fn mira(world: &mut Vec<WorldEntity>) -> &mut WorldEntity {
    let i = find_entity(world, MIRA).unwrap();
    &mut world[i]
}

// ---------------------------------------------------------------------------
// Hidden
// ---------------------------------------------------------------------------
#[test]
fn main_threshold_exactly_one_removes_tag() {
    let mut e = hidden_entity(10, 0, &[HIDDEN_TAG]);
    let u = update_hidden_tag(&mut e);
    assert_eq!(u.threshold_tenths, 10, "threshold should be exactly 1.0");
    assert!(!u.added, "should not be added");
    assert!(u.removed, "should be removed");
    assert!(!e.has_tag(HIDDEN_TAG), "tag should be gone");
}

#[test]
fn main_threshold_zero_is_dead_zone() {
    let mut e = hidden_entity(10, -1, &[]);
    let u = update_hidden_tag(&mut e);
    assert_eq!(u.threshold_tenths, 0, "threshold should be 0.0");
    assert!(!u.added && !u.removed, "dead zone, no change");
    assert!(!e.has_tag(HIDDEN_TAG), "still no tag");
}

#[test]
fn threshold_half_is_dead_zone() {
    let mut e = hidden_entity(10, 0, &[HIDDEN_TAG]);
    let u = update_hidden_tag(&mut e);
    assert!(u.threshold_tenths >= 10, "threshold should be >= 1");
    assert!(u.removed, "tag should be removed at threshold >= 1");
    let mut half = hidden_entity(15, -1, &[HIDDEN_TAG]);
    let u = update_hidden_tag(&mut half);
    assert_eq!(u.threshold_tenths, 5);
    assert!(!u.added && !u.removed);
    assert!(half.has_tag(HIDDEN_TAG));
}

#[test]
fn main_threshold_below_zero_adds_tag() {
    let mut e = hidden_entity(10, -2, &[]);
    let u = update_hidden_tag(&mut e);
    assert!(u.threshold_tenths < 0, "threshold should be < 0");
    assert!(u.added, "should be added");
    assert!(!u.removed);
    assert!(e.has_tag(HIDDEN_TAG));
}

#[test]
fn high_power_entity_is_hard_to_hide() {
    let mut e = hidden_entity(100, -5, &[HIDDEN_TAG]);
    let u = update_hidden_tag(&mut e);
    assert_eq!(u.threshold_tenths, 50, "threshold should be 5.0");
    assert!(u.removed, "high-power entity with mild -visibility should NOT be hidden");
    assert!(!e.has_tag(HIDDEN_TAG));
}

#[test]
fn power_zero_uses_floor_of_ten() {
    let mut e = hidden_entity(0, -2, &[]);
    let u = update_hidden_tag(&mut e);
    assert_eq!(u.threshold_tenths, -10, "with power=0, floor of 10 applies");
}

#[test]
fn already_hidden_under_threshold_is_noop() {
    let mut e = hidden_entity(10, -2, &[HIDDEN_TAG]);
    let u = update_hidden_tag(&mut e);
    assert!(!u.added && !u.removed, "no change expected when already correct");
}

#[test]
fn dead_zone_with_no_tag_is_noop() {
    let mut e = hidden_entity(10, -1, &[]);
    let u = update_hidden_tag(&mut e);
    assert!(!u.added && !u.removed);
    assert!(!e.has_tag(HIDDEN_TAG));
}

#[test]
fn main_missing_properties_use_defaults() {
    let mut e = with_props(ACTOR, "blank", &[], &[HIDDEN_TAG]);
    let u = update_hidden_tag(&mut e);
    assert_eq!(u.threshold_tenths, 10, "defaults: 1.0 + 0.0 = 1.0");
    assert!(u.removed, "tag should be removed at threshold 1.0");
    assert!(!e.has_tag(HIDDEN_TAG));
}

#[test]
fn actor_self_effect_below_threshold_adds_tag() {
    let mut world = vec![hidden_entity(10, 0, &[])];
    let mut warnings: Vec<String> = Vec::new();
    let report = run(&mut world, vec![actor_int_delta("visibility", -2)], &mut warnings);
    let t = toggle(&report.hidden, "tester").expect("hidden list should contain the actor");
    assert!(t.update.added, "tag should be added");
    assert!(!t.update.removed);
    assert!(t.update.threshold_tenths < 0);
    assert!(world[0].has_tag(HIDDEN_TAG), "tag should be persisted");
    assert!(
        warnings.iter().any(|w| w.contains(HIDDEN_TAG) && w.contains("tester")),
        "warning should mention the tag and entity name, got: {warnings:?}"
    );
}

#[test]
fn cross_entity_effect_below_threshold_adds_tag() {
    let mut world = actor_and_mira("visibility", (10, 0), (10, 0));
    let mut warnings: Vec<String> = Vec::new();
    let effects = vec![other_int_delta("Mira the Merchant", MIRA, "visibility", -3)];
    let report = run(&mut world, effects, &mut warnings);
    let t = toggle(&report.hidden, "Mira the Merchant").expect("Mira's toggle");
    assert!(t.update.added);
    assert!(!t.update.removed);
    assert!(mira(&mut world).has_tag(HIDDEN_TAG), "Mira should now be hidden");
    assert!(toggle(&report.hidden, "Actor").is_none(), "actor was not affected");
}

#[test]
fn cross_entity_effect_past_threshold_removes_tag() {
    let mut world = actor_and_mira("visibility", (10, 0), (10, -3));
    mira(&mut world).add_tag(HIDDEN_TAG);
    let mut warnings: Vec<String> = Vec::new();
    let effects = vec![other_int_delta("Mira the Merchant", MIRA, "visibility", 3)];
    let report = run(&mut world, effects, &mut warnings);
    let t = toggle(&report.hidden, "Mira the Merchant").expect("Mira's toggle");
    assert!(t.update.removed, "tag should be removed");
    assert!(!t.update.added);
    assert!(t.update.threshold_tenths >= 10);
    assert!(!mira(&mut world).has_tag(HIDDEN_TAG), "Mira's hidden tag should be removed");
    assert!(
        warnings.iter().any(|w| w.contains("Removed") && w.contains("Mira")),
        "warning should mention 'Removed' and Mira: {warnings:?}"
    );
}

#[test]
fn rule_runs_once_after_all_effects_use_final_values() {
    let mut world = actor_and_mira("visibility", (10, 0), (10, 0));
    let effects = vec![
        other_int_delta("Mira the Merchant", MIRA, "visibility", -2),
        other_int_delta("Mira the Merchant", MIRA, "visibility", 3),
    ];
    let mut warnings: Vec<String> = Vec::new();
    let _ = run(&mut world, effects, &mut warnings);
    let m = mira(&mut world);
    assert_eq!(m.properties_int.get("visibility"), Some(&1));
    assert!(!m.has_tag(HIDDEN_TAG), "Mira's final threshold is 2.0");
    let hidden_warnings: Vec<&String> =
        warnings.iter().filter(|w| w.contains(HIDDEN_TAG)).collect();
    assert!(hidden_warnings.len() <= 1, "rule should run once: {hidden_warnings:?}");
}

#[test]
fn unaffected_entity_is_not_checked() {
    let mut world = actor_and_mira("visibility", (10, 0), (10, -5));
    let mut warnings: Vec<String> = Vec::new();
    let report = run(&mut world, vec![actor_int_delta("power", 5)], &mut warnings);
    assert!(toggle(&report.hidden, "Mira the Merchant").is_none());
    assert!(!mira(&mut world).has_tag(HIDDEN_TAG), "Mira's tags must not be touched");
}

// ---------------------------------------------------------------------------
// Corrupted
// ---------------------------------------------------------------------------
#[test]
fn corrupted_threshold_exactly_one_removes_tag() {
    let mut e = corrupted_entity(10, 9, &[CORRUPTED_TAG]);
    let u = update_corrupted_tag(&mut e);
    assert_eq!(u.threshold_tenths, 10, "threshold should be exactly 1.0");
    assert!(!u.added, "should not be added");
    assert!(u.removed, "should be removed");
    assert!(!e.has_tag(CORRUPTED_TAG), "tag should be gone");
}

#[test]
fn corrupted_threshold_zero_is_dead_zone() {
    let mut e = corrupted_entity(10, 10, &[]);
    let u = update_corrupted_tag(&mut e);
    assert_eq!(u.threshold_tenths, 0, "threshold should be 0.0");
    assert!(!u.added && !u.removed, "dead zone, no change");
    assert!(!e.has_tag(CORRUPTED_TAG), "still no tag");
}

#[test]
fn corrupted_threshold_below_zero_adds_tag() {
    let mut e = corrupted_entity(10, 15, &[]);
    let u = update_corrupted_tag(&mut e);
    assert!(u.threshold_tenths < 0, "threshold should be < 0");
    assert!(u.added, "should be added");
    assert!(!u.removed);
    assert!(e.has_tag(CORRUPTED_TAG));
}

#[test]
fn high_power_entity_is_hard_to_corrupt() {
    let mut e = corrupted_entity(100, 20, &[CORRUPTED_TAG]);
    let u = update_corrupted_tag(&mut e);
    assert_eq!(u.threshold_tenths, 800, "threshold should be 80.0");
    assert!(u.removed, "high-power entity with mild corruption should NOT be tagged");
    assert!(!e.has_tag(CORRUPTED_TAG));
}

#[test]
fn power_zero_uses_floor_of_one() {
    let mut e = corrupted_entity(0, 2, &[]);
    let u = update_corrupted_tag(&mut e);
    assert_eq!(u.threshold_tenths, -10, "with power=0, floor of 1 applies");
}

#[test]
fn negative_corruption_keeps_tag_off() {
    let mut e = corrupted_entity(10, -5, &[CORRUPTED_TAG]);
    let u = update_corrupted_tag(&mut e);
    assert_eq!(u.threshold_tenths, 150, "threshold should be 15.0");
    assert!(u.removed, "purified entity should not have the corrupted tag");
    assert!(!e.has_tag(CORRUPTED_TAG));
}

#[test]
fn already_corrupted_under_threshold_is_noop() {
    let mut e = corrupted_entity(10, 15, &[CORRUPTED_TAG]);
    let u = update_corrupted_tag(&mut e);
    assert!(!u.added && !u.removed, "no change expected when already correct");
}

#[test]
fn corrupted_missing_properties_use_defaults() {
    let mut e = with_props(ACTOR, "blank", &[], &[CORRUPTED_TAG]);
    let u = update_corrupted_tag(&mut e);
    assert_eq!(u.threshold_tenths, 10, "defaults: 1.0 - 0.0 = 1.0");
    assert!(u.removed, "tag should be removed at threshold 1.0");
    assert!(!e.has_tag(CORRUPTED_TAG));
}

#[test]
fn actor_self_effect_above_corruption_adds_tag() {
    let mut world = vec![corrupted_entity(10, 0, &[])];
    let mut warnings: Vec<String> = Vec::new();
    let report = run(&mut world, vec![actor_int_delta("corruption", 15)], &mut warnings);
    let t = toggle(&report.corrupted, "tester").expect("the actor's toggle");
    assert!(t.update.added, "tag should be added");
    assert!(world[0].has_tag(CORRUPTED_TAG), "tag should be persisted");
    assert!(
        warnings.iter().any(|w| w.contains(CORRUPTED_TAG) && w.contains("tester")),
        "warning should mention the tag and entity name, got: {warnings:?}"
    );
}

#[test]
fn cross_entity_effect_above_corruption_adds_tag() {
    let mut world = actor_and_mira("corruption", (10, 0), (10, 0));
    let mut warnings: Vec<String> = Vec::new();
    let effects = vec![other_int_delta("Mira the Merchant", MIRA, "corruption", 20)];
    let report = run(&mut world, effects, &mut warnings);
    let t = toggle(&report.corrupted, "Mira the Merchant").expect("Mira's toggle");
    assert!(t.update.added, "tag should be added");
    assert!(mira(&mut world).has_tag(CORRUPTED_TAG), "Mira should now be corrupted");
    assert!(toggle(&report.corrupted, "Actor").is_none(), "actor was not affected");
}

#[test]
fn cross_entity_effect_purifies_and_removes_tag() {
    let mut world = actor_and_mira("corruption", (10, 0), (10, 12));
    mira(&mut world).add_tag(CORRUPTED_TAG);
    let mut warnings: Vec<String> = Vec::new();
    let effects = vec![other_int_delta("Mira the Merchant", MIRA, "corruption", -5)];
    let report = run(&mut world, effects, &mut warnings);
    let t = toggle(&report.corrupted, "Mira the Merchant").expect("Mira's toggle");
    assert!(!t.update.added && t.update.removed, "tag should be removed");
    assert!(!mira(&mut world).has_tag(CORRUPTED_TAG), "Mira's corrupted tag should be removed");
    assert!(
        warnings.iter().any(|w| w.contains("Removed") && w.contains("Mira")),
        "warning should mention 'Removed' and Mira: {warnings:?}"
    );
}

#[test]
fn hidden_and_corrupted_rules_share_affected_set() {
    let mut world = vec![corrupted_entity(10, 0, &[])];
    let mut w1: Vec<String> = Vec::new();
    let first = run(&mut world, vec![actor_int_delta("visibility", -3)], &mut w1);
    assert!(toggle(&first.hidden, "tester").is_some(), "call 1 should hide the actor");

    let mut world2 = vec![corrupted_entity(10, 0, &[])];
    let mut w2: Vec<String> = Vec::new();
    let second = run(&mut world2, vec![actor_int_delta("corruption", 15)], &mut w2);
    let t = toggle(&second.corrupted, "tester").expect("call 2 should corrupt the actor");
    assert!(t.update.added);
    assert!(first.corrupted.is_empty());
}

// ---------------------------------------------------------------------------
// Notices and stability
// ---------------------------------------------------------------------------
#[test]
fn notices_show_three_places() {
    let u = TagUpdate { added: true, removed: false, threshold_tenths: -368 };
    assert_eq!(
        tag_notice(HIDDEN_TAG, "Vaelthrix", &u),
        "Added 'hidden' tag to 'Vaelthrix' (threshold=-36.800 < 0)"
    );
    let u = TagUpdate { added: false, removed: true, threshold_tenths: 10 };
    assert_eq!(
        tag_notice(CORRUPTED_TAG, "Mira", &u),
        "Removed 'corrupted' tag from 'Mira' (threshold=1.000 >= 1)"
    );
    let u = TagUpdate { added: true, removed: false, threshold_tenths: -5 };
    assert_eq!(format!("{}", tag_notice("t", "n", &u)), "Added 't' tag to 'n' (threshold=-0.500 < 0)");
}

#[test]
fn a_rule_that_has_run_has_nothing_more_to_do() {
    let mut e = hidden_entity(12, -4, &["other"]);
    assert!(update_hidden_tag(&mut e).added);
    let again = update_hidden_tag(&mut e);
    assert!(!again.added && !again.removed);
    assert!(e.has_tag("other") && e.has_tag(HIDDEN_TAG));
    e.set_int("visibility", i64::MAX);
    assert!(update_hidden_tag(&mut e).removed);
    assert!(e.has_tag("other") && !e.has_tag(HIDDEN_TAG));
    e.set_int("visibility", i64::MIN);
    assert!(update_hidden_tag(&mut e).added);
}
