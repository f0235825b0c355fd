//! The world: entities, events, search, and carrying out answers.
use open_world::apply::Scaling;
use open_world::effects::{Effect, EffectValue, Real};
use open_world::entity::{
    add_to_history, advance_marker, HistoryRecord, PropertyMap, WorldEntity,
};
use open_world::feed::{compute_max_unprocessed_tick, unprocessed_actions};
use open_world::history::{merge_history, Found, LoggedAction};
use open_world::process::{
    actor_label, apply_answer_effects, entity_name, failure_label, outcome_line, plan_action,
    process_action, success_label, waiting_narrative,
};
use open_world::summary::{HistorySummaryReplace, HistorySummaryReplaceOneOrMany};
use open_world::world::{
    add_world_event, build_entity, create_entity, delete_entity, delete_world_event,
    float_property_value, history_from_others, history_limit, int_property_value, is_wanted,
    list_entities, add_entity, push_event, string_property_value, update_entity, update_world,
    update_world_event, EntityUpdate, HistoryEntry, PropertyInput, SearchQuery, World, WorldUpdate,
};

fn double(f: f64) -> Real {
    Real { bits: f.to_bits(), text: format!("{}", f) }
}

fn sum(a: u64, b: u64) -> Real {
    double(f64::from_bits(a) + f64::from_bits(b))
}

fn int_effect(key: &str, value: i64) -> Effect {
    Effect {
        key: key.to_string(),
        value: EffectValue::Int { value, text: format!("{}", value as f64) },
        shown: format!("Number({})", value),
    }
}

fn no_query() -> SearchQuery {
    SearchQuery {
        q: None,
        entity_type: None,
        tags: None,
        system: None,
        include_system: None,
        limit: None,
    }
}

fn entity(id: u128, kind: &str, name: &str, tags: &[&str]) -> WorldEntity {
    let tags: Vec<String> = tags.iter().map(|t| t.to_string()).collect();
    build_entity(id, kind, name, None, 0, 0, &tags)
}

fn small_world() -> World {
    let mut w = World::new("test", "a test");
    add_entity(&mut w, entity(1, "hero", "Kira Dawnblade", &["brave", "human"]));
    add_entity(&mut w, entity(2, "merchant", "Mira the Merchant", &["human"]));
    add_entity(&mut w, entity(3, "world_clock", "World Clock", &[]));
    add_entity(&mut w, entity(4, "place", "Anchor", &["meta"]));
    w
}

// ---------------------------------------------------------------------------
// Properties and tags
// ---------------------------------------------------------------------------
#[test]
fn property_maps_keep_one_value_for_a_name() {
    let mut m: PropertyMap<i64> = PropertyMap::new();
    m.insert("a", 1);
    m.insert("b", 2);
    m.insert("a", 3);
    assert_eq!(m.len(), 2);
    assert_eq!(m.get("a"), Some(&3));
    assert_eq!(m.get_or_zero("b"), 2);
    assert_eq!(m.get_or_zero("c"), 0);
    assert!(m.remove("a"));
    assert!(!m.remove("a"));
    assert_eq!(m.get("a"), None);
    assert_eq!(m.entry(0).0, "b");
}

#[test]
fn tags_are_given_once_and_taken_away() {
    let mut e = entity(1, "hero", "K", &["a", "b", "a"]);
    assert_eq!(e.tags, vec!["a", "b"]);
    e.add_tag("b");
    assert_eq!(e.tags.len(), 2);
    e.tags.push("a".to_string());
    e.remove_tag("a");
    assert_eq!(e.tags, vec!["b"]);
    assert!(!e.has_tag("a") && e.has_tag("b") && !e.has_tag("B"));
}

#[test]
fn system_entities_are_known() {
    let w = small_world();
    let system: Vec<bool> = w.entities.iter().map(|e| e.is_system_entity()).collect();
    assert_eq!(system, vec![false, false, true, true]);
    assert!(entity(5, "abstract", "Fate", &[]).is_system_entity());
}

#[test]
fn values_of_properties_are_converted() {
    let int = PropertyInput::Int { value: -7, as_float: (-7.0f64).to_bits() };
    assert_eq!(int_property_value(&int), -7);
    assert_eq!(float_property_value(&int), (-7.0f64).to_bits());
    assert_eq!(string_property_value(&int), "-7");
    let float = PropertyInput::Float { bits: 2.5f64.to_bits(), as_int: 2, as_text: "2.5".to_string() };
    assert_eq!(int_property_value(&float), 2);
    assert_eq!(float_property_value(&float), 2.5f64.to_bits());
    assert_eq!(string_property_value(&float), "2.5");
    let text = |s: &str, f: Option<f64>| PropertyInput::Text {
        value: s.to_string(),
        as_float: f.map(|x| x.to_bits()),
    };
    assert_eq!(int_property_value(&text("+12", Some(12.0))), 12);
    assert_eq!(int_property_value(&text(" 12", None)), 0);
    assert_eq!(int_property_value(&text("9223372036854775808", None)), 0);
    assert_eq!(int_property_value(&text("-9223372036854775808", None)), i64::MIN);
    assert_eq!(int_property_value(&text("-", None)), 0);
    assert_eq!(float_property_value(&text("x", None)), 0);
    assert_eq!(string_property_value(&text("x", None)), "x");
}

// ---------------------------------------------------------------------------
// World and entities
// ---------------------------------------------------------------------------
#[test]
fn worlds_are_updated() {
    let mut w = small_world();
    update_world(
        &mut w,
        WorldUpdate {
            name: Some("new".to_string()),
            description: None,
            ints: vec![("a".to_string(), 1), ("a".to_string(), 2)],
            floats: vec![("f".to_string(), 1.5f64.to_bits())],
            strings: vec![("s".to_string(), "t".to_string())],
        },
    );
    assert_eq!((w.name.as_str(), w.description.as_str()), ("new", "a test"));
    assert_eq!(w.properties_int.get("a"), Some(&2));
    assert_eq!(w.properties_float.get("f"), Some(&1.5f64.to_bits()));
    assert_eq!(w.properties_string.get("s").unwrap(), "t");
    assert_eq!(w.entities.len(), 4);
}

#[test]
fn entities_come_change_and_go() {
    let mut w = small_world();
    let id = create_entity(&mut w, "npc", "Ann", Some("tall".to_string()), 1, 2, &vec!["x".to_string()]);
    assert_eq!(w.entities.len(), 5);
    assert_eq!(w.entities[4].id, id);
    assert_eq!(w.entities[4].description, "tall");
    let again = create_entity(&mut w, "npc", "Bob", None, 1, 2, &Vec::new());
    assert_ne!(id, again);
    update_entity(
        &mut w.entities[4],
        EntityUpdate {
            name: Some("Anna".to_string()),
            description: None,
            x: None,
            y: Some(9),
            tags: Some(vec!["y".to_string(), "y".to_string()]),
        },
    );
    assert_eq!(w.entities[4].name, "Anna");
    assert_eq!(w.entities[4].description, "tall");
    assert_eq!((w.entities[4].x, w.entities[4].y), (1, 9));
    assert_eq!(w.entities[4].tags, vec!["y", "y"]);
    assert!(delete_entity(&mut w, id));
    assert!(!delete_entity(&mut w, id));
    assert_eq!(w.entities.len(), 5);
    assert_eq!(w.entities[4].name, "Bob");
}

#[test]
fn events_come_change_and_go() {
    let mut w = small_world();
    let s = |t: &str| t.to_string();
    add_world_event(&mut w.active_events, s("n"), s("d"), s("i"), true);
    push_event(&mut w.active_events, s("id2"), s("n2"), s("d2"), s(""), false);
    assert_eq!(w.active_events[0].id.len(), 36);
    assert_eq!(w.active_events[0].id.matches('-').count(), 4);
    assert!(update_world_event(&mut w.active_events, "id2", None, Some(s("D")), None, Some(true)));
    assert!(!update_world_event(&mut w.active_events, "id3", None, None, None, None));
    let e = &w.active_events[1];
    assert_eq!((e.name.as_str(), e.description.as_str(), e.active), ("n2", "D", true));
    assert!(!delete_world_event(&mut w.active_events, "id3"));
    assert!(delete_world_event(&mut w.active_events, "id2"));
    assert_eq!(w.active_events.len(), 1);
    assert!(!delete_world_event(&mut w.active_events, "id2"));
}

// ---------------------------------------------------------------------------
// Search
// ---------------------------------------------------------------------------
#[test]
fn entities_are_found() {
    let w = small_world();
    let find = |q: &SearchQuery| list_entities(&w.entities, q, None);
    assert_eq!(find(&no_query()), vec![0, 1, 2, 3]);
    assert_eq!(find(&SearchQuery { q: Some("MIRA".to_string()), ..no_query() }), vec![1]);
    assert_eq!(find(&SearchQuery { q: Some("".to_string()), ..no_query() }), vec![0, 1, 2, 3]);
    assert_eq!(find(&SearchQuery { entity_type: Some("hero".to_string()), ..no_query() }), vec![0]);
    assert_eq!(find(&SearchQuery { tags: Some("human".to_string()), ..no_query() }), vec![0, 1]);
    assert_eq!(
        find(&SearchQuery { tags: Some(" human , brave".to_string()), ..no_query() }),
        vec![0]
    );
    assert_eq!(find(&SearchQuery { tags: Some("human,".to_string()), ..no_query() }), Vec::<usize>::new());
    assert_eq!(find(&SearchQuery { system: Some(true), ..no_query() }), vec![2, 3]);
    assert_eq!(find(&SearchQuery { system: Some(false), ..no_query() }), vec![0, 1, 2, 3]);
    assert_eq!(find(&SearchQuery { include_system: Some(false), ..no_query() }), vec![0, 1]);
    assert_eq!(find(&SearchQuery { limit: Some(2), ..no_query() }), vec![0, 1]);
    let near = vec![false, true, true, false];
    assert_eq!(list_entities(&w.entities, &no_query(), Some(&near)), vec![1, 2]);
    assert!(is_wanted(&w.entities[0], &no_query(), "kira dawnblade", Some("dawn")));
    assert!(!is_wanted(&w.entities[0], &no_query(), "kira dawnblade", Some("Dawn")));
}

#[test]
fn a_hundred_entities_are_listed() {
    let mut w = World::new("big", "");
    for i in 0..120 {
        add_entity(&mut w, entity(i, "x", "y", &[]));
    }
    assert_eq!(list_entities(&w.entities, &no_query(), None).len(), 100);
}

#[test]
fn limits_of_histories() {
    assert_eq!(history_limit(None), 50);
    assert_eq!(history_limit(Some("7")), 7);
    assert_eq!(history_limit(Some("+7")), 7);
    assert_eq!(history_limit(Some("501")), 500);
    assert_eq!(history_limit(Some("-1")), 50);
    assert_eq!(history_limit(Some("x")), 50);
    assert_eq!(history_limit(Some("")), 50);
    assert_eq!(history_limit(Some("0")), 0);
    assert_eq!(history_limit(Some("99999999999999999999999")), 50);
}

#[test]
fn others_are_found_in_the_history() {
    let entry = |id: &str, keys: &[&str]| HistoryEntry {
        entity_id: id.to_string(),
        effect_keys: keys.iter().map(|k| k.to_string()).collect(),
        tick: 0,
    };
    let log = vec![
        entry("me", &["Mira.wealth"]),
        entry("you", &["self.wealth", "Mira.wealth"]),
        entry("you", &["Mirabel.wealth", "wealth"]),
        entry("they", &["Mira."]),
    ];
    assert_eq!(history_from_others(&log, "me", "Mira", 10), vec![1, 3]);
    assert_eq!(history_from_others(&log, "me", "Mira", 1), vec![1]);
    assert_eq!(history_from_others(&log, "you", "Mira", 10), vec![0, 3]);
}

// ---------------------------------------------------------------------------
// Answers
// ---------------------------------------------------------------------------
fn record(action: &str) -> HistoryRecord {
    HistoryRecord {
        at: 0,
        action: action.to_string(),
        narrative: format!("The tale of {}", action),
        outcome: "success".to_string(),
    }
}

#[test]
fn actions_are_remembered_in_order() {
    let mut e = WorldEntity::new(1, "character", "Kira", 0, 0);
    add_to_history(&mut e, record("scout"), 5);
    add_to_history(&mut e, record("rest"), 0);
    let actions: Vec<&str> = e.history.iter().map(|r| r.action.as_str()).collect();
    assert_eq!(actions, vec!["scout", "rest"]);
    assert_eq!(e.properties_int.get("last_processed_other_tick"), Some(&5));
    advance_marker(&mut e, 9);
    assert_eq!(e.properties_int.get("last_processed_other_tick"), Some(&9));
    assert_eq!(e.history.len(), 2);
}

#[test]
fn log_and_memory_are_merged() {
    let log: Vec<LoggedAction> = [(9, "trade"), (5, "rest"), (2, "scout")]
        .iter()
        .map(|(at, a)| LoggedAction { at: *at, action: a.to_string() })
        .collect();
    let memory: Vec<HistoryRecord> = [(1, "wake"), (5, "rest"), (5, "sing"), (7, "walk")]
        .iter()
        .map(|(at, a)| HistoryRecord { at: *at, ..record(a) })
        .collect();
    let whole = vec![
        Found::Logged(0),
        Found::Remembered(3),
        Found::Logged(1),
        Found::Remembered(2),
        Found::Logged(2),
        Found::Remembered(0),
    ];
    assert_eq!(merge_history(&log, &memory, 50), whole);
    assert_eq!(merge_history(&log, &memory, 2), whole[..2].to_vec());
    assert_eq!(merge_history(&log, &memory, 0), vec![]);
    assert_eq!(merge_history(&vec![], &memory, 1), vec![Found::Remembered(3)]);
    assert_eq!(merge_history(&log, &vec![], 9).len(), 3);
}

#[test]
fn others_are_told_of_once() {
    let w = small_world();
    let id = |n: u128| uuid::Uuid::from_u128(n).to_string();
    let entry = |n: u128, tick: i64| HistoryEntry {
        entity_id: id(n),
        effect_keys: Vec::new(),
        tick,
    };
    // Place 4 is part of the machinery, and nobody has the id 99.
    let log = vec![entry(2, 6), entry(1, 5), entry(4, 4), entry(99, 3), entry(2, 2), entry(2, 1)];
    assert_eq!(unprocessed_actions(&log, &w.entities, &id(1), 1), vec![0, 3, 4]);
    assert_eq!(compute_max_unprocessed_tick(&log, &w.entities, &id(1), 1), 6);
    assert_eq!(compute_max_unprocessed_tick(&log, &w.entities, &id(1), 6), 0);
    assert_eq!(unprocessed_actions(&log, &w.entities, &id(1), 6), Vec::<usize>::new());
    assert_eq!(unprocessed_actions(&log, &w.entities, &id(2), 0), vec![1, 3]);
    assert_eq!(compute_max_unprocessed_tick(&log, &w.entities, &id(2), 0), 5);
    let many: Vec<HistoryEntry> = (0..12).map(|k| entry(2, 20 - k)).collect();
    let shown = unprocessed_actions(&many, &w.entities, &id(1), 0);
    assert_eq!(shown, (0..10).collect::<Vec<usize>>());
}

#[test]
fn an_answer_is_carried_out() {
    let mut w = small_world();
    w.entities[0].history_summary = Some("It began.".to_string());
    let effects = vec![
        int_effect("self.morale", 3),
        int_effect("Mira the Merchant.wealth", 2),
        int_effect("Miar.wealth", 2),
    ];
    let plan = plan_action(&w.entities, 1, &effects);
    assert_eq!(plan.targets, vec![1, 2]);
    assert_eq!(plan.unknown_names, vec!["Miar"]);
    let scalings: Vec<Scaling> = Vec::new();
    let replaces = HistorySummaryReplaceOneOrMany::Single(HistorySummaryReplace {
        old_part: "".to_string(),
        new_part: " It went on.".to_string(),
    });
    let r = process_action(
        &mut w, 1, &plan, &scalings, &sum, Some("repaired"), record("trade"), 7, None,
        Some(replaces), 1000,
    );
    assert_eq!(w.entities[0].history.len(), 1);
    assert_eq!(w.entities[0].history[0].action, "trade");
    assert_eq!(w.entities[0].history[0].narrative, "The tale of trade");
    assert_eq!(w.entities[0].history[0].outcome, "success");
    assert_eq!(w.entities[0].properties_int.get("last_processed_other_tick"), Some(&7));
    assert!(w.entities[1].history.is_empty());
    assert!(w.entities[1].properties_int.get("last_processed_other_tick").is_none());
    assert_eq!(w.entities[0].properties_int.get("morale"), Some(&3));
    assert_eq!(w.entities[1].properties_int.get("wealth"), Some(&2));
    assert_eq!(r.history_summary.as_deref(), Some("It began. It went on."));
    assert_eq!(w.entities[0].history_summary.as_deref(), Some("It began. It went on."));
    assert_eq!(w.action_count, 1);
    assert_eq!(r.report.actor.len(), 1);
    assert_eq!(
        r.warnings,
        vec![
            "repaired",
            "Unknown entity names in effects (1 effect(s) skipped):\n  - \"Miar\" (no entity with that exact name; check spelling and case)",
        ]
    );
}

#[test]
fn a_protected_one_who_acts_is_told() {
    let mut w = small_world();
    w.entities[3].tags.push("a\"b".to_string());
    let plan = plan_action(&w.entities, 4, &vec![int_effect("x", 1)]);
    let r = process_action(
        &mut w, 4, &plan, &Vec::new(), &sum, None, record("tick"), 0, Some("A tale."), None, 1000,
    );
    assert_eq!(w.entities[3].history.len(), 1);
    assert!(w.entities[3].properties_int.get("x").is_none());
    assert_eq!(w.entities[3].history_summary.as_deref(), Some("A tale."));
    assert_eq!(r.warnings.len(), 2);
    assert_eq!(
        r.warnings[1],
        "Entity is a system entity (type=place, tags=[\"meta\", \"a\\\"b\"]); LLM effect writes blocked."
    );
    w.action_count = u64::MAX;
    let plan = plan_action(&w.entities, 1, &Vec::new());
    let r = process_action(
        &mut w, 1, &plan, &Vec::new(), &sum, None, record("rest"), 0, None, None, 1000,
    );
    assert!(w.entities[0].properties_int.get("last_processed_other_tick").is_none());
    assert_eq!(w.action_count, u64::MAX);
    assert_eq!(r.warnings.len(), 1);
}

#[test]
fn effects_alone_leave_summary_and_count() {
    let mut w = small_world();
    let plan = plan_action(&w.entities, 1, &vec![int_effect("morale", 3), int_effect("No.x", 1)]);
    let (report, warnings) = apply_answer_effects(&mut w, 1, &plan, &Vec::new(), &sum, Some("fixed"));
    assert_eq!(report.actor.len(), 1);
    assert_eq!(w.action_count, 0);
    assert_eq!(warnings.len(), 2);
    assert_eq!(warnings[0], "fixed");
    assert!(warnings[1].starts_with("Unknown entity names in effects (1 name(s) skipped):"));
}

#[test]
fn labels_for_the_log() {
    let w = small_world();
    assert_eq!(entity_name(&w.entities, 2), "Mira the Merchant");
    assert_eq!(entity_name(&w.entities, 9), "");
    assert_eq!(success_label("guard", "Kira"), "guard of Kira");
    let id: u128 = 0xf26dd963_1234_4abc_8def_000000000001;
    assert_eq!(
        failure_label("{\"action\": \"guard\", oops", id),
        "guard of entity:f26dd963-1234-4abc-8def-000000000001"
    );
    assert_eq!(failure_label("oops", id), "entity:f26dd963-1234-4abc-8def-000000000001");
    assert_eq!(actor_label(&w.entities, 1), "Kira Dawnblade");
    assert_eq!(actor_label(&w.entities, id), "<actor-id:f26dd963-1234-4abc-8def-000000000001>");
    assert!(waiting_narrative("Kira").starts_with("Kira is considering their next move"));
}

#[test]
fn outcomes_are_shown_with_their_warnings() {
    assert_eq!(outcome_line(0, &Vec::new()), "Applied 0 effects. Warnings: []");
    let warnings = vec!["too \"large\"".to_string(), "b".to_string()];
    assert_eq!(
        outcome_line(12, &warnings),
        "Applied 12 effects. Warnings: [\"too \\\"large\\\"\", \"b\"]"
    );
}

#[test]
fn properties_are_taken_away_by_kind() {
    let mut e = entity(1, "npc", "A", &[]);
    e.set_int("x", 1);
    e.set_float("x", 2.5f64.to_bits());
    e.set_string("x", "three");
    e.delete_float("x");
    assert_eq!(e.properties_int.get("x").copied(), Some(1));
    assert!(!e.properties_float.contains_key("x"));
    assert_eq!(e.properties_string.get("x").cloned(), Some("three".to_string()));
    e.delete_string("x");
    assert!(!e.properties_string.contains_key("x"));
    assert_eq!(e.properties_int.len(), 1);
}

#[test]
fn ids_stay_distinct() {
    let mut w = World::new("w", "");
    add_entity(&mut w, entity(1, "npc", "A", &[]));
    add_entity(&mut w, entity(2, "npc", "B", &[]));
    add_entity(&mut w, entity(1, "npc", "C", &[]));
    assert_eq!(w.entities.len(), 2);
    assert_eq!((w.entities[0].id, w.entities[0].name.as_str()), (1, "C"));
    assert_eq!((w.entities[1].id, w.entities[1].name.as_str()), (2, "B"));
    let id = create_entity(&mut w, "npc", "D", None, 0, 0, &Vec::new());
    assert_eq!(w.entities.iter().filter(|e| e.id == id).count(), 1);
    assert_eq!((id >> 76) & 15, 4);
    assert_eq!((id >> 62) & 3, 2);
    assert!(delete_entity(&mut w, 1));
    assert!(!delete_entity(&mut w, 1));
    assert_eq!(w.entities.len(), 2);
}
