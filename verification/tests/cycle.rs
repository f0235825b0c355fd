//! A cycle of the scheduler.
use open_world::cycle::{
    check_status, pick_entities_weighted, read_answer, read_context, read_entities, read_listing,
    read_process, settle_listing, weigh, Cycle, CycleEvent, CycleStep,
};
use open_world::entity::PropertyMap;
use open_world::scheduler::{ActionEnd, AnswerStep, ContextStep, SchedulerEntity};

fn ent(id: &str, power: i64) -> SchedulerEntity {
    SchedulerEntity {
        id: id.to_string(),
        name: id.to_uppercase(),
        entity_type: "character".to_string(),
        power: Some(power),
    }
}

fn seconds_between(a: u64, b: u64) -> u64 {
    (f64::from_bits(b) - f64::from_bits(a)) as u64
}

fn begun(ids: &[&str]) -> Cycle {
    let entities: Vec<SchedulerEntity> = ids.iter().map(|id| ent(id, 1)).collect();
    let picks: Vec<usize> = (0..ids.len()).collect();
    Cycle::begin(entities, picks, PropertyMap::new()).unwrap_or_else(|e| panic!("{}", e))
}

#[test]
fn listings_are_read() {
    let body = r#"{"success": true, "data": [
        {"id": "a", "name": "A", "entity_type": "npc", "properties_int": {"power": 7}},
        {"properties_int": {"power": "7"}}
    ]}"#;
    let list = read_listing(body);
    assert_eq!(list.len(), 2);
    assert_eq!(
        (list[0].id.as_str(), list[0].name.as_str(), list[0].entity_type.as_str(), list[0].power),
        ("a", "A", "npc", Some(7))
    );
    assert_eq!(
        (list[1].id.as_str(), list[1].name.as_str(), list[1].entity_type.as_str(), list[1].power),
        ("", "?", "unknown", None)
    );
    assert_eq!(read_listing("{\"data\": {}}").len(), 0);
    assert_eq!(read_listing("no json").len(), 0);
}

#[test]
fn refused_listings_are_errors() {
    assert_eq!(
        read_entities(false, "500 Internal Server Error", "{\"success\":true}", "{\"success\":true}")
            .unwrap_err(),
        "fetch_entities HTTP 500 Internal Server Error: {\"success\":true}"
    );
    assert_eq!(
        read_entities(true, "200 OK", "{\"success\":false}", "{\"success\":false}").unwrap_err(),
        "fetch_entities API error: {\"success\":false}"
    );
    assert_eq!(read_entities(true, "200 OK", "{\"success\":true}", "").unwrap().len(), 0);
    assert_eq!(settle_listing(true, "200 OK", Some(true), vec![ent("a", 1)], "").unwrap().len(), 1);
    assert_eq!(settle_listing(true, "200 OK", None, vec![], "{}").unwrap_err(), "fetch_entities API error: {}");
    assert_eq!(check_status("call_llm", true, "200 OK", "{}"), Ok(()));
    assert_eq!(
        check_status("call_llm", false, "404 Not Found", "{}"),
        Err("call_llm HTTP 404 Not Found: {}".to_string())
    );
}

#[test]
fn replies_are_read() {
    assert!(matches!(read_context("{\"prompt\":\"p\"}"), ContextStep::NotConfigured));
    assert!(matches!(
        read_context("{\"llm_configured\":true,\"prompt\":\"p\"}"),
        ContextStep::Ask(p) if p == "p"
    ));
    assert!(matches!(
        read_answer("{\"success\":false,\"error\":\"why\"}"),
        AnswerStep::Failed(e) if e == "why"
    ));
    assert!(matches!(read_answer("{}"), AnswerStep::Failed(e) if e == "unknown"));
    assert!(matches!(read_answer("{\"success\":true}"), AnswerStep::EmptyAnswer));
    assert!(matches!(
        read_answer("{\"success\":true,\"raw_response\":\"{}\"}"),
        AnswerStep::Apply(a) if a == "{}"
    ));
    assert!(matches!(
        read_process("{\"success\":true,\"action\":\"rest\",\"outcome\":\"calm\"}"),
        ActionEnd::Done { action, outcome } if action == "rest" && outcome == "calm"
    ));
    assert!(matches!(read_process("{\"success\":1}"), ActionEnd::Failed(e) if e == "unknown"));
}

#[test]
fn weights_are_power_and_one_times_idleness() {
    let list = vec![ent("a", 4), ent("b", -3), ent("c", 0)];
    assert_eq!(weigh(&list, &vec![10, 20, 0]), Some(vec![50, 20, 0]));
    assert_eq!(weigh(&vec![ent("a", i64::MAX)], &vec![3]), None);
    assert_eq!(weigh(&vec![ent("a", 0), ent("b", 0)], &vec![u64::MAX, 1]), Some(vec![u64::MAX, 1]));
    assert_eq!(weigh(&vec![ent("a", 0), ent("b", 0)], &vec![u64::MAX, 0]), Some(vec![u64::MAX, 0]));
}

#[test]
fn chosen_entities_are_different() {
    let list = vec![ent("a", 4), ent("b", 3), ent("c", 0)];
    let now = 2000.0f64.to_bits();
    let mut last: PropertyMap<u64> = PropertyMap::new();
    last.insert("a", 1990.5f64.to_bits());
    let mut picks = pick_entities_weighted(&list, 5, &last, now, &seconds_between).unwrap();
    picks.sort();
    assert_eq!(picks, vec![0, 1, 2]);
    assert_eq!(pick_entities_weighted(&list, 2, &last, now, &seconds_between).unwrap().len(), 2);
    assert_eq!(pick_entities_weighted(&vec![], 2, &last, now, &seconds_between), Some(vec![]));
    assert_eq!(pick_entities_weighted(&vec![ent("b", i64::MAX)], 1, &last, now, &seconds_between), None);
    let heavy = vec![ent("b", i64::MAX)];
    assert_eq!(pick_entities_weighted(&heavy, 0, &last, now, &seconds_between), Some(vec![]));
    // Each weight fits in 64 bits, and their sum does not.
    let strong: Vec<SchedulerEntity> =
        (0..4).map(|i| ent(&format!("s{}", i), i64::MAX / 604800)).collect();
    let mut all = pick_entities_weighted(&strong, 4, &last, now, &seconds_between).unwrap();
    all.sort();
    assert_eq!(all, vec![0, 1, 2, 3]);
    assert_eq!(pick_entities_weighted(&strong, 2, &last, now, &seconds_between).unwrap().len(), 2);
}

#[test]
fn a_cycle_goes_through_its_turns() {
    let mut c = begun(&["a", "b", "c"]);
    assert!(matches!(c.next_turn(), CycleStep::GetContext { id } if id == "a"));
    let (note, step) = c.advance(CycleEvent::Context(ContextStep::Ask("p".to_string())));
    assert_eq!(note, None);
    assert!(matches!(step, CycleStep::AskModel { id, prompt } if id == "a" && prompt == "p"));
    let (note, step) = c.advance(CycleEvent::Answer(AnswerStep::Apply("r".to_string())));
    assert_eq!(note, None);
    assert!(matches!(step, CycleStep::Process { id, answer } if id == "a" && answer == "r"));
    let end = ActionEnd::Done { action: "rest".to_string(), outcome: "calm".to_string() };
    let (note, step) = c.advance(CycleEvent::Processed { end, now: 7 });
    assert_eq!(note, Some("✓ rest: calm…".to_string()));
    assert!(matches!(step, CycleStep::GetContext { id } if id == "b"));
    let (note, step) = c.advance(CycleEvent::Context(ContextStep::NotConfigured));
    assert_eq!(note, Some("LLM not configured - skipping".to_string()));
    assert!(matches!(step, CycleStep::GetContext { id } if id == "c"));
    let end = ActionEnd::Failed("no".to_string());
    let (note, step) = c.advance(CycleEvent::Processed { end, now: 9 });
    assert_eq!(note, Some("✗ process failed: no".to_string()));
    assert!(matches!(step, CycleStep::Finished));
    assert_eq!(c.last_action.get("a").copied(), Some(7));
    assert_eq!(c.last_action.len(), 1);
    let (note, step) = c.advance(CycleEvent::ContextFailed("late".to_string()));
    assert_eq!(note, None);
    assert!(matches!(step, CycleStep::Finished));
}

#[test]
fn failures_pass_the_turn_on() {
    let events = vec![
        (CycleEvent::ContextFailed("e".to_string()), "context error: e"),
        (CycleEvent::AnswerFailed("e".to_string()), "LLM failed: e"),
        (CycleEvent::Answer(AnswerStep::Failed("e".to_string())), "LLM failed: e"),
        (CycleEvent::Answer(AnswerStep::EmptyAnswer), "empty raw_response, skipping"),
        (CycleEvent::ProcessFailed("e".to_string()), "process error: e"),
    ];
    for (event, expected) in events {
        let mut c = begun(&["a"]);
        let (note, step) = c.advance(event);
        assert_eq!(note, Some(expected.to_string()));
        assert!(matches!(step, CycleStep::Finished));
        assert_eq!(c.last_action.len(), 0);
    }
}

#[test]
fn cycles_need_entities() {
    assert_eq!(
        Cycle::begin(vec![], vec![], PropertyMap::new()).err(),
        Some("no entities found")
    );
    assert_eq!(
        Cycle::begin(vec![ent("a", 1)], vec![], PropertyMap::new()).err(),
        Some("no entities to pick (empty pool)")
    );
}
