//! The scheduler.
use open_world::cycle::{pick_entities_weighted, read_listing};
use open_world::entity::PropertyMap;
use open_world::scheduler::{
    after_answer, after_context, after_process, apply_budget_throttle, budget_snapshot,
    draw_weighted, entity_idle_seconds, entity_power, next_step, pick_line, pick_place,
    read_budget_gate, ActionEnd, AnswerStep, BudgetSnapshot, ContextStep,
    GateState, LoopStep, SchedulerConfig, SchedulerEntity, DEFAULT_IDLE_SECONDS,
};

fn ent(id: &str, name: &str, power: i64) -> SchedulerEntity {
    SchedulerEntity {
        id: id.to_string(),
        name: name.to_string(),
        entity_type: "character".to_string(),
        power: Some(power),
    }
}

fn seconds_between(a: u64, b: u64) -> u64 {
    (f64::from_bits(b) - f64::from_bits(a)) as u64
}

fn pick(entities: &Vec<SchedulerEntity>, k: u32) -> Vec<usize> {
    let nobody: PropertyMap<u64> = PropertyMap::new();
    let now = 1_000_000.5f64.to_bits();
    pick_entities_weighted(entities, k, &nobody, now, &seconds_between).unwrap()
}

fn pct(p: f64) -> u64 {
    p.to_bits()
}

#[test]
fn pick_weighted_zero_k_returns_empty() {
    let entities = vec![ent("a", "A", 10), ent("b", "B", 20)];
    let picks = pick(&entities, 0);
    assert!(picks.is_empty());
}

#[test]
fn pick_weighted_empty_pool_returns_empty() {
    let entities: Vec<SchedulerEntity> = vec![];
    let picks = pick(&entities, 1);
    assert!(picks.is_empty());
}

#[test]
fn pick_weighted_picks_k_entities() {
    let entities: Vec<SchedulerEntity> =
        (0..10).map(|i| ent(&format!("e{i}"), &format!("E{i}"), i)).collect();
    let picks = pick(&entities, 3);
    assert_eq!(picks.len(), 3);
    let ids: std::collections::HashSet<String> =
        picks.iter().map(|p| entities[*p].id.clone()).collect();
    assert_eq!(ids.len(), 3);
}

#[test]
fn pick_weighted_higher_power_more_likely() {
    let entities = vec![ent("low", "Low", 0), ent("hi", "Hi", 1000)];
    let mut hi_wins = 0;
    let trials = 100;
    for _ in 0..trials {
        let picks = pick(&entities, 1);
        if entities[picks[0]].id == "hi" {
            hi_wins += 1;
        }
    }
    assert!(hi_wins > trials * 8 / 10, "expected hi to dominate; got {hi_wins}/{trials}");
}

#[test]
fn everyone_is_picked_where_all_may_act() {
    let mut picks = draw_weighted(&vec![0, 5, 0, 7], 9);
    picks.sort();
    assert_eq!(picks, vec![0, 1, 2, 3]);
    assert_eq!(draw_weighted(&vec![0, 0, 0], 2), vec![0, 1]);
    let mut heavy = draw_weighted(&vec![u64::MAX, u64::MAX, u64::MAX], 3);
    heavy.sort();
    assert_eq!(heavy, vec![0, 1, 2]);
}

#[test]
fn a_draw_falls_on_the_first_place_that_passes_it() {
    let w = vec![3, 0, 4];
    assert_eq!(pick_place(&w, 0), 0);
    assert_eq!(pick_place(&w, 2), 0);
    assert_eq!(pick_place(&w, 3), 2);
    assert_eq!(pick_place(&w, 6), 2);
    assert_eq!(pick_place(&w, 7), 0);
    assert_eq!(pick_place(&vec![0, 2], 0), 1);
    assert_eq!(pick_place(&vec![0, 2], 1), 1);
    assert_eq!(pick_place(&vec![u64::MAX, u64::MAX], u64::MAX as u128 + 1), 1);
}

#[test]
fn weight_is_preferred() {
    for _ in 0..200 {
        assert_eq!(draw_weighted(&vec![0, 1, 0], 1), vec![1]);
        assert_eq!(draw_weighted(&vec![0, 1, 0], 2)[0], 1);
    }
}

#[test]
fn entity_power_default_zero_when_missing() {
    let list = read_listing(
        r#"{"data": [{"id": "x", "name": "X"}, {"id": "y", "name": "Y", "properties_int": {}}]}"#,
    );
    assert_eq!(entity_power(&list[0]), 0);
    assert_eq!(entity_power(&list[1]), 0);
}

#[test]
fn entity_power_handles_negative() {
    let list = read_listing(r#"{"data": [{"id": "x", "properties_int": {"power": -17}}]}"#);
    assert_eq!(entity_power(&list[0]), 0);
    assert_eq!(entity_power(&ent("x", "X", 17)), 17);
}

#[test]
fn idle_seconds_default_for_unknown_entity() {
    let m: PropertyMap<u64> = PropertyMap::new();
    let idle = entity_idle_seconds("never_seen", &m, 5.0f64.to_bits(), &seconds_between);
    assert_eq!(idle, DEFAULT_IDLE_SECONDS);
    assert_eq!(idle, 7 * 24 * 3600);
}

#[test]
fn idle_seconds_of_a_known_entity() {
    let mut m: PropertyMap<u64> = PropertyMap::new();
    m.insert("uuid-a", 1780941841.9880254f64.to_bits());
    let idle = |now: f64| entity_idle_seconds("uuid-a", &m, now.to_bits(), &seconds_between);
    assert_eq!(idle(1780941850.0), 8);
    assert_eq!(idle(1780941841.9880254), 0);
    assert_eq!(idle(1780941841.0), DEFAULT_IDLE_SECONDS);
}

#[test]
fn throttle_below_50_pct_is_open() {
    let (interval, state) = apply_budget_throttle(120, pct(30.0));
    assert_eq!(state, GateState::Open);
    assert_eq!(interval, 120);
}

#[test]
fn throttle_50_to_80_pct_is_5x() {
    let (interval, state) = apply_budget_throttle(120, pct(50.0));
    assert_eq!(state, GateState::Throttled);
    assert_eq!(interval, 600);
    let (i2, _) = apply_budget_throttle(120, pct(79.9));
    assert_eq!(i2, 600);
}

#[test]
fn throttle_80_pct_or_above_closes() {
    let (interval, state) = apply_budget_throttle(120, pct(80.0));
    assert_eq!(state, GateState::Closed);
    assert_eq!(interval, 60);
    let (i2, s2) = apply_budget_throttle(120, pct(100.0));
    assert_eq!(s2, GateState::Closed);
    assert_eq!(i2, 60);
}

#[test]
fn throttle_at_the_edges() {
    assert_eq!(apply_budget_throttle(120, pct(49.999999)), (120, GateState::Open));
    assert_eq!(apply_budget_throttle(120, pct(-90.0)), (120, GateState::Open));
    assert_eq!(apply_budget_throttle(120, pct(f64::NAN)), (120, GateState::Open));
    assert_eq!(apply_budget_throttle(120, pct(f64::INFINITY)), (60, GateState::Closed));
    assert_eq!(apply_budget_throttle(0, pct(60.0)), (1, GateState::Throttled));
    assert_eq!(apply_budget_throttle(u64::MAX, pct(60.0)), (u64::MAX, GateState::Throttled));
}

#[test]
fn read_budget_gate_missing_file_is_default() {
    let snap = read_budget_gate(None);
    assert!(f64::from_bits(snap.used_pct) >= 0.0);
    assert_eq!(snap.state, "unknown");
    let broken = read_budget_gate(Some("{"));
    assert_eq!(f64::from_bits(broken.used_pct), 0.0);
    assert_eq!(broken.state, BudgetSnapshot::default().state);
}

#[test]
fn read_budget_gate_reads_what_is_there() {
    let snap = read_budget_gate(Some(r#"{"used_pct": 77.0, "state": "closed-80"}"#));
    assert!((f64::from_bits(snap.used_pct) - 77.0).abs() < 0.01);
    assert_eq!(snap.state, "closed-80");
    let whole = read_budget_gate(Some(r#"{"used_pct": 81}"#));
    assert_eq!(f64::from_bits(whole.used_pct), 81.0);
    assert_eq!(whole.state, "unknown");
    assert_eq!(budget_snapshot(Some(pct(1.5)), None).used_pct, pct(1.5));
}

#[test]
fn config_load_falls_back_to_defaults() {
    let cfg = SchedulerConfig::default();
    assert!(cfg.enabled);
    assert!(cfg.interval_seconds >= 5);
    assert!(cfg.actions_per_cycle <= 20);
    assert_eq!(cfg.interval_seconds, 120);
    assert_eq!(cfg.actions_per_cycle, 1);
    assert!(cfg.updated_at.is_none());
}

#[test]
fn the_loop_waits_skips_or_runs() {
    let mut cfg = SchedulerConfig::default();
    assert_eq!(next_step(&cfg, pct(0.0)), LoopStep::Run { sleep_seconds: 120 });
    assert_eq!(next_step(&cfg, pct(55.0)), LoopStep::Run { sleep_seconds: 600 });
    assert_eq!(next_step(&cfg, pct(99.0)), LoopStep::Skip { sleep_seconds: 60 });
    cfg.enabled = false;
    assert_eq!(next_step(&cfg, pct(99.0)), LoopStep::Idle { sleep_seconds: 30 });
}

#[test]
fn states_have_words() {
    assert_eq!(GateState::Open.text(), "open");
    assert_eq!(GateState::Throttled.text(), "throttled");
    assert_eq!(GateState::Closed.text(), "closed");
}

#[test]
fn the_steps_of_a_cycle() {
    assert!(matches!(after_context(None, Some("p")), ContextStep::NotConfigured));
    assert!(matches!(after_context(Some(false), Some("p")), ContextStep::NotConfigured));
    match after_context(Some(true), Some("p")) {
        ContextStep::Ask(p) => assert_eq!(p, "p"),
        other => panic!("{:?}", other),
    }
    match after_answer(Some(false), None, Some("x")) {
        AnswerStep::Failed(e) => assert_eq!(e, "unknown"),
        other => panic!("{:?}", other),
    }
    assert!(matches!(after_answer(Some(true), None, Some("")), AnswerStep::EmptyAnswer));
    assert!(matches!(after_answer(Some(true), None, None), AnswerStep::EmptyAnswer));
    match after_answer(Some(true), None, Some("x")) {
        AnswerStep::Apply(a) => assert_eq!(a, "x"),
        other => panic!("{:?}", other),
    }
    let long = "é".repeat(150);
    match after_process(Some(true), None, Some(&long), None) {
        ActionEnd::Done { action, outcome } => {
            assert_eq!(action, "?");
            assert_eq!(outcome, "é".repeat(100));
        }
        other => panic!("{:?}", other),
    }
    match after_process(None, Some("a"), None, Some("why")) {
        ActionEnd::Failed(e) => assert_eq!(e, "why"),
        other => panic!("{:?}", other),
    }
}

#[test]
fn picks_are_announced() {
    assert_eq!(
        pick_line(0, 2, &ent("a", "Ann", 3), 10, 40),
        "[scheduler]   [1/2] entity=Ann (character) power=3 idle=10s weight=40"
    );
}

#[test]
fn an_unknown_budget_changes_nothing() {
    for content in [None, Some(""), Some("no json"), Some("{}"), Some("[1]")] {
        let budget = read_budget_gate(content);
        assert_eq!(budget.state, "unknown");
        assert_eq!(apply_budget_throttle(120, budget.used_pct), (120, GateState::Open));
    }
}
