//! Carrying out a model's answer: effects, warnings and the summary, together.
use vstd::prelude::*;
use vstd::string::*;

use crate::apply::{internal_property, Scaling};
use crate::apply_all::{
    action_start, all_sums_given, apply_all_effects, effect_targets, entity_at, entity_views,
    find_entity, law_other_entities_unchanged, lemma_entity_at_same, same_but_effects, same_ids,
    settled, targets, targets_run, EffectsReport, OutcomeView,
};
use crate::effects::{
    build_name_index, effect_views, named_ids, parse_effects, parsed_views, routed, unknown_names_notice,
    unknown_prefixes, unknown_warning, Effect, ParsedEffect, ParsedView, Real,
};
use crate::entity::{
    add_to_history, int_or_zero, law_history_grows, remembering, EntityView, HistoryRecord,
    RecordView, WorldEntity,
};
use crate::ids::{uuid_form, uuid_text};
use crate::llm_response::{action_field, extract_action_field};
use crate::summary::{HistorySummaryReplaceOneOrMany, UpdateView};
use crate::summary_update::{answer_replaces, answer_update, update_history_summary};
use crate::text::{
    begins_with, borrowed_opt, contains_text, copied, copied_opt, debug_form, debug_text, dec,
    dec_text, ends_with, law_parts_are_found, lemma_texts_concat, lemma_texts_push, opt_str,
    opt_text, texts,
};
use crate::world::{
    distinct_ids, law_entity_is_found, lemma_same_ids_distinct, World, WorldView,
};

verus! {

broadcast use {lemma_texts_push, lemma_texts_concat};

// ---------------------------------------------------------------------------
// Plans
// ---------------------------------------------------------------------------
/// The effects of an answer, read and routed: what is to be applied, the names
/// that no entity has, and the ids of the targets in the order in which they
/// are written to.
#[derive(Debug)]
pub struct ActionPlan {
    pub effects: Vec<ParsedEffect>,
    pub unknown_names: Vec<String>,
    pub targets: Vec<u128>,
}

/// The name of the entity with the given id; empty where there is none.
pub open spec fn name_of(entities: Seq<EntityView>, id: u128) -> Seq<char> {
    match entity_at(entities, id) {
        Some(i) => entities[i].name,
        None => Seq::empty(),
    }
}

/// The name of the entity with the given id; empty where there is none.
pub fn entity_name(entities: &Vec<WorldEntity>, id: u128) -> (r: String)
    ensures
        r@ == name_of(entity_views(entities@), id),
{
    match find_entity(entities, id) {
        Some(i) => copied(entities[i].name.as_str()),
        None => String::new(),
    }
}

/// Reads and routes the effects of an answer.
pub fn plan_action(entities: &Vec<WorldEntity>, actor_id: u128, effects: &Vec<Effect>) -> (r:
    ActionPlan)
    ensures
        parsed_views(r.effects@) == routed(
            effect_views(effects@),
            actor_id,
            name_of(entity_views(entities@), actor_id),
            named_ids(entities@),
        ),
        texts(r.unknown_names@) == unknown_prefixes(
            effect_views(effects@),
            actor_id,
            name_of(entity_views(entities@), actor_id),
            named_ids(entities@),
        ),
        r.targets@ == targets(parsed_views(r.effects@), actor_id),
{
    let index = build_name_index(entities);
    let name: String = entity_name(entities, actor_id);
    let (parsed, unknown_names) = parse_effects(effects, actor_id, name.as_str(), &index);
    let ids: Vec<u128> = effect_targets(&parsed, actor_id);
    ActionPlan { effects: parsed, unknown_names, targets: ids }
}

// ---------------------------------------------------------------------------
// Warnings
// ---------------------------------------------------------------------------
/// `w`, and one more where there is one.
pub open spec fn with_one(w: Seq<Seq<char>>, more: Option<Seq<char>>) -> Seq<Seq<char>> {
    match more {
        Some(m) => w.push(m),
        None => w,
    }
}

/// The first `n` texts, in quotes and with commas between them.
pub open spec fn quoted_list(list: Seq<Seq<char>>, n: int) -> Seq<char>
    decreases n,
{
    if n <= 0 {
        Seq::empty()
    } else if n == 1 {
        debug_form(list[0])
    } else {
        quoted_list(list, n - 1) + ", "@ + debug_form(list[n - 1])
    }
}

/// The warning that the one who acts is protected.
pub open spec fn system_actor_warning(e: EntityView) -> Seq<char> {
    "Entity is a system entity (type="@ + e.entity_type + ", tags=["@ + quoted_list(
        e.tags,
        e.tags.len() as int,
    ) + "]); LLM effect writes blocked."@
}

/// Texts in quotes, with commas between them.
fn push_quoted(w: &mut String, list: &Vec<String>)
    ensures
        final(w)@ == old(w)@ + quoted_list(texts(list@), list@.len() as int),
{
    let ghost head = w@;
    let ghost all = texts(list@);
    let mut i: usize = 0;
    assert(head + quoted_list(all, 0) =~= head);
    while i < list.len()
        invariant
            i <= list@.len(),
            all == texts(list@),
            w@ == head + quoted_list(all, i as int),
        decreases list.len() - i,
    {
        if i > 0 {
            w.append(", ");
        }
        w.append(debug_text(list[i].as_str()).as_str());
        assert(w@ =~= head + quoted_list(all, i + 1));
        i = i + 1;
    }
}

/// The warning that the one who acts is protected.
fn system_actor_notice(e: &WorldEntity) -> (r: String)
    ensures
        r@ == system_actor_warning(e@),
{
    let mut w: String = copied("Entity is a system entity (type=");
    w.append(e.entity_type.as_str());
    w.append(", tags=[");
    push_quoted(&mut w, &e.tags);
    w.append("]); LLM effect writes blocked.");
    w
}

// ---------------------------------------------------------------------------
// Carrying out
// ---------------------------------------------------------------------------
/// What came of an answer.
#[derive(Debug)]
pub struct ProcessResult {
    pub report: EffectsReport,
    pub warnings: Vec<String>,
    /// The summary that is stored now.
    pub history_summary: Option<String>,
}

/// The number of actions, one more where that fits.
pub open spec fn counted(n: u64) -> u64 {
    if n < u64::MAX {
        (n + 1) as u64
    } else {
        n
    }
}

/// What becomes of a world, given what the effects came to, for the one who acts
/// at place `i`: the action goes to their history, the marker and the summary
/// are brought up to date, and the action is counted.
pub open spec fn processed_world(
    world: WorldView,
    effects: OutcomeView,
    i: int,
    record: RecordView,
    tick: i64,
    update: UpdateView,
) -> WorldView {
    WorldView {
        entities: effects.entities.update(
            i,
            EntityView {
                history_summary: update.new_summary,
                ..remembering(effects.entities[i], record, tick)
            },
        ),
        action_count: counted(world.action_count),
        ..world
    }
}

/// All warnings of an answer: those of the effects, of unknown names, of a
/// protected one who acts, and of the summary.
pub open spec fn process_warnings(
    effects: OutcomeView,
    unknown: Seq<Seq<char>>,
    i: int,
    update: UpdateView,
) -> Seq<Seq<char>> {
    let named = with_one(effects.warnings, unknown_warning(unknown, "effect(s)"@));
    let guarded = with_one(
        named,
        if effects.entities[i].is_system() {
            Some(system_actor_warning(effects.entities[i]))
        } else {
            None
        },
    );
    guarded + update.warnings
}

/// What the effects of a plan come to, with the given sums.
pub open spec fn plan_outcome(
    entities: Seq<EntityView>,
    warnings: Seq<Seq<char>>,
    actor_id: u128,
    effects: Seq<ParsedView>,
    scalings: Seq<Scaling>,
    sums: Seq<Seq<Real>>,
) -> OutcomeView {
    settled(
        targets_run(
            action_start(entities, warnings),
            actor_id,
            effects,
            scalings,
            sums,
            targets(effects, actor_id).len() as int,
        ),
    )
}

/// The warnings before the effects: that of a repair, if any.
pub open spec fn repair_warnings(repair: Option<Seq<char>>) -> Seq<Seq<char>> {
    with_one(Seq::empty(), repair)
}

proof fn lemma_one_warning(w: Seq<String>)
    ensures
        w.len() == 0 ==> texts(w) == Seq::<Seq<char>>::empty(),
{
    assert(w.len() == 0 ==> texts(w) =~= Seq::<Seq<char>>::empty());
}

/// Carries out an answer of the entity with the id `actor_id`: applies the
/// planned effects, adds the action to the history, brings the summary up to
/// date, and counts the action. `repair` is the notice of a repair that made the
/// answer readable; `tick` is that of the latest action of others that the
/// entity was told of, or 0; `full` and `replaces` are what the answer says of
/// the summary. `sum` adds two doubles.
pub fn process_action<F: Fn(u64, u64) -> Real>(
    world: &mut World,
    actor_id: u128,
    plan: &ActionPlan,
    scalings: &Vec<Scaling>,
    sum: &F,
    repair: Option<&str>,
    record: HistoryRecord,
    tick: i64,
    full: Option<&str>,
    replaces: Option<HistorySummaryReplaceOneOrMany>,
    max_summary_chars: usize,
) -> (r: ProcessResult)
    requires
        forall|a: u64, b: u64| #[trigger] sum.requires((a, b)),
        entity_at(old(world)@.entities, actor_id) is Some,
    ensures
        exists|sums: Seq<Seq<Real>>|
            #![trigger sums.len()]
            all_sums_given(
                *sum,
                action_start(old(world)@.entities, repair_warnings(opt_str(repair))),
                actor_id,
                parsed_views(plan.effects@),
                scalings@,
                sums,
            ) && ({
                let i = entity_at(old(world)@.entities, actor_id)->0;
                let effects = plan_outcome(
                    old(world)@.entities,
                    repair_warnings(opt_str(repair)),
                    actor_id,
                    parsed_views(plan.effects@),
                    scalings@,
                    sums,
                );
                let update = answer_update(
                    effects.entities[i].history_summary,
                    opt_str(full),
                    answer_replaces(replaces),
                    max_summary_chars as nat,
                );
                &&& final(world)@ == processed_world(
                    old(world)@,
                    effects,
                    i,
                    record@,
                    tick,
                    update,
                )
                &&& r.report@ == effects.report
                &&& texts(r.warnings@) == process_warnings(
                    effects,
                    texts(plan.unknown_names@),
                    i,
                    update,
                )
                &&& opt_text(r.history_summary) == update.new_summary
            }),
        old(world).wf() ==> final(world).wf(),
{
    let mut warnings: Vec<String> = Vec::new();
    proof {
        lemma_one_warning(warnings@);
    }
    if let Some(w) = repair {
        warnings.push(copied(w));
    }
    let ghost reps = answer_replaces(replaces);
    let ghost start_entities = entity_views(world.entities@);
    let ghost start_warnings = texts(warnings@);
    assert(start_warnings == repair_warnings(opt_str(repair)));
    let ghost before = world@;
    let report = apply_all_effects(
        &mut world.entities,
        actor_id,
        &plan.effects,
        scalings,
        sum,
        &mut warnings,
    );
    let ghost sums = choose|s: Seq<Seq<Real>>|
        #![trigger s.len()]
        all_sums_given(
            *sum,
            action_start(start_entities, start_warnings),
            actor_id,
            parsed_views(plan.effects@),
            scalings@,
            s,
        ) && (OutcomeView {
            entities: entity_views(world.entities@),
            warnings: texts(warnings@),
            report: report@,
        }) == settled(
            targets_run(
                action_start(start_entities, start_warnings),
                actor_id,
                parsed_views(plan.effects@),
                scalings@,
                s,
                targets(parsed_views(plan.effects@), actor_id).len() as int,
            ),
        );
    let ghost effects = plan_outcome(
        start_entities,
        start_warnings,
        actor_id,
        parsed_views(plan.effects@),
        scalings@,
        sums,
    );
    proof {
        law_other_entities_unchanged(
            start_entities,
            start_warnings,
            actor_id,
            parsed_views(plan.effects@),
            scalings@,
            sums,
        );
        lemma_entity_at_same(start_entities, effects.entities, actor_id);
    }
    if let Some(w) = unknown_names_notice(&plan.unknown_names, "effect(s)") {
        warnings.push(w);
    }
    let mut stored: Option<String> = None;
    if let Some(i) = find_entity(&world.entities, actor_id) {
        if world.entities[i].is_system_entity() {
            warnings.push(system_actor_notice(&world.entities[i]));
        }
        let ghost entities_now = world.entities@;
        let ghost record_view = record@;
        add_to_history(&mut world.entities[i], record, tick);
        assert(entity_views(world.entities@) =~= entity_views(entities_now).update(
            i as int,
            remembering(entity_views(entities_now)[i as int], record_view, tick),
        ));
        let mut update = update_history_summary(
            borrowed_opt(&world.entities[i].history_summary),
            full,
            replaces,
            max_summary_chars,
        );
        let ghost update_view = update@;
        warnings.append(&mut update.warnings);
        stored = copied_opt(borrowed_opt(&update.new_summary));
        world.entities[i].history_summary = update.new_summary;
        proof {
            assert(entity_views(world.entities@) =~= entity_views(entities_now).update(
                i as int,
                EntityView {
                    history_summary: update_view.new_summary,
                    ..remembering(entity_views(entities_now)[i as int], record_view, tick)
                },
            ));
        }
    }
    if world.action_count < u64::MAX {
        world.action_count = world.action_count + 1;
    }
    proof {
        assert(sums.len() == sums.len());
        let i = entity_at(start_entities, actor_id)->0;
        let update = answer_update(
            effects.entities[i].history_summary,
            opt_str(full),
            reps,
            max_summary_chars as nat,
        );
        assert(world@ == processed_world(before, effects, i, record@, tick, update));
        law_processing_keeps_ids_distinct(
            before,
            start_warnings,
            actor_id,
            parsed_views(plan.effects@),
            scalings@,
            sums,
            i,
            record@,
            tick,
            update,
        );
    }
    ProcessResult { report, warnings, history_summary: stored }
}

/// Carries out the effects of an answer alone: the summary stays as it is and
/// the action is not counted.
pub fn apply_answer_effects<F: Fn(u64, u64) -> Real>(
    world: &mut World,
    actor_id: u128,
    plan: &ActionPlan,
    scalings: &Vec<Scaling>,
    sum: &F,
    repair: Option<&str>,
) -> (r: (EffectsReport, Vec<String>))
    requires
        forall|a: u64, b: u64| #[trigger] sum.requires((a, b)),
    ensures
        exists|sums: Seq<Seq<Real>>|
            #![trigger sums.len()]
            all_sums_given(
                *sum,
                action_start(old(world)@.entities, Seq::empty()),
                actor_id,
                parsed_views(plan.effects@),
                scalings@,
                sums,
            ) && ({
                let effects = plan_outcome(
                    old(world)@.entities,
                    Seq::empty(),
                    actor_id,
                    parsed_views(plan.effects@),
                    scalings@,
                    sums,
                );
                &&& final(world)@ == (WorldView { entities: effects.entities, ..old(world)@ })
                &&& r.0@ == effects.report
                &&& texts(r.1@) == repair_warnings(opt_str(repair)) + with_one(
                    effects.warnings,
                    unknown_warning(texts(plan.unknown_names@), "name(s)"@),
                )
            }),
        old(world).wf() ==> final(world).wf(),
{
    let mut applied: Vec<String> = Vec::new();
    proof {
        lemma_one_warning(applied@);
    }
    let ghost start_entities = entity_views(world.entities@);
    let report = apply_all_effects(
        &mut world.entities,
        actor_id,
        &plan.effects,
        scalings,
        sum,
        &mut applied,
    );
    if let Some(w) = unknown_names_notice(&plan.unknown_names, "name(s)") {
        applied.push(w);
    }
    let mut warnings: Vec<String> = Vec::new();
    proof {
        lemma_one_warning(warnings@);
    }
    if let Some(w) = repair {
        warnings.push(copied(w));
    }
    warnings.append(&mut applied);
    proof {
        let sums = choose|s: Seq<Seq<Real>>|
            #![trigger s.len()]
            all_sums_given(
                *sum,
                action_start(start_entities, Seq::empty()),
                actor_id,
                parsed_views(plan.effects@),
                scalings@,
                s,
            ) && world@.entities == plan_outcome(
                start_entities,
                Seq::empty(),
                actor_id,
                parsed_views(plan.effects@),
                scalings@,
                s,
            ).entities;
        lemma_effects_keep_ids_distinct(
            start_entities,
            Seq::empty(),
            actor_id,
            parsed_views(plan.effects@),
            scalings@,
            sums,
        );
    }
    (report, warnings)
}

// ---------------------------------------------------------------------------
// Log texts
// ---------------------------------------------------------------------------
/// How carrying out an answer went, for the log: how many properties of the one
/// who acts were written, and all warnings.
pub fn outcome_line(applied: usize, warnings: &Vec<String>) -> (r: String)
    ensures
        r@ == "Applied "@ + dec(applied as nat) + " effects. Warnings: ["@ + quoted_list(
            texts(warnings@),
            warnings@.len() as int,
        ) + "]"@,
{
    let mut s: String = copied("Applied ");
    s.append(dec_text(applied as u128).as_str());
    s.append(" effects. Warnings: [");
    push_quoted(&mut s, warnings);
    s.append("]");
    s
}

/// The label under which an answer that was carried out is logged.
pub fn success_label(action: &str, entity_name: &str) -> (r: String)
    ensures
        r@ == action@ + " of "@ + entity_name@,
{
    let mut s: String = copied(action);
    s.append(" of ");
    s.append(entity_name);
    s
}

/// The label under which an answer that could not be read is logged: with the
/// name of the action where it can be found.
pub fn failure_label(raw_response: &str, entity_id: u128) -> (r: String)
    ensures
        r@ == match action_field(raw_response@) {
            Some(a) => a + " of entity:"@ + uuid_form(entity_id),
            None => "entity:"@ + uuid_form(entity_id),
        },
{
    let id: String = uuid_text(entity_id);
    match extract_action_field(raw_response) {
        Some(a) => {
            let mut s: String = a;
            s.append(" of entity:");
            s.append(id.as_str());
            s
        },
        None => {
            let mut s: String = copied("entity:");
            s.append(id.as_str());
            s
        },
    }
}

/// What the log names as the instruction of an answer that is carried out.
pub fn process_instruction(entity_id: u128, action: Option<&str>) -> (r: String)
    ensures
        r@ == "Process action for entity "@ + uuid_form(entity_id) + (match action {
            Some(a) => ": "@ + a@,
            None => Seq::empty(),
        }),
{
    let mut s: String = copied("Process action for entity ");
    s.append(uuid_text(entity_id).as_str());
    if let Some(a) = action {
        s.append(": ");
        s.append(a);
    }
    assert(s@ =~= "Process action for entity "@ + uuid_form(entity_id) + (match action {
        Some(a) => ": "@ + a@,
        None => Seq::empty(),
    }));
    s
}

/// The error of an answer that could not be read.
pub fn unreadable_answer(error: &str) -> (r: String)
    ensures
        r@ == "Failed to parse LLM response: "@ + error@,
{
    let mut s: String = copied("Failed to parse LLM response: ");
    s.append(error);
    s
}

/// The name under which the one who acts stands in the log of changes.
pub fn actor_label(entities: &Vec<WorldEntity>, actor_id: u128) -> (r: String)
    ensures
        r@ == match entity_at(entity_views(entities@), actor_id) {
            Some(i) => entity_views(entities@)[i].name,
            None => "<actor-id:"@ + uuid_form(actor_id) + ">"@,
        },
{
    match find_entity(entities, actor_id) {
        Some(i) => copied(entities[i].name.as_str()),
        None => {
            let mut s: String = copied("<actor-id:");
            s.append(uuid_text(actor_id).as_str());
            s.append(">");
            s
        },
    }
}

/// What is told of an entity that cannot act because no model is configured.
pub fn waiting_narrative(entity_name: &str) -> (r: String)
    ensures
        r@ == entity_name@
            + " is considering their next move in the world, but the AI oracle has not yet awakened. Configure the LLM settings to bring the world to life."@,
{
    let mut s: String = copied(entity_name);
    s.append(
        " is considering their next move in the world, but the AI oracle has not yet awakened. Configure the LLM settings to bring the world to life.",
    );
    s
}

// ---------------------------------------------------------------------------
// Laws
// ---------------------------------------------------------------------------
/// Carrying out an answer changes no entity but the one who acts and those on
/// which an effect lands; no entity comes, goes or changes its place.
pub proof fn law_bystanders_unchanged(
    world: WorldView,
    warnings: Seq<Seq<char>>,
    actor_id: u128,
    effects: Seq<ParsedView>,
    scalings: Seq<Scaling>,
    sums: Seq<Seq<Real>>,
    i: int,
    record: RecordView,
    tick: i64,
    update: UpdateView,
)
    requires
        entity_at(world.entities, actor_id) == Some(i),
    ensures
        ({
            let outcome = plan_outcome(
                world.entities,
                warnings,
                actor_id,
                effects,
                scalings,
                sums,
            );
            let after = processed_world(world, outcome, i, record, tick, update);
            &&& same_ids(world.entities, after.entities)
            &&& forall|j: int|
                0 <= j < world.entities.len() && j != i && !targets(effects, actor_id).contains(
                    (#[trigger] world.entities[j]).id,
                ) ==> after.entities[j] == world.entities[j]
            &&& after.name == world.name
            &&& after.events == world.events
        }),
{
    law_other_entities_unchanged(world.entities, warnings, actor_id, effects, scalings, sums);
    let outcome = plan_outcome(world.entities, warnings, actor_id, effects, scalings, sums);
    lemma_entity_at_same(world.entities, outcome.entities, actor_id);
    let after = processed_world(world, outcome, i, record, tick, update);
    assert forall|j: int| 0 <= j < world.entities.len() implies (#[trigger] world.entities[j]).id
        == after.entities[j].id by {
        assert(world.entities[j].id == outcome.entities[j].id);
    }
    assert forall|j: int|
        0 <= j < world.entities.len() && j != i && !targets(effects, actor_id).contains(
            (#[trigger] world.entities[j]).id,
        ) implies after.entities[j] == world.entities[j] by {
        assert(outcome.entities[j] == world.entities[j]);
    }
}

proof fn lemma_effects_keep_ids_distinct(
    entities: Seq<EntityView>,
    warnings: Seq<Seq<char>>,
    actor_id: u128,
    effects: Seq<ParsedView>,
    scalings: Seq<Scaling>,
    sums: Seq<Seq<Real>>,
)
    ensures
        distinct_ids(entities) ==> distinct_ids(
            plan_outcome(entities, warnings, actor_id, effects, scalings, sums).entities,
        ),
{
    law_other_entities_unchanged(entities, warnings, actor_id, effects, scalings, sums);
    if distinct_ids(entities) {
        lemma_same_ids_distinct(
            entities,
            plan_outcome(entities, warnings, actor_id, effects, scalings, sums).entities,
        );
    }
}

/// Carrying out an answer gives no two entities the same id.
pub proof fn law_processing_keeps_ids_distinct(
    world: WorldView,
    warnings: Seq<Seq<char>>,
    actor_id: u128,
    effects: Seq<ParsedView>,
    scalings: Seq<Scaling>,
    sums: Seq<Seq<Real>>,
    i: int,
    record: RecordView,
    tick: i64,
    update: UpdateView,
)
    requires
        entity_at(world.entities, actor_id) == Some(i),
    ensures
        distinct_ids(world.entities) ==> distinct_ids(
            processed_world(
                world,
                plan_outcome(world.entities, warnings, actor_id, effects, scalings, sums),
                i,
                record,
                tick,
                update,
            ).entities,
        ),
{
    law_bystanders_unchanged(world, warnings, actor_id, effects, scalings, sums, i, record, tick, update);
    if distinct_ids(world.entities) {
        lemma_same_ids_distinct(
            world.entities,
            processed_world(
                world,
                plan_outcome(world.entities, warnings, actor_id, effects, scalings, sums),
                i,
                record,
                tick,
                update,
            ).entities,
        );
    }
}

/// Every answer that is carried out is remembered: the one who acts has it at the
/// end of their history, and the marker of what they were told of stands at the
/// tick that is given, if any. Nobody else's history or marker changes.
pub proof fn law_actions_are_remembered(
    world: WorldView,
    warnings: Seq<Seq<char>>,
    actor_id: u128,
    effects: Seq<ParsedView>,
    scalings: Seq<Scaling>,
    sums: Seq<Seq<Real>>,
    i: int,
    record: RecordView,
    tick: i64,
    update: UpdateView,
)
    requires
        entity_at(world.entities, actor_id) == Some(i),
    ensures
        ({
            let outcome = plan_outcome(
                world.entities,
                warnings,
                actor_id,
                effects,
                scalings,
                sums,
            );
            let after = processed_world(world, outcome, i, record, tick, update).entities;
            let marker = "last_processed_other_tick"@;
            &&& after[i].history == world.entities[i].history.push(record)
            &&& int_or_zero(after[i].ints, marker) == (if tick != 0 {
                tick
            } else {
                int_or_zero(world.entities[i].ints, marker)
            })
            &&& forall|j: int|
                0 <= j < world.entities.len() && j != i ==> after[j].history == (
                #[trigger] world.entities[j]).history && int_or_zero(after[j].ints, marker)
                    == int_or_zero(world.entities[j].ints, marker)
        }),
{
    law_other_entities_unchanged(world.entities, warnings, actor_id, effects, scalings, sums);
    let outcome = plan_outcome(world.entities, warnings, actor_id, effects, scalings, sums);
    lemma_entity_at_same(world.entities, outcome.entities, actor_id);
    assert(internal_property("last_processed_other_tick"@));
    assert(same_but_effects(world.entities[i], outcome.entities[i]));
    law_history_grows(outcome.entities[i], record, tick);
    assert forall|j: int| 0 <= j < world.entities.len() && j != i implies processed_world(
        world,
        outcome,
        i,
        record,
        tick,
        update,
    ).entities[j].history == (#[trigger] world.entities[j]).history && int_or_zero(
        processed_world(world, outcome, i, record, tick, update).entities[j].ints,
        "last_processed_other_tick"@,
    ) == int_or_zero(world.entities[j].ints, "last_processed_other_tick"@) by {
        assert(same_but_effects(world.entities[j], outcome.entities[j]));
    }
}

/// Every answer that is carried out is counted, up to the greatest number.
pub proof fn law_actions_are_counted(
    world: WorldView,
    outcome: OutcomeView,
    i: int,
    record: RecordView,
    tick: i64,
    update: UpdateView,
)
    ensures
        world.action_count < u64::MAX ==> processed_world(world, outcome, i, record, tick, update).action_count
            == world.action_count + 1,
        processed_world(world, outcome, i, record, tick, update).action_count >= world.action_count,
{
}

/// The actor's summary becomes what the update says, the world counts the action,
/// and nothing else of the world than its entities changes.
pub proof fn law_summary_is_stored(
    world: WorldView,
    outcome: OutcomeView,
    i: int,
    record: RecordView,
    tick: i64,
    update: UpdateView,
)
    requires
        0 <= i < outcome.entities.len(),
    ensures
        ({
            let after = processed_world(world, outcome, i, record, tick, update);
            let e = after.entities[i];
            &&& e.history_summary == update.new_summary
            &&& e.id == outcome.entities[i].id
            &&& e.name == outcome.entities[i].name
            &&& e.tags == outcome.entities[i].tags
            &&& e.reals == outcome.entities[i].reals
            &&& e.strings == outcome.entities[i].strings
            &&& e.history.len() == outcome.entities[i].history.len() + 1
            &&& after.entities.len() == outcome.entities.len()
            &&& forall|j: int|
                0 <= j < outcome.entities.len() && j != i ==> after.entities[j]
                    == #[trigger] outcome.entities[j]
            &&& after == (WorldView {
                entities: after.entities,
                action_count: after.action_count,
                ..world
            })
        }),
{
    law_history_grows(outcome.entities[i], record, tick);
}

/// The name that belongs to an id is that of the first entity with it; there is
/// none where no entity has it.
pub proof fn law_names_of_ids(entities: Seq<EntityView>, id: u128, k: int)
    requires
        0 <= k < entities.len(),
    ensures
        entities[k].id == id && (forall|j: int| 0 <= j < k ==> (#[trigger] entities[j]).id != id)
            ==> name_of(entities, id) == entities[k].name,
        (forall|j: int| 0 <= j < entities.len() ==> (#[trigger] entities[j]).id != id) ==> name_of(
            entities,
            id,
        ).len() == 0,
{
    law_entity_is_found(entities, id);
}

/// Texts in a list stand in quotes, in their order, with a comma and a space
/// between two of them.
pub proof fn law_quoted_lists(list: Seq<Seq<char>>, more: Seq<char>)
    ensures
        quoted_list(Seq::empty(), 0).len() == 0,
        quoted_list(seq![more], 1) == debug_form(more),
        list.len() > 0 ==> quoted_list(list.push(more), list.len() as int + 1) == quoted_list(
            list,
            list.len() as int,
        ) + ", "@ + debug_form(more),
{
    lemma_quoted_prefix(list, more, list.len() as int);
    assert(list.push(more)[list.len() as int] == more);
}

proof fn lemma_quoted_prefix(list: Seq<Seq<char>>, more: Seq<char>, n: int)
    requires
        n <= list.len(),
    ensures
        quoted_list(list.push(more), n) == quoted_list(list, n),
    decreases n,
{
    if n > 0 {
        lemma_quoted_prefix(list, more, n - 1);
        assert(list.push(more)[n - 1] == list[n - 1]);
        assert(list.push(more)[0] == list[0]);
    }
}

/// The warning that the one who acts is protected has their type and their tags.
pub proof fn law_protected_actor_is_named(e: EntityView)
    ensures
        begins_with(
            system_actor_warning(e),
            "Entity is a system entity (type="@ + e.entity_type + ", tags=["@,
        ),
        contains_text(system_actor_warning(e), quoted_list(e.tags, e.tags.len() as int)),
        ends_with(system_actor_warning(e), "]); LLM effect writes blocked."@),
{
    let head = "Entity is a system entity (type="@ + e.entity_type + ", tags=["@;
    let tags = quoted_list(e.tags, e.tags.len() as int);
    let end = "]); LLM effect writes blocked."@;
    law_parts_are_found(head, tags, end);
    law_parts_are_found(Seq::empty(), head, tags + end);
    law_parts_are_found(head + tags, end, Seq::empty());
    assert(Seq::<char>::empty() + head + (tags + end) =~= head + tags + end);
    assert(head + tags + end + Seq::<char>::empty() =~= head + tags + end);
}

/// The warnings of an answer are those of the effects first, and of the summary
/// last; between them stand one of unknown names, where there are any, and one
/// where the one who acts is protected, and no others.
pub proof fn law_warnings_stand_in_order(
    effects: OutcomeView,
    unknown: Seq<Seq<char>>,
    i: int,
    update: UpdateView,
)
    ensures
        ({
            let w = process_warnings(effects, unknown, i, update);
            let n = effects.warnings.len() as int;
            let named: int = if unknown.len() > 0 {
                1
            } else {
                0
            };
            let protected: int = if effects.entities[i].is_system() {
                1
            } else {
                0
            };
            &&& w.len() == n + named + protected + update.warnings.len()
            &&& w.take(n) == effects.warnings
            &&& w.skip(n + named + protected) == update.warnings
            &&& unknown.len() > 0 ==> Some(w[n]) == unknown_warning(unknown, "effect(s)"@)
            &&& effects.entities[i].is_system() ==> w[n + named] == system_actor_warning(
                effects.entities[i],
            )
        }),
{
    let w = process_warnings(effects, unknown, i, update);
    let n = effects.warnings.len() as int;
    assert(w.take(n) =~= effects.warnings);
    let k = w.len() - update.warnings.len();
    assert(w.skip(k) =~= update.warnings);
}

/// Before the effects stands the warning of a repair, where there was one.
pub proof fn law_repair_is_warned_of(repair: Seq<char>)
    ensures
        repair_warnings(Some(repair)) == seq![repair],
        repair_warnings(None).len() == 0,
{
    assert(repair_warnings(Some(repair)) =~= seq![repair]);
}

/// An entity on which no effect of a plan lands stays as it is, in its place.
pub proof fn law_effects_stay_on_their_targets(
    entities: Seq<EntityView>,
    warnings: Seq<Seq<char>>,
    actor_id: u128,
    effects: Seq<ParsedView>,
    scalings: Seq<Scaling>,
    sums: Seq<Seq<Real>>,
    j: int,
)
    requires
        0 <= j < entities.len(),
        !targets(effects, actor_id).contains(entities[j].id),
    ensures
        plan_outcome(entities, warnings, actor_id, effects, scalings, sums).entities[j]
            == entities[j],
        plan_outcome(entities, warnings, actor_id, effects, scalings, sums).entities.len()
            == entities.len(),
{
    law_other_entities_unchanged(entities, warnings, actor_id, effects, scalings, sums);
}

} // verus!
