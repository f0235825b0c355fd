//! A cycle of the scheduler: the chosen entities act one after the other, each
//! in three requests, and the times of the actions that came off are kept.
use vstd::prelude::*;
use vstd::string::*;

use crate::double::at_least;
use crate::entity::PropertyMap;
use crate::json::{
    json_bool, json_bool_at, json_integer, json_integer_at, json_length, json_length_at, json_string,
    json_string_at,
};
use crate::scheduler::{
    after_answer, after_context, after_process, beginning, choice_power, chosen_after,
    draw_weighted, entity_idle_seconds, entity_power, is_choice, is_drawn_at_random,
    law_chosen_are_different, places,
    possible_draws, prefers_weight, weight_sum, ActionEnd, AnswerStep, ContextStep,
    SchedulerEntity, DEFAULT_IDLE_SECONDS,
};
use crate::text::{
    borrowed_opt, copied, dec, dec_text, ends_with, law_parts_are_found, opt_text,
};

verus! {

// ---------------------------------------------------------------------------
// Replies
// ---------------------------------------------------------------------------
/// What a `SchedulerEntity` holds.
pub struct ListedView {
    pub id: Seq<char>,
    pub name: Seq<char>,
    pub entity_type: Seq<char>,
    pub power: Option<i64>,
}

impl View for SchedulerEntity {
    type V = ListedView;

    open spec fn view(&self) -> ListedView {
        ListedView {
            id: self.id@,
            name: self.name@,
            entity_type: self.entity_type@,
            power: self.power,
        }
    }
}

/// What a list of entities holds.
pub open spec fn listed_views(s: Seq<SchedulerEntity>) -> Seq<ListedView> {
    Seq::new(s.len(), |i: int| s[i]@)
}

/// A text, or another one where there is none.
pub open spec fn text_or(o: Option<Seq<char>>, other: Seq<char>) -> Seq<char> {
    match o {
        Some(s) => s,
        None => other,
    }
}

/// The place of a field of an entity in a listing.
pub open spec fn listed_pointer(i: nat, field: Seq<char>) -> Seq<char> {
    "/data/"@ + dec(i) + "/"@ + field
}

/// Entity number `i` of a listing.
pub open spec fn listed(body: Seq<char>, i: nat) -> ListedView {
    ListedView {
        id: text_or(json_string(body, listed_pointer(i, "id"@)), ""@),
        name: text_or(json_string(body, listed_pointer(i, "name"@)), "?"@),
        entity_type: text_or(json_string(body, listed_pointer(i, "entity_type"@)), "unknown"@),
        power: json_integer(body, listed_pointer(i, "properties_int/power"@)),
    }
}

/// The entities of a listing.
pub open spec fn listing_in(body: Seq<char>) -> Seq<ListedView> {
    Seq::new(
        match json_length(body, "/data"@) {
            Some(n) => n as nat,
            None => 0,
        },
        |i: int| listed(body, i as nat),
    )
}

fn listed_pointer_text(i: usize, field: &str) -> (r: String)
    ensures
        r@ == listed_pointer(i as nat, field@),
{
    let mut s: String = copied("/data/");
    s.append(dec_text(i as u128).as_str());
    s.append("/");
    s.append(field);
    s
}

fn or_else(o: Option<String>, other: &str) -> (r: String)
    ensures
        r@ == text_or(opt_text(o), other@),
{
    match o {
        Some(s) => s,
        None => copied(other),
    }
}

/// Reads the entities of a listing.
pub fn read_listing(body: &str) -> (r: Vec<SchedulerEntity>)
    ensures
        listed_views(r@) == listing_in(body@),
{
    let n: usize = match json_length_at(body, "/data") {
        Some(n) => n,
        None => 0,
    };
    let mut out: Vec<SchedulerEntity> = Vec::new();
    let mut i: usize = 0;
    while i < n
        invariant
            i <= n,
            n == listing_in(body@).len(),
            out@.len() == i,
            forall|j: int| 0 <= j < i ==> (#[trigger] out@[j])@ == listed(body@, j as nat),
        decreases n - i,
    {
        let e = SchedulerEntity {
            id: or_else(json_string_at(body, listed_pointer_text(i, "id").as_str()), ""),
            name: or_else(json_string_at(body, listed_pointer_text(i, "name").as_str()), "?"),
            entity_type: or_else(
                json_string_at(body, listed_pointer_text(i, "entity_type").as_str()),
                "unknown",
            ),
            power: json_integer_at(body, listed_pointer_text(i, "properties_int/power").as_str()),
        };
        assert(e@ == listed(body@, i as nat));
        out.push(e);
        i = i + 1;
    }
    assert(listed_views(out@) =~= listing_in(body@));
    out
}

/// The error of a request that was refused with a status.
pub open spec fn refused(request: Seq<char>, status: Seq<char>, shown: Seq<char>) -> Seq<char> {
    request + " HTTP "@ + status + ": "@ + shown
}

/// Whether a request came off, given whether its status says so, the status and
/// the reply as it is shown.
pub fn check_status(request: &str, success: bool, status: &str, shown: &str) -> (r: Result<
    (),
    String,
>)
    ensures
        match r {
            Ok(_) => success,
            Err(e) => !success && e@ == refused(request@, status@, shown@),
        },
{
    if success {
        Ok(())
    } else {
        let mut e: String = copied(request);
        e.append(" HTTP ");
        e.append(status);
        e.append(": ");
        e.append(shown);
        Err(e)
    }
}

/// Reads a listing that came with a status: the status must say that the
/// request came off, and so must the listing.
pub fn settle_listing(
    status_success: bool,
    status: &str,
    success: Option<bool>,
    entities: Vec<SchedulerEntity>,
    shown: &str,
) -> (r: Result<Vec<SchedulerEntity>, String>)
    ensures
        match r {
            Ok(list) => status_success && success == Some(true) && list == entities,
            Err(e) => if status_success {
                success != Some(true) && e@ == "fetch_entities API error: "@ + shown@
            } else {
                e@ == refused("fetch_entities"@, status@, shown@)
            },
        },
{
    match check_status("fetch_entities", status_success, status, shown) {
        Err(e) => Err(e),
        Ok(_) => match success {
            Some(true) => Ok(entities),
            _ => {
                let mut e: String = copied("fetch_entities API error: ");
                e.append(shown);
                Err(e)
            },
        },
    }
}

/// Reads the reply to a request for the entities.
pub fn read_entities(status_success: bool, status: &str, body: &str, shown: &str) -> (r: Result<
    Vec<SchedulerEntity>,
    String,
>)
    ensures
        match r {
            Ok(list) => status_success && json_bool(body@, "/success"@) == Some(true)
                && listed_views(list@) == listing_in(body@),
            Err(e) => if status_success {
                json_bool(body@, "/success"@) != Some(true) && e@ == "fetch_entities API error: "@
                    + shown@
            } else {
                e@ == refused("fetch_entities"@, status@, shown@)
            },
        },
{
    let success = json_bool_at(body, "/success");
    settle_listing(status_success, status, success, read_listing(body), shown)
}

/// Reads the context for an action.
pub fn read_context(body: &str) -> (r: ContextStep)
    ensures
        match r {
            ContextStep::NotConfigured => json_bool(body@, "/llm_configured"@) != Some(true),
            ContextStep::Ask(p) => json_bool(body@, "/llm_configured"@) == Some(true) && p@
                == text_or(json_string(body@, "/prompt"@), ""@),
        },
{
    let prompt = json_string_at(body, "/prompt");
    after_context(json_bool_at(body, "/llm_configured"), borrowed_opt(&prompt))
}

/// Reads what came of asking the model.
pub fn read_answer(body: &str) -> (r: AnswerStep)
    ensures
        ({
            let success = json_bool(body@, "/success"@);
            let raw = text_or(json_string(body@, "/raw_response"@), ""@);
            match r {
                AnswerStep::Failed(e) => success != Some(true) && e@ == text_or(
                    json_string(body@, "/error"@),
                    "unknown"@,
                ),
                AnswerStep::EmptyAnswer => success == Some(true) && raw.len() == 0,
                AnswerStep::Apply(a) => success == Some(true) && raw.len() > 0 && a@ == raw,
            }
        }),
{
    let error = json_string_at(body, "/error");
    let raw = json_string_at(body, "/raw_response");
    proof {
        reveal_strlit("");
    }
    after_answer(json_bool_at(body, "/success"), borrowed_opt(&error), borrowed_opt(&raw))
}

/// Reads what came of carrying out an answer.
pub fn read_process(body: &str) -> (r: ActionEnd)
    ensures
        ({
            let success = json_bool(body@, "/success"@);
            match r {
                ActionEnd::Done { action, outcome } => success == Some(true) && action@ == text_or(
                    json_string(body@, "/action"@),
                    "?"@,
                ) && outcome@ == beginning(text_or(json_string(body@, "/outcome"@), ""@)),
                ActionEnd::Failed(e) => success != Some(true) && e@ == text_or(
                    json_string(body@, "/error"@),
                    "unknown"@,
                ),
            }
        }),
{
    let action = json_string_at(body, "/action");
    let outcome = json_string_at(body, "/outcome");
    let error = json_string_at(body, "/error");
    after_process(
        json_bool_at(body, "/success"),
        borrowed_opt(&action),
        borrowed_opt(&outcome),
        borrowed_opt(&error),
    )
}

// ---------------------------------------------------------------------------
// Choice
// ---------------------------------------------------------------------------
/// The weights of entities that were idle for so many seconds.
pub open spec fn listed_weights(entities: Seq<ListedView>, idle: Seq<u64>) -> Seq<int> {
    Seq::new(entities.len(), |i: int| (choice_power(entities[i].power) + 1) * idle[i])
}

/// The weights of entities, given for how many seconds each was idle. `None`
/// where one does not fit in 64 bits.
pub fn weigh(entities: &Vec<SchedulerEntity>, idle: &Vec<u64>) -> (r: Option<Vec<u64>>)
    requires
        idle@.len() == entities@.len(),
    ensures
        match r {
            Some(w) => places_of(w@) == listed_weights(listed_views(entities@), idle@),
            None => too_heavy(listed_weights(listed_views(entities@), idle@)),
        },
{
    let ghost all = listed_weights(listed_views(entities@), idle@);
    let mut out: Vec<u64> = Vec::new();
    let mut i: usize = 0;
    while i < entities.len()
        invariant
            i <= entities@.len(),
            idle@.len() == entities@.len(),
            all == listed_weights(listed_views(entities@), idle@),
            out@.len() == i,
            forall|j: int| 0 <= j < i ==> #[trigger] out@[j] == all[j],
        decreases entities.len() - i,
    {
        let power: u64 = entity_power(&entities[i]);
        let ghost w = all[i as int];
        assert(w == (power + 1) * idle[i as int]);
        assert(0 <= w <= 0x1_0000_0000_0000_0000 * 0xFFFF_FFFF_FFFF_FFFF) by (nonlinear_arith)
            requires
                w == (power + 1) * idle[i as int],
                0 <= power <= 0xFFFF_FFFF_FFFF_FFFF,
                0 <= idle[i as int] <= 0xFFFF_FFFF_FFFF_FFFF,
        ;
        let weight: u128 = (power as u128 + 1) * idle[i] as u128;
        if weight > u64::MAX as u128 {
            return None;
        }
        out.push(weight as u64);
        i = i + 1;
    }
    assert(places_of(out@) =~= all);
    Some(out)
}

/// One of the weights does not fit in 64 bits.
pub open spec fn too_heavy(w: Seq<int>) -> bool {
    exists|i: int| 0 <= i < w.len() && #[trigger] w[i] > u64::MAX
}

/// Numbers of 64 bits as integers.
pub open spec fn places_of(v: Seq<u64>) -> Seq<int> {
    Seq::new(v.len(), |i: int| v[i] as int)
}

/// The entities can have been idle for so many seconds at `now`, where
/// `seconds_between` counts the seconds.
pub open spec fn idle_times<F: Fn(u64, u64) -> u64>(
    entities: Seq<ListedView>,
    last_action: Map<Seq<char>, u64>,
    now: u64,
    seconds_between: F,
    idle: Seq<u64>,
) -> bool {
    &&& idle.len() == entities.len()
    &&& forall|i: int|
        0 <= i < idle.len() ==> {
            let id = entities[i].id;
            if last_action.contains_key(id) && at_least(now, last_action[id]) {
                seconds_between.ensures((last_action[id], now), #[trigger] idle[i])
            } else {
                idle[i] == DEFAULT_IDLE_SECONDS
            }
        }
}

/// The places are a choice of up to `k` entities, drawn at random by weights.
pub open spec fn chosen_by(
    entities: Seq<ListedView>,
    idle: Seq<u64>,
    k: u32,
    w: Seq<u64>,
    chosen: Seq<int>,
) -> bool {
    &&& places_of(w) == listed_weights(entities, idle)
    &&& is_choice(w, k, chosen)
    &&& is_drawn_at_random(w, k, chosen)
}

/// The places are a choice of up to `k` entities, by weights that fit in 64
/// bits, in which none without weight is preferred to one with weight; there is
/// no choice where a weight does not fit. To choose none, nothing is weighed.
pub open spec fn chosen_from(
    entities: Seq<ListedView>,
    idle: Seq<u64>,
    k: u32,
    chosen: Option<Seq<int>>,
) -> bool {
    if k == 0 {
        chosen == Some(Seq::<int>::empty())
    } else if chosen is Some {
        prefers_weight(listed_weights(entities, idle), chosen->0) && exists|w: Seq<u64>| #[trigger]
            chosen_by(entities, idle, k, w, chosen->0)
    } else {
        too_heavy(listed_weights(entities, idle))
    }
}

/// Chooses up to `k` entities to act, at random and by weight: power and one,
/// times the seconds without an action. The result lists their places, all
/// different. `None` where some are to be chosen and a weight does not fit in 64
/// bits.
pub fn pick_entities_weighted<F: Fn(u64, u64) -> u64>(
    entities: &Vec<SchedulerEntity>,
    k: u32,
    last_action: &PropertyMap<u64>,
    now: u64,
    seconds_between: &F,
) -> (r: Option<Vec<usize>>)
    requires
        forall|a: u64, b: u64| #[trigger] seconds_between.requires((a, b)),
    ensures
        exists|idle: Seq<u64>|
            #![trigger idle_times(listed_views(entities@), last_action@, now, *seconds_between, idle)]
            idle_times(listed_views(entities@), last_action@, now, *seconds_between, idle)
                && chosen_from(
                listed_views(entities@),
                idle,
                k,
                match r {
                    Some(picks) => Some(places(picks@)),
                    None => None,
                },
            ),
        r is Some ==> places(r->0@).no_duplicates() && r->0@.len() == (if k < entities@.len() {
            k as nat
        } else {
            entities@.len()
        }) && forall|i: int| 0 <= i < r->0@.len() ==> (#[trigger] r->0@[i]) < entities@.len(),
{
    let ghost all = listed_views(entities@);
    let mut idle: Vec<u64> = Vec::new();
    let mut i: usize = 0;
    while i < entities.len()
        invariant
            i <= entities@.len(),
            idle@.len() == i,
            all == listed_views(entities@),
            idle_times(all.take(i as int), last_action@, now, *seconds_between, idle@),
            forall|a: u64, b: u64| #[trigger] seconds_between.requires((a, b)),
        decreases entities.len() - i,
    {
        let ghost before = idle@;
        let s: u64 = entity_idle_seconds(
            entities[i].id.as_str(),
            last_action,
            now,
            seconds_between,
        );
        idle.push(s);
        proof {
            let now_taken = all.take(i + 1);
            assert forall|j: int| 0 <= j < idle@.len() implies ({
                let id = now_taken[j].id;
                if last_action@.contains_key(id) && at_least(now, last_action@[id]) {
                    seconds_between.ensures((last_action@[id], now), #[trigger] idle@[j])
                } else {
                    idle@[j] == DEFAULT_IDLE_SECONDS
                }
            }) by {
                if j < i {
                    assert(idle@[j] == before[j]);
                    assert(now_taken[j] == all.take(i as int)[j]);
                } else {
                    assert(now_taken[j].id == entities@[i as int].id@);
                }
            }
        }
        i = i + 1;
    }
    assert(all.take(i as int) =~= all);
    assert(idle_times(all, last_action@, now, *seconds_between, idle@));
    if k == 0 {
        let none: Vec<usize> = Vec::new();
        assert(places(none@) =~= Seq::empty());
        return Some(none);
    }
    match weigh(entities, &idle) {
        None => {
            assert(chosen_from(all, idle@, k, None));
            None
        },
        Some(weights) => {
            assert(places_of(weights@).len() == entities@.len());
            let picks = draw_weighted(&weights, k);
            proof {
                lemma_choice(weights@, picks@, k);
                let chosen = Some(places(picks@));
                assert(places_of(weights@) =~= Seq::new(
                    weights@.len(),
                    |i: int| weights@[i] as int,
                ));
                assert(chosen_by(all, idle@, k, weights@, chosen->0));
                assert(chosen_from(all, idle@, k, chosen));
            }
            Some(picks)
        },
    }
}

proof fn lemma_choice(w: Seq<u64>, picks: Seq<usize>, k: u32)
    requires
        is_choice(w, k, places(picks)),
    ensures
        places(picks).no_duplicates(),
        picks.len() == (if k < w.len() {
            k as nat
        } else {
            w.len()
        }),
        forall|i: int| 0 <= i < picks.len() ==> (#[trigger] picks[i]) < w.len(),
{
    let n: nat = if k < w.len() {
        k as nat
    } else {
        w.len()
    };
    let chosen = places(picks);
    if weight_sum(w) != 0 {
        let draws = choose|draws: Seq<int>|
            #![trigger possible_draws(w, draws)]
            possible_draws(w, draws) && draws.len() == n && chosen == chosen_after(w, draws);
        law_chosen_are_different(w, draws);
        assert forall|i: int| 0 <= i < chosen.len() implies 0 <= #[trigger] chosen[i] < w.len() by {
            assert(chosen_after(w, draws)[i] == chosen[i]);
        }
    } else {
        assert forall|i: int| 0 <= i < chosen.len() implies 0 <= #[trigger] chosen[i] < w.len() by {
            assert(chosen[i] == Seq::new(n, |j: int| j)[i]);
        }
    }
    assert(chosen.len() == picks.len());
    assert forall|i: int| 0 <= i < picks.len() implies (#[trigger] picks[i]) < w.len() by {
        assert(chosen[i] == picks[i]);
    }
}

// ---------------------------------------------------------------------------
// Cycle
// ---------------------------------------------------------------------------
/// A cycle: the entities, the places of the chosen ones, how many of these have
/// had their turn, and the times of the last actions.
pub struct Cycle {
    pub entities: Vec<SchedulerEntity>,
    pub picks: Vec<usize>,
    pub at: usize,
    pub last_action: PropertyMap<u64>,
}

/// What a `Cycle` holds: the ids of the chosen entities, in order.
pub struct CycleView {
    pub chosen: Seq<Seq<char>>,
    pub at: nat,
    pub last_action: Map<Seq<char>, u64>,
}

impl View for Cycle {
    type V = CycleView;

    open spec fn view(&self) -> CycleView {
        CycleView {
            chosen: Seq::new(
                self.picks@.len(),
                |i: int| self.entities@[self.picks@[i] as int].id@,
            ),
            at: self.at as nat,
            last_action: self.last_action@,
        }
    }
}

/// The next request.
#[derive(Debug)]
pub enum CycleStep {
    /// Ask for the context of the entity with this id.
    GetContext { id: String },
    /// Ask the model for an action of the entity.
    AskModel { id: String, prompt: String },
    /// Have the answer carried out.
    Process { id: String, answer: String },
    /// There is nothing more to do.
    Finished,
}

/// What a `CycleStep` holds.
pub enum StepView {
    GetContext { id: Seq<char> },
    AskModel { id: Seq<char>, prompt: Seq<char> },
    Process { id: Seq<char>, answer: Seq<char> },
    Finished,
}

impl View for CycleStep {
    type V = StepView;

    open spec fn view(&self) -> StepView {
        match self {
            CycleStep::GetContext { id } => StepView::GetContext { id: id@ },
            CycleStep::AskModel { id, prompt } => StepView::AskModel { id: id@, prompt: prompt@ },
            CycleStep::Process { id, answer } => StepView::Process { id: id@, answer: answer@ },
            CycleStep::Finished => StepView::Finished,
        }
    }
}

/// What came of a request.
#[derive(Debug)]
pub enum CycleEvent {
    ContextFailed(String),
    Context(ContextStep),
    AnswerFailed(String),
    Answer(AnswerStep),
    ProcessFailed(String),
    /// An answer was carried out, or was not, at this time.
    Processed { end: ActionEnd, now: u64 },
}

/// What an event means for the cycle, with what is noted of it.
pub enum EventView {
    PassOver { note: Seq<char> },
    Ask { prompt: Seq<char> },
    Apply { answer: Seq<char> },
    Record { note: Seq<char>, now: u64 },
}

impl View for CycleEvent {
    type V = EventView;

    open spec fn view(&self) -> EventView {
        match self {
            CycleEvent::ContextFailed(e) => EventView::PassOver { note: "context error: "@ + e@ },
            CycleEvent::Context(ContextStep::NotConfigured) => EventView::PassOver {
                note: "LLM not configured - skipping"@,
            },
            CycleEvent::Context(ContextStep::Ask(prompt)) => EventView::Ask { prompt: prompt@ },
            CycleEvent::AnswerFailed(e) => EventView::PassOver { note: "LLM failed: "@ + e@ },
            CycleEvent::Answer(AnswerStep::Failed(e)) => EventView::PassOver {
                note: "LLM failed: "@ + e@,
            },
            CycleEvent::Answer(AnswerStep::EmptyAnswer) => EventView::PassOver {
                note: "empty raw_response, skipping"@,
            },
            CycleEvent::Answer(AnswerStep::Apply(answer)) => EventView::Apply { answer: answer@ },
            CycleEvent::ProcessFailed(e) => EventView::PassOver { note: "process error: "@ + e@ },
            CycleEvent::Processed { end: ActionEnd::Done { action, outcome }, now } =>
                EventView::Record { note: "✓ "@ + action@ + ": "@ + outcome@ + "…"@, now: *now },
            CycleEvent::Processed { end: ActionEnd::Failed(e), now } => EventView::PassOver {
                note: "✗ process failed: "@ + e@,
            },
        }
    }
}

/// The first request for the entity whose turn it is.
pub open spec fn turn(c: CycleView) -> StepView {
    if c.at < c.chosen.len() {
        StepView::GetContext { id: c.chosen[c.at as int] }
    } else {
        StepView::Finished
    }
}

/// The cycle with the next entity's turn.
pub open spec fn passed_on(c: CycleView) -> CycleView {
    CycleView { at: c.at + 1, ..c }
}

/// The cycle after an event, what is noted, and the next request. After the
/// last turn nothing changes.
pub open spec fn after_event(c: CycleView, e: EventView) -> (
    CycleView,
    Option<Seq<char>>,
    StepView,
) {
    if c.at >= c.chosen.len() {
        (c, None, StepView::Finished)
    } else {
        let id = c.chosen[c.at as int];
        match e {
            EventView::PassOver { note } => (passed_on(c), Some(note), turn(passed_on(c))),
            EventView::Ask { prompt } => (c, None, StepView::AskModel { id, prompt }),
            EventView::Apply { answer } => (c, None, StepView::Process { id, answer }),
            EventView::Record { note, now } => {
                let d = CycleView { last_action: c.last_action.insert(id, now), ..c };
                (passed_on(d), Some(note), turn(passed_on(d)))
            },
        }
    }
}

impl Cycle {
    /// Every chosen place is one of an entity, and no more turns were had than
    /// there are.
    pub open spec fn wf(self) -> bool {
        &&& self.at <= self.picks@.len()
        &&& forall|i: int|
            0 <= i < self.picks@.len() ==> (#[trigger] self.picks@[i]) < self.entities@.len()
    }

    /// A cycle before the first turn. There is none without entities, or where
    /// none was chosen.
    pub fn begin(
        entities: Vec<SchedulerEntity>,
        picks: Vec<usize>,
        last_action: PropertyMap<u64>,
    ) -> (r: Result<Cycle, &'static str>)
        requires
            forall|i: int| 0 <= i < picks@.len() ==> (#[trigger] picks@[i]) < entities@.len(),
        ensures
            match r {
                Ok(c) => picks@.len() > 0 && c.wf() && c.entities == entities && c.picks == picks
                    && c.at == 0 && c.last_action == last_action,
                Err(e) => picks@.len() == 0 && e@ == if entities@.len() == 0 {
                    "no entities found"@
                } else {
                    "no entities to pick (empty pool)"@
                },
            },
    {
        if entities.len() == 0 {
            assert(picks@.len() > 0 ==> picks@[0] < entities@.len());
            return Err("no entities found");
        }
        if picks.len() == 0 {
            return Err("no entities to pick (empty pool)");
        }
        Ok(Cycle { entities, picks, at: 0, last_action })
    }

    /// The first request for the entity whose turn it is.
    pub fn next_turn(&self) -> (r: CycleStep)
        requires
            self.wf(),
        ensures
            r@ == turn(self@),
    {
        if self.at < self.picks.len() {
            CycleStep::GetContext { id: self.current_id() }
        } else {
            CycleStep::Finished
        }
    }

    fn current_id(&self) -> (r: String)
        requires
            self.wf(),
            self.at < self.picks@.len(),
        ensures
            r@ == self@.chosen[self.at as int],
    {
        let place: usize = self.picks[self.at];
        copied(self.entities[place].id.as_str())
    }

    /// Takes an event, and says what to note and which request comes next.
    pub fn advance(&mut self, event: CycleEvent) -> (r: (Option<String>, CycleStep))
        requires
            old(self).wf(),
        ensures
            final(self).wf(),
            (final(self)@, opt_text(r.0), r.1@) == after_event(old(self)@, event@),
            final(self).entities == old(self).entities,
            final(self).picks == old(self).picks,
    {
        if self.at >= self.picks.len() {
            return (None, CycleStep::Finished);
        }
        let id: String = self.current_id();
        match event {
            CycleEvent::Context(ContextStep::Ask(prompt)) => (
                None,
                CycleStep::AskModel { id, prompt },
            ),
            CycleEvent::Answer(AnswerStep::Apply(answer)) => (
                None,
                CycleStep::Process { id, answer },
            ),
            CycleEvent::Processed { end: ActionEnd::Done { action, outcome }, now } => {
                let mut note: String = copied("✓ ");
                note.append(action.as_str());
                note.append(": ");
                note.append(outcome.as_str());
                note.append("…");
                self.last_action.insert(id.as_str(), now);
                self.pass_on();
                (Some(note), self.next_turn())
            },
            other => {
                let note: String = passing_note(other);
                self.pass_on();
                (Some(note), self.next_turn())
            },
        }
    }

    fn pass_on(&mut self)
        requires
            old(self).wf(),
            old(self).at < old(self).picks@.len(),
        ensures
            final(self).wf(),
            final(self)@ == passed_on(old(self)@),
            final(self).entities == old(self).entities,
            final(self).picks == old(self).picks,
    {
        assert(self.at < self.picks.len());
        self.at = self.at + 1;
    }
}

/// What is noted where an entity is passed over.
fn passing_note(event: CycleEvent) -> (r: String)
    requires
        event@ is PassOver,
    ensures
        event@ == (EventView::PassOver { note: r@ }),
{
    let mut note: String = String::new();
    assert(note@ =~= Seq::<char>::empty());
    match event {
        CycleEvent::ContextFailed(e) => {
            note = copied("context error: ");
            note.append(e.as_str());
        },
        CycleEvent::AnswerFailed(e) | CycleEvent::Answer(AnswerStep::Failed(e)) => {
            note = copied("LLM failed: ");
            note.append(e.as_str());
        },
        CycleEvent::ProcessFailed(e) => {
            note = copied("process error: ");
            note.append(e.as_str());
        },
        CycleEvent::Processed { end: ActionEnd::Failed(e), now: _ } => {
            note = copied("✗ process failed: ");
            note.append(e.as_str());
        },
        CycleEvent::Context(_) => {
            note = copied("LLM not configured - skipping");
        },
        CycleEvent::Answer(_) => {
            note = copied("empty raw_response, skipping");
        },
        CycleEvent::Processed { .. } => {},
    }
    note
}

// ---------------------------------------------------------------------------
// Laws
// ---------------------------------------------------------------------------
/// The time of an action is recorded only where it came off, and only for the
/// entity whose turn it is.
pub proof fn law_only_done_actions_are_recorded(c: CycleView, e: EventView, id: Seq<char>)
    ensures
        ({
            let d = after_event(c, e).0;
            &&& !(e is Record) ==> d.last_action == c.last_action
            &&& (c.at >= c.chosen.len() || id != c.chosen[c.at as int]) ==> (
            d.last_action.contains_key(id) <==> c.last_action.contains_key(id))
                && d.last_action[id] == c.last_action[id]
        }),
{
}

/// Every turn ends after at most three requests: an answer follows the context,
/// carrying it out follows the answer, and every other event passes the turn
/// on. A cycle therefore comes to its end.
pub proof fn law_turns_pass_on(c: CycleView, e: EventView)
    requires
        c.at < c.chosen.len(),
    ensures
        ({
            let (d, note, step) = after_event(c, e);
            &&& d.chosen == c.chosen
            &&& match e {
                EventView::Ask { .. } => d.at == c.at && step is AskModel,
                EventView::Apply { .. } => d.at == c.at && step is Process,
                _ => d.at == c.at + 1 && (step is Finished <==> d.at == c.chosen.len()),
            }
        }),
{
}

/// An entity weighs its power, or nothing where that is negative or missing, and
/// one, times the seconds that it was idle.
pub proof fn law_weights_of_entities(entities: Seq<ListedView>, idle: Seq<u64>, i: int, power: int)
    requires
        0 <= i < entities.len(),
        power == (match entities[i].power {
            Some(p) => p as int,
            None => 0,
        }),
    ensures
        listed_weights(entities, idle).len() == entities.len(),
        power >= 0 ==> listed_weights(entities, idle)[i] == power * idle[i] + idle[i],
        power <= 0 ==> listed_weights(entities, idle)[i] == idle[i],
{
    let s = idle[i] as int;
    let p = choice_power(entities[i].power);
    assert((p + 1) * s == p * s + s) by (nonlinear_arith);
    if power <= 0 {
        assert(p * s == 0) by (nonlinear_arith)
            requires
                p == 0,
        ;
    }
}

/// Entities are idle for the seconds since their last action, where one is
/// recorded and not in the future; else for seven days.
pub proof fn law_idle_times<F: Fn(u64, u64) -> u64>(
    entities: Seq<ListedView>,
    last_action: Map<Seq<char>, u64>,
    now: u64,
    seconds_between: F,
    idle: Seq<u64>,
    i: int,
)
    requires
        idle_times(entities, last_action, now, seconds_between, idle),
        0 <= i < entities.len(),
    ensures
        idle.len() == entities.len(),
        last_action.contains_key(entities[i].id) && at_least(now, last_action[entities[i].id])
            ==> seconds_between.ensures((last_action[entities[i].id], now), idle[i]),
        !last_action.contains_key(entities[i].id) || !at_least(now, last_action[entities[i].id])
            ==> idle[i] == 7 * 24 * 60 * 60,
{
    assert(idle[i] == idle[i]);
}

/// What is chosen of some entities: nothing where nothing is to be chosen; else as
/// many different ones as are to be chosen or as there are, drawn at random by
/// their weights. There is no choice exactly where a weight does not fit.
pub proof fn law_choice_of_entities(
    entities: Seq<ListedView>,
    idle: Seq<u64>,
    k: u32,
    chosen: Option<Seq<int>>,
) -> (w: Seq<u64>)
    requires
        chosen_from(entities, idle, k, chosen),
    ensures
        k == 0 ==> chosen is Some && chosen->0.len() == 0,
        k > 0 && chosen is Some ==> {
            &&& w.len() == entities.len()
            &&& forall|i: int|
                0 <= i < w.len() ==> #[trigger] w[i] == listed_weights(entities, idle)[i]
            &&& is_drawn_at_random(w, k, chosen->0)
        },
        k > 0 && chosen is None ==> exists|i: int|
            0 <= i < entities.len() && #[trigger] listed_weights(entities, idle)[i] > u64::MAX,
{
    if k > 0 && chosen is Some {
        let w = choose|w: Seq<u64>| #[trigger] chosen_by(entities, idle, k, w, chosen->0);
        assert forall|i: int| 0 <= i < w.len() implies #[trigger] w[i] == listed_weights(
            entities,
            idle,
        )[i] by {
            assert(places_of(w)[i] == w[i]);
        }
        assert(places_of(w).len() == w.len());
        w
    } else {
        Seq::empty()
    }
}

/// A cycle takes the chosen entities in their order: it asks for the context of
/// each, then the model, then has the answer carried out, each for the entity
/// whose turn it is. An action that was done is recorded with its time and noted;
/// anything that goes wrong is noted, and the next entity has its turn.
pub proof fn law_steps_of_a_turn(c: CycleView, prompt: Seq<char>, answer: Seq<char>, note: Seq<
    char,
>, now: u64)
    requires
        c.at < c.chosen.len(),
    ensures
        ({
            let id = c.chosen[c.at as int];
            let next: StepView = if c.at + 1 < c.chosen.len() {
                StepView::GetContext { id: c.chosen[c.at as int + 1] }
            } else {
                StepView::Finished
            };
            let asked = after_event(c, EventView::Ask { prompt });
            let applied = after_event(c, EventView::Apply { answer });
            let passed = after_event(c, EventView::PassOver { note });
            let done = after_event(c, EventView::Record { note, now });
            &&& turn(c) == (StepView::GetContext { id })
            &&& asked.0 == c && asked.1 is None && asked.2 == (StepView::AskModel { id, prompt })
            &&& applied.0 == c && applied.1 is None && applied.2 == (StepView::Process {
                id,
                answer,
            })
            &&& passed.0.chosen == c.chosen && passed.0.at == c.at + 1 && passed.0.last_action
                == c.last_action && passed.1 == Some(note) && passed.2 == next
            &&& done.0.chosen == c.chosen && done.0.at == c.at + 1 && done.1 == Some(note)
                && done.2 == next
            &&& done.0.last_action.contains_key(id) && done.0.last_action[id] == now
            &&& forall|other: Seq<char>|
                other != id ==> (#[trigger] done.0.last_action.contains_key(other)
                    <==> c.last_action.contains_key(other)) && done.0.last_action[other]
                    == c.last_action[other]
        }),
{
}

/// What the events of a cycle mean: a context is asked about, an answer applied, a
/// done action recorded; everything else passes the entity over.
pub proof fn law_meaning_of_events(event: CycleEvent)
    ensures
        match event {
            CycleEvent::Context(ContextStep::Ask(prompt)) => event@ == (EventView::Ask {
                prompt: prompt@,
            }),
            CycleEvent::Answer(AnswerStep::Apply(answer)) => event@ == (EventView::Apply {
                answer: answer@,
            }),
            CycleEvent::Processed { end: ActionEnd::Done { action, outcome }, now } => {
                &&& event@ is Record
                &&& event@->now == now
                &&& event@->Record_note == "✓ "@ + action@ + ": "@ + outcome@ + "…"@
            },
            CycleEvent::Context(ContextStep::NotConfigured) => event@ is PassOver,
            CycleEvent::Answer(AnswerStep::EmptyAnswer) => event@ is PassOver,
            CycleEvent::ContextFailed(e) => event@ is PassOver && ends_with(
                event@->PassOver_note,
                e@,
            ),
            CycleEvent::AnswerFailed(e) => event@ is PassOver && ends_with(
                event@->PassOver_note,
                e@,
            ),
            CycleEvent::Answer(AnswerStep::Failed(e)) => event@ is PassOver && ends_with(
                event@->PassOver_note,
                e@,
            ),
            CycleEvent::ProcessFailed(e) => event@ is PassOver && ends_with(
                event@->PassOver_note,
                e@,
            ),
            CycleEvent::Processed { end: ActionEnd::Failed(e), now } => event@ is PassOver
                && ends_with(event@->PassOver_note, e@),
        },
{
    match event {
        CycleEvent::ContextFailed(e) => law_parts_are_found("context error: "@, e@, Seq::empty()),
        CycleEvent::AnswerFailed(e) => law_parts_are_found("LLM failed: "@, e@, Seq::empty()),
        CycleEvent::Answer(AnswerStep::Failed(e)) => law_parts_are_found(
            "LLM failed: "@,
            e@,
            Seq::empty(),
        ),
        CycleEvent::ProcessFailed(e) => law_parts_are_found("process error: "@, e@, Seq::empty()),
        CycleEvent::Processed { end: ActionEnd::Failed(e), now } => law_parts_are_found(
            "✗ process failed: "@,
            e@,
            Seq::empty(),
        ),
        _ => {},
    }
}

/// What a cycle shows: the ids of the chosen entities in the order of the choice.
pub proof fn law_cycle_shows_its_choice(c: Cycle, i: int)
    requires
        0 <= i < c.picks@.len(),
    ensures
        c@.chosen.len() == c.picks@.len(),
        c@.chosen[i] == c.entities@[c.picks@[i] as int].id@,
        c@.at == c.at,
        c@.last_action == c.last_action@,
{
}

/// A listing has as many entities as its array has items, each with what stands
/// at its place: no id, the name `?` and the type `unknown` where there is no text.
pub proof fn law_listing(body: Seq<char>, i: nat)
    ensures
        listing_in(body).len() == (match json_length(body, "/data"@) {
            Some(n) => n as nat,
            None => 0,
        }),
        i < listing_in(body).len() ==> {
            let e = listing_in(body)[i as int];
            let place = "/data/"@ + dec(i) + "/"@;
            &&& e.id == (match json_string(body, place + "id"@) {
                Some(s) => s,
                None => ""@,
            })
            &&& e.name == (match json_string(body, place + "name"@) {
                Some(s) => s,
                None => "?"@,
            })
            &&& e.entity_type == (match json_string(body, place + "entity_type"@) {
                Some(s) => s,
                None => "unknown"@,
            })
            &&& e.power == json_integer(body, place + "properties_int/power"@)
        },
{
}

/// Weights are too heavy where one of them is above what 64 bits hold, and not
/// where none is.
pub proof fn law_too_heavy(w: Seq<int>, i: int)
    requires
        0 <= i < w.len(),
    ensures
        w[i] > u64::MAX ==> too_heavy(w),
        (forall|j: int| 0 <= j < w.len() ==> #[trigger] w[j] <= u64::MAX) ==> !too_heavy(w),
{
}

} // verus!
