//! The scheduler that lets entities act on their own: its settings, the choice
//! of entities, the steps of a cycle, and the budget that slows it down.
use vstd::arithmetic::power2::*;
use vstd::prelude::*;
use vstd::string::*;

use crate::double::{at_least, is_at_least, lemma_small_whole, one_unit, units};
use crate::entity::PropertyMap;
use crate::json::{json_document, json_double, json_double_at, json_string, json_string_at};
use crate::text::{
    begins_with, borrowed_opt, chars_of, contains_text, copied, dec, dec_text, ends_with,
    law_parts_are_found, opt_text, string_between, string_of,
};

verus! {

// ---------------------------------------------------------------------------
// Settings
// ---------------------------------------------------------------------------
/// How often the scheduler wakes and how many entities act each time.
#[derive(Debug, Clone)]
pub struct SchedulerConfig {
    pub enabled: bool,
    pub interval_seconds: u64,
    pub actions_per_cycle: u32,
    /// For operators; the scheduler does not read it.
    pub notes: Option<String>,
    /// When the settings were last written.
    pub updated_at: Option<String>,
}

/// Whether the scheduler runs unless told otherwise.
pub fn default_enabled() -> (r: bool)
    ensures
        r,
{
    true
}

/// The seconds between two cycles unless told otherwise.
pub fn default_interval_seconds() -> (r: u64)
    ensures
        r == 120,
{
    120
}

/// How many entities act in a cycle unless told otherwise.
pub fn default_actions_per_cycle() -> (r: u32)
    ensures
        r == 1,
{
    1
}

impl Default for SchedulerConfig {
    fn default() -> (r: Self)
        ensures
            r.enabled,
            r.interval_seconds == 120,
            r.actions_per_cycle == 1,
            opt_text(r.notes) == Some(
                "Defaults: 30 LLM calls/h, under 5% of 4500/5h budget. Operators can tune via /api/ow/scheduler/config."@,
            ),
            r.updated_at is None,
    {
        SchedulerConfig {
            enabled: default_enabled(),
            interval_seconds: default_interval_seconds(),
            actions_per_cycle: default_actions_per_cycle(),
            notes: Some(
                copied(
                    "Defaults: 30 LLM calls/h, under 5% of 4500/5h budget. Operators can tune via /api/ow/scheduler/config.",
                ),
            ),
            updated_at: None,
        }
    }
}

// ---------------------------------------------------------------------------
// Weights
// ---------------------------------------------------------------------------
/// How long an entity without a recorded action counts as idle: seven days.
pub const DEFAULT_IDLE_SECONDS: u64 = 604800;

/// What the scheduler knows of an entity.
#[derive(Debug)]
pub struct SchedulerEntity {
    pub id: String,
    pub name: String,
    pub entity_type: String,
    pub power: Option<i64>,
}

/// The power of an entity for the choice: 0 where it has none or a negative
/// one.
pub open spec fn choice_power(power: Option<i64>) -> int {
    match power {
        Some(p) => if p > 0 {
            p as int
        } else {
            0
        },
        None => 0,
    }
}

/// The power of an entity for the choice.
pub fn entity_power(entity: &SchedulerEntity) -> (r: u64)
    ensures
        r == choice_power(entity.power),
{
    match entity.power {
        Some(p) => if p > 0 {
            p as u64
        } else {
            0
        },
        None => 0,
    }
}

/// How long an entity has been idle at `now`. Points in time are doubles,
/// given by their bits; `seconds_between` counts the full seconds from an
/// earlier one to a later one. An entity without a recorded action, or with
/// one in the future, counts as idle for seven days.
pub fn entity_idle_seconds<F: Fn(u64, u64) -> u64>(
    entity_id: &str,
    last_action: &PropertyMap<u64>,
    now: u64,
    seconds_between: &F,
) -> (r: u64)
    requires
        forall|a: u64, b: u64| #[trigger] seconds_between.requires((a, b)),
    ensures
        if last_action@.contains_key(entity_id@) && at_least(now, last_action@[entity_id@]) {
            seconds_between.ensures((last_action@[entity_id@], now), r)
        } else {
            r == DEFAULT_IDLE_SECONDS
        },
{
    match last_action.get(entity_id) {
        Some(last) => if is_at_least(now, *last) {
            seconds_between(*last, now)
        } else {
            DEFAULT_IDLE_SECONDS
        },
        None => DEFAULT_IDLE_SECONDS,
    }
}

// ---------------------------------------------------------------------------
// Choice
// ---------------------------------------------------------------------------
/// The sum of weights.
pub open spec fn weight_sum(w: Seq<u64>) -> int
    decreases w.len(),
{
    if w.len() == 0 {
        0
    } else {
        weight_sum(w.drop_last()) + w.last()
    }
}

/// The first place from `i` on at which the weights, with `sum` before them,
/// add up to more than `target`; 0 where they do not.
pub open spec fn passing_from(w: Seq<u64>, target: int, i: int, sum: int) -> int
    decreases w.len() - i,
{
    if i < 0 || i >= w.len() {
        0
    } else if sum + w[i] > target {
        i
    } else {
        passing_from(w, target, i + 1, sum + w[i])
    }
}

/// The first place at which the weights add up to more than `target`.
pub open spec fn passing(w: Seq<u64>, target: int) -> int {
    passing_from(w, target, 0, 0)
}

/// The weights of a pool of entities, given by their places.
pub open spec fn pool_weights(w: Seq<u64>, pool: Seq<int>) -> Seq<u64> {
    Seq::new(pool.len(), |i: int| w[pool[i]])
}

/// The place in the pool that a draw stands for: itself where nothing in the
/// pool has weight, and else the first place at which the weights pass it.
pub open spec fn drawn_place(w: Seq<u64>, pool: Seq<int>, draw: int) -> int {
    if weight_sum(pool_weights(w, pool)) == 0 {
        draw
    } else {
        passing(pool_weights(w, pool), draw)
    }
}

/// How many draws there are to choose from.
pub open spec fn draw_limit(w: Seq<u64>, pool: Seq<int>) -> int {
    if weight_sum(pool_weights(w, pool)) == 0 {
        pool.len() as int
    } else {
        weight_sum(pool_weights(w, pool))
    }
}

/// The pool that is left after some draws.
pub open spec fn pool_after(w: Seq<u64>, draws: Seq<int>) -> Seq<int>
    decreases draws.len(),
{
    if draws.len() == 0 {
        Seq::new(w.len(), |i: int| i)
    } else {
        let p = pool_after(w, draws.drop_last());
        p.remove(drawn_place(w, p, draws.last()))
    }
}

/// The entities that were chosen by some draws, in order.
pub open spec fn chosen_after(w: Seq<u64>, draws: Seq<int>) -> Seq<int>
    decreases draws.len(),
{
    if draws.len() == 0 {
        Seq::empty()
    } else {
        let p = pool_after(w, draws.drop_last());
        chosen_after(w, draws.drop_last()).push(p[drawn_place(w, p, draws.last())])
    }
}

/// Every draw is one that could be made.
pub open spec fn possible_draws(w: Seq<u64>, draws: Seq<int>) -> bool
    decreases draws.len(),
{
    draws.len() > 0 ==> possible_draws(w, draws.drop_last()) && 0 <= draws.last() < draw_limit(
        w,
        pool_after(w, draws.drop_last()),
    )
}

/// The entities of a list of places.
pub open spec fn places(v: Seq<usize>) -> Seq<int> {
    Seq::new(v.len(), |i: int| v[i] as int)
}

/// A random number below `bound`: `rand::Rng::gen_range` on
/// `rand::thread_rng`. Nothing more is said of it.
#[verifier::external_body]
fn draw_below(bound: u128) -> (r: u128)
    requires
        bound > 0,
    ensures
        r < bound,
{
    rand::Rng::gen_range(&mut rand::thread_rng(), 0..bound)
}

/// The first place at which the weights add up to more than `target`; 0 where
/// they do not.
pub fn pick_place(weights: &Vec<u64>, target: u128) -> (r: usize)
    ensures
        r == passing(weights@, target as int),
        weights@.len() > 0 ==> r < weights@.len(),
{
    let mut i: usize = 0;
    let mut missing: u128 = target;
    let ghost mut sum: int = 0;
    while i < weights.len()
        invariant
            i <= weights@.len(),
            sum + missing == target,
            passing(weights@, target as int) == passing_from(
                weights@,
                target as int,
                i as int,
                sum,
            ),
        decreases weights.len() - i,
    {
        let weight: u128 = weights[i] as u128;
        if weight > missing {
            return i;
        }
        missing = missing - weight;
        proof {
            sum = sum + weights@[i as int];
        }
        i = i + 1;
    }
    0
}

/// The weights of the entities of a pool.
fn weights_of(weights: &Vec<u64>, pool: &Vec<usize>) -> (r: Vec<u64>)
    requires
        forall|i: int| 0 <= i < pool@.len() ==> (#[trigger] pool@[i]) < weights@.len(),
    ensures
        r@ == pool_weights(weights@, places(pool@)),
{
    let mut out: Vec<u64> = Vec::new();
    let mut i: usize = 0;
    while i < pool.len()
        invariant
            i <= pool@.len(),
            forall|j: int| 0 <= j < pool@.len() ==> (#[trigger] pool@[j]) < weights@.len(),
            out@.len() == i,
            forall|j: int| 0 <= j < i ==> #[trigger] out@[j] == weights@[pool@[j] as int],
        decreases pool.len() - i,
    {
        out.push(weights[pool[i]]);
        i = i + 1;
    }
    assert(out@ =~= pool_weights(weights@, places(pool@)));
    out
}

/// The sum of weights.
fn sum_weights(w: &Vec<u64>) -> (r: u128)
    ensures
        r == weight_sum(w@),
{
    let mut sum: u128 = 0;
    let mut i: usize = 0;
    assert(w@.take(0) =~= Seq::empty());
    while i < w.len()
        invariant
            i <= w@.len(),
            sum == weight_sum(w@.take(i as int)),
            sum <= i * u64::MAX,
        decreases w.len() - i,
    {
        assert(w@.take(i + 1).drop_last() =~= w@.take(i as int));
        assert((i + 1) * u64::MAX == i * u64::MAX + u64::MAX) by (nonlinear_arith);
        assert((i + 1) * u64::MAX <= 0x1_0000_0000_0000_0000 * u64::MAX) by (nonlinear_arith)
            requires
                i + 1 <= 0x1_0000_0000_0000_0000,
        ;
        sum = sum + w[i] as u128;
        i = i + 1;
    }
    assert(w@.take(i as int) =~= w@);
    sum
}

pub proof fn lemma_sum_prefix(w: Seq<u64>, n: int)
    requires
        0 <= n <= w.len(),
    ensures
        0 <= weight_sum(w.take(n)) <= weight_sum(w),
    decreases w.len(),
{
    if n < w.len() {
        lemma_sum_prefix(w.drop_last(), n);
        assert(w.drop_last().take(n) =~= w.take(n));
    } else {
        assert(w.take(n) =~= w);
        if w.len() > 0 {
            lemma_sum_prefix(w.drop_last(), w.len() - 1);
        }
    }
}

proof fn lemma_sum_remove(w: Seq<u64>, i: int)
    requires
        0 <= i < w.len(),
    ensures
        weight_sum(w.remove(i)) == weight_sum(w) - w[i],
    decreases w.len(),
{
    if i < w.len() - 1 {
        lemma_sum_remove(w.drop_last(), i);
        assert(w.remove(i).drop_last() =~= w.drop_last().remove(i));
        assert(w.remove(i).last() == w.last());
    } else {
        assert(w.remove(i) =~= w.drop_last());
    }
}

proof fn lemma_passing(w: Seq<u64>, target: int, i: int, sum: int)
    requires
        0 <= i <= w.len(),
        w.len() > 0,
    ensures
        0 <= passing_from(w, target, i, sum) < w.len(),
    decreases w.len() - i,
{
    if i < w.len() && sum + w[i] <= target {
        lemma_passing(w, target, i + 1, sum + w[i]);
    }
}

/// The places are what drawing up to `k` times brings, one way or another: the
/// first ones where nothing has weight.
pub open spec fn is_choice(w: Seq<u64>, k: u32, chosen: Seq<int>) -> bool {
    let n: nat = if k < w.len() {
        k as nat
    } else {
        w.len()
    };
    if weight_sum(w) == 0 {
        chosen == Seq::new(n, |i: int| i)
    } else {
        exists|draws: Seq<int>|
            #![trigger possible_draws(w, draws)]
            possible_draws(w, draws) && draws.len() == n && chosen == chosen_after(w, draws)
    }
}

/// Every draw is one that the source gave for the number of draws that there were
/// to choose from.
pub open spec fn given_draws<F: Fn(u128) -> u128>(source: F, w: Seq<u64>, draws: Seq<int>) -> bool
    decreases draws.len(),
{
    draws.len() > 0 ==> given_draws(source, w, draws.drop_last()) && 0 <= draws.last()
        <= u128::MAX && source.ensures(
        (draw_limit(w, pool_after(w, draws.drop_last())) as u128,),
        draws.last() as u128,
    )
}

/// The places are what drawing up to `k` times from a source brings: the first
/// ones where nothing has weight.
pub open spec fn is_drawn_from<F: Fn(u128) -> u128>(
    source: F,
    w: Seq<u64>,
    k: u32,
    chosen: Seq<int>,
) -> bool {
    let n: nat = if k < w.len() {
        k as nat
    } else {
        w.len()
    };
    if weight_sum(w) == 0 {
        chosen == Seq::new(n, |i: int| i)
    } else {
        exists|draws: Seq<int>|
            #![trigger possible_draws(w, draws)]
            possible_draws(w, draws) && given_draws(source, w, draws) && draws.len() == n && chosen
                == chosen_after(w, draws)
    }
}

/// The places are what drawing up to `k` times at random brings.
pub closed spec fn is_drawn_at_random(w: Seq<u64>, k: u32, chosen: Seq<int>) -> bool {
    is_drawn_from(draw_below, w, k, chosen)
}

/// A place without weight is chosen only where every place with weight is.
pub open spec fn prefers_weight(w: Seq<int>, chosen: Seq<int>) -> bool {
    forall|i: int, p: int|
        0 <= i < chosen.len() && 0 <= p < w.len() && w[#[trigger] chosen[i]] == 0
            && #[trigger] w[p] > 0 ==> chosen.contains(p)
}

/// Chooses up to `k` entities by draws from a source, without choosing one twice.
/// The source, `draw_below`, is asked for a number below the sum of the weights
/// that are left, or below the number of entities where none has weight any more.
/// Where no entity has weight at all, the first ones are taken. The result lists
/// the places of the chosen ones.
pub fn draw_weighted_from<F: Fn(u128) -> u128>(
    weights: &Vec<u64>,
    k: u32,
    draw_below: &F,
) -> (r: Vec<usize>)
    requires
        forall|b: u128| b > 0 ==> #[trigger] draw_below.requires((b,)),
        forall|b: u128, d: u128| #[trigger] draw_below.ensures((b,), d) ==> d < b,
    ensures
        is_drawn_from(*draw_below, weights@, k, places(r@)),
        is_choice(weights@, k, places(r@)),
        prefers_weight(Seq::new(weights@.len(), |i: int| weights@[i] as int), places(r@)),
{
    let n: usize = if (k as usize) < weights.len() {
        k as usize
    } else {
        weights.len()
    };
    let mut chosen: Vec<usize> = Vec::new();
    let mut pool: Vec<usize> = Vec::new();
    let mut i: usize = 0;
    while i < weights.len()
        invariant
            i <= weights@.len(),
            pool@.len() == i,
            forall|j: int| 0 <= j < i ==> #[trigger] pool@[j] == j,
        decreases weights.len() - i,
    {
        pool.push(i);
        i = i + 1;
    }
    proof {
        lemma_sum_prefix(weights@, weights@.len() as int);
        assert(weights@.take(weights@.len() as int) =~= weights@);
    }
    if sum_weights(weights) == 0 {
        pool.truncate(n);
        proof {
            assert(places(pool@) =~= Seq::new(n as nat, |i: int| i));
            law_choice_prefers_weight(weights@, k, places(pool@));
        }
        return pool;
    }
    let ghost mut draws: Seq<int> = Seq::empty();
    proof {
        assert(places(pool@) =~= pool_after(weights@, draws));
        assert(places(chosen@) =~= chosen_after(weights@, draws));
        assert(pool_weights(weights@, places(pool@)) =~= weights@);
    }
    while chosen.len() < n
        invariant
            n <= weights@.len(),
            chosen@.len() <= n,
            chosen@.len() == draws.len(),
            pool@.len() + chosen@.len() == weights@.len(),
            possible_draws(weights@, draws),
            given_draws(*draw_below, weights@, draws),
            forall|b: u128| b > 0 ==> #[trigger] draw_below.requires((b,)),
            forall|b: u128, d: u128| #[trigger] draw_below.ensures((b,), d) ==> d < b,
            places(pool@) == pool_after(weights@, draws),
            places(chosen@) == chosen_after(weights@, draws),
            forall|j: int| 0 <= j < pool@.len() ==> (#[trigger] pool@[j]) < weights@.len(),
        decreases n - chosen.len(),
    {
        let ghost before = places(pool@);
        let left = weights_of(weights, &pool);
        let sum: u128 = sum_weights(&left);
        proof {
            lemma_sum_prefix(left@, left@.len() as int);
            assert(left@.take(left@.len() as int) =~= left@);
            lemma_passing(left@, 0, 0, 0);
        }
        let ghost draw: int;
        let place: usize = if sum == 0 {
            let d: u128 = draw_below(pool.len() as u128);
            proof {
                draw = d as int;
            }
            d as usize
        } else {
            let d: u128 = draw_below(sum);
            proof {
                draw = d as int;
            }
            pick_place(&left, d)
        };
        proof {
            let longer = draws.push(draw);
            assert(longer.drop_last() =~= draws);
            lemma_sum_remove(left@, place as int);
            assert(before.remove(place as int) =~= pool_after(weights@, longer));
            assert(pool_weights(weights@, before.remove(place as int)) =~= left@.remove(
                place as int,
            ));
            draws = longer;
        }
        let ghost earlier = places(chosen@);
        let id: usize = pool.remove(place);
        chosen.push(id);
        proof {
            assert(places(pool@) =~= before.remove(place as int));
            assert(places(chosen@) =~= earlier.push(before[place as int]));
        }
    }
    proof {
        law_choice_prefers_weight(weights@, k, places(chosen@));
    }
    chosen
}

/// Chooses up to `k` entities at random, without choosing one twice. Of what
/// is left, each entity is chosen with a chance in proportion to its weight;
/// where nothing is left with weight, all have the same chance. Where no
/// entity has weight at all, the first ones are taken. The result lists the
/// places of the chosen ones.
pub fn draw_weighted(weights: &Vec<u64>, k: u32) -> (r: Vec<usize>)
    ensures
        is_drawn_at_random(weights@, k, places(r@)),
        is_choice(weights@, k, places(r@)),
        prefers_weight(Seq::new(weights@.len(), |i: int| weights@[i] as int), places(r@)),
{
    draw_weighted_from(weights, k, &draw_below)
}

// ---------------------------------------------------------------------------
// Steps of a cycle
// ---------------------------------------------------------------------------
/// The line that announces the action of an entity.
pub open spec fn pick_line_form(
    number: nat,
    count: nat,
    name: Seq<char>,
    entity_type: Seq<char>,
    power: nat,
    idle: nat,
    weight: nat,
) -> Seq<char> {
    "[scheduler]   ["@ + dec(number) + "/"@ + dec(count) + "] entity="@ + name + " ("@ + entity_type
        + ") power="@ + dec(power) + " idle="@ + dec(idle) + "s weight="@ + dec(weight)
}

/// The line that announces the action of the entity chosen as number `index`
/// (from 0) of `count`.
pub fn pick_line(
    index: usize,
    count: usize,
    entity: &SchedulerEntity,
    idle_seconds: u64,
    weight: u64,
) -> (r: String)
    requires
        index < count,
    ensures
        r@ == pick_line_form(
            (index + 1) as nat,
            count as nat,
            entity.name@,
            entity.entity_type@,
            choice_power(entity.power) as nat,
            idle_seconds as nat,
            weight as nat,
        ),
{
    let mut s: String = copied("[scheduler]   [");
    s.append(dec_text((index + 1) as u128).as_str());
    s.append("/");
    s.append(dec_text(count as u128).as_str());
    s.append("] entity=");
    s.append(entity.name.as_str());
    s.append(" (");
    s.append(entity.entity_type.as_str());
    s.append(") power=");
    s.append(dec_text(entity_power(entity) as u128).as_str());
    s.append(" idle=");
    s.append(dec_text(idle_seconds as u128).as_str());
    s.append("s weight=");
    s.append(dec_text(weight as u128).as_str());
    s
}

/// What to do after the context for an action was asked for.
#[derive(Debug)]
pub enum ContextStep {
    /// No model is configured: the entity is passed over.
    NotConfigured,
    /// Ask the model with this prompt.
    Ask(String),
}

/// Decides what to do with the context for an action.
pub fn after_context(llm_configured: Option<bool>, prompt: Option<&str>) -> (r: ContextStep)
    ensures
        match r {
            ContextStep::NotConfigured => llm_configured != Some(true),
            ContextStep::Ask(p) => llm_configured == Some(true) && p@ == (match prompt {
                Some(s) => s@,
                None => ""@,
            }),
        },
{
    match llm_configured {
        Some(true) => ContextStep::Ask(
            copied(
                match prompt {
                    Some(p) => p,
                    None => "",
                },
            ),
        ),
        _ => ContextStep::NotConfigured,
    }
}

/// What to do after the model was asked.
#[derive(Debug)]
pub enum AnswerStep {
    /// The model failed, for this reason: the entity is passed over.
    Failed(String),
    /// The answer is empty: the entity is passed over.
    EmptyAnswer,
    /// Apply this answer.
    Apply(String),
}

/// Decides what to do with the model's answer.
pub fn after_answer(success: Option<bool>, error: Option<&str>, raw_response: Option<&str>) -> (r:
    AnswerStep)
    ensures
        match r {
            AnswerStep::Failed(e) => success != Some(true) && e@ == (match error {
                Some(s) => s@,
                None => "unknown"@,
            }),
            AnswerStep::EmptyAnswer => success == Some(true) && (raw_response is None
                || raw_response->0@.len() == 0),
            AnswerStep::Apply(a) => success == Some(true) && raw_response is Some && a@
                == raw_response->0@ && a@.len() > 0,
        },
{
    match success {
        Some(true) => match raw_response {
            Some(a) => if a.is_empty() {
                AnswerStep::EmptyAnswer
            } else {
                AnswerStep::Apply(copied(a))
            },
            None => AnswerStep::EmptyAnswer,
        },
        _ => AnswerStep::Failed(
            copied(
                match error {
                    Some(e) => e,
                    None => "unknown",
                },
            ),
        ),
    }
}

/// How the action of an entity ended.
#[derive(Debug)]
pub enum ActionEnd {
    /// The action was applied: its name and the beginning of its outcome. The
    /// time of the action is recorded.
    Done { action: String, outcome: String },
    /// It was not, for this reason; no time is recorded.
    Failed(String),
}

/// The first 100 characters of `s`.
pub open spec fn beginning(s: Seq<char>) -> Seq<char> {
    if s.len() > 100 {
        s.take(100)
    } else {
        s
    }
}

/// Decides how the action of an entity ended.
pub fn after_process(
    success: Option<bool>,
    action: Option<&str>,
    outcome: Option<&str>,
    error: Option<&str>,
) -> (r: ActionEnd)
    ensures
        match r {
            ActionEnd::Done { action: a, outcome: o } => success == Some(true) && a@ == (
            match action {
                Some(s) => s@,
                None => "?"@,
            }) && o@ == beginning(
                match outcome {
                    Some(s) => s@,
                    None => ""@,
                },
            ),
            ActionEnd::Failed(e) => success != Some(true) && e@ == (match error {
                Some(s) => s@,
                None => "unknown"@,
            }),
        },
{
    match success {
        Some(true) => {
            let name: String = copied(
                match action {
                    Some(a) => a,
                    None => "?",
                },
            );
            let full = chars_of(
                match outcome {
                    Some(o) => o,
                    None => "",
                },
            );
            let shown: String = if full.len() > 100 {
                string_between(&full, 0, 100)
            } else {
                string_of(&full)
            };
            assert(full@.len() > 100 ==> full@.subrange(0, 100) =~= full@.take(100));
            ActionEnd::Done { action: name, outcome: shown }
        },
        _ => ActionEnd::Failed(
            copied(
                match error {
                    Some(e) => e,
                    None => "unknown",
                },
            ),
        ),
    }
}

// ---------------------------------------------------------------------------
// Budget
// ---------------------------------------------------------------------------
/// The bits of 50 percent used, from where on the scheduler slows down.
pub const BUDGET_THROTTLE_BITS: u64 = 0x4049_0000_0000_0000;

/// The bits of 80 percent used, from where on it stops.
pub const BUDGET_HALT_BITS: u64 = 0x4054_0000_0000_0000;

/// How many times longer the interval is when slowed down.
pub const BUDGET_THROTTLE_MULTIPLIER: u64 = 5;

/// The seconds between two looks at a budget that is used up.
pub const BUDGET_GATE_POLL_SECONDS: u64 = 60;

/// How far the budget lets the scheduler go.
#[derive(Debug, Clone, Copy, PartialEq, Eq, Structural)]
pub enum GateState {
    /// Less than 50 percent used, or not known.
    Open,
    /// From 50 to 80 percent used.
    Throttled,
    /// 80 percent used or more.
    Closed,
}

impl GateState {
    /// The state in a word.
    pub fn text(&self) -> (r: &'static str)
        ensures
            r@ == (match *self {
                GateState::Open => "open"@,
                GateState::Throttled => "throttled"@,
                GateState::Closed => "closed"@,
            }),
    {
        match self {
            GateState::Open => "open",
            GateState::Throttled => "throttled",
            GateState::Closed => "closed",
        }
    }
}

/// What is known of the budget: the percentage used, a double given by its
/// bits, and the state that was reported with it.
#[derive(Debug)]
pub struct BudgetSnapshot {
    pub used_pct: u64,
    pub state: String,
}

impl Default for BudgetSnapshot {
    fn default() -> (r: Self)
        ensures
            r.used_pct == 0,
            r.state@ == "unknown"@,
    {
        BudgetSnapshot { used_pct: 0, state: copied("unknown") }
    }
}

/// The snapshot with the given values, and with 0 and `unknown` for those that
/// are missing.
pub fn budget_snapshot(used_pct: Option<u64>, state: Option<&str>) -> (r: BudgetSnapshot)
    ensures
        r.used_pct == (match used_pct {
            Some(b) => b,
            None => 0,
        }),
        r.state@ == (match state {
            Some(s) => s@,
            None => "unknown"@,
        }),
{
    BudgetSnapshot {
        used_pct: match used_pct {
            Some(b) => b,
            None => 0,
        },
        state: copied(
            match state {
                Some(s) => s,
                None => "unknown",
            },
        ),
    }
}

/// Reads what is known of the budget from the content of its file, if there is
/// one. What cannot be read counts as nothing used.
pub fn read_budget_gate(content: Option<&str>) -> (r: BudgetSnapshot)
    ensures
        match content {
            None => r.used_pct == 0 && r.state@ == "unknown"@,
            Some(c) => r.used_pct == (match json_double(c@, "/used_pct"@) {
                Some(b) => b,
                None => 0,
            }) && r.state@ == (match json_string(c@, "/state"@) {
                Some(s) => s,
                None => "unknown"@,
            }),
        },
        content is Some && !json_document(content->0@) ==> r.used_pct == 0 && r.state@
            == "unknown"@,
{
    match content {
        None => BudgetSnapshot::default(),
        Some(c) => {
            let state = json_string_at(c, "/state");
            budget_snapshot(json_double_at(c, "/used_pct"), borrowed_opt(&state))
        },
    }
}

/// The interval, made five times longer but not more than 64 bits hold, and at
/// least one second.
pub open spec fn throttled_interval(configured: int) -> int {
    if configured * 5 > u64::MAX {
        u64::MAX as int
    } else if configured * 5 < 1 {
        1
    } else {
        configured * 5
    }
}

/// The interval and the state for a share of the budget used: the configured
/// interval below 50 percent, five times as long from there on, and none from
/// 80 percent on, but for the wait until the next look.
pub fn apply_budget_throttle(configured_interval_s: u64, used_pct: u64) -> (r: (u64, GateState))
    ensures
        at_least(used_pct, BUDGET_HALT_BITS) ==> r == (BUDGET_GATE_POLL_SECONDS, GateState::Closed),
        !at_least(used_pct, BUDGET_HALT_BITS) && at_least(used_pct, BUDGET_THROTTLE_BITS) ==> r.0
            == throttled_interval(configured_interval_s as int) && r.1 == GateState::Throttled,
        !at_least(used_pct, BUDGET_HALT_BITS) && !at_least(used_pct, BUDGET_THROTTLE_BITS) ==> r
            == (configured_interval_s, GateState::Open),
{
    if is_at_least(used_pct, BUDGET_HALT_BITS) {
        (BUDGET_GATE_POLL_SECONDS, GateState::Closed)
    } else if is_at_least(used_pct, BUDGET_THROTTLE_BITS) {
        let wide: u128 = configured_interval_s as u128;
        let factor: u128 = BUDGET_THROTTLE_MULTIPLIER as u128;
        assert(wide * factor == wide * 5 && wide * 5 <= 5 * 0xFFFF_FFFF_FFFF_FFFF)
            by (nonlinear_arith)
            requires
                factor == 5,
                wide <= 0xFFFF_FFFF_FFFF_FFFF,
        ;
        let longer: u128 = wide * factor;
        let interval: u64 = if longer > u64::MAX as u128 {
            u64::MAX
        } else if longer < 1 {
            1
        } else {
            longer as u64
        };
        (interval, GateState::Throttled)
    } else {
        (configured_interval_s, GateState::Open)
    }
}

/// What the scheduler does next.
#[derive(Debug, Clone, Copy, PartialEq, Eq, Structural)]
pub enum LoopStep {
    /// It is switched off: look again after so many seconds.
    Idle { sleep_seconds: u64 },
    /// Too much of the budget is used: look again after so many seconds.
    Skip { sleep_seconds: u64 },
    /// Run a cycle, and sleep for so many seconds after it.
    Run { sleep_seconds: u64 },
}

/// Decides what the scheduler does next.
pub fn next_step(config: &SchedulerConfig, used_pct: u64) -> (r: LoopStep)
    ensures
        !config.enabled ==> r == (LoopStep::Idle { sleep_seconds: 30 }),
        config.enabled && at_least(used_pct, BUDGET_HALT_BITS) ==> r == (LoopStep::Skip {
            sleep_seconds: 60,
        }),
        config.enabled && !at_least(used_pct, BUDGET_HALT_BITS) ==> match r {
            LoopStep::Run { sleep_seconds } => sleep_seconds == (if at_least(
                used_pct,
                BUDGET_THROTTLE_BITS,
            ) {
                throttled_interval(config.interval_seconds as int)
            } else {
                config.interval_seconds as int
            }),
            _ => false,
        },
{
    if !config.enabled {
        return LoopStep::Idle { sleep_seconds: 30 };
    }
    let (interval, gate) = apply_budget_throttle(config.interval_seconds, used_pct);
    match gate {
        GateState::Closed => LoopStep::Skip { sleep_seconds: BUDGET_GATE_POLL_SECONDS },
        _ => LoopStep::Run { sleep_seconds: interval },
    }
}

// ---------------------------------------------------------------------------
// Laws
// ---------------------------------------------------------------------------
/// What was chosen and what is left.
proof fn lemma_pool_and_chosen(w: Seq<u64>, draws: Seq<int>)
    requires
        possible_draws(w, draws),
        draws.len() <= w.len(),
    ensures
        pool_after(w, draws).len() + draws.len() == w.len(),
        chosen_after(w, draws).len() == draws.len(),
        pool_after(w, draws).no_duplicates(),
        chosen_after(w, draws).no_duplicates(),
        forall|i: int|
            0 <= i < pool_after(w, draws).len() ==> 0 <= #[trigger] pool_after(w, draws)[i]
                < w.len(),
        forall|i: int|
            0 <= i < chosen_after(w, draws).len() ==> 0 <= #[trigger] chosen_after(w, draws)[i]
                < w.len(),
        forall|i: int, j: int|
            0 <= i < pool_after(w, draws).len() && 0 <= j < chosen_after(w, draws).len()
                ==> #[trigger] pool_after(w, draws)[i] != #[trigger] chosen_after(w, draws)[j],
    decreases draws.len(),
{
    if draws.len() > 0 {
        let d = draws.drop_last();
        lemma_pool_and_chosen(w, d);
        let p = pool_after(w, d);
        let c = chosen_after(w, d);
        let pw = pool_weights(w, p);
        lemma_passing(pw, draws.last(), 0, 0);
        let place = drawn_place(w, p, draws.last());
        assert(0 <= place < p.len());
        let q = pool_after(w, draws);
        let e = chosen_after(w, draws);
        assert(q == p.remove(place));
        assert(e == c.push(p[place]));
        assert forall|i: int, j: int| 0 <= i < q.len() && 0 <= j < q.len() && i != j implies q[i]
            != q[j] by {
            let i2 = if i < place {
                i
            } else {
                i + 1
            };
            let j2 = if j < place {
                j
            } else {
                j + 1
            };
            assert(q[i] == p[i2] && q[j] == p[j2]);
        }
        assert forall|i: int, j: int| 0 <= i < q.len() && 0 <= j < e.len() implies
            #[trigger] q[i] != #[trigger] e[j] by {
            let i2 = if i < place {
                i
            } else {
                i + 1
            };
            assert(q[i] == p[i2]);
            if j < c.len() {
                assert(e[j] == c[j]);
                assert(p[i2] != c[j]);
            } else {
                assert(e[j] == p[place]);
            }
        }
        assert forall|i: int| 0 <= i < q.len() implies 0 <= #[trigger] q[i] < w.len() by {
            let i2 = if i < place {
                i
            } else {
                i + 1
            };
            assert(q[i] == p[i2]);
        }
        assert forall|i: int, j: int| 0 <= i < e.len() && 0 <= j < e.len() && i != j implies e[i]
            != e[j] by {
            if i < c.len() && j < c.len() {
                assert(e[i] == c[i] && e[j] == c[j]);
            } else if i < c.len() {
                assert(p[place] != c[i]);
            } else {
                assert(p[place] != c[j]);
            }
        }
    }
}

/// Whatever is drawn, as many entities are chosen as there are draws, all of
/// them different and all of them there.
pub proof fn law_chosen_are_different(w: Seq<u64>, draws: Seq<int>)
    requires
        possible_draws(w, draws),
        draws.len() <= w.len(),
    ensures
        chosen_after(w, draws).len() == draws.len(),
        chosen_after(w, draws).no_duplicates(),
        forall|i: int|
            0 <= i < draws.len() ==> 0 <= #[trigger] chosen_after(w, draws)[i] < w.len(),
{
    lemma_pool_and_chosen(w, draws);
}

/// No draw falls on an entity without weight while others have some.
pub proof fn law_no_weight_no_choice(w: Seq<u64>, draw: int)
    requires
        0 <= draw < weight_sum(w),
    ensures
        0 <= passing(w, draw) < w.len(),
        w[passing(w, draw)] > 0,
{
    assert(w.take(0) =~= Seq::empty());
    lemma_passing_positive(w, draw, 0, 0);
}

/// Whatever is drawn, an entity without weight is chosen only after every entity
/// with weight was.
pub proof fn law_weight_comes_first(w: Seq<u64>, draws: Seq<int>, i: int, p: int)
    requires
        possible_draws(w, draws),
        draws.len() <= w.len(),
        0 <= i < draws.len(),
        w[chosen_after(w, draws)[i]] == 0,
        0 <= p < w.len(),
        w[p] > 0,
    ensures
        exists|j: int| 0 <= j < i && #[trigger] chosen_after(w, draws)[j] == p,
    decreases draws.len(),
{
    let d = draws.drop_last();
    let pool = pool_after(w, d);
    let c = chosen_after(w, d);
    let all = chosen_after(w, draws);
    lemma_pool_and_chosen(w, d);
    lemma_pool_and_chosen(w, draws);
    if i < d.len() {
        assert(all[i] == c[i]);
        law_weight_comes_first(w, d, i, p);
        let j = choose|j: int| 0 <= j < i && #[trigger] c[j] == p;
        assert(all[j] == p);
    } else {
        let left = pool_weights(w, pool);
        let place = drawn_place(w, pool, draws.last());
        lemma_sum_prefix(left, left.len() as int);
        assert(left.take(left.len() as int) =~= left);
        if weight_sum(left) > 0 {
            law_no_weight_no_choice(left, draws.last());
            assert(left[place] == w[pool[place]]);
        }
        lemma_all_chosen_or_left(w, d, p);
        if pool.contains(p) {
            let k = choose|k: int| 0 <= k < pool.len() && pool[k] == p;
            lemma_no_sum_no_weight(left, k);
            assert(left[k] == w[p]);
        }
        let j = choose|j: int| 0 <= j < c.len() && c[j] == p;
        assert(all[j] == p);
    }
}

proof fn lemma_no_sum_no_weight(w: Seq<u64>, k: int)
    requires
        weight_sum(w) == 0,
        0 <= k < w.len(),
    ensures
        w[k] == 0,
    decreases w.len(),
{
    lemma_sum_prefix(w, w.len() - 1);
    assert(w.take(w.len() - 1) =~= w.drop_last());
    if k < w.len() - 1 {
        lemma_no_sum_no_weight(w.drop_last(), k);
    }
}

proof fn lemma_all_chosen_or_left(w: Seq<u64>, draws: Seq<int>, p: int)
    requires
        possible_draws(w, draws),
        draws.len() <= w.len(),
        0 <= p < w.len(),
    ensures
        pool_after(w, draws).contains(p) || chosen_after(w, draws).contains(p),
    decreases draws.len(),
{
    if draws.len() == 0 {
        assert(pool_after(w, draws)[p] == p);
    } else {
        let d = draws.drop_last();
        lemma_all_chosen_or_left(w, d, p);
        lemma_pool_and_chosen(w, d);
        let pool = pool_after(w, d);
        let c = chosen_after(w, d);
        lemma_passing(pool_weights(w, pool), draws.last(), 0, 0);
        let place = drawn_place(w, pool, draws.last());
        if c.contains(p) {
            let j = choose|j: int| 0 <= j < c.len() && c[j] == p;
            assert(chosen_after(w, draws)[j] == p);
        } else {
            let k = choose|k: int| 0 <= k < pool.len() && pool[k] == p;
            if k == place {
                assert(chosen_after(w, draws)[c.len() as int] == p);
            } else {
                assert(pool_after(w, draws)[if k < place {
                    k
                } else {
                    k - 1
                }] == p);
            }
        }
    }
}

/// Of what is chosen, an entity without weight is chosen only where every entity
/// with weight is.
pub proof fn law_choice_prefers_weight(w: Seq<u64>, k: u32, chosen: Seq<int>)
    requires
        is_choice(w, k, chosen),
    ensures
        prefers_weight(Seq::new(w.len(), |i: int| w[i] as int), chosen),
{
    let n: nat = if k < w.len() {
        k as nat
    } else {
        w.len()
    };
    let ints = Seq::new(w.len(), |i: int| w[i] as int);
    if weight_sum(w) == 0 {
        assert forall|p: int| 0 <= p < ints.len() implies #[trigger] ints[p] == 0 by {
            lemma_no_sum_no_weight(w, p);
        }
    } else {
        let draws = choose|draws: Seq<int>|
            #![trigger possible_draws(w, draws)]
            possible_draws(w, draws) && draws.len() == n && chosen == chosen_after(w, draws);
        lemma_pool_and_chosen(w, draws);
        assert forall|i: int, p: int|
            0 <= i < chosen.len() && 0 <= p < ints.len() && ints[#[trigger] chosen[i]] == 0
                && #[trigger] ints[p] > 0 implies chosen.contains(p) by {
            assert(0 <= chosen_after(w, draws)[i] < w.len());
            law_weight_comes_first(w, draws, i, p);
        }
    }
}

proof fn lemma_passing_positive(w: Seq<u64>, draw: int, i: int, sum: int)
    requires
        0 <= i <= w.len(),
        sum == weight_sum(w.take(i)),
        sum <= draw < weight_sum(w),
    ensures
        i <= passing_from(w, draw, i, sum) < w.len(),
        w[passing_from(w, draw, i, sum)] > 0,
    decreases w.len() - i,
{
    if i < w.len() {
        assert(w.take(i + 1).drop_last() =~= w.take(i));
        if sum + w[i] <= draw {
            lemma_passing_positive(w, draw, i + 1, sum + w[i]);
        }
    } else {
        assert(w.take(i) =~= w);
    }
}

/// The thresholds are 50 and 80 percent.
pub proof fn law_thresholds()
    ensures
        units(BUDGET_THROTTLE_BITS) == 50 * one_unit(),
        units(BUDGET_HALT_BITS) == 80 * one_unit(),
{
    lemma2_to64();
    lemma_pow2_adds(32, 15);
    lemma_pow2_adds(32, 14);
    lemma_small_whole(BUDGET_THROTTLE_BITS, 0x404, 50, 47);
    lemma_small_whole(BUDGET_HALT_BITS, 0x405, 80, 46);
}

/// A budget of which nothing is known neither slows the scheduler down nor stops
/// it.
pub proof fn law_unknown_budget_changes_nothing()
    ensures
        !at_least(0, BUDGET_THROTTLE_BITS),
        !at_least(0, BUDGET_HALT_BITS),
{
    law_thresholds();
}

/// A slowed-down interval is never shorter than the configured one, and never
/// nothing.
pub proof fn law_throttle_slows_down(configured: int)
    requires
        0 <= configured <= u64::MAX,
    ensures
        throttled_interval(configured) >= configured,
        throttled_interval(configured) >= 1,
{
}

/// What the entities before place `n` weigh together, without those that were
/// taken.
pub open spec fn left_before(w: Seq<u64>, taken: Seq<int>, n: int) -> int
    decreases n,
{
    if n <= 0 {
        0
    } else {
        left_before(w, taken, n - 1) + (if taken.contains(n - 1) {
            0
        } else {
            w[n - 1] as int
        })
    }
}

/// A weight of 1 for each of `n` entities.
pub open spec fn ones(n: nat) -> Seq<u64> {
    Seq::new(n, |i: int| 1u64)
}

proof fn lemma_passing_interval(w: Seq<u64>, draw: int, i: int, sum: int)
    requires
        0 <= i <= w.len(),
        sum == weight_sum(w.take(i)),
        sum <= draw < weight_sum(w),
    ensures
        ({
            let m = passing_from(w, draw, i, sum);
            &&& i <= m < w.len()
            &&& weight_sum(w.take(m)) <= draw < weight_sum(w.take(m)) + w[m]
        }),
    decreases w.len() - i,
{
    if i < w.len() {
        assert(w.take(i + 1).drop_last() =~= w.take(i));
        if sum + w[i] <= draw {
            lemma_passing_interval(w, draw, i + 1, sum + w[i]);
        }
    } else {
        assert(w.take(i) =~= w);
    }
}

/// A place is hit by exactly as many draws as its weight: those from the sum of
/// the weights before it on.
pub proof fn law_weight_is_chance(w: Seq<u64>, p: int, draw: int)
    requires
        0 <= p < w.len(),
        0 <= draw < weight_sum(w),
    ensures
        passing(w, draw) == p <==> weight_sum(w.take(p)) <= draw < weight_sum(w.take(p)) + w[p],
{
    assert(w.take(0) =~= Seq::empty());
    lemma_passing_interval(w, draw, 0, 0);
    let m = passing(w, draw);
    if m < p {
        lemma_sum_prefix(w.take(p), m + 1);
        assert(w.take(p).take(m + 1) =~= w.take(m + 1));
        assert(w.take(m + 1).drop_last() =~= w.take(m));
    } else if p < m {
        lemma_sum_prefix(w.take(m), p + 1);
        assert(w.take(m).take(p + 1) =~= w.take(p + 1));
        assert(w.take(p + 1).drop_last() =~= w.take(p));
    }
}

/// The sum of weights is that of all of them.
pub proof fn law_weight_sum(w: Seq<u64>, x: u64)
    ensures
        weight_sum(Seq::empty()) == 0,
        weight_sum(w.push(x)) == weight_sum(w) + x,
{
    assert(w.push(x).drop_last() =~= w);
}

proof fn lemma_pool_ascending(w: Seq<u64>, draws: Seq<int>)
    requires
        possible_draws(w, draws),
        draws.len() <= w.len(),
    ensures
        forall|i: int, j: int|
            0 <= i < j < pool_after(w, draws).len() ==> pool_after(w, draws)[i] < pool_after(
                w,
                draws,
            )[j],
    decreases draws.len(),
{
    if draws.len() > 0 {
        let d = draws.drop_last();
        lemma_pool_ascending(w, d);
        lemma_pool_and_chosen(w, d);
        let p = pool_after(w, d);
        lemma_passing(pool_weights(w, p), draws.last(), 0, 0);
        let place = drawn_place(w, p, draws.last());
        let q = pool_after(w, draws);
        assert forall|i: int, j: int| 0 <= i < j < q.len() implies q[i] < q[j] by {
            let i2 = if i < place {
                i
            } else {
                i + 1
            };
            let j2 = if j < place {
                j
            } else {
                j + 1
            };
            assert(q[i] == p[i2] && q[j] == p[j2]);
        }
    }
}

proof fn lemma_left(v: Seq<u64>, pool: Seq<int>, taken: Seq<int>, n: int) -> (m: int)
    requires
        0 <= n <= v.len(),
        forall|i: int, j: int| 0 <= i < j < pool.len() ==> pool[i] < pool[j],
        forall|i: int| 0 <= i < pool.len() ==> 0 <= #[trigger] pool[i] < v.len(),
        forall|p: int| 0 <= p < v.len() ==> (#[trigger] pool.contains(p) <==> !taken.contains(p)),
    ensures
        0 <= m <= pool.len(),
        m > 0 ==> pool[m - 1] < n,
        m < pool.len() ==> pool[m] >= n,
        weight_sum(pool_weights(v, pool).take(m)) == left_before(v, taken, n),
    decreases n,
{
    let pw = pool_weights(v, pool);
    if n == 0 {
        assert(pw.take(0) =~= Seq::empty());
        0
    } else {
        let m0 = lemma_left(v, pool, taken, n - 1);
        assert(pool.contains(n - 1) <==> !taken.contains(n - 1));
        if pool.contains(n - 1) {
            let i = choose|i: int| 0 <= i < pool.len() && pool[i] == n - 1;
            assert(i == m0) by {
                if i < m0 && i < m0 - 1 {
                    assert(pool[i] < pool[m0 - 1]);
                }
                if m0 < i {
                    assert(pool[m0] < pool[i]);
                }
            }
            assert(pw.take(m0 + 1).drop_last() =~= pw.take(m0));
            assert(pw.take(m0 + 1).last() == v[n - 1]);
            if m0 + 1 < pool.len() {
                assert(pool[m0] < pool[m0 + 1]);
            }
            m0 + 1
        } else {
            if m0 < pool.len() {
                assert(pool[m0] != n - 1) by {
                    if pool[m0] == n - 1 {
                        assert(pool.contains(n - 1));
                    }
                }
            }
            m0
        }
    }
}

proof fn lemma_left_at(v: Seq<u64>, pool: Seq<int>, taken: Seq<int>, k: int)
    requires
        0 <= k < pool.len(),
        forall|i: int, j: int| 0 <= i < j < pool.len() ==> pool[i] < pool[j],
        forall|i: int| 0 <= i < pool.len() ==> 0 <= #[trigger] pool[i] < v.len(),
        forall|p: int| 0 <= p < v.len() ==> (#[trigger] pool.contains(p) <==> !taken.contains(p)),
    ensures
        weight_sum(pool_weights(v, pool).take(k)) == left_before(v, taken, pool[k]),
        weight_sum(pool_weights(v, pool)) == left_before(v, taken, v.len() as int),
{
    let pw = pool_weights(v, pool);
    let m = lemma_left(v, pool, taken, pool[k]);
    if m < k {
        assert(pool[m] < pool[k]);
    }
    if k < m && k < m - 1 {
        assert(pool[k] < pool[m - 1]);
    }
    let all = lemma_left(v, pool, taken, v.len() as int);
    assert(all == pool.len());
    assert(pw.take(all) =~= pw);
}

proof fn lemma_ones(n: nat)
    ensures
        weight_sum(ones(n)) == n,
    decreases n,
{
    if n > 0 {
        lemma_ones((n - 1) as nat);
        assert(ones(n).drop_last() =~= ones((n - 1) as nat));
    }
}

/// Draw number `i` falls on the entity that it hits when those that were not
/// chosen before stand side by side, each as wide as its weight; or each as wide
/// as 1, where none of them has weight. The draw is below the width of them all.
pub proof fn law_draws_hit_by_weight(w: Seq<u64>, draws: Seq<int>, i: int)
    requires
        possible_draws(w, draws),
        draws.len() <= w.len(),
        0 <= i < draws.len(),
    ensures
        ({
            let chosen = chosen_after(w, draws);
            let taken = chosen.take(i);
            let left = left_before(w, taken, w.len() as int);
            let v = if left == 0 {
                ones(w.len())
            } else {
                w
            };
            &&& chosen.len() == draws.len()
            &&& 0 <= chosen[i] < w.len()
            &&& !taken.contains(chosen[i])
            &&& left_before(v, taken, chosen[i]) <= draws[i] < left_before(v, taken, chosen[i])
                + v[chosen[i]]
            &&& 0 <= draws[i] < left_before(v, taken, w.len() as int)
            &&& draw_limit(w, pool_after(w, draws.take(i))) == left_before(
                v,
                taken,
                w.len() as int,
            )
        }),
    decreases draws.len(),
{
    let d = draws.drop_last();
    let chosen = chosen_after(w, draws);
    lemma_pool_and_chosen(w, draws);
    lemma_pool_and_chosen(w, d);
    if i < d.len() {
        law_draws_hit_by_weight(w, d, i);
        assert(chosen.take(i) =~= chosen_after(w, d).take(i));
        assert(d.take(i) =~= draws.take(i));
    } else {
        assert(draws.take(i) =~= d);
        let taken = chosen_after(w, d);
        assert(chosen.take(i) =~= taken);
        let pool = pool_after(w, d);
        lemma_pool_ascending(w, d);
        assert forall|p: int| 0 <= p < w.len() implies (#[trigger] pool.contains(p)
            <==> !taken.contains(p)) by {
            lemma_all_chosen_or_left(w, d, p);
        }
        let pw = pool_weights(w, pool);
        let draw = draws.last();
        let place = drawn_place(w, pool, draw);
        lemma_passing(pw, draw, 0, 0);
        lemma_left_at(w, pool, taken, place);
        lemma_sum_prefix(pw, pw.len() as int);
        assert(pw.take(pw.len() as int) =~= pw);
        assert(pool.contains(pool[place]));
        if weight_sum(pw) == 0 {
            let v = ones(w.len());
            lemma_left_at(v, pool, taken, place);
            assert(pool_weights(v, pool) =~= ones(pool.len()));
            assert(pool_weights(v, pool).take(place) =~= ones(place as nat));
            lemma_ones(place as nat);
            lemma_ones(pool.len());
        } else {
            law_weight_is_chance(pw, place, draw);
        }
    }
}

/// What the entities that were not taken weigh: by their weights, or by their
/// number where none of them has weight.
pub open spec fn widths(w: Seq<u64>, taken: Seq<int>) -> Seq<u64> {
    if left_before(w, taken, w.len() as int) == 0 {
        ones(w.len())
    } else {
        w
    }
}

/// What is drawn from a source comes from it: each of the draws, which are the
/// result, is what it gave for the width of what was left to choose from, and the
/// entity chosen is the one that it hits. Where nothing has weight, the first
/// entities are chosen.
pub proof fn law_draws_come_from_the_source<F: Fn(u128) -> u128>(
    source: F,
    w: Seq<u64>,
    k: u32,
    chosen: Seq<int>,
) -> (draws: Seq<u128>)
    requires
        is_drawn_from(source, w, k, chosen),
    ensures
        chosen.len() == (if k < w.len() {
            k as nat
        } else {
            w.len()
        }),
        left_before(w, Seq::empty(), w.len() as int) == 0 ==> forall|i: int|
            0 <= i < chosen.len() ==> #[trigger] chosen[i] == i,
        left_before(w, Seq::empty(), w.len() as int) != 0 ==> draws.len() == chosen.len()
            && forall|i: int|
            0 <= i < chosen.len() ==> {
                let c = #[trigger] chosen[i];
                let taken = chosen.take(i);
                let v = widths(w, taken);
                &&& 0 <= c < w.len() && !taken.contains(c)
                &&& source.ensures((left_before(v, taken, w.len() as int) as u128,), draws[i])
                &&& left_before(v, taken, c) <= draws[i] < left_before(v, taken, c) + v[c]
            },
{
    let n: nat = if k < w.len() {
        k as nat
    } else {
        w.len()
    };
    lemma_left_of_all(w);
    if weight_sum(w) != 0 {
        let ints = choose|draws: Seq<int>|
            #![trigger possible_draws(w, draws)]
            possible_draws(w, draws) && given_draws(source, w, draws) && draws.len() == n && chosen
                == chosen_after(w, draws);
        lemma_pool_and_chosen(w, ints);
        let draws = Seq::new(n, |i: int| ints[i] as u128);
        assert forall|i: int| 0 <= i < chosen.len() implies ({
            let c = #[trigger] chosen[i];
            let taken = chosen.take(i);
            let v = widths(w, taken);
            &&& 0 <= c < w.len() && !taken.contains(c)
            &&& source.ensures((left_before(v, taken, w.len() as int) as u128,), draws[i])
            &&& left_before(v, taken, c) <= draws[i] < left_before(v, taken, c) + v[c]
        }) by {
            law_draws_hit_by_weight(w, ints, i);
            lemma_given(source, w, ints, i);
        }
        draws
    } else {
        Seq::empty()
    }
}

proof fn lemma_left_of_all(w: Seq<u64>)
    ensures
        left_before(w, Seq::empty(), w.len() as int) == weight_sum(w),
{
    let all = Seq::new(w.len(), |i: int| i);
    assert forall|p: int| 0 <= p < w.len() implies (#[trigger] all.contains(p) <==> !Seq::<
        int,
    >::empty().contains(p)) by {
        assert(all[p] == p);
    }
    assert(pool_weights(w, all) =~= w);
    if w.len() > 0 {
        lemma_left_at(w, all, Seq::empty(), 0);
    }
}

proof fn lemma_given<F: Fn(u128) -> u128>(source: F, w: Seq<u64>, draws: Seq<int>, i: int)
    requires
        given_draws(source, w, draws),
        0 <= i < draws.len(),
    ensures
        0 <= draws[i] <= u128::MAX,
        source.ensures((draw_limit(w, pool_after(w, draws.take(i))) as u128,), draws[i] as u128),
    decreases draws.len(),
{
    let d = draws.drop_last();
    if i < d.len() {
        lemma_given(source, w, d, i);
        assert(d.take(i) =~= draws.take(i));
    } else {
        assert(draws.take(i) =~= d);
    }
}

/// What is drawn at random comes from `draw_below`, and from nothing else.
proof fn law_random_draws_are_drawn_below(w: Seq<u64>, k: u32, chosen: Seq<int>)
    ensures
        is_drawn_at_random(w, k, chosen) <==> is_drawn_from(draw_below, w, k, chosen),
{
}

/// A power counts where it is positive, and as 0 where it is not, or is missing.
pub proof fn law_choice_power(p: i64)
    ensures
        p >= 0 ==> choice_power(Some(p)) == p,
        p <= 0 ==> choice_power(Some(p)) == 0,
        choice_power(None) == 0,
{
}

/// A slowed-down interval is five times the configured one, as far as 64 bits go,
/// and one second where that is nothing.
pub proof fn law_throttle_is_five_times(configured: int)
    requires
        0 <= configured <= u64::MAX,
    ensures
        1 <= configured && 5 * configured <= u64::MAX ==> throttled_interval(configured) == 5
            * configured,
        5 * configured > u64::MAX ==> throttled_interval(configured) == u64::MAX,
        configured == 0 ==> throttled_interval(configured) == 1,
{
}

/// What is shown of an outcome is its beginning, of up to a hundred characters.
pub proof fn law_beginning(s: Seq<char>)
    ensures
        beginning(s).is_prefix_of(s),
        s.len() <= 100 ==> beginning(s) == s,
        s.len() > 100 ==> beginning(s).len() == 100,
{
    assert(beginning(s) =~= s.subrange(0, beginning(s).len() as int));
}

/// The line that announces an action names the entity and its type.
pub proof fn law_pick_line(
    number: nat,
    count: nat,
    name: Seq<char>,
    entity_type: Seq<char>,
    power: nat,
    idle: nat,
    weight: nat,
)
    ensures
        ({
            let line = pick_line_form(number, count, name, entity_type, power, idle, weight);
            &&& contains_text(line, name)
            &&& contains_text(line, entity_type)
            &&& begins_with(line, "[scheduler]   ["@ + dec(number) + "/"@ + dec(count) + "]"@)
            &&& ends_with(
                line,
                " power="@ + dec(power) + " idle="@ + dec(idle) + "s weight="@ + dec(weight),
            )
        }),
{
    reveal_strlit("] entity=");
    reveal_strlit("]");
    reveal_strlit(" entity=");
    reveal_strlit(") power=");
    reveal_strlit(")");
    reveal_strlit(" power=");
    let a = "[scheduler]   ["@ + dec(number) + "/"@ + dec(count);
    let z = dec(power) + " idle="@ + dec(idle) + "s weight="@ + dec(weight);
    let line = pick_line_form(number, count, name, entity_type, power, idle, weight);
    let after_name = " ("@ + entity_type + ") power="@ + z;
    assert(line =~= (a + "] entity="@) + name + after_name);
    law_parts_are_found(a + "] entity="@, name, after_name);
    let before_type = a + "] entity="@ + name + " ("@;
    assert(line =~= before_type + entity_type + (") power="@ + z));
    law_parts_are_found(before_type, entity_type, ") power="@ + z);
    let head = a + "]"@;
    assert("] entity="@ =~= "]"@ + " entity="@);
    let rest = " entity="@ + name + after_name;
    assert(line =~= head + rest);
    law_parts_are_found(Seq::empty(), head, rest);
    assert(") power="@ =~= ")"@ + " power="@);
    let tail = " power="@ + z;
    assert(line =~= before_type + entity_type + ")"@ + tail);
    law_parts_are_found(before_type + entity_type + ")"@, tail, Seq::empty());
    assert(tail =~= " power="@ + dec(power) + " idle="@ + dec(idle) + "s weight="@ + dec(weight));
}

} // verus!
