//! Applying the effects of one action to the world: to the one who acts and to
//! every other entity they name.
use vstd::prelude::*;
use vstd::string::*;

use crate::apply::{
    apply_effects_to_target, borrowed_views, change_views, law_only_properties_change, real_views,
    same_internals, sums_given, target_run, Change, ChangeView, RunView, Scaling, ScalingView,
};
use crate::effects::{
    effect_weight, parsed_views, refusal, weight_of, ParsedEffect, ParsedView, Real, RealView,
};
use crate::entity::{EntityView, WorldEntity};
use crate::stats::{check_stats_cap_warn, stats_cap, total, with_cap_warning};
use crate::tag_rules::{
    added_warning, after_rule, comes, goes, law_rule_decides, law_rule_keeps_other_tags,
    removed_warning, tag_notice, TagRule, TagUpdate,
};
use crate::text::{copied, lemma_texts_push, texts};

verus! {

broadcast use lemma_texts_push;

// ---------------------------------------------------------------------------
// Targets
// ---------------------------------------------------------------------------
/// `x` put in its place in the ascending list `ids`, unless it is there.
pub open spec fn placed(ids: Seq<u128>, x: u128) -> Seq<u128>
    decreases ids.len(),
{
    if ids.len() == 0 {
        seq![x]
    } else if ids.last() < x {
        ids.push(x)
    } else if ids.last() == x {
        ids
    } else {
        placed(ids.drop_last(), x).push(ids.last())
    }
}

/// The ids of the entities on which effects land, ascending.
pub open spec fn targets(effects: Seq<ParsedView>, actor_id: u128) -> Seq<u128>
    decreases effects.len(),
{
    if effects.len() == 0 {
        Seq::empty()
    } else {
        placed(targets(effects.drop_last(), actor_id), effects.last().target.id(actor_id))
    }
}

/// The effects that land on one entity, in order.
pub open spec fn landing_on(effects: Seq<ParsedView>, actor_id: u128, id: u128) -> Seq<ParsedView>
    decreases effects.len(),
{
    if effects.len() == 0 {
        Seq::empty()
    } else {
        let earlier = landing_on(effects.drop_last(), actor_id, id);
        if effects.last().target.id(actor_id) == id {
            earlier.push(effects.last())
        } else {
            earlier
        }
    }
}

/// Each id is greater than the one before it.
pub open spec fn ascending(ids: Seq<u128>) -> bool {
    forall|i: int, j: int| 0 <= i < j < ids.len() ==> ids[i] < ids[j]
}

/// Puts an id in its place in an ascending list.
fn place(ids: &mut Vec<u128>, x: u128)
    ensures
        final(ids)@ == placed(old(ids)@, x),
{
    let ghost all = ids@;
    let mut i: usize = ids.len();
    assert(all.take(i as int) =~= all);
    assert(placed(all, x) =~= placed(all.take(i as int), x) + all.skip(i as int));
    while i > 0 && ids[i - 1] > x
        invariant
            i <= all.len(),
            ids@ == all,
            placed(all, x) == placed(all.take(i as int), x) + all.skip(i as int),
        decreases i,
    {
        assert(all.take(i as int).drop_last() =~= all.take(i - 1));
        assert(placed(all.take(i as int), x) + all.skip(i as int) =~= placed(all.take(i - 1), x)
            + all.skip(i - 1));
        i = i - 1;
    }
    if i == 0 {
        ids.insert(0, x);
        assert(ids@ =~= placed(all.take(0), x) + all.skip(0));
    } else if ids[i - 1] < x {
        ids.insert(i, x);
        assert(ids@ =~= all.take(i as int).push(x) + all.skip(i as int));
    } else {
        assert(all =~= all.take(i as int) + all.skip(i as int));
    }
}

/// The ids of the entities on which effects land, ascending.
pub fn effect_targets(effects: &Vec<ParsedEffect>, actor_id: u128) -> (r: Vec<u128>)
    ensures
        r@ == targets(parsed_views(effects@), actor_id),
{
    let mut ids: Vec<u128> = Vec::new();
    let ghost all = parsed_views(effects@);
    let mut i: usize = 0;
    assert(all.take(0) =~= Seq::empty());
    while i < effects.len()
        invariant
            i <= effects@.len(),
            all == parsed_views(effects@),
            ids@ == targets(all.take(i as int), actor_id),
        decreases effects.len() - i,
    {
        assert(all.take(i + 1).drop_last() =~= all.take(i as int));
        place(&mut ids, effects[i].target.target_id(actor_id));
        i = i + 1;
    }
    assert(all.take(i as int) =~= all);
    ids
}

/// The effects that land on one entity, in order.
pub fn effects_on<'a>(effects: &'a Vec<ParsedEffect>, actor_id: u128, id: u128) -> (r: Vec<
    &'a ParsedEffect,
>)
    ensures
        borrowed_views(r@) == landing_on(parsed_views(effects@), actor_id, id),
{
    let mut out: Vec<&'a ParsedEffect> = Vec::new();
    let ghost all = parsed_views(effects@);
    let mut i: usize = 0;
    assert(all.take(0) =~= Seq::empty());
    assert(borrowed_views(out@) =~= Seq::empty());
    while i < effects.len()
        invariant
            i <= effects@.len(),
            all == parsed_views(effects@),
            borrowed_views(out@) == landing_on(all.take(i as int), actor_id, id),
        decreases effects.len() - i,
    {
        assert(all.take(i + 1).drop_last() =~= all.take(i as int));
        let f: &'a ParsedEffect = &effects[i];
        if f.target.target_id(actor_id) == id {
            let ghost before = out@;
            out.push(f);
            assert(borrowed_views(out@) =~= borrowed_views(before).push(f@));
        }
        i = i + 1;
    }
    assert(all.take(i as int) =~= all);
    out
}

/// The doubles that the changes of one turn add up from, of the first `n`
/// effects.
pub open spec fn weights_in(effects: Seq<ParsedView>, n: int) -> Seq<u64>
    decreases n,
{
    if n <= 0 {
        Seq::empty()
    } else {
        match weight_of(effects[n - 1].value) {
            Some(b) => weights_in(effects, n - 1).push(b),
            None => weights_in(effects, n - 1),
        }
    }
}

/// The doubles, by their bits, whose absolute values are what the changes of
/// one turn add up to for an entity; none for a protected one.
pub fn normalization_weights(effects: &Vec<&ParsedEffect>, protected_entity: bool) -> (r: Vec<u64>)
    ensures
        r@ == if protected_entity {
            Seq::empty()
        } else {
            weights_in(borrowed_views(effects@), effects@.len() as int)
        },
{
    let mut out: Vec<u64> = Vec::new();
    if protected_entity {
        return out;
    }
    let ghost all = borrowed_views(effects@);
    let mut i: usize = 0;
    while i < effects.len()
        invariant
            i <= effects@.len(),
            all == borrowed_views(effects@),
            out@ == weights_in(all, i as int),
        decreases effects.len() - i,
    {
        if let Some(b) = effect_weight(&effects[i].value) {
            out.push(b);
        }
        i = i + 1;
    }
    out
}

// ---------------------------------------------------------------------------
// Model
// ---------------------------------------------------------------------------
/// What a list of entities holds.
pub open spec fn entity_views(s: Seq<WorldEntity>) -> Seq<EntityView> {
    Seq::new(s.len(), |i: int| s[i]@)
}

/// The first index from `i` on of an entity with the given id.
pub open spec fn entity_from(s: Seq<EntityView>, id: u128, i: int) -> Option<int>
    decreases s.len() - i,
{
    if i < 0 || i >= s.len() {
        None
    } else if s[i].id == id {
        Some(i)
    } else {
        entity_from(s, id, i + 1)
    }
}

/// The index of the entity with the given id.
pub open spec fn entity_at(s: Seq<EntityView>, id: u128) -> Option<int> {
    entity_from(s, id, 0)
}

/// The world's entities in the course of an action, with what was written and
/// which entities were written to.
pub struct ActionView {
    pub entities: Seq<EntityView>,
    pub warnings: Seq<Seq<char>>,
    pub actor: Seq<ChangeView>,
    pub others: Seq<(u128, Seq<char>, Seq<ChangeView>)>,
    pub affected: Seq<u128>,
}

/// The scaling for target number `g`; none beyond the end of the list.
pub open spec fn scaling_at(scalings: Seq<Scaling>, g: int) -> ScalingView {
    if 0 <= g < scalings.len() {
        scalings[g]@
    } else {
        ScalingView::identity()
    }
}

/// After the effects on one entity were applied.
pub open spec fn target_step(
    s: ActionView,
    actor_id: u128,
    id: u128,
    effects: Seq<ParsedView>,
    scaling: ScalingView,
    sums: Seq<RealView>,
) -> ActionView {
    match entity_at(s.entities, id) {
        None => s,
        Some(i) => {
            let e = s.entities[i];
            let r = target_run(e, s.warnings, landing_on(effects, actor_id, id), scaling, sums);
            ActionView {
                entities: s.entities.update(i, r.entity),
                warnings: r.warnings,
                actor: if id == actor_id {
                    r.changes
                } else {
                    s.actor
                },
                others: if id != actor_id && r.changes.len() > 0 {
                    s.others.push((id, e.name, r.changes))
                } else {
                    s.others
                },
                affected: if r.changes.len() > 0 {
                    s.affected.push(id)
                } else {
                    s.affected
                },
            }
        },
    }
}

/// After the effects on the first `n` targets were applied; `sums[g]` are the
/// sums that target number `g` needs.
pub open spec fn targets_run(
    start: ActionView,
    actor_id: u128,
    effects: Seq<ParsedView>,
    scalings: Seq<Scaling>,
    sums: Seq<Seq<Real>>,
    n: int,
) -> ActionView
    decreases n,
{
    if n <= 0 {
        start
    } else {
        target_step(
            targets_run(start, actor_id, effects, scalings, sums, n - 1),
            actor_id,
            targets(effects, actor_id)[n - 1],
            effects,
            scaling_at(scalings, n - 1),
            real_views(sums[n - 1]),
        )
    }
}

/// Every sum that a target needs is one that `sum` gives.
pub open spec fn all_sums_given<F: Fn(u64, u64) -> Real>(
    sum: F,
    start: ActionView,
    actor_id: u128,
    effects: Seq<ParsedView>,
    scalings: Seq<Scaling>,
    sums: Seq<Seq<Real>>,
) -> bool {
    &&& sums.len() == targets(effects, actor_id).len()
    &&& forall|g: int| #![trigger sums[g]]
        0 <= g < sums.len() ==> target_sums_given(
            sum,
            targets_run(start, actor_id, effects, scalings, sums, g),
            actor_id,
            effects,
            scalings,
            sums[g],
            g,
        )
}

/// Every sum that target number `g` needs is one that `sum` gives.
pub open spec fn target_sums_given<F: Fn(u64, u64) -> Real>(
    sum: F,
    s: ActionView,
    actor_id: u128,
    effects: Seq<ParsedView>,
    scalings: Seq<Scaling>,
    sums: Seq<Real>,
    g: int,
) -> bool {
    let id = targets(effects, actor_id)[g];
    match entity_at(s.entities, id) {
        None => true,
        Some(i) => sums_given(
            sum,
            s.entities[i],
            s.warnings,
            landing_on(effects, actor_id, id),
            scaling_at(scalings, g),
            sums,
        ),
    }
}

/// Where an action begins.
pub open spec fn action_start(
    entities: Seq<EntityView>,
    warnings: Seq<Seq<char>>,
) -> ActionView {
    ActionView {
        entities,
        warnings,
        actor: Seq::empty(),
        others: Seq::empty(),
        affected: Seq::empty(),
    }
}

/// One entity whose tag changed: its name, whether the tag came or went, and the
/// threshold in tenths.
pub struct ToggleView {
    pub name: Seq<char>,
    pub added: bool,
    pub removed: bool,
    pub tenths: int,
}

/// The world's entities and warnings after a tag rule ran on some of them,
/// with the names of those whose tag changed.
pub struct TagRunView {
    pub entities: Seq<EntityView>,
    pub warnings: Seq<Seq<char>>,
    pub toggled: Seq<ToggleView>,
}

/// After the rule for a tag ran on the entity with the given id.
pub open spec fn tag_step(
    s: TagRunView,
    id: u128,
    rule: TagRule,
) -> TagRunView {
    match entity_at(s.entities, id) {
        None => s,
        Some(i) => {
            let e = s.entities[i];
            let tag = rule.tag_text();
            let t = rule.tenths(e);
            TagRunView {
                entities: s.entities.update(i, after_rule(e, tag, t)),
                warnings: if comes(e.tags, tag, t) {
                    s.warnings.push(added_warning(tag, e.name, t))
                } else if goes(e.tags, tag, t) {
                    s.warnings.push(removed_warning(tag, e.name, t))
                } else {
                    s.warnings
                },
                toggled: if comes(e.tags, tag, t) {
                    s.toggled.push(
                        ToggleView { name: e.name, added: true, removed: false, tenths: t },
                    )
                } else if goes(e.tags, tag, t) {
                    s.toggled.push(
                        ToggleView { name: e.name, added: false, removed: true, tenths: t },
                    )
                } else {
                    s.toggled
                },
            }
        },
    }
}

/// After the rule for a tag ran on the entities with the first `n` ids.
pub open spec fn tag_run(
    entities: Seq<EntityView>,
    warnings: Seq<Seq<char>>,
    ids: Seq<u128>,
    rule: TagRule,
    n: int,
) -> TagRunView
    decreases n,
{
    if n <= 0 {
        TagRunView { entities, warnings, toggled: Seq::empty() }
    } else {
        tag_step(tag_run(entities, warnings, ids, rule, n - 1), ids[n - 1], rule)
    }
}

/// The warnings after the caps of the entities with the first `n` ids were
/// looked at.
pub open spec fn cap_run(
    entities: Seq<EntityView>,
    warnings: Seq<Seq<char>>,
    ids: Seq<u128>,
    n: int,
) -> Seq<Seq<char>>
    decreases n,
{
    if n <= 0 {
        warnings
    } else {
        let w = cap_run(entities, warnings, ids, n - 1);
        match entity_at(entities, ids[n - 1]) {
            None => w,
            Some(i) => with_cap_warning(w, entities[i]),
        }
    }
}

/// What an action did.
pub struct ReportView {
    pub actor: Seq<ChangeView>,
    pub others: Seq<(u128, Seq<char>, Seq<ChangeView>)>,
    pub hidden: Seq<ToggleView>,
    pub corrupted: Seq<ToggleView>,
}

/// The world's entities, the warnings and the report after an action.
pub struct OutcomeView {
    pub entities: Seq<EntityView>,
    pub warnings: Seq<Seq<char>>,
    pub report: ReportView,
}

/// What becomes of a world whose targets were written to: the rule for the
/// `hidden` tag, then the one for `corrupted`, then the look at the caps, each
/// on every entity that was written to.
pub open spec fn settled(s: ActionView) -> OutcomeView {
    let n = s.affected.len() as int;
    let hidden = tag_run(s.entities, s.warnings, s.affected, TagRule::Hidden, n);
    let corrupted = tag_run(
        hidden.entities,
        hidden.warnings,
        s.affected,
        TagRule::Corrupted,
        n,
    );
    OutcomeView {
        entities: corrupted.entities,
        warnings: cap_run(corrupted.entities, corrupted.warnings, s.affected, n),
        report: ReportView {
            actor: s.actor,
            others: s.others,
            hidden: hidden.toggled,
            corrupted: corrupted.toggled,
        },
    }
}

// ---------------------------------------------------------------------------
// Report
// ---------------------------------------------------------------------------
/// One entity whose tag changed.
#[derive(Debug)]
pub struct TagToggle {
    pub name: String,
    pub update: TagUpdate,
}

/// What a list of toggles holds.
pub open spec fn toggle_views(s: Seq<TagToggle>) -> Seq<ToggleView> {
    Seq::new(
        s.len(),
        |i: int|
            ToggleView {
                name: s[i].name@,
                added: s[i].update.added,
                removed: s[i].update.removed,
                tenths: s[i].update.threshold_tenths as int,
            },
    )
}

/// What was written to one entity other than the one who acts.
#[derive(Debug)]
pub struct CrossChange {
    pub id: u128,
    pub name: String,
    pub changes: Vec<Change>,
}

/// What a list of such writings holds.
pub open spec fn cross_views(s: Seq<CrossChange>) -> Seq<(u128, Seq<char>, Seq<ChangeView>)> {
    Seq::new(s.len(), |i: int| (s[i].id, s[i].name@, change_views(s[i].changes@)))
}

/// What an action did: what was written to the one who acts and to others, and
/// whose tags changed.
#[derive(Debug)]
pub struct EffectsReport {
    pub actor: Vec<Change>,
    pub others: Vec<CrossChange>,
    pub hidden: Vec<TagToggle>,
    pub corrupted: Vec<TagToggle>,
}

impl View for EffectsReport {
    type V = ReportView;

    open spec fn view(&self) -> ReportView {
        ReportView {
            actor: change_views(self.actor@),
            others: cross_views(self.others@),
            hidden: toggle_views(self.hidden@),
            corrupted: toggle_views(self.corrupted@),
        }
    }
}

// ---------------------------------------------------------------------------
// Functions
// ---------------------------------------------------------------------------
/// The index of the entity with the given id.
pub fn find_entity(entities: &Vec<WorldEntity>, id: u128) -> (r: Option<usize>)
    ensures
        match r {
            Some(i) => entity_at(entity_views(entities@), id) == Some(i as int) && i
                < entities@.len() && entities@[i as int].id == id,
            None => entity_at(entity_views(entities@), id) is None,
        },
{
    let ghost all = entity_views(entities@);
    let mut i: usize = 0;
    while i < entities.len()
        invariant
            i <= entities@.len(),
            all == entity_views(entities@),
            entity_at(all, id) == entity_from(all, id, i as int),
        decreases entities.len() - i,
    {
        if entities[i].id == id {
            return Some(i);
        }
        i = i + 1;
    }
    None
}

proof fn lemma_views_update(s: Seq<WorldEntity>, i: int, e: WorldEntity)
    requires
        0 <= i < s.len(),
    ensures
        entity_views(s.update(i, e)) == entity_views(s).update(i, e@),
{
    assert(entity_views(s.update(i, e)) =~= entity_views(s).update(i, e@));
}

/// Runs the rule for a tag on the entities with the given ids.
fn run_tag_rule(
    entities: &mut Vec<WorldEntity>,
    ids: &Vec<u128>,
    rule: TagRule,
    warnings: &mut Vec<String>,
) -> (r: Vec<TagToggle>)
    ensures
        (TagRunView {
            entities: entity_views(final(entities)@),
            warnings: texts(final(warnings)@),
            toggled: toggle_views(r@),
        }) == tag_run(
            entity_views(old(entities)@),
            texts(old(warnings)@),
            ids@,
            rule,
            ids@.len() as int,
        ),
{
    let ghost e0 = entity_views(entities@);
    let ghost w0 = texts(warnings@);
    let mut toggled: Vec<TagToggle> = Vec::new();
    assert(toggle_views(toggled@) =~= Seq::empty());
    let mut n: usize = 0;
    while n < ids.len()
        invariant
            n <= ids@.len(),
            (TagRunView {
                entities: entity_views(entities@),
                warnings: texts(warnings@),
                toggled: toggle_views(toggled@),
            }) == tag_run(e0, w0, ids@, rule, n as int),
        decreases ids.len() - n,
    {
        if let Some(i) = find_entity(entities, ids[n]) {
            let ghost before = entities@;
            let ghost done = toggled@;
            let ghost warned = texts(warnings@);
            let update = rule.update(&mut entities[i]);
            proof {
                lemma_views_update(before, i as int, entities@[i as int]);
            }
            if update.added || update.removed {
                let name: String = copied(entities[i].name.as_str());
                warnings.push(tag_notice(rule.tag(), name.as_str(), &update));
                toggled.push(TagToggle { name, update });
                proof {
                    assert(toggle_views(toggled@) =~= toggle_views(done).push(
                        ToggleView {
                            name: name@,
                            added: update.added,
                            removed: update.removed,
                            tenths: update.threshold_tenths as int,
                        },
                    ));
                }
            }
        }
        n = n + 1;
    }
    toggled
}

/// Looks at the caps of the entities with the given ids.
fn run_cap_check(entities: &Vec<WorldEntity>, ids: &Vec<u128>, warnings: &mut Vec<String>)
    ensures
        texts(final(warnings)@) == cap_run(
            entity_views(entities@),
            texts(old(warnings)@),
            ids@,
            ids@.len() as int,
        ),
{
    let ghost all = entity_views(entities@);
    let ghost w0 = texts(warnings@);
    let mut n: usize = 0;
    while n < ids.len()
        invariant
            n <= ids@.len(),
            all == entity_views(entities@),
            texts(warnings@) == cap_run(all, w0, ids@, n as int),
        decreases ids.len() - n,
    {
        if let Some(i) = find_entity(entities, ids[n]) {
            check_stats_cap_warn(&entities[i], warnings);
        }
        n = n + 1;
    }
}

/// A run looks at no sums beyond its end.
proof fn lemma_targets_prefix(
    start: ActionView,
    actor_id: u128,
    effects: Seq<ParsedView>,
    scalings: Seq<Scaling>,
    a: Seq<Seq<Real>>,
    b: Seq<Seq<Real>>,
    n: int,
)
    requires
        forall|k: int| 0 <= k < n ==> a[k] == b[k],
    ensures
        targets_run(start, actor_id, effects, scalings, a, n) == targets_run(
            start,
            actor_id,
            effects,
            scalings,
            b,
            n,
        ),
    decreases n,
{
    if n > 0 {
        lemma_targets_prefix(start, actor_id, effects, scalings, a, b, n - 1);
    }
}

/// Applies the effects of an action: to each target in the order of the ids,
/// each with its own scaling (the one at the target's place among
/// `effect_targets`). Then every entity that was written to has its `hidden`
/// and `corrupted` tags brought in line and its cap looked at. `sum` adds two
/// doubles.
pub fn apply_all_effects<F: Fn(u64, u64) -> Real>(
    entities: &mut Vec<WorldEntity>,
    actor_id: u128,
    effects: &Vec<ParsedEffect>,
    scalings: &Vec<Scaling>,
    sum: &F,
    warnings: &mut Vec<String>,
) -> (r: EffectsReport)
    requires
        forall|a: u64, b: u64| #[trigger] sum.requires((a, b)),
    ensures
        exists|sums: Seq<Seq<Real>>|
            #![trigger sums.len()]
            all_sums_given(
                *sum,
                action_start(entity_views(old(entities)@), texts(old(warnings)@)),
                actor_id,
                parsed_views(effects@),
                scalings@,
                sums,
            ) && (OutcomeView {
                entities: entity_views(final(entities)@),
                warnings: texts(final(warnings)@),
                report: r@,
            }) == settled(
                targets_run(
                    action_start(entity_views(old(entities)@), texts(old(warnings)@)),
                    actor_id,
                    parsed_views(effects@),
                    scalings@,
                    sums,
                    targets(parsed_views(effects@), actor_id).len() as int,
                ),
            ),
{
    let ids: Vec<u128> = effect_targets(effects, actor_id);
    let unscaled: Scaling = Scaling::identity();
    let ghost views = parsed_views(effects@);
    let ghost start = action_start(entity_views(entities@), texts(warnings@));
    let ghost mut sums: Seq<Seq<Real>> = Seq::empty();
    let mut actor: Vec<Change> = Vec::new();
    let mut others: Vec<CrossChange> = Vec::new();
    let mut affected: Vec<u128> = Vec::new();
    assert(change_views(actor@) =~= Seq::empty());
    assert(cross_views(others@) =~= Seq::empty());
    let mut g: usize = 0;
    while g < ids.len()
        invariant
            g <= ids@.len(),
            ids@ == targets(views, actor_id),
            views == parsed_views(effects@),
            unscaled@ == ScalingView::identity(),
            forall|a: u64, b: u64| #[trigger] sum.requires((a, b)),
            sums.len() == g,
            (ActionView {
                entities: entity_views(entities@),
                warnings: texts(warnings@),
                actor: change_views(actor@),
                others: cross_views(others@),
                affected: affected@,
            }) == targets_run(start, actor_id, views, scalings@, sums, g as int),
            forall|k: int| #![trigger sums[k]]
                0 <= k < g ==> target_sums_given(
                    *sum,
                    targets_run(start, actor_id, views, scalings@, sums, k),
                    actor_id,
                    views,
                    scalings@,
                    sums[k],
                    k,
                ),
        decreases ids.len() - g,
    {
        let id: u128 = ids[g];
        let ghost here = targets_run(start, actor_id, views, scalings@, sums, g as int);
        let ghost mut given: Seq<Real> = Seq::empty();
        let ghost before = entities@;
        let ghost actor0 = actor@;
        let ghost others0 = others@;
        match find_entity(entities, id) {
            Some(i) => {
                let landed = effects_on(effects, actor_id, id);
                let scaling: &Scaling = if g < scalings.len() {
                    &scalings[g]
                } else {
                    &unscaled
                };
                let changes = apply_effects_to_target(
                    &mut entities[i],
                    &landed,
                    scaling,
                    sum,
                    warnings,
                );
                proof {
                    lemma_views_update(before, i as int, entities@[i as int]);
                    given = choose|s: Seq<Real>|
                        #![trigger real_views(s)]
                        sums_given(
                            *sum,
                            before[i as int]@,
                            here.warnings,
                            landing_on(views, actor_id, id),
                            scaling@,
                            s,
                        ) && (RunView {
                            entity: entities@[i as int]@,
                            warnings: texts(warnings@),
                            changes: change_views(changes@),
                        }) == target_run(
                            before[i as int]@,
                            here.warnings,
                            landing_on(views, actor_id, id),
                            scaling@,
                            real_views(s),
                        );
                }
                let wrote: bool = changes.len() > 0;
                if id == actor_id {
                    actor = changes;
                } else if wrote {
                    let ghost written = change_views(changes@);
                    let name: String = copied(entities[i].name.as_str());
                    proof {
                        law_only_properties_change(
                            before[i as int]@,
                            here.warnings,
                            landing_on(views, actor_id, id),
                            scaling@,
                            real_views(given),
                        );
                    }
                    others.push(CrossChange { id, name, changes });
                    assert(cross_views(others@) =~= cross_views(others0).push((id, name@, written)));
                }
                if wrote {
                    affected.push(id);
                }
            },
            None => {},
        }
        proof {
            let longer = sums.push(given);
            assert forall|n: int| 0 <= n <= g implies #[trigger] targets_run(
                start,
                actor_id,
                views,
                scalings@,
                longer,
                n,
            ) == targets_run(start, actor_id, views, scalings@, sums, n) by {
                lemma_targets_prefix(start, actor_id, views, scalings@, longer, sums, n);
            }
            assert forall|k: int| #![trigger longer[k]]
                0 <= k < g + 1 implies target_sums_given(
                *sum,
                targets_run(start, actor_id, views, scalings@, longer, k),
                actor_id,
                views,
                scalings@,
                longer[k],
                k,
            ) by {
                if k < g {
                    assert(longer[k] == sums[k]);
                }
            }
            sums = longer;
        }
        g = g + 1;
    }
    let hidden = run_tag_rule(entities, &affected, TagRule::Hidden, warnings);
    let corrupted = run_tag_rule(entities, &affected, TagRule::Corrupted, warnings);
    run_cap_check(entities, &affected, warnings);
    proof {
        assert(sums.len() == targets(views, actor_id).len());
        assert(all_sums_given(*sum, start, actor_id, views, scalings@, sums));
    }
    EffectsReport { actor, others, hidden, corrupted }
}

// ---------------------------------------------------------------------------
// Laws
// ---------------------------------------------------------------------------
/// A tag that is reported as changed either came or went.
pub proof fn law_toggles_go_one_way(
    entities: Seq<EntityView>,
    warnings: Seq<Seq<char>>,
    ids: Seq<u128>,
    rule: TagRule,
    n: int,
)
    ensures
        forall|i: int|
            0 <= i < tag_run(entities, warnings, ids, rule, n).toggled.len() ==> (
            #[trigger] tag_run(entities, warnings, ids, rule, n).toggled[i]).removed == !tag_run(
                entities,
                warnings,
                ids,
                rule,
                n,
            ).toggled[i].added,
    decreases n,
{
    if n > 0 {
        law_toggles_go_one_way(entities, warnings, ids, rule, n - 1);
        let earlier = tag_run(entities, warnings, ids, rule, n - 1).toggled;
        let now = tag_run(entities, warnings, ids, rule, n).toggled;
        assert forall|i: int| 0 <= i < now.len() implies (#[trigger] now[i]).removed
            == !now[i].added by {
            if i < earlier.len() {
                assert(now[i] == earlier[i]);
            }
        }
    }
}

proof fn lemma_placed(ids: Seq<u128>, x: u128)
    requires
        ascending(ids),
    ensures
        ascending(placed(ids, x)),
        forall|y: u128| #[trigger] placed(ids, x).contains(y) <==> ids.contains(y) || y == x,
        placed(ids, x).len() > 0,
        ids.len() > 0 && ids.last() >= x ==> placed(ids, x).last() == ids.last(),
        ids.len() == 0 || ids.last() < x ==> placed(ids, x).last() == x,
    decreases ids.len(),
{
    if ids.len() == 0 {
        assert(placed(ids, x)[0] == x);
        assert forall|y: u128| #[trigger] placed(ids, x).contains(y) implies y == x by {}
    } else if ids.last() <= x {
        let r = placed(ids, x);
        assert forall|y: u128| #[trigger] r.contains(y) <==> ids.contains(y) || y == x by {
            if ids.contains(y) {
                let i = choose|i: int| 0 <= i < ids.len() && ids[i] == y;
                assert(r[i] == y);
            }
            if y == x {
                assert(r[r.len() - 1] == y);
            }
            if r.contains(y) && y != x {
                let i = choose|i: int| 0 <= i < r.len() && r[i] == y;
                assert(ids[i] == y);
            }
        }
        assert(forall|i: int| 0 <= i < ids.len() ==> ids[i] <= ids.last());
    } else {
        let d = ids.drop_last();
        lemma_placed(d, x);
        let q = placed(d, x);
        let r = placed(ids, x);
        assert(q.last() < ids.last()) by {
            if d.len() > 0 {
                assert(d.last() == ids[ids.len() - 2]);
            }
        }
        assert forall|i: int, j: int| 0 <= i < j < r.len() implies r[i] < r[j] by {
            if j == q.len() {
                assert(q[i] <= q.last());
            }
        }
        assert forall|y: u128| #[trigger] r.contains(y) <==> ids.contains(y) || y == x by {
            assert(d.contains(y) ==> ids.contains(y)) by {
                if d.contains(y) {
                    let i = choose|i: int| 0 <= i < d.len() && d[i] == y;
                    assert(ids[i] == y);
                }
            }
            if r.contains(y) {
                let i = choose|i: int| 0 <= i < r.len() && r[i] == y;
                if i < q.len() {
                    assert(q[i] == y);
                    assert(q.contains(y));
                } else {
                    assert(ids[ids.len() - 1] == y);
                }
            }
            if ids.contains(y) || y == x {
                if y == ids.last() {
                    assert(r[r.len() - 1] == y);
                } else {
                    if y != x {
                        let i = choose|i: int| 0 <= i < ids.len() && ids[i] == y;
                        assert(d[i] == y);
                    }
                    assert(q.contains(y));
                    let k = choose|k: int| 0 <= k < q.len() && q[k] == y;
                    assert(r[k] == y);
                }
            }
        }
    }
}

/// The targets are the entities on which some effect lands, each once, in
/// ascending order of their ids.
pub proof fn law_targets(effects: Seq<ParsedView>, actor_id: u128)
    ensures
        ascending(targets(effects, actor_id)),
        forall|id: u128| #[trigger]
            targets(effects, actor_id).contains(id) <==> exists|i: int|
                0 <= i < effects.len() && (#[trigger] effects[i]).target.id(actor_id) == id,
    decreases effects.len(),
{
    if effects.len() > 0 {
        let d = effects.drop_last();
        law_targets(d, actor_id);
        let x = effects.last().target.id(actor_id);
        lemma_placed(targets(d, actor_id), x);
        assert forall|id: u128| #[trigger] targets(effects, actor_id).contains(id) <==> exists|
            i: int,
        | 0 <= i < effects.len() && (#[trigger] effects[i]).target.id(actor_id) == id by {
            if targets(d, actor_id).contains(id) {
                let i = choose|i: int|
                    0 <= i < d.len() && (#[trigger] d[i]).target.id(actor_id) == id;
                assert(effects[i].target.id(actor_id) == id);
            }
            if id == x {
                assert(effects[effects.len() - 1].target.id(actor_id) == id);
            }
            if exists|i: int|
                0 <= i < effects.len() && (#[trigger] effects[i]).target.id(actor_id) == id {
                let i = choose|i: int|
                    0 <= i < effects.len() && (#[trigger] effects[i]).target.id(actor_id) == id;
                if i < d.len() {
                    assert(d[i].target.id(actor_id) == id);
                }
            }
        }
    } else {
        assert(targets(effects, actor_id) =~= Seq::empty());
    }
}

/// An effect whose value is refused does not count towards what the changes of
/// one turn add up to, so it takes nothing from the others.
pub proof fn law_refused_values_do_not_count(effects: Seq<ParsedView>, refused: ParsedView)
    requires
        refusal(refused.value) is Some,
    ensures
        weights_in(effects.push(refused), effects.len() as int + 1) == weights_in(
            effects,
            effects.len() as int,
        ),
{
    lemma_weights_prefix(effects.push(refused), effects, effects.len() as int);
}

proof fn lemma_weights_prefix(a: Seq<ParsedView>, b: Seq<ParsedView>, n: int)
    requires
        n <= a.len(),
        n <= b.len(),
        forall|i: int| 0 <= i < n ==> a[i] == b[i],
    ensures
        weights_in(a, n) == weights_in(b, n),
    decreases n,
{
    if n > 0 {
        lemma_weights_prefix(a, b, n - 1);
    }
}

/// The same entities, in the same places.
pub open spec fn same_ids(a: Seq<EntityView>, b: Seq<EntityView>) -> bool {
    a.len() == b.len() && forall|j: int| 0 <= j < a.len() ==> (#[trigger] a[j]).id == b[j].id
}

proof fn lemma_entity_from(a: Seq<EntityView>, b: Seq<EntityView>, id: u128, i: int)
    requires
        same_ids(a, b),
    ensures
        entity_from(a, id, i) == entity_from(b, id, i),
        match entity_from(a, id, i) {
            Some(k) => i <= k < a.len() && a[k].id == id,
            None => true,
        },
    decreases a.len() - i,
{
    if 0 <= i < a.len() {
        assert(a[i].id == b[i].id);
        if a[i].id != id {
            lemma_entity_from(a, b, id, i + 1);
        }
    }
}

/// Entities in the same places are found in the same places.
pub proof fn lemma_entity_at_same(a: Seq<EntityView>, b: Seq<EntityView>, id: u128)
    requires
        same_ids(a, b),
    ensures
        entity_at(a, id) == entity_at(b, id),
        match entity_at(a, id) {
            Some(i) => 0 <= i < a.len() && a[i].id == id,
            None => true,
        },
{
    lemma_entity_from(a, b, id, 0);
}

/// An entity that differs from another in tags and properties only, and in none
/// that only operators write.
pub open spec fn same_but_effects(a: EntityView, b: EntityView) -> bool {
    &&& b == (EntityView {
        tags: b.tags,
        ints: b.ints,
        reals: b.reals,
        strings: b.strings,
        ..a
    })
    &&& same_internals(a, b)
}

proof fn lemma_targets_run_frame(
    start: ActionView,
    actor_id: u128,
    effects: Seq<ParsedView>,
    scalings: Seq<Scaling>,
    sums: Seq<Seq<Real>>,
    n: int,
)
    requires
        n <= targets(effects, actor_id).len(),
        start.affected.len() == 0,
    ensures
        same_ids(
            start.entities,
            targets_run(start, actor_id, effects, scalings, sums, n).entities,
        ),
        forall|j: int|
            0 <= j < start.entities.len() ==> same_but_effects(
                #[trigger] start.entities[j],
                targets_run(start, actor_id, effects, scalings, sums, n).entities[j],
            ),
        forall|j: int|
            0 <= j < start.entities.len() && !targets(effects, actor_id).contains(
                (#[trigger] start.entities[j]).id,
            ) ==> targets_run(start, actor_id, effects, scalings, sums, n).entities[j]
                == start.entities[j],
        forall|k: int|
            0 <= k < targets_run(start, actor_id, effects, scalings, sums, n).affected.len()
                ==> targets(effects, actor_id).contains(
                #[trigger] targets_run(start, actor_id, effects, scalings, sums, n).affected[k],
            ),
    decreases n,
{
    if n > 0 {
        lemma_targets_run_frame(start, actor_id, effects, scalings, sums, n - 1);
        let s = targets_run(start, actor_id, effects, scalings, sums, n - 1);
        let id = targets(effects, actor_id)[n - 1];
        assert(targets(effects, actor_id).contains(id));
        lemma_entity_from(s.entities, s.entities, id, 0);
        if let Some(i) = entity_at(s.entities, id) {
            law_only_properties_change(
                s.entities[i],
                s.warnings,
                landing_on(effects, actor_id, id),
                scaling_at(scalings, n - 1),
                real_views(sums[n - 1]),
            );
            let after = targets_run(start, actor_id, effects, scalings, sums, n);
            assert forall|j: int| 0 <= j < start.entities.len() implies (
            #[trigger] start.entities[j]).id == after.entities[j].id by {
                assert(start.entities[j].id == s.entities[j].id);
            }
            assert forall|j: int| 0 <= j < start.entities.len() implies same_but_effects(
                #[trigger] start.entities[j],
                after.entities[j],
            ) by {
                assert(same_but_effects(start.entities[j], s.entities[j]));
            }
            assert forall|j: int|
                0 <= j < start.entities.len() && !targets(effects, actor_id).contains(
                    (#[trigger] start.entities[j]).id,
                ) implies after.entities[j] == start.entities[j] by {
                assert(s.entities[i].id == id);
                assert(start.entities[i].id == s.entities[i].id);
            }
        }
    }
}

/// An entity that differs from another in its tags only.
pub open spec fn same_but_tags(a: EntityView, b: EntityView) -> bool {
    b == (EntityView { tags: b.tags, ..a })
}

proof fn lemma_tag_run_frame(
    entities: Seq<EntityView>,
    warnings: Seq<Seq<char>>,
    ids: Seq<u128>,
    rule: TagRule,
    n: int,
)
    requires
        n <= ids.len(),
    ensures
        same_ids(entities, tag_run(entities, warnings, ids, rule, n).entities),
        forall|j: int|
            0 <= j < entities.len() ==> same_but_tags(
                #[trigger] entities[j],
                tag_run(entities, warnings, ids, rule, n).entities[j],
            ),
        forall|j: int|
            0 <= j < entities.len() && !ids.contains((#[trigger] entities[j]).id) ==> tag_run(
                entities,
                warnings,
                ids,
                rule,
                n,
            ).entities[j] == entities[j],
        forall|j: int, t: Seq<char>|
            0 <= j < entities.len() && t != rule.tag_text() ==> (#[trigger] tag_run(
                entities,
                warnings,
                ids,
                rule,
                n,
            ).entities[j].tags.contains(t) <==> entities[j].tags.contains(t)),
    decreases n,
{
    let r = tag_run(entities, warnings, ids, rule, n);
    if n > 0 {
        lemma_tag_run_frame(entities, warnings, ids, rule, n - 1);
        let s = tag_run(entities, warnings, ids, rule, n - 1);
        let id = ids[n - 1];
        assert(ids.contains(id));
        lemma_entity_from(s.entities, s.entities, id, 0);
        if let Some(i) = entity_at(s.entities, id) {
            let e = s.entities[i];
            assert forall|j: int| 0 <= j < entities.len() implies same_but_tags(
                #[trigger] entities[j],
                r.entities[j],
            ) by {
                assert(same_but_tags(entities[j], s.entities[j]));
            }
            assert forall|j: int| 0 <= j < entities.len() implies (#[trigger] entities[j]).id
                == r.entities[j].id by {
                assert(entities[j].id == s.entities[j].id);
            }
            assert forall|j: int|
                0 <= j < entities.len() && !ids.contains(
                    (#[trigger] entities[j]).id,
                ) implies r.entities[j] == entities[j] by {
                assert(entities[i].id == s.entities[i].id);
            }
            assert forall|j: int, t: Seq<char>|
                0 <= j < entities.len() && t != rule.tag_text() implies (
            #[trigger] r.entities[j].tags.contains(t) <==> entities[j].tags.contains(t)) by {
                law_rule_keeps_other_tags(e, rule.tag_text(), rule.tenths(e), t);
                assert(s.entities[j].tags.contains(t) <==> entities[j].tags.contains(t));
            }
        } else {
            assert(r == s);
        }
    } else {
        assert forall|j: int| 0 <= j < entities.len() implies same_but_tags(
            #[trigger] entities[j],
            r.entities[j],
        ) by {}
    }
}

/// A tag is in line with the properties: it is there below 0, and is not there
/// from 1 on.
pub open spec fn in_line(e: EntityView, rule: TagRule) -> bool {
    &&& rule.tenths(e) < 0 ==> e.tags.contains(rule.tag_text())
    &&& rule.tenths(e) >= 10 ==> !e.tags.contains(rule.tag_text())
}

proof fn lemma_tag_run_in_line(
    entities: Seq<EntityView>,
    warnings: Seq<Seq<char>>,
    ids: Seq<u128>,
    rule: TagRule,
    n: int,
    k: int,
    i: int,
)
    requires
        0 <= k < n <= ids.len(),
        entity_at(entities, ids[k]) == Some(i),
    ensures
        0 <= i < entities.len(),
        in_line(tag_run(entities, warnings, ids, rule, n).entities[i], rule),
    decreases n,
{
    lemma_tag_run_frame(entities, warnings, ids, rule, n - 1);
    let s = tag_run(entities, warnings, ids, rule, n - 1);
    lemma_entity_from(entities, s.entities, ids[k], 0);
    lemma_entity_from(entities, s.entities, ids[n - 1], 0);
    lemma_entity_from(s.entities, s.entities, ids[n - 1], 0);
    if k < n - 1 {
        lemma_tag_run_in_line(entities, warnings, ids, rule, n - 1, k, i);
    }
    if let Some(m) = entity_at(s.entities, ids[n - 1]) {
        let e = s.entities[m];
        law_rule_decides(e, rule.tag_text(), rule.tenths(e));
        assert(rule.tenths(after_rule(e, rule.tag_text(), rule.tenths(e))) == rule.tenths(e));
    }
}

/// After an action, every entity that was written to has its `hidden` and
/// `corrupted` tags in line with its properties.
pub proof fn law_tags_follow_properties(s: ActionView, k: int, i: int)
    requires
        0 <= k < s.affected.len(),
        entity_at(s.entities, s.affected[k]) == Some(i),
    ensures
        0 <= i < settled(s).entities.len(),
        in_line(settled(s).entities[i], TagRule::Hidden),
        in_line(settled(s).entities[i], TagRule::Corrupted),
        same_but_tags(s.entities[i], settled(s).entities[i]),
{
    let n = s.affected.len() as int;
    let h = tag_run(s.entities, s.warnings, s.affected, TagRule::Hidden, n);
    lemma_tag_run_in_line(s.entities, s.warnings, s.affected, TagRule::Hidden, n, k, i);
    lemma_tag_run_frame(s.entities, s.warnings, s.affected, TagRule::Hidden, n);
    lemma_entity_from(s.entities, h.entities, s.affected[k], 0);
    lemma_tag_run_in_line(h.entities, h.warnings, s.affected, TagRule::Corrupted, n, k, i);
    lemma_tag_run_frame(h.entities, h.warnings, s.affected, TagRule::Corrupted, n);
    let c = tag_run(h.entities, h.warnings, s.affected, TagRule::Corrupted, n);
    lemma_tags_differ();
    assert(same_but_tags(s.entities[i], h.entities[i]));
    assert(same_but_tags(h.entities[i], c.entities[i]));
    assert(c.entities[i].tags.contains(TagRule::Hidden.tag_text())
        <==> h.entities[i].tags.contains(TagRule::Hidden.tag_text()));
    assert(TagRule::Hidden.tenths(c.entities[i]) == TagRule::Hidden.tenths(h.entities[i]));
}

proof fn lemma_tags_differ()
    ensures
        TagRule::Hidden.tag_text() != TagRule::Corrupted.tag_text(),
{
    reveal_strlit("hidden");
    reveal_strlit("corrupted");
    assert(TagRule::Hidden.tag_text().len() != TagRule::Corrupted.tag_text().len());
}

/// An action changes no entity that none of its effects lands on, and nothing of
/// any other but tags and properties; what only operators write stays. No entity
/// comes, goes or changes its place.
pub proof fn law_other_entities_unchanged(
    entities: Seq<EntityView>,
    warnings: Seq<Seq<char>>,
    actor_id: u128,
    effects: Seq<ParsedView>,
    scalings: Seq<Scaling>,
    sums: Seq<Seq<Real>>,
)
    ensures
        ({
            let after = settled(
                targets_run(
                    action_start(entities, warnings),
                    actor_id,
                    effects,
                    scalings,
                    sums,
                    targets(effects, actor_id).len() as int,
                ),
            ).entities;
            &&& same_ids(entities, after)
            &&& forall|j: int|
                0 <= j < entities.len() ==> same_but_effects(#[trigger] entities[j], after[j])
            &&& forall|j: int|
                0 <= j < entities.len() && !targets(effects, actor_id).contains(
                    (#[trigger] entities[j]).id,
                ) ==> after[j] == entities[j]
        }),
{
    let t = targets(effects, actor_id);
    let n = t.len() as int;
    let start = action_start(entities, warnings);
    lemma_targets_run_frame(start, actor_id, effects, scalings, sums, n);
    let s = targets_run(start, actor_id, effects, scalings, sums, n);
    let m = s.affected.len() as int;
    lemma_tag_run_frame(s.entities, s.warnings, s.affected, TagRule::Hidden, m);
    let h = tag_run(s.entities, s.warnings, s.affected, TagRule::Hidden, m);
    lemma_tag_run_frame(h.entities, h.warnings, s.affected, TagRule::Corrupted, m);
    let after = settled(s).entities;
    assert forall|j: int| 0 <= j < entities.len() implies (#[trigger] entities[j]).id
        == after[j].id by {
        assert(start.entities[j].id == s.entities[j].id);
        assert(s.entities[j].id == h.entities[j].id);
    }
    assert forall|j: int| 0 <= j < entities.len() implies same_but_effects(
        #[trigger] entities[j],
        after[j],
    ) by {
        assert(same_but_effects(start.entities[j], s.entities[j]));
        assert(same_but_tags(s.entities[j], h.entities[j]));
        assert(same_but_tags(h.entities[j], after[j]));
    }
    assert forall|j: int| 0 <= j < entities.len() && !t.contains(
        (#[trigger] entities[j]).id,
    ) implies after[j] == entities[j] by {
        assert(start.entities[j] == s.entities[j]);
        assert(!s.affected.contains(s.entities[j].id)) by {
            if s.affected.contains(s.entities[j].id) {
                let k = choose|k: int| 0 <= k < s.affected.len() && s.affected[k] == s.entities[j].id;
                assert(t.contains(s.affected[k]));
            }
        }
        assert(h.entities[j] == s.entities[j]);
    }
}

/// The effects that land on an entity are those whose target it is, in order.
pub proof fn law_landing(
    a: Seq<ParsedView>,
    b: Seq<ParsedView>,
    f: ParsedView,
    actor_id: u128,
    id: u128,
)
    ensures
        landing_on(a + b, actor_id, id) == landing_on(a, actor_id, id) + landing_on(b, actor_id, id),
        f.target.id(actor_id) == id ==> landing_on(seq![f], actor_id, id) == seq![f],
        f.target.id(actor_id) != id ==> landing_on(seq![f], actor_id, id) == Seq::<
            ParsedView,
        >::empty(),
    decreases b.len(),
{
    let none = Seq::<ParsedView>::empty();
    assert(seq![f].drop_last() =~= none);
    assert(seq![f].last() == f);
    assert(landing_on(none, actor_id, id) == none);
    assert(none.push(f) =~= seq![f]);
    if b.len() == 0 {
        assert(a + b =~= a);
        assert(landing_on(a, actor_id, id) + landing_on(b, actor_id, id) =~= landing_on(
            a,
            actor_id,
            id,
        ));
    } else {
        law_landing(a, b.drop_last(), f, actor_id, id);
        assert((a + b).drop_last() =~= a + b.drop_last());
        assert((a + b).last() == b.last());
        assert(landing_on(a + b, actor_id, id) =~= landing_on(a, actor_id, id) + landing_on(
            b,
            actor_id,
            id,
        ));
    }
}

/// Every effect with a weight counts with it, in order; one without does not
/// count.
pub proof fn law_weights_add_up(effects: Seq<ParsedView>, f: ParsedView)
    ensures
        weights_in(effects.push(f), effects.len() as int + 1) == (match weight_of(f.value) {
            Some(b) => weights_in(effects, effects.len() as int).push(b),
            None => weights_in(effects, effects.len() as int),
        }),
        weights_in(Seq::empty(), 0) == Seq::<u64>::empty(),
{
    lemma_weights_prefix(effects.push(f), effects, effects.len() as int);
}

/// Each target has the scaling at its place; one beyond the end has none.
pub proof fn law_scaling_at(scalings: Seq<Scaling>, g: int)
    ensures
        0 <= g < scalings.len() ==> scaling_at(scalings, g) == scalings[g]@,
        g >= scalings.len() ==> scaling_at(scalings, g).ints.len() == 0 && scaling_at(
            scalings,
            g,
        ).floats.len() == 0 && scaling_at(scalings, g).notice is None,
{
}

proof fn lemma_not_yet_reached(
    start: ActionView,
    actor_id: u128,
    effects: Seq<ParsedView>,
    scalings: Seq<Scaling>,
    sums: Seq<Seq<Real>>,
    n: int,
    j: int,
)
    requires
        0 <= n <= targets(effects, actor_id).len(),
        start.affected.len() == 0,
        0 <= j < start.entities.len(),
        forall|g: int| 0 <= g < n ==> #[trigger] targets(effects, actor_id)[g]
            != start.entities[j].id,
    ensures
        targets_run(start, actor_id, effects, scalings, sums, n).entities[j] == start.entities[j],
    decreases n,
{
    if n > 0 {
        lemma_not_yet_reached(start, actor_id, effects, scalings, sums, n - 1, j);
        lemma_targets_run_frame(start, actor_id, effects, scalings, sums, n - 1);
        let s = targets_run(start, actor_id, effects, scalings, sums, n - 1);
        let id = targets(effects, actor_id)[n - 1];
        lemma_entity_from(s.entities, s.entities, id, 0);
        assert(id != start.entities[j].id);
    }
}

/// What an action makes of one of its targets, from the warnings that there were
/// when its turn came.
pub open spec fn turn_of(
    start: ActionView,
    actor_id: u128,
    effects: Seq<ParsedView>,
    scalings: Seq<Scaling>,
    sums: Seq<Seq<Real>>,
    g: int,
    i: int,
) -> RunView {
    target_run(
        start.entities[i],
        targets_run(start, actor_id, effects, scalings, sums, g).warnings,
        landing_on(effects, actor_id, targets(effects, actor_id)[g]),
        scaling_at(scalings, g),
        real_views(sums[g]),
    )
}

proof fn lemma_turn(
    start: ActionView,
    actor_id: u128,
    effects: Seq<ParsedView>,
    scalings: Seq<Scaling>,
    sums: Seq<Seq<Real>>,
    n: int,
    g: int,
    i: int,
)
    requires
        0 <= g < n <= targets(effects, actor_id).len(),
        start.affected.len() == 0,
        start.actor.len() == 0,
        entity_at(start.entities, targets(effects, actor_id)[g]) == Some(i),
    ensures
        ({
            let s = targets_run(start, actor_id, effects, scalings, sums, n);
            let r = turn_of(start, actor_id, effects, scalings, sums, g, i);
            let id = targets(effects, actor_id)[g];
            &&& 0 <= i < start.entities.len()
            &&& start.entities[i].id == id
            &&& s.entities[i] == r.entity
            &&& id == actor_id ==> s.actor == r.changes
            &&& id != actor_id && r.changes.len() > 0 ==> s.others.contains(
                (id, start.entities[i].name, r.changes),
            )
            &&& r.changes.len() > 0 ==> s.affected.contains(id)
        }),
    decreases n,
{
    let t = targets(effects, actor_id);
    law_targets(effects, actor_id);
    let p = targets_run(start, actor_id, effects, scalings, sums, n - 1);
    let s = targets_run(start, actor_id, effects, scalings, sums, n);
    let r = turn_of(start, actor_id, effects, scalings, sums, g, i);
    lemma_targets_run_frame(start, actor_id, effects, scalings, sums, n - 1);
    lemma_entity_from(start.entities, p.entities, t[g], 0);
    lemma_entity_from(p.entities, p.entities, t[n - 1], 0);
    if g < n - 1 {
        lemma_turn(start, actor_id, effects, scalings, sums, n - 1, g, i);
        assert(t[g] < t[n - 1]);
        let entry = (t[g], start.entities[i].name, r.changes);
        if p.others.contains(entry) {
            let k = choose|k: int| 0 <= k < p.others.len() && p.others[k] == entry;
            assert(s.others[k] == entry);
        }
        if p.affected.contains(t[g]) {
            let k = choose|k: int| 0 <= k < p.affected.len() && p.affected[k] == t[g];
            assert(s.affected[k] == t[g]);
        }
        assert(p.entities[i].id == t[g]);
    } else {
        assert forall|h: int| 0 <= h < n - 1 implies #[trigger] t[h] != start.entities[i].id by {
            assert(t[h] < t[g]);
        }
        lemma_not_yet_reached(start, actor_id, effects, scalings, sums, n - 1, i);
        if t[g] != actor_id && r.changes.len() > 0 {
            assert(s.others[s.others.len() - 1] == (t[g], start.entities[i].name, r.changes));
        }
        if r.changes.len() > 0 {
            assert(s.affected[s.affected.len() - 1] == t[g]);
        }
    }
}

/// Every entity on which effects land has its turn: its properties are what these
/// effects make of them, and the report says what was written, for the one who
/// acts and for everyone else.
pub proof fn law_every_target_has_its_turn(
    entities: Seq<EntityView>,
    warnings: Seq<Seq<char>>,
    actor_id: u128,
    effects: Seq<ParsedView>,
    scalings: Seq<Scaling>,
    sums: Seq<Seq<Real>>,
    g: int,
    i: int,
)
    requires
        0 <= g < targets(effects, actor_id).len(),
        0 <= i < entities.len(),
        entities[i].id == targets(effects, actor_id)[g],
        forall|j: int| 0 <= j < i ==> (#[trigger] entities[j]).id != entities[i].id,
    ensures
        ({
            let start = action_start(entities, warnings);
            let out = settled(
                targets_run(
                    start,
                    actor_id,
                    effects,
                    scalings,
                    sums,
                    targets(effects, actor_id).len() as int,
                ),
            );
            let r = target_run(
                entities[i],
                targets_run(start, actor_id, effects, scalings, sums, g).warnings,
                landing_on(effects, actor_id, entities[i].id),
                scaling_at(scalings, g),
                real_views(sums[g]),
            );
            &&& out.entities[i].ints == r.entity.ints
            &&& out.entities[i].reals == r.entity.reals
            &&& out.entities[i].strings == r.entity.strings
            &&& entities[i].id == actor_id ==> out.report.actor == r.changes
            &&& entities[i].id != actor_id && r.changes.len() > 0 ==> out.report.others.contains(
                (entities[i].id, entities[i].name, r.changes),
            )
        }),
{
    let start = action_start(entities, warnings);
    let t = targets(effects, actor_id);
    let n = t.len() as int;
    lemma_first_at(entities, t[g], i, 0);
    lemma_turn(start, actor_id, effects, scalings, sums, n, g, i);
    let s = targets_run(start, actor_id, effects, scalings, sums, n);
    let m = s.affected.len() as int;
    lemma_targets_run_frame(start, actor_id, effects, scalings, sums, n);
    lemma_tag_run_frame(s.entities, s.warnings, s.affected, TagRule::Hidden, m);
    let h = tag_run(s.entities, s.warnings, s.affected, TagRule::Hidden, m);
    lemma_tag_run_frame(h.entities, h.warnings, s.affected, TagRule::Corrupted, m);
    assert(same_but_tags(s.entities[i], h.entities[i]));
    assert(same_but_tags(h.entities[i], settled(s).entities[i]));
}

proof fn lemma_first_at(s: Seq<EntityView>, id: u128, k: int, i: int)
    requires
        0 <= i <= k < s.len(),
        s[k].id == id,
        forall|j: int| 0 <= j < k ==> (#[trigger] s[j]).id != id,
    ensures
        entity_from(s, id, i) == Some(k),
    decreases k - i,
{
    if i < k {
        lemma_first_at(s, id, k, i + 1);
    }
}

/// The caps are looked at one after the other: of each entity that was written to
/// and is there, one that is over its cap is warned of.
pub proof fn law_caps_are_looked_at(
    entities: Seq<EntityView>,
    warnings: Seq<Seq<char>>,
    ids: Seq<u128>,
    n: int,
)
    requires
        0 < n <= ids.len(),
    ensures
        ({
            let before = cap_run(entities, warnings, ids, n - 1);
            let after = cap_run(entities, warnings, ids, n);
            match entity_at(entities, ids[n - 1]) {
                Some(i) => if total(entities[i].ints) > stats_cap(entities[i].power() as int) {
                    after.len() == before.len() + 1 && after.drop_last() == before
                } else {
                    after == before
                },
                None => after == before,
            }
        }),
        cap_run(entities, warnings, ids, 0) == warnings,
{
    let before = cap_run(entities, warnings, ids, n - 1);
    let after = cap_run(entities, warnings, ids, n);
    if after.len() > before.len() {
        assert(after.drop_last() =~= before);
    }
}

/// A tag that comes or goes is reported, with the entity's name and threshold, and
/// warned of; where the tag stays as it is, nothing is.
pub proof fn law_toggles_are_reported(s: TagRunView, id: u128, rule: TagRule, i: int)
    requires
        entity_at(s.entities, id) == Some(i),
        0 <= i < s.entities.len(),
    ensures
        ({
            let e = s.entities[i];
            let t = rule.tenths(e);
            let had = e.tags.contains(rule.tag_text());
            let after = tag_step(s, id, rule);
            let has = after.entities[i].tags.contains(rule.tag_text());
            if had != has {
                &&& after.toggled.len() == s.toggled.len() + 1
                &&& after.toggled.drop_last() == s.toggled
                &&& after.toggled.last().name == e.name
                &&& after.toggled.last().added == has
                &&& after.toggled.last().removed == had
                &&& after.toggled.last().tenths == t
                &&& after.warnings.len() == s.warnings.len() + 1
                &&& after.warnings.drop_last() == s.warnings
            } else {
                after.toggled == s.toggled && after.warnings == s.warnings
            }
        }),
{
    let e = s.entities[i];
    let after = tag_step(s, id, rule);
    law_rule_decides(e, rule.tag_text(), rule.tenths(e));
    if after.toggled.len() > s.toggled.len() {
        assert(after.toggled.drop_last() =~= s.toggled);
        assert(after.warnings.drop_last() =~= s.warnings);
    }
}

} // verus!
