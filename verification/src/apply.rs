//! Applying effects to one entity.
//!
//! Doubles are added by a function that the caller provides; everything else
//! about an effect is decided here.
use vstd::prelude::*;
use vstd::string::*;

use crate::double::{exceeds, float_oversize};
use crate::effects::{
    delta_of, effect_delta, int_oversize, magnitude_check, refusal, Delta, DeltaView, ParsedEffect,
    ParsedView, Real, RealView, MAX_FLOAT_ABS, MAX_INT_ABS,
};
use crate::entity::{int_or_zero, EntityView, WorldEntity};
use crate::text::{
    copied, debug_form, debug_text, int_dec, int_text, lemma_texts_push, opt_text, same_text, texts,
};

verus! {

broadcast use lemma_texts_push;

// ---------------------------------------------------------------------------
// Data
// ---------------------------------------------------------------------------
/// How the changes of one turn are scaled down to what an entity's power
/// allows: the notice of it, and what the number of each effect becomes. An
/// effect beyond the end of a list keeps its number.
#[derive(Debug)]
pub struct Scaling {
    pub notice: Option<String>,
    pub ints: Vec<i64>,
    pub floats: Vec<Real>,
}

/// What a `Scaling` holds.
pub struct ScalingView {
    pub notice: Option<Seq<char>>,
    pub ints: Seq<i64>,
    pub floats: Seq<RealView>,
}

/// What a list of doubles holds.
pub open spec fn real_views(s: Seq<Real>) -> Seq<RealView> {
    Seq::new(s.len(), |i: int| s[i]@)
}

impl View for Scaling {
    type V = ScalingView;

    open spec fn view(&self) -> ScalingView {
        ScalingView {
            notice: opt_text(self.notice),
            ints: self.ints@,
            floats: real_views(self.floats@),
        }
    }
}

impl ScalingView {
    /// Nothing is scaled.
    pub open spec fn identity() -> ScalingView {
        ScalingView { notice: None, ints: Seq::empty(), floats: Seq::empty() }
    }

    /// What the integer `v` of effect number `k` becomes.
    pub open spec fn int_at(self, k: int, v: i64) -> i64 {
        if 0 <= k < self.ints.len() {
            self.ints[k]
        } else {
            v
        }
    }

    /// What the double `v` of effect number `k` becomes.
    pub open spec fn float_at(self, k: int, v: RealView) -> RealView {
        if 0 <= k < self.floats.len() {
            self.floats[k]
        } else {
            v
        }
    }
}

impl Scaling {
    /// Nothing is scaled.
    pub fn identity() -> (r: Scaling)
        ensures
            r@ == ScalingView::identity(),
    {
        let r = Scaling { notice: None, ints: Vec::new(), floats: Vec::new() };
        assert(r@.floats =~= Seq::<RealView>::empty());
        r
    }
}

/// What was written to a property.
#[derive(Debug)]
pub enum Written {
    Int { old: i64, new: i64 },
    Float { old: u64, new: Real },
    Text(String),
}

/// What a `Written` holds.
pub enum WrittenView {
    Int { old: i64, new: i64 },
    Float { old: u64, new: RealView },
    Text(Seq<char>),
}

impl View for Written {
    type V = WrittenView;

    open spec fn view(&self) -> WrittenView {
        match self {
            Written::Int { old, new } => WrittenView::Int { old: *old, new: *new },
            Written::Float { old, new } => WrittenView::Float { old: *old, new: new@ },
            Written::Text(s) => WrittenView::Text(s@),
        }
    }
}

/// One property that was written, and how many warnings there were by then.
#[derive(Debug)]
pub struct Change {
    pub prop_name: String,
    pub written: Written,
    pub warnings: usize,
}

/// What a `Change` holds.
pub struct ChangeView {
    pub prop_name: Seq<char>,
    pub written: WrittenView,
    pub warnings: nat,
}

impl View for Change {
    type V = ChangeView;

    open spec fn view(&self) -> ChangeView {
        ChangeView {
            prop_name: self.prop_name@,
            written: self.written@,
            warnings: self.warnings as nat,
        }
    }
}

/// What a list of changes holds.
pub open spec fn change_views(s: Seq<Change>) -> Seq<ChangeView> {
    Seq::new(s.len(), |i: int| s[i]@)
}

/// What a list of borrowed effects holds.
pub open spec fn borrowed_views(s: Seq<&ParsedEffect>) -> Seq<ParsedView> {
    Seq::new(s.len(), |i: int| s[i]@)
}

// ---------------------------------------------------------------------------
// Model
// ---------------------------------------------------------------------------
/// An entity, the warnings, and what was written, in the course of a turn.
pub struct RunView {
    pub entity: EntityView,
    pub warnings: Seq<Seq<char>>,
    pub changes: Seq<ChangeView>,
}

impl RunView {
    /// With one more warning.
    pub open spec fn warn(self, w: Seq<char>) -> RunView {
        RunView { warnings: self.warnings.push(w), ..self }
    }

    /// With one more change, of an integer property.
    pub open spec fn wrote_int(self, p: Seq<char>, new: i64) -> RunView {
        RunView {
            entity: EntityView { ints: self.entity.ints.insert(p, new), ..self.entity },
            changes: self.changes.push(
                ChangeView {
                    prop_name: p,
                    written: WrittenView::Int { old: int_or_zero(self.entity.ints, p), new },
                    warnings: self.warnings.len(),
                },
            ),
            ..self
        }
    }

    /// With one more change, of a float property.
    pub open spec fn wrote_float(self, p: Seq<char>, new: RealView) -> RunView {
        RunView {
            entity: EntityView { reals: self.entity.reals.insert(p, new.bits), ..self.entity },
            changes: self.changes.push(
                ChangeView {
                    prop_name: p,
                    written: WrittenView::Float { old: float_or_zero(self.entity.reals, p), new },
                    warnings: self.warnings.len(),
                },
            ),
            ..self
        }
    }

    /// With one more change, of a string property.
    pub open spec fn wrote_text(self, p: Seq<char>, new: Seq<char>) -> RunView {
        RunView {
            entity: EntityView { strings: self.entity.strings.insert(p, new), ..self.entity },
            changes: self.changes.push(
                ChangeView {
                    prop_name: p,
                    written: WrittenView::Text(new),
                    warnings: self.warnings.len(),
                },
            ),
            ..self
        }
    }
}

/// The bits of a float property, or those of 0.
pub open spec fn float_or_zero(m: Map<Seq<char>, u64>, name: Seq<char>) -> u64 {
    if m.contains_key(name) {
        m[name]
    } else {
        0
    }
}

/// A property that only operators write.
pub open spec fn internal_property(name: Seq<char>) -> bool {
    name == "last_processed_other_tick"@
}

pub open spec fn protected_warning(e: EntityView, f: ParsedView) -> Seq<char> {
    "Skipped effect on abstract/system entity '"@ + e.name + "' (entity_type="@ + e.entity_type
        + ", reason='"@ + (if e.entity_type == "abstract"@ || e.entity_type == "world_clock"@ {
        "abstract entities are write-protected"@
    } else {
        "system entities are protected"@
    }) + "'): property='"@ + f.prop_name + "', value="@ + f.shown
}

pub open spec fn nameless_warning(raw_key: Seq<char>) -> Seq<char> {
    "Empty property name in effect '"@ + raw_key + "'; skipped"@
}

pub open spec fn internal_warning(prop: Seq<char>, entity: Seq<char>) -> Seq<char> {
    "Skipped effect on internal/operator-only property '"@ + prop + "' (entity='"@ + entity
        + "', reason='LLM-emit effects cannot write to internal properties; use the per-property PUT endpoint to override')"@
}

pub open spec fn refused_warning(f: ParsedView, reason: Seq<char>) -> Seq<char> {
    "Skipped effect on '"@ + f.raw_key + "': "@ + reason + " (value="@ + f.shown + ")"@
}

pub open spec fn unsupported_warning(f: ParsedView) -> Seq<char> {
    "Unsupported effect type for '"@ + f.raw_key + "': "@ + f.shown
}

/// `value` (an `of`) was meant for a property that is an `is`.
pub open spec fn mismatch_warning(
    prop: Seq<char>,
    is: Seq<char>,
    of: Seq<char>,
    value: Seq<char>,
) -> Seq<char> {
    "Type mismatch: '"@ + prop + "' is "@ + is + ", tried to set "@ + of + " ("@ + value
        + "). Skipped."@
}

pub open spec fn text_on_int_warning(prop: Seq<char>, value: Seq<char>) -> Seq<char> {
    "Type mismatch: '"@ + prop + "' is int, tried to set string value="@ + debug_form(value)
        + ". Skipped."@
}

pub open spec fn text_on_float_warning(prop: Seq<char>, value: Seq<char>) -> Seq<char> {
    "Type mismatch: "@ + prop + " is float, tried to set string (val=\""@ + value
        + "\"). Skipped."@
}

pub open spec fn overflow_warning(prop: Seq<char>, old: int, delta: int) -> Seq<char> {
    "Integer overflow on '"@ + prop + "' (old="@ + int_dec(old) + ", delta="@ + int_dec(delta)
        + "); skipped"@
}

pub open spec fn int_oversize_warning(prop: Seq<char>, new: int) -> Seq<char> {
    "Skipped oversize int write on '"@ + prop + "': new_val="@ + int_dec(new)
        + " (|val| > 1000000000)"@
}

pub open spec fn float_oversize_warning(prop: Seq<char>, new: Seq<char>) -> Seq<char> {
    "Skipped oversize float write on '"@ + prop + "': new_val="@ + new
}

/// After a change of property `p` by the integer `val`. A sum that does not fit
/// in 64 bits, or is out of bounds, is not written.
pub open spec fn int_step(s: RunView, p: Seq<char>, val: i64) -> RunView {
    let old = int_or_zero(s.entity.ints, p) as int;
    let new = old + val;
    if s.entity.reals.contains_key(p) {
        s.warn(mismatch_warning(p, "float"@, "int"@, int_dec(val as int)))
    } else if s.entity.strings.contains_key(p) {
        s.warn(mismatch_warning(p, "string"@, "int"@, int_dec(val as int)))
    } else if new < i64::MIN || new > i64::MAX {
        s.warn(overflow_warning(p, old, val as int))
    } else if new > MAX_INT_ABS || new < -MAX_INT_ABS {
        s.warn(int_oversize_warning(p, new))
    } else {
        s.wrote_int(p, new as i64)
    }
}

/// After a change of property `p` by the double `val`, where the property and
/// `val` add up to `sum`.
pub open spec fn float_step(s: RunView, p: Seq<char>, val: RealView, sum: RealView) -> RunView {
    if s.entity.ints.contains_key(p) {
        s.warn(mismatch_warning(p, "int"@, "float"@, val.text))
    } else if s.entity.strings.contains_key(p) {
        s.warn(mismatch_warning(p, "string"@, "float"@, val.text))
    } else if exceeds(sum.bits, MAX_FLOAT_ABS as int) {
        s.warn(float_oversize_warning(p, sum.text))
    } else {
        s.wrote_float(p, sum)
    }
}

/// After property `p` was set to the text `val`.
pub open spec fn text_step(s: RunView, p: Seq<char>, val: Seq<char>) -> RunView {
    if s.entity.ints.contains_key(p) {
        s.warn(text_on_int_warning(p, val))
    } else if s.entity.reals.contains_key(p) {
        s.warn(text_on_float_warning(p, val))
    } else {
        s.wrote_text(p, val)
    }
}

/// After effect number `k`; `sum` is what its property and its double add up
/// to.
pub open spec fn effect_step(
    s: RunView,
    f: ParsedView,
    k: int,
    scaling: ScalingView,
    sum: RealView,
) -> RunView {
    if f.prop_name.len() == 0 {
        s.warn(nameless_warning(f.raw_key))
    } else if internal_property(f.prop_name) {
        s.warn(internal_warning(f.prop_name, s.entity.name))
    } else {
        match refusal(f.value) {
            Some(reason) => s.warn(refused_warning(f, reason)),
            None => match delta_of(f.value) {
                None => s.warn(unsupported_warning(f)),
                Some(DeltaView::Int(n)) => int_step(s, f.prop_name, scaling.int_at(k, n)),
                Some(DeltaView::Float(r)) => float_step(
                    s,
                    f.prop_name,
                    scaling.float_at(k, r),
                    sum,
                ),
                Some(DeltaView::Text(t)) => text_step(s, f.prop_name, t),
            },
        }
    }
}

/// The two doubles that effect number `k` has to add, if any: the property's
/// and its own.
pub open spec fn summands(s: RunView, f: ParsedView, k: int, scaling: ScalingView) -> Option<
    (u64, u64),
> {
    if f.prop_name.len() > 0 && !internal_property(f.prop_name) && refusal(f.value) is None
        && !s.entity.ints.contains_key(f.prop_name) && !s.entity.strings.contains_key(
        f.prop_name,
    ) {
        match delta_of(f.value) {
            Some(DeltaView::Float(r)) => Some(
                (float_or_zero(s.entity.reals, f.prop_name), scaling.float_at(k, r).bits),
            ),
            _ => None,
        }
    } else {
        None
    }
}

/// After the first `n` effects; `sums[k]` is what effect number `k` adds up
/// to.
pub open spec fn effects_run(
    start: RunView,
    effects: Seq<ParsedView>,
    scaling: ScalingView,
    sums: Seq<RealView>,
    n: int,
) -> RunView
    decreases n,
{
    if n <= 0 {
        start
    } else {
        effect_step(
            effects_run(start, effects, scaling, sums, n - 1),
            effects[n - 1],
            n - 1,
            scaling,
            sums[n - 1],
        )
    }
}

/// The warnings for effects on a protected entity.
pub open spec fn protected_warnings(
    warnings: Seq<Seq<char>>,
    e: EntityView,
    effects: Seq<ParsedView>,
    n: int,
) -> Seq<Seq<char>>
    decreases n,
{
    if n <= 0 {
        warnings
    } else {
        protected_warnings(warnings, e, effects, n - 1).push(protected_warning(e, effects[n - 1]))
    }
}

/// Where the effects on an entity that is not protected begin.
pub open spec fn run_start(
    e: EntityView,
    warnings: Seq<Seq<char>>,
    scaling: ScalingView,
) -> RunView {
    RunView {
        entity: e,
        warnings: match scaling.notice {
            Some(w) => warnings.push(w),
            None => warnings,
        },
        changes: Seq::empty(),
    }
}

/// What the effects make of an entity: nothing of a protected one, but for the
/// warnings; of any other, one step after the other.
pub open spec fn target_run(
    e: EntityView,
    warnings: Seq<Seq<char>>,
    effects: Seq<ParsedView>,
    scaling: ScalingView,
    sums: Seq<RealView>,
) -> RunView {
    if e.is_system() {
        RunView {
            entity: e,
            warnings: protected_warnings(warnings, e, effects, effects.len() as int),
            changes: Seq::empty(),
        }
    } else {
        effects_run(
            run_start(e, warnings, scaling),
            effects,
            scaling,
            sums,
            effects.len() as int,
        )
    }
}

/// Every sum that the effects need is one that `sum` gives of its two
/// summands.
pub open spec fn sums_given<F: Fn(u64, u64) -> Real>(
    sum: F,
    e: EntityView,
    warnings: Seq<Seq<char>>,
    effects: Seq<ParsedView>,
    scaling: ScalingView,
    sums: Seq<Real>,
) -> bool {
    &&& sums.len() == effects.len()
    &&& !e.is_system() ==> forall|k: int| #![trigger sums[k]]
        0 <= k < effects.len() ==> match summands(
            effects_run(run_start(e, warnings, scaling), effects, scaling, real_views(sums), k),
            effects[k],
            k,
            scaling,
        ) {
            Some(p) => sum.ensures((p.0, p.1), sums[k]),
            None => true,
        }
}

/// A run looks at no sum beyond its end.
pub proof fn lemma_run_prefix(
    start: RunView,
    effects: Seq<ParsedView>,
    scaling: ScalingView,
    a: Seq<RealView>,
    b: Seq<RealView>,
    n: int,
)
    requires
        forall|k: int| 0 <= k < n ==> a[k] == b[k],
    ensures
        effects_run(start, effects, scaling, a, n) == effects_run(start, effects, scaling, b, n),
    decreases n,
{
    if n > 0 {
        lemma_run_prefix(start, effects, scaling, a, b, n - 1);
    }
}

// ---------------------------------------------------------------------------
// Functions
// ---------------------------------------------------------------------------
/// The state of a run, from its three parts.
spec fn run_of(entity: WorldEntity, warnings: Vec<String>, changes: Vec<Change>) -> RunView {
    RunView {
        entity: entity@,
        warnings: texts(warnings@),
        changes: change_views(changes@),
    }
}

proof fn lemma_changes_push(s: Seq<Change>, c: Change)
    ensures
        change_views(s.push(c)) == change_views(s).push(c@),
{
    assert(change_views(s.push(c)) =~= change_views(s).push(c@));
}

/// Whether a property is one that only operators write.
pub fn is_internal_property(name: &str) -> (r: bool)
    ensures
        r == internal_property(name@),
{
    same_text(name, "last_processed_other_tick")
}

fn protected_notice(entity: &WorldEntity, f: &ParsedEffect) -> (r: String)
    ensures
        r@ == protected_warning(entity@, f@),
{
    let mut w: String = copied("Skipped effect on abstract/system entity '");
    w.append(entity.name.as_str());
    w.append("' (entity_type=");
    w.append(entity.entity_type.as_str());
    w.append(", reason='");
    if same_text(entity.entity_type.as_str(), "abstract") || same_text(
        entity.entity_type.as_str(),
        "world_clock",
    ) {
        w.append("abstract entities are write-protected");
    } else {
        w.append("system entities are protected");
    }
    w.append("'): property='");
    w.append(f.prop_name.as_str());
    w.append("', value=");
    w.append(f.shown.as_str());
    w
}

fn nameless_notice(raw_key: &str) -> (r: String)
    ensures
        r@ == nameless_warning(raw_key@),
{
    let mut w: String = copied("Empty property name in effect '");
    w.append(raw_key);
    w.append("'; skipped");
    w
}

fn internal_notice(prop: &str, entity: &str) -> (r: String)
    ensures
        r@ == internal_warning(prop@, entity@),
{
    let mut w: String = copied("Skipped effect on internal/operator-only property '");
    w.append(prop);
    w.append("' (entity='");
    w.append(entity);
    w.append(
        "', reason='LLM-emit effects cannot write to internal properties; use the per-property PUT endpoint to override')",
    );
    w
}

fn refused_notice(f: &ParsedEffect, reason: &str) -> (r: String)
    ensures
        r@ == refused_warning(f@, reason@),
{
    let mut w: String = copied("Skipped effect on '");
    w.append(f.raw_key.as_str());
    w.append("': ");
    w.append(reason);
    w.append(" (value=");
    w.append(f.shown.as_str());
    w.append(")");
    w
}

fn unsupported_notice(f: &ParsedEffect) -> (r: String)
    ensures
        r@ == unsupported_warning(f@),
{
    let mut w: String = copied("Unsupported effect type for '");
    w.append(f.raw_key.as_str());
    w.append("': ");
    w.append(f.shown.as_str());
    w
}

fn mismatch_notice(prop: &str, is: &str, of: &str, value: &str) -> (r: String)
    ensures
        r@ == mismatch_warning(prop@, is@, of@, value@),
{
    let mut w: String = copied("Type mismatch: '");
    w.append(prop);
    w.append("' is ");
    w.append(is);
    w.append(", tried to set ");
    w.append(of);
    w.append(" (");
    w.append(value);
    w.append("). Skipped.");
    w
}

fn overflow_notice(prop: &str, old: i64, delta: i64) -> (r: String)
    ensures
        r@ == overflow_warning(prop@, old as int, delta as int),
{
    let mut w: String = copied("Integer overflow on '");
    w.append(prop);
    w.append("' (old=");
    w.append(int_text(old as i128).as_str());
    w.append(", delta=");
    w.append(int_text(delta as i128).as_str());
    w.append("); skipped");
    w
}

fn int_oversize_notice(prop: &str, new: i64) -> (r: String)
    ensures
        r@ == int_oversize_warning(prop@, new as int),
{
    let mut w: String = copied("Skipped oversize int write on '");
    w.append(prop);
    w.append("': new_val=");
    w.append(int_text(new as i128).as_str());
    w.append(" (|val| > 1000000000)");
    w
}

fn float_oversize_notice(prop: &str, new: &str) -> (r: String)
    ensures
        r@ == float_oversize_warning(prop@, new@),
{
    let mut w: String = copied("Skipped oversize float write on '");
    w.append(prop);
    w.append("': new_val=");
    w.append(new);
    w
}

/// Changes an integer property.
fn change_int(
    target: &mut WorldEntity,
    prop: &str,
    val: i64,
    warnings: &mut Vec<String>,
    changes: &mut Vec<Change>,
)
    ensures
        run_of(*final(target), *final(warnings), *final(changes)) == int_step(
            run_of(*old(target), *old(warnings), *old(changes)),
            prop@,
            val,
        ),
{
    if target.properties_float.contains_key(prop) {
        warnings.push(mismatch_notice(prop, "float", "int", int_text(val as i128).as_str()));
        return;
    }
    if target.properties_string.contains_key(prop) {
        warnings.push(mismatch_notice(prop, "string", "int", int_text(val as i128).as_str()));
        return;
    }
    let before: i64 = target.properties_int.get_or_zero(prop);
    let new: i64 = match before.checked_add(val) {
        Some(n) => n,
        None => {
            warnings.push(overflow_notice(prop, before, val));
            return;
        },
    };
    if int_oversize(new) {
        warnings.push(int_oversize_notice(prop, new));
        return;
    }
    let change = Change {
        prop_name: copied(prop),
        written: Written::Int { old: before, new },
        warnings: warnings.len(),
    };
    proof {
        lemma_changes_push(changes@, change);
    }
    changes.push(change);
    target.set_int(prop, new);
}

/// Changes a float property.
fn change_float<F: Fn(u64, u64) -> Real>(
    target: &mut WorldEntity,
    prop: &str,
    val: &Real,
    sum: &F,
    warnings: &mut Vec<String>,
    changes: &mut Vec<Change>,
) -> (r: Ghost<Real>)
    requires
        forall|a: u64, b: u64| #[trigger] sum.requires((a, b)),
    ensures
        !old(target)@.ints.contains_key(prop@) && !old(target)@.strings.contains_key(prop@)
            ==> sum.ensures((float_or_zero(old(target)@.reals, prop@), val.bits), r@),
        run_of(*final(target), *final(warnings), *final(changes)) == float_step(
            run_of(*old(target), *old(warnings), *old(changes)),
            prop@,
            val@,
            r@@,
        ),
{
    if target.properties_int.contains_key(prop) {
        warnings.push(mismatch_notice(prop, "int", "float", val.text.as_str()));
        return Ghost(arbitrary());
    }
    if target.properties_string.contains_key(prop) {
        warnings.push(mismatch_notice(prop, "string", "float", val.text.as_str()));
        return Ghost(arbitrary());
    }
    let before: u64 = match target.properties_float.get(prop) {
        Some(b) => *b,
        None => 0,
    };
    let new: Real = sum(before, val.bits);
    let ghost given = new;
    if float_oversize(new.bits) {
        warnings.push(float_oversize_notice(prop, new.text.as_str()));
        return Ghost(given);
    }
    let bits: u64 = new.bits;
    let change = Change {
        prop_name: copied(prop),
        written: Written::Float { old: before, new },
        warnings: warnings.len(),
    };
    proof {
        lemma_changes_push(changes@, change);
    }
    changes.push(change);
    target.set_float(prop, bits);
    Ghost(given)
}

/// Sets a string property.
fn change_text(
    target: &mut WorldEntity,
    prop: &str,
    val: &str,
    warnings: &mut Vec<String>,
    changes: &mut Vec<Change>,
)
    ensures
        run_of(*final(target), *final(warnings), *final(changes)) == text_step(
            run_of(*old(target), *old(warnings), *old(changes)),
            prop@,
            val@,
        ),
{
    if target.properties_int.contains_key(prop) {
        let mut w: String = copied("Type mismatch: '");
        w.append(prop);
        w.append("' is int, tried to set string value=");
        w.append(debug_text(val).as_str());
        w.append(". Skipped.");
        warnings.push(w);
        return;
    }
    if target.properties_float.contains_key(prop) {
        let mut w: String = copied("Type mismatch: ");
        w.append(prop);
        w.append(" is float, tried to set string (val=\"");
        w.append(val);
        w.append("\"). Skipped.");
        warnings.push(w);
        return;
    }
    let change = Change {
        prop_name: copied(prop),
        written: Written::Text(copied(val)),
        warnings: warnings.len(),
    };
    proof {
        lemma_changes_push(changes@, change);
    }
    changes.push(change);
    target.set_string(prop, val);
}

/// Applies effect number `k`. The result is the sum that was needed, if any.
fn apply_effect<F: Fn(u64, u64) -> Real>(
    target: &mut WorldEntity,
    f: &ParsedEffect,
    k: usize,
    scaling: &Scaling,
    sum: &F,
    warnings: &mut Vec<String>,
    changes: &mut Vec<Change>,
) -> (r: Ghost<Real>)
    requires
        forall|a: u64, b: u64| #[trigger] sum.requires((a, b)),
    ensures
        match summands(run_of(*old(target), *old(warnings), *old(changes)), f@, k as int, scaling@) {
            Some(p) => sum.ensures((p.0, p.1), r@),
            None => true,
        },
        run_of(*final(target), *final(warnings), *final(changes)) == effect_step(
            run_of(*old(target), *old(warnings), *old(changes)),
            f@,
            k as int,
            scaling@,
            r@@,
        ),
{
    let prop: &str = f.prop_name.as_str();
    if prop.is_empty() {
        warnings.push(nameless_notice(f.raw_key.as_str()));
        return Ghost(arbitrary());
    }
    if is_internal_property(prop) {
        warnings.push(internal_notice(prop, target.name.as_str()));
        return Ghost(arbitrary());
    }
    if let Some(reason) = magnitude_check(&f.value) {
        warnings.push(refused_notice(f, reason.as_str()));
        return Ghost(arbitrary());
    }
    match effect_delta(&f.value) {
        None => {
            warnings.push(unsupported_notice(f));
            Ghost(arbitrary())
        },
        Some(Delta::Int(n)) => {
            let val: i64 = if k < scaling.ints.len() {
                scaling.ints[k]
            } else {
                n
            };
            change_int(target, prop, val, warnings, changes);
            Ghost(arbitrary())
        },
        Some(Delta::Float(r)) => {
            if k < scaling.floats.len() {
                change_float(target, prop, &scaling.floats[k], sum, warnings, changes)
            } else {
                change_float(target, prop, &r, sum, warnings, changes)
            }
        },
        Some(Delta::Text(t)) => {
            change_text(target, prop, t.as_str(), warnings, changes);
            Ghost(arbitrary())
        },
    }
}

/// Applies the effects that landed on one entity, in order. A protected entity
/// stays as it is. `sum` adds two doubles. The result lists what was written.
pub fn apply_effects_to_target<F: Fn(u64, u64) -> Real>(
    target: &mut WorldEntity,
    effects: &Vec<&ParsedEffect>,
    scaling: &Scaling,
    sum: &F,
    warnings: &mut Vec<String>,
) -> (r: Vec<Change>)
    requires
        forall|a: u64, b: u64| #[trigger] sum.requires((a, b)),
    ensures
        exists|sums: Seq<Real>|
            #![trigger real_views(sums)]
            sums_given(
                *sum,
                old(target)@,
                texts(old(warnings)@),
                borrowed_views(effects@),
                scaling@,
                sums,
            ) && (RunView {
                entity: final(target)@,
                warnings: texts(final(warnings)@),
                changes: change_views(r@),
            }) == target_run(
                old(target)@,
                texts(old(warnings)@),
                borrowed_views(effects@),
                scaling@,
                real_views(sums),
            ),
{
    let mut changes: Vec<Change> = Vec::new();
    let ghost e0 = target@;
    let ghost w0 = texts(warnings@);
    let ghost views = borrowed_views(effects@);
    assert(change_views(changes@) =~= Seq::empty());
    let mut i: usize = 0;
    if target.is_system_entity() {
        while i < effects.len()
            invariant
                i <= effects@.len(),
                views == borrowed_views(effects@),
                target@ == e0,
                texts(warnings@) == protected_warnings(w0, e0, views, i as int),
            decreases effects.len() - i,
        {
            warnings.push(protected_notice(target, effects[i]));
            i = i + 1;
        }
        proof {
            let sums: Seq<Real> = Seq::new(views.len(), |k: int| arbitrary());
            assert(sums_given(*sum, e0, w0, views, scaling@, sums));
            assert(real_views(sums).len() == sums.len());
        }
        return changes;
    }
    if let Some(notice) = &scaling.notice {
        warnings.push(copied(notice.as_str()));
    }
    let ghost start = run_start(e0, w0, scaling@);
    assert(run_of(*target, *warnings, changes) == start);
    let ghost mut sums: Seq<Real> = Seq::empty();
    while i < effects.len()
        invariant
            i <= effects@.len(),
            views == borrowed_views(effects@),
            start == run_start(e0, w0, scaling@),
            !e0.is_system(),
            forall|a: u64, b: u64| #[trigger] sum.requires((a, b)),
            sums.len() == i,
            run_of(*target, *warnings, changes) == effects_run(
                start,
                views,
                scaling@,
                real_views(sums),
                i as int,
            ),
            forall|k: int| #![trigger sums[k]]
                0 <= k < i ==> match summands(
                    effects_run(start, views, scaling@, real_views(sums), k),
                    views[k],
                    k,
                    scaling@,
                ) {
                    Some(p) => sum.ensures((p.0, p.1), sums[k]),
                    None => true,
                },
        decreases effects.len() - i,
    {
        let given = apply_effect(target, effects[i], i, scaling, sum, warnings, &mut changes);
        proof {
            let longer = sums.push(given@);
            assert forall|n: int| 0 <= n <= i implies #[trigger] effects_run(
                start,
                views,
                scaling@,
                real_views(longer),
                n,
            ) == effects_run(start, views, scaling@, real_views(sums), n) by {
                lemma_run_prefix(
                    start,
                    views,
                    scaling@,
                    real_views(longer),
                    real_views(sums),
                    n,
                );
            }
            assert forall|k: int| #![trigger longer[k]]
                0 <= k < i + 1 implies match summands(
                effects_run(start, views, scaling@, real_views(longer), k),
                views[k],
                k,
                scaling@,
            ) {
                Some(p) => sum.ensures((p.0, p.1), longer[k]),
                None => true,
            } by {
                if k < i {
                    assert(longer[k] == sums[k]);
                }
            }
            sums = longer;
        }
        i = i + 1;
    }
    proof {
        assert(sums_given(*sum, e0, w0, views, scaling@, sums));
        assert(real_views(sums).len() == sums.len());
    }
    changes
}

/// Change number `i` is the last one of its property.
pub open spec fn is_last_change(changes: Seq<ChangeView>, i: int) -> bool {
    forall|j: int|
        i < j < changes.len() ==> (#[trigger] changes[j]).prop_name != changes[i].prop_name
}

/// The places, among the first `n` changes, of those that are the last ones of
/// their properties.
pub open spec fn last_changes_in(changes: Seq<ChangeView>, n: int) -> Seq<int>
    decreases n,
{
    if n <= 0 {
        Seq::empty()
    } else if is_last_change(changes, n - 1) {
        last_changes_in(changes, n - 1).push(n - 1)
    } else {
        last_changes_in(changes, n - 1)
    }
}

/// The places of the changes that count in the end: of several changes of one
/// property, the last.
pub fn last_changes(changes: &Vec<Change>) -> (r: Vec<usize>)
    ensures
        Seq::new(r@.len(), |k: int| r@[k] as int) == last_changes_in(
            change_views(changes@),
            changes@.len() as int,
        ),
{
    let ghost all = change_views(changes@);
    let mut out: Vec<usize> = Vec::new();
    let mut i: usize = 0;
    assert(Seq::new(out@.len(), |k: int| out@[k] as int) =~= Seq::empty());
    while i < changes.len()
        invariant
            i <= changes@.len(),
            all == change_views(changes@),
            Seq::new(out@.len(), |k: int| out@[k] as int) == last_changes_in(all, i as int),
        decreases changes.len() - i,
    {
        let mut later: bool = false;
        let mut j: usize = i + 1;
        while j < changes.len()
            invariant
                i < j <= changes@.len(),
                all == change_views(changes@),
                later == exists|k: int|
                    i < k < j && (#[trigger] all[k]).prop_name == all[i as int].prop_name,
            decreases changes.len() - j,
        {
            let same: bool = same_text(changes[j].prop_name.as_str(), changes[i].prop_name.as_str());
            proof {
                if same {
                    assert(all[j as int].prop_name == all[i as int].prop_name);
                } else if later {
                    let k = choose|k: int|
                        i < k < j && (#[trigger] all[k]).prop_name == all[i as int].prop_name;
                    assert(i < k < j + 1 && all[k].prop_name == all[i as int].prop_name);
                }
            }
            later = later || same;
            j = j + 1;
        }
        assert(later == !is_last_change(all, i as int));
        let ghost before = out@;
        if !later {
            out.push(i);
            assert(Seq::new(out@.len(), |k: int| out@[k] as int) =~= Seq::new(
                before.len(),
                |k: int| before[k] as int,
            ).push(i as int));
        }
        i = i + 1;
    }
    out
}

// ---------------------------------------------------------------------------
// Laws
// ---------------------------------------------------------------------------
/// Integer properties that only operators write are the same in two entities.
pub open spec fn same_internals(a: EntityView, b: EntityView) -> bool {
    forall|p: Seq<char>| #[trigger]
        internal_property(p) ==> (b.ints.contains_key(p) <==> a.ints.contains_key(p)) && b.ints[p]
            == a.ints[p]
}

/// Effects change nothing of an entity but its properties, and none of those that
/// only operators write.
pub open spec fn same_but_properties(a: EntityView, b: EntityView) -> bool {
    &&& b == (EntityView { ints: b.ints, reals: b.reals, strings: b.strings, ..a })
    &&& same_internals(a, b)
}

proof fn lemma_run_keeps_identity(
    start: RunView,
    effects: Seq<ParsedView>,
    scaling: ScalingView,
    sums: Seq<RealView>,
    n: int,
)
    ensures
        same_but_properties(
            start.entity,
            effects_run(start, effects, scaling, sums, n).entity,
        ),
    decreases n,
{
    if n > 0 {
        lemma_run_keeps_identity(start, effects, scaling, sums, n - 1);
    }
}

/// Whatever the effects are, an entity keeps its id, type, name, description,
/// place, tags, summary and history, and what only operators write.
pub proof fn law_only_properties_change(
    e: EntityView,
    warnings: Seq<Seq<char>>,
    effects: Seq<ParsedView>,
    scaling: ScalingView,
    sums: Seq<RealView>,
)
    ensures
        same_but_properties(e, target_run(e, warnings, effects, scaling, sums).entity),
{
    lemma_run_keeps_identity(
        run_start(e, warnings, scaling),
        effects,
        scaling,
        sums,
        effects.len() as int,
    );
}

/// A protected entity never changes, and every effect on it leaves a warning.
pub proof fn law_protected_entities_never_change(
    e: EntityView,
    warnings: Seq<Seq<char>>,
    effects: Seq<ParsedView>,
    scaling: ScalingView,
    sums: Seq<RealView>,
)
    requires
        e.is_system(),
    ensures
        target_run(e, warnings, effects, scaling, sums).entity == e,
        target_run(e, warnings, effects, scaling, sums).changes.len() == 0,
        target_run(e, warnings, effects, scaling, sums).warnings.len() == warnings.len()
            + effects.len(),
{
    lemma_protected_count(warnings, e, effects, effects.len() as int);
}

proof fn lemma_protected_count(
    warnings: Seq<Seq<char>>,
    e: EntityView,
    effects: Seq<ParsedView>,
    n: int,
)
    requires
        n >= 0,
    ensures
        protected_warnings(warnings, e, effects, n).len() == warnings.len() + n,
    decreases n,
{
    if n > 0 {
        lemma_protected_count(warnings, e, effects, n - 1);
    }
}

/// No name is a property of two kinds.
pub open spec fn one_kind_each(e: EntityView) -> bool {
    forall|p: Seq<char>| #![trigger e.ints.contains_key(p)]
        #![trigger e.reals.contains_key(p)]
        #![trigger e.strings.contains_key(p)]
        !(e.ints.contains_key(p) && e.reals.contains_key(p)) && !(e.ints.contains_key(p)
            && e.strings.contains_key(p)) && !(e.reals.contains_key(p) && e.strings.contains_key(
            p,
        ))
}

/// Effects never make a property be of two kinds.
pub proof fn law_properties_keep_their_kind(
    e: EntityView,
    warnings: Seq<Seq<char>>,
    effects: Seq<ParsedView>,
    scaling: ScalingView,
    sums: Seq<RealView>,
)
    requires
        one_kind_each(e),
    ensures
        one_kind_each(target_run(e, warnings, effects, scaling, sums).entity),
{
    lemma_run_keeps_kinds(
        run_start(e, warnings, scaling),
        effects,
        scaling,
        sums,
        effects.len() as int,
    );
}

proof fn lemma_run_keeps_kinds(
    start: RunView,
    effects: Seq<ParsedView>,
    scaling: ScalingView,
    sums: Seq<RealView>,
    n: int,
)
    requires
        one_kind_each(start.entity),
    ensures
        one_kind_each(effects_run(start, effects, scaling, sums, n).entity),
    decreases n,
{
    if n > 0 {
        lemma_run_keeps_kinds(start, effects, scaling, sums, n - 1);
    }
}

/// An integer property is, after the effects, what it was before, or at most
/// `MAX_INT_ABS` in absolute value; a float property likewise, with
/// `MAX_FLOAT_ABS`.
pub open spec fn bounded_since(a: EntityView, b: EntityView) -> bool {
    &&& forall|p: Seq<char>| #[trigger]
        b.ints.contains_key(p) ==> (a.ints.contains_key(p) && a.ints[p] == b.ints[p])
            || -MAX_INT_ABS <= b.ints[p] <= MAX_INT_ABS
    &&& forall|p: Seq<char>| #[trigger]
        b.reals.contains_key(p) ==> (a.reals.contains_key(p) && a.reals[p] == b.reals[p])
            || !exceeds(b.reals[p], MAX_FLOAT_ABS as int)
}

/// No effect takes a number out of bounds.
pub proof fn law_written_numbers_are_bounded(
    e: EntityView,
    warnings: Seq<Seq<char>>,
    effects: Seq<ParsedView>,
    scaling: ScalingView,
    sums: Seq<RealView>,
)
    ensures
        bounded_since(e, target_run(e, warnings, effects, scaling, sums).entity),
{
    lemma_run_bounded(
        run_start(e, warnings, scaling),
        effects,
        scaling,
        sums,
        effects.len() as int,
    );
}

proof fn lemma_run_bounded(
    start: RunView,
    effects: Seq<ParsedView>,
    scaling: ScalingView,
    sums: Seq<RealView>,
    n: int,
)
    ensures
        bounded_since(start.entity, effects_run(start, effects, scaling, sums, n).entity),
    decreases n,
{
    if n > 0 {
        lemma_run_bounded(start, effects, scaling, sums, n - 1);
    }
}

/// No effect is lost: each one that is not written leaves a warning. Operators'
/// own properties are never written.
pub proof fn law_every_effect_is_written_or_warned_of(
    e: EntityView,
    warnings: Seq<Seq<char>>,
    effects: Seq<ParsedView>,
    scaling: ScalingView,
    sums: Seq<RealView>,
)
    ensures
        target_run(e, warnings, effects, scaling, sums).changes.len() + target_run(
            e,
            warnings,
            effects,
            scaling,
            sums,
        ).warnings.len() >= warnings.len() + effects.len(),
        forall|i: int|
            0 <= i < target_run(e, warnings, effects, scaling, sums).changes.len()
                ==> !internal_property(
                (#[trigger] target_run(e, warnings, effects, scaling, sums).changes[i]).prop_name,
            ),
{
    lemma_protected_count(warnings, e, effects, effects.len() as int);
    lemma_run_accounts(
        run_start(e, warnings, scaling),
        effects,
        scaling,
        sums,
        effects.len() as int,
    );
}

proof fn lemma_run_accounts(
    start: RunView,
    effects: Seq<ParsedView>,
    scaling: ScalingView,
    sums: Seq<RealView>,
    n: int,
)
    requires
        0 <= n,
        start.changes.len() == 0,
    ensures
        effects_run(start, effects, scaling, sums, n).changes.len() + effects_run(
            start,
            effects,
            scaling,
            sums,
            n,
        ).warnings.len() >= start.warnings.len() + n,
        forall|i: int|
            0 <= i < effects_run(start, effects, scaling, sums, n).changes.len()
                ==> !internal_property(
                (#[trigger] effects_run(start, effects, scaling, sums, n).changes[i]).prop_name,
            ),
    decreases n,
{
    if n > 0 {
        lemma_run_accounts(start, effects, scaling, sums, n - 1);
    }
}

/// What a run writes to an integer, float or text property, and when: the change
/// is stored under its name, whatever stood there, and reported with what was
/// there before.
pub proof fn law_effect_writes(s: RunView, f: ParsedView, k: int, scaling: ScalingView, sum: RealView)
    requires
        f.prop_name.len() > 0,
        f.prop_name != "last_processed_other_tick"@,
        refusal(f.value) is None,
    ensures
        ({
            let p = f.prop_name;
            let after = effect_step(s, f, k, scaling, sum);
            let before: int = if s.entity.ints.contains_key(p) {
                s.entity.ints[p] as int
            } else {
                0
            };
            match delta_of(f.value) {
                Some(DeltaView::Text(t)) => if !s.entity.ints.contains_key(p)
                    && !s.entity.reals.contains_key(p) {
                    &&& after.entity.strings == s.entity.strings.insert(p, t)
                    &&& after.changes.len() == s.changes.len() + 1
                    &&& after.changes.last().prop_name == p
                    &&& after.changes.last().written == WrittenView::Text(t)
                } else {
                    after.entity == s.entity && after.warnings.len() == s.warnings.len() + 1
                },
                Some(DeltaView::Int(n)) => {
                    let val: int = if 0 <= k < scaling.ints.len() {
                        scaling.ints[k] as int
                    } else {
                        n as int
                    };
                    let new = before + val;
                    if !s.entity.reals.contains_key(p) && !s.entity.strings.contains_key(p)
                        && -1_000_000_000 <= new <= 1_000_000_000 {
                        &&& after.entity.ints.dom() == s.entity.ints.dom().insert(p)
                        &&& after.entity.ints[p] == new
                        &&& after.changes.len() == s.changes.len() + 1
                        &&& after.changes.last().prop_name == p
                        &&& after.changes.last().written == (WrittenView::Int {
                            old: before as i64,
                            new: new as i64,
                        })
                    } else {
                        after.entity == s.entity && after.warnings.len() == s.warnings.len() + 1
                    }
                },
                Some(DeltaView::Float(r)) => if !s.entity.ints.contains_key(p)
                    && !s.entity.strings.contains_key(p) && !exceeds(sum.bits, 1_000_000_000) {
                    &&& after.entity.reals == s.entity.reals.insert(p, sum.bits)
                    &&& after.changes.len() == s.changes.len() + 1
                    &&& after.changes.last().prop_name == p
                    &&& after.changes.last().written == (WrittenView::Float {
                        old: if s.entity.reals.contains_key(p) {
                            s.entity.reals[p]
                        } else {
                            0
                        },
                        new: sum,
                    })
                } else {
                    after.entity == s.entity && after.warnings.len() == s.warnings.len() + 1
                },
                None => after.entity == s.entity && after.warnings.len() == s.warnings.len() + 1,
            }
        }),
        ({
            let after = effect_step(s, f, k, scaling, sum);
            let wrote: int = if after.changes.len() > s.changes.len() {
                1
            } else {
                0
            };
            &&& after.changes.take(s.changes.len() as int) == s.changes
            &&& after.warnings.take(s.warnings.len() as int) == s.warnings
            &&& after.changes.len() == s.changes.len() + wrote
            &&& after.warnings.len() == s.warnings.len() + 1 - wrote
            &&& wrote == 1 ==> after.changes.last().warnings == s.warnings.len()
        }),
{
    let after = effect_step(s, f, k, scaling, sum);
    assert(after.changes.take(s.changes.len() as int) =~= s.changes);
    assert(after.warnings.take(s.warnings.len() as int) =~= s.warnings);
    assert(after.entity.ints.dom() =~= s.entity.ints.dom() || after.entity.ints.dom()
        =~= s.entity.ints.dom().insert(f.prop_name));
}

/// An effect without a name, on a property that only operators write, or with a
/// value that is refused changes nothing and leaves one warning.
pub proof fn law_refused_effects_change_nothing(
    s: RunView,
    f: ParsedView,
    k: int,
    scaling: ScalingView,
    sum: RealView,
)
    requires
        f.prop_name.len() == 0 || f.prop_name == "last_processed_other_tick"@ || refusal(f.value)
            is Some,
    ensures
        ({
            let after = effect_step(s, f, k, scaling, sum);
            &&& after.entity == s.entity
            &&& after.changes == s.changes
            &&& after.warnings.len() == s.warnings.len() + 1
            &&& after.warnings.drop_last() == s.warnings
        }),
{
    let after = effect_step(s, f, k, scaling, sum);
    assert(after.warnings.drop_last() =~= s.warnings);
}

/// Two changes are scaled by the numbers at their places; without a number at its
/// place, a change keeps its own.
pub proof fn law_scaling(scaling: ScalingView, k: int, n: i64, r: RealView)
    ensures
        0 <= k < scaling.ints.len() ==> scaling.int_at(k, n) == scaling.ints[k],
        k >= scaling.ints.len() ==> scaling.int_at(k, n) == n,
        0 <= k < scaling.floats.len() ==> scaling.float_at(k, r) == scaling.floats[k],
        k >= scaling.floats.len() ==> scaling.float_at(k, r) == r,
        ScalingView::identity().notice is None,
        ScalingView::identity().ints.len() == 0,
        ScalingView::identity().floats.len() == 0,
{
}

/// An entity holds what a change says was written.
spec fn holds_change(e: EntityView, c: ChangeView) -> bool {
    match c.written {
        WrittenView::Int { old, new } => e.ints.contains_key(c.prop_name) && e.ints[c.prop_name]
            == new,
        WrittenView::Float { old, new } => e.reals.contains_key(c.prop_name) && e.reals[c.prop_name]
            == new.bits,
        WrittenView::Text(t) => e.strings.contains_key(c.prop_name) && e.strings[c.prop_name] == t,
    }
}

proof fn lemma_run_holds_changes(
    start: RunView,
    effects: Seq<ParsedView>,
    scaling: ScalingView,
    sums: Seq<RealView>,
    n: int,
    i: int,
)
    requires
        start.changes.len() == 0,
        0 <= i < effects_run(start, effects, scaling, sums, n).changes.len(),
        is_last_change(effects_run(start, effects, scaling, sums, n).changes, i),
    ensures
        holds_change(
            effects_run(start, effects, scaling, sums, n).entity,
            effects_run(start, effects, scaling, sums, n).changes[i],
        ),
    decreases n,
{
    if n > 0 {
        let s = effects_run(start, effects, scaling, sums, n - 1);
        let r = effects_run(start, effects, scaling, sums, n);
        if i < s.changes.len() {
            assert(r.changes[i] == s.changes[i]);
            assert(is_last_change(s.changes, i)) by {
                assert forall|j: int| i < j < s.changes.len() implies (
                #[trigger] s.changes[j]).prop_name != s.changes[i].prop_name by {
                    assert(r.changes[j] == s.changes[j]);
                }
            }
            lemma_run_holds_changes(start, effects, scaling, sums, n - 1, i);
            if r.changes.len() > s.changes.len() {
                assert(r.changes[s.changes.len() as int].prop_name != r.changes[i].prop_name);
            }
        }
    }
}

/// After all effects, every property holds what the last reported change of it
/// says was written to it.
pub proof fn law_reported_changes_are_held(
    e: EntityView,
    warnings: Seq<Seq<char>>,
    effects: Seq<ParsedView>,
    scaling: ScalingView,
    sums: Seq<RealView>,
    i: int,
)
    requires
        0 <= i < target_run(e, warnings, effects, scaling, sums).changes.len(),
        forall|j: int|
            i < j < target_run(e, warnings, effects, scaling, sums).changes.len() ==> (
            #[trigger] target_run(e, warnings, effects, scaling, sums).changes[j]).prop_name
                != target_run(e, warnings, effects, scaling, sums).changes[i].prop_name,
    ensures
        ({
            let r = target_run(e, warnings, effects, scaling, sums);
            let p = r.changes[i].prop_name;
            match r.changes[i].written {
                WrittenView::Int { old, new } => r.entity.ints.contains_key(p) && r.entity.ints[p]
                    == new,
                WrittenView::Float { old, new } => r.entity.reals.contains_key(p)
                    && r.entity.reals[p] == new.bits,
                WrittenView::Text(t) => r.entity.strings.contains_key(p) && r.entity.strings[p] == t,
            }
        }),
{
    lemma_run_holds_changes(
        run_start(e, warnings, scaling),
        effects,
        scaling,
        sums,
        effects.len() as int,
        i,
    );
}

proof fn lemma_run_leaves(
    start: RunView,
    effects: Seq<ParsedView>,
    scaling: ScalingView,
    sums: Seq<RealView>,
    n: int,
    p: Seq<char>,
)
    requires
        forall|i: int|
            0 <= i < effects_run(start, effects, scaling, sums, n).changes.len() ==> (
            #[trigger] effects_run(start, effects, scaling, sums, n).changes[i]).prop_name != p,
    ensures
        same_property(start.entity, effects_run(start, effects, scaling, sums, n).entity, p),
    decreases n,
{
    if n > 0 {
        let s = effects_run(start, effects, scaling, sums, n - 1);
        let r = effects_run(start, effects, scaling, sums, n);
        assert forall|i: int| 0 <= i < s.changes.len() implies (#[trigger] s.changes[i]).prop_name
            != p by {
            assert(r.changes[i] == s.changes[i]);
        }
        lemma_run_leaves(start, effects, scaling, sums, n - 1, p);
        if r.changes.len() > s.changes.len() {
            assert(r.changes[s.changes.len() as int].prop_name != p);
        }
    }
}

/// A property is the same in two entities.
spec fn same_property(a: EntityView, b: EntityView, p: Seq<char>) -> bool {
    &&& a.ints.contains_key(p) <==> b.ints.contains_key(p)
    &&& a.ints[p] == b.ints[p]
    &&& a.reals.contains_key(p) <==> b.reals.contains_key(p)
    &&& a.reals[p] == b.reals[p]
    &&& a.strings.contains_key(p) <==> b.strings.contains_key(p)
    &&& a.strings[p] == b.strings[p]
}

/// A property of which no change is reported is as it was.
pub proof fn law_unreported_properties_stay(
    e: EntityView,
    warnings: Seq<Seq<char>>,
    effects: Seq<ParsedView>,
    scaling: ScalingView,
    sums: Seq<RealView>,
    p: Seq<char>,
)
    requires
        forall|i: int|
            0 <= i < target_run(e, warnings, effects, scaling, sums).changes.len() ==> (
            #[trigger] target_run(e, warnings, effects, scaling, sums).changes[i]).prop_name != p,
    ensures
        ({
            let after = target_run(e, warnings, effects, scaling, sums).entity;
            &&& e.ints.contains_key(p) <==> after.ints.contains_key(p)
            &&& e.ints[p] == after.ints[p]
            &&& e.reals.contains_key(p) <==> after.reals.contains_key(p)
            &&& e.reals[p] == after.reals[p]
            &&& e.strings.contains_key(p) <==> after.strings.contains_key(p)
            &&& e.strings[p] == after.strings[p]
        }),
{
    if !e.is_system() {
        lemma_run_leaves(
            run_start(e, warnings, scaling),
            effects,
            scaling,
            sums,
            effects.len() as int,
            p,
        );
    }
}

/// Effects are applied one after the other: one more effect makes one more step
/// from where the others led. The first step starts from the entity itself, with
/// the notice of a scaling, if any, after the warnings.
pub proof fn law_effects_apply_in_order(
    e: EntityView,
    warnings: Seq<Seq<char>>,
    effects: Seq<ParsedView>,
    f: ParsedView,
    scaling: ScalingView,
    sums: Seq<RealView>,
)
    requires
        !e.is_system(),
    ensures
        target_run(e, warnings, effects.push(f), scaling, sums) == effect_step(
            target_run(e, warnings, effects, scaling, sums),
            f,
            effects.len() as int,
            scaling,
            sums[effects.len() as int],
        ),
        ({
            let none = target_run(e, warnings, Seq::empty(), scaling, sums);
            &&& none.entity == e
            &&& none.changes.len() == 0
            &&& scaling.notice is None ==> none.warnings == warnings
            &&& scaling.notice is Some ==> none.warnings == warnings.push(scaling.notice->0)
        }),
{
    lemma_run_of_prefix(
        run_start(e, warnings, scaling),
        effects.push(f),
        effects,
        scaling,
        sums,
        effects.len() as int,
    );
}

proof fn lemma_run_of_prefix(
    start: RunView,
    a: Seq<ParsedView>,
    b: Seq<ParsedView>,
    scaling: ScalingView,
    sums: Seq<RealView>,
    n: int,
)
    requires
        forall|k: int| 0 <= k < n ==> a[k] == b[k],
    ensures
        effects_run(start, a, scaling, sums, n) == effects_run(start, b, scaling, sums, n),
    decreases n,
{
    if n > 0 {
        lemma_run_of_prefix(start, a, b, scaling, sums, n - 1);
    }
}

/// Of several changes of one property the last one counts, and of each property
/// one does; they are listed in order.
pub proof fn law_last_changes(changes: Seq<ChangeView>, n: int)
    requires
        0 <= n <= changes.len(),
    ensures
        ({
            let r = last_changes_in(changes, n);
            &&& forall|k: int, l: int| 0 <= k < l < r.len() ==> r[k] < r[l]
            &&& forall|k: int| 0 <= k < r.len() ==> 0 <= #[trigger] r[k] < n
            &&& forall|i: int| #![trigger changes[i]]
                0 <= i < n ==> (r.contains(i) <==> forall|j: int|
                    i < j < changes.len() ==> (#[trigger] changes[j]).prop_name
                        != changes[i].prop_name)
        }),
    decreases n,
{
    let r = last_changes_in(changes, n);
    if n > 0 {
        law_last_changes(changes, n - 1);
        let before = last_changes_in(changes, n - 1);
        let last = is_last_change(changes, n - 1);
        assert forall|i: int| 0 <= i < n implies (#[trigger] r.contains(i) <==> (before.contains(i)
            || i == n - 1 && last)) by {
            if before.contains(i) {
                let k = choose|k: int| 0 <= k < before.len() && before[k] == i;
                assert(r[k] == i);
            }
            if i == n - 1 && last {
                assert(r[r.len() - 1] == i);
            }
            if r.contains(i) {
                let k = choose|k: int| 0 <= k < r.len() && r[k] == i;
                if k < before.len() {
                    assert(before[k] == i);
                }
            }
        }
        if before.contains(n - 1) {
            let k = choose|k: int| 0 <= k < before.len() && before[k] == n - 1;
            assert(before[k] < n - 1);
        }
    }
}

/// The sum that a float effect writes is one that the adding function gives for
/// what the property held, or 0, and the change.
pub proof fn law_sums_are_of_property_and_change<F: Fn(u64, u64) -> Real>(
    sum: F,
    e: EntityView,
    warnings: Seq<Seq<char>>,
    effects: Seq<ParsedView>,
    scaling: ScalingView,
    sums: Seq<Real>,
    k: int,
    r: RealView,
)
    requires
        sums_given(sum, e, warnings, effects, scaling, sums),
        !e.is_system(),
        0 <= k < effects.len(),
        effects[k].prop_name.len() > 0,
        effects[k].prop_name != "last_processed_other_tick"@,
        refusal(effects[k].value) is None,
        delta_of(effects[k].value) == Some(DeltaView::Float(r)),
    ensures
        sums.len() == effects.len(),
        ({
            let before = target_run(e, warnings, effects.take(k), scaling, real_views(sums)).entity;
            let p = effects[k].prop_name;
            let old: u64 = if before.reals.contains_key(p) {
                before.reals[p]
            } else {
                0
            };
            let change: u64 = if k < scaling.floats.len() {
                scaling.floats[k].bits
            } else {
                r.bits
            };
            !before.ints.contains_key(p) && !before.strings.contains_key(p) ==> sum.ensures(
                (old, change),
                sums[k],
            )
        }),
{
    let start = run_start(e, warnings, scaling);
    lemma_run_of_prefix(start, effects.take(k), effects, scaling, real_views(sums), k);
    let s = effects_run(start, effects, scaling, real_views(sums), k);
    assert(summands(s, effects[k], k, scaling) is Some || s.entity.ints.contains_key(
        effects[k].prop_name,
    ) || s.entity.strings.contains_key(effects[k].prop_name));
    assert(sums[k] == sums[k]);
}

/// Doubles are added for an effect where its property has a name, is none that the
/// world keeps for itself, is neither a number nor a text, and the effect is one
/// that can be read and gives a double; and for no other.
pub proof fn law_when_doubles_are_added(s: RunView, f: ParsedView, k: int, scaling: ScalingView)
    ensures
        summands(s, f, k, scaling) is Some ==> f.prop_name.len() > 0 && !internal_property(
            f.prop_name,
        ) && refusal(f.value) is None && !s.entity.ints.contains_key(f.prop_name)
            && !s.entity.strings.contains_key(f.prop_name) && delta_of(f.value) matches Some(
            DeltaView::Float(_),
        ),
        f.prop_name.len() > 0 && !internal_property(f.prop_name) && refusal(f.value) is None
            && !s.entity.ints.contains_key(f.prop_name) && !s.entity.strings.contains_key(
            f.prop_name,
        ) && (delta_of(f.value) matches Some(DeltaView::Float(_))) ==> summands(s, f, k, scaling) is
            Some && (summands(s, f, k, scaling)->0).0 == (if s.entity.reals.contains_key(
            f.prop_name,
        ) {
            s.entity.reals[f.prop_name]
        } else {
            0
        }),
{
}

} // verus!
