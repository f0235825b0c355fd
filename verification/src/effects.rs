//! Effects: the changes of properties that a model's answer asks for. This
//! module reads them; applying them is the next step.
use vstd::arithmetic::power2::*;
use vstd::prelude::*;
use vstd::string::*;

use crate::double::{
    double_of_whole, exceeds, finite, is_finite, is_whole, one_unit, over_million, whole_bits,
    whole_number, whole_of,
};
use crate::entity::{PropertyMap, WorldEntity};
use crate::lines::{lemma_char_at, lemma_char_from};
use crate::number::{
    i64_value, law_decimal_reads_back, law_digits_only, law_number_reads_back, read_i64,
};
use crate::text::{
    char_from, chars_of, contains_text, copied, dec, dec_text, debug_form, debug_text, find_char,
    int_dec, int_text, law_parts_are_found, law_trim_takes_the_surrounding, lemma_texts_push,
    same_text, string_between, string_of, texts, trim_chars, trimmed, white,
};

verus! {

/// The greatest absolute value that an integer property may take.
pub const MAX_INT_ABS: i64 = 1_000_000_000;

/// The greatest absolute value that a float property may take.
pub const MAX_FLOAT_ABS: i64 = 1_000_000_000;

/// The greatest absolute value of a single change.
pub const MAX_DELTA_ABS: i64 = 1_000_000;

/// The share of an entity's power, in percent, that its changes of one turn
/// may add up to.
pub const EFFECT_NORMALIZATION_CAP_PCT: i64 = 10;

/// What the changes of one turn may add up to beyond that share.
pub const EFFECT_NORMALIZATION_MAX_AMOUNT: i64 = 10;

/// The least that the changes of one turn may add up to.
pub const EFFECT_NORMALIZATION_MIN_CAP: i64 = 1;

// ---------------------------------------------------------------------------
// Values
// ---------------------------------------------------------------------------
/// A double: its bit pattern, and how it is written.
#[derive(Debug)]
pub struct Real {
    pub bits: u64,
    pub text: String,
}

/// What a `Real` holds.
pub struct RealView {
    pub bits: u64,
    pub text: Seq<char>,
}

impl View for Real {
    type V = RealView;

    open spec fn view(&self) -> RealView {
        RealView { bits: self.bits, text: self.text@ }
    }
}

impl Real {
    /// The same double.
    pub fn duplicate(&self) -> (r: Real)
        ensures
            r@ == self@,
    {
        Real { bits: self.bits, text: copied(self.text.as_str()) }
    }
}

/// The value of an effect, as the answer has it. An integer comes with the text
/// of the double nearest to it; a string comes with the double that it reads as
/// without the white space around it, if any, and with the bits of the one that
/// it reads as without plus signs in front of it.
#[derive(Debug)]
pub enum EffectValue {
    Bool(bool),
    Int { value: i64, text: String },
    Float(Real),
    Text { text: String, reading: Option<Real>, weight: Option<u64> },
    Other,
}

/// What an `EffectValue` holds.
pub enum ValueView {
    Bool(bool),
    Int { value: i64, text: Seq<char> },
    Float(RealView),
    Text { text: Seq<char>, reading: Option<RealView>, weight: Option<u64> },
    Other,
}

impl View for EffectValue {
    type V = ValueView;

    open spec fn view(&self) -> ValueView {
        match self {
            EffectValue::Bool(b) => ValueView::Bool(*b),
            EffectValue::Int { value, text } => ValueView::Int { value: *value, text: text@ },
            EffectValue::Float(reading) => ValueView::Float(reading@),
            EffectValue::Text { text, reading, weight } => ValueView::Text {
                text: text@,
                reading: match reading {
                    Some(r) => Some(r@),
                    None => None,
                },
                weight: *weight,
            },
            EffectValue::Other => ValueView::Other,
        }
    }
}

impl EffectValue {
    /// The same value.
    pub fn duplicate(&self) -> (r: EffectValue)
        ensures
            r@ == self@,
    {
        match self {
            EffectValue::Bool(b) => EffectValue::Bool(*b),
            EffectValue::Int { value, text } => EffectValue::Int {
                value: *value,
                text: copied(text.as_str()),
            },
            EffectValue::Float(reading) => EffectValue::Float(reading.duplicate()),
            EffectValue::Text { text, reading, weight } => EffectValue::Text {
                text: copied(text.as_str()),
                reading: match reading {
                    Some(r) => Some(r.duplicate()),
                    None => None,
                },
                weight: *weight,
            },
            EffectValue::Other => EffectValue::Other,
        }
    }
}

impl ValueView {
    /// The integer that the value is or reads as, without the white space
    /// around it.
    pub open spec fn integer(self) -> Option<i64> {
        match self {
            ValueView::Int { value, text } => Some(value),
            ValueView::Text { text, reading, weight } => i64_value(trimmed(text)),
            _ => None,
        }
    }

    /// The double that the value is or reads as.
    pub open spec fn reading(self) -> Option<RealView> {
        match self {
            ValueView::Float(reading) => Some(reading),
            ValueView::Text { text, reading, weight } => reading,
            _ => None,
        }
    }

    /// How the value is written as a number in a warning.
    pub open spec fn number_text(self) -> Seq<char> {
        match self {
            ValueView::Int { value, text } => text,
            _ => match self.reading() {
                Some(r) => r.text,
                None => match self.integer() {
                    Some(n) => int_dec(n as int),
                    None => Seq::empty(),
                },
            },
        }
    }
}

/// The warning's words for a number that is too large for a change.
pub open spec fn large_reason(text: Seq<char>) -> Seq<char> {
    "|"@ + text + "| > MAX_DELTA_ABS (1000000)"@
}

/// Why a change by `r` is refused, if it is.
pub open spec fn magnitude_reason(r: RealView) -> Option<Seq<char>> {
    if !finite(r.bits) {
        Some("non-finite value ("@ + r.text + ")"@)
    } else if exceeds(r.bits, MAX_DELTA_ABS as int) {
        Some(large_reason(r.text))
    } else {
        None
    }
}

/// Why a value is refused as a change, if it is: its absolute value is more
/// than `MAX_DELTA_ABS`, or it is not finite. An integer is held against the
/// bound itself, any other number by its double.
pub open spec fn refusal(v: ValueView) -> Option<Seq<char>> {
    match v.integer() {
        Some(n) => if n > MAX_DELTA_ABS || n < -MAX_DELTA_ABS {
            Some(large_reason(v.number_text()))
        } else {
            None
        },
        None => match v.reading() {
            Some(r) => magnitude_reason(r),
            None => None,
        },
    }
}

fn large_notice(text: &str) -> (r: String)
    ensures
        r@ == large_reason(text@),
{
    let mut m: String = copied("|");
    m.append(text);
    m.append("| > MAX_DELTA_ABS (1000000)");
    m
}

fn check_real(r: &Real) -> (res: Option<String>)
    ensures
        match res {
            Some(s) => magnitude_reason(r@) == Some(s@),
            None => magnitude_reason(r@) is None,
        },
{
    if !is_finite(r.bits) {
        let mut m: String = copied("non-finite value (");
        m.append(r.text.as_str());
        m.append(")");
        return Some(m);
    }
    if over_million(r.bits) {
        return Some(large_notice(r.text.as_str()));
    }
    None
}

/// Whether an integer is too large for a change.
fn is_large(n: i64) -> (r: bool)
    ensures
        r == (n > MAX_DELTA_ABS || n < -MAX_DELTA_ABS),
{
    n > MAX_DELTA_ABS || n < -MAX_DELTA_ABS
}

/// Why a value is refused as a change; `None` where it may be applied, or is
/// no number.
pub fn magnitude_check(v: &EffectValue) -> (r: Option<String>)
    ensures
        match r {
            Some(s) => refusal(v@) == Some(s@),
            None => refusal(v@) is None,
        },
{
    match v {
        EffectValue::Int { value, text } => if is_large(*value) {
            Some(large_notice(text.as_str()))
        } else {
            None
        },
        EffectValue::Float(reading) => check_real(reading),
        EffectValue::Text { text, reading, weight: _ } => {
            if let Some(n) = read_i64(&trim_chars(&chars_of(text.as_str()))) {
                if !is_large(n) {
                    return None;
                }
                return match reading {
                    Some(r) => Some(large_notice(r.text.as_str())),
                    None => Some(large_notice(int_text(n as i128).as_str())),
                };
            }
            match reading {
                Some(r) => check_real(r),
                None => None,
            }
        },
        _ => None,
    }
}

/// The double, by its bits, with which a value counts towards what the changes
/// of one turn add up to: none for a value that is refused, is no number, or is
/// not finite.
pub open spec fn weight_of(v: ValueView) -> Option<u64> {
    let w = match v {
        ValueView::Int { value, text } => Some(whole_bits(value as int)),
        ValueView::Text { text, reading, weight } => weight,
        _ => match v.reading() {
            Some(r) => Some(r.bits),
            None => None,
        },
    };
    if refusal(v) is None && w is Some && finite(w->0) {
        w
    } else {
        None
    }
}

/// The double with which a value counts towards what the changes of one turn
/// add up to.
pub fn effect_weight(v: &EffectValue) -> (r: Option<u64>)
    ensures
        r == weight_of(v@),
{
    if magnitude_check(v).is_some() {
        return None;
    }
    let w: Option<u64> = match v {
        EffectValue::Int { value, text: _ } => Some(double_of_whole(*value)),
        EffectValue::Float(reading) => Some(reading.bits),
        EffectValue::Text { text: _, reading: _, weight } => *weight,
        _ => None,
    };
    match w {
        Some(b) => if is_finite(b) {
            Some(b)
        } else {
            None
        },
        None => None,
    }
}

/// What the changes of one turn may add up to for an entity of the given power,
/// in hundredths: the share of the power, or of 10 where that is more, and the
/// fixed amount.
pub open spec fn normalization_cap(power: int) -> int {
    let share = EFFECT_NORMALIZATION_CAP_PCT * (if power > 10 {
        power
    } else {
        10
    });
    let cap = share + 100 * EFFECT_NORMALIZATION_MAX_AMOUNT;
    if cap > 100 * EFFECT_NORMALIZATION_MIN_CAP {
        cap
    } else {
        100 * EFFECT_NORMALIZATION_MIN_CAP
    }
}

/// What the changes of one turn may add up to for an entity of the given power,
/// in hundredths.
pub fn compute_effect_normalization_cap(raw_power: i64) -> (r: i128)
    ensures
        r == normalization_cap(raw_power as int),
{
    let power: i128 = if raw_power > 10 {
        raw_power as i128
    } else {
        10
    };
    let pct: i128 = EFFECT_NORMALIZATION_CAP_PCT as i128;
    assert(0 <= pct * power <= 100 * i64::MAX) by (nonlinear_arith)
        requires
            0 <= pct <= 100,
            0 <= power <= i64::MAX,
    ;
    let cap: i128 = pct * power + 100 * EFFECT_NORMALIZATION_MAX_AMOUNT as i128;
    if cap > 100 * EFFECT_NORMALIZATION_MIN_CAP as i128 {
        cap
    } else {
        100 * EFFECT_NORMALIZATION_MIN_CAP as i128
    }
}

/// Whether a freshly computed integer is out of bounds and should not be
/// stored.
pub fn int_oversize(v: i64) -> (r: bool)
    ensures
        r == (v > MAX_INT_ABS || v < -MAX_INT_ABS),
{
    v > MAX_INT_ABS || v < -MAX_INT_ABS
}

/// What a value changes a property by.
#[derive(Debug)]
pub enum Delta {
    Int(i64),
    Float(Real),
    Text(String),
}

/// What a `Delta` holds.
pub enum DeltaView {
    Int(i64),
    Float(RealView),
    Text(Seq<char>),
}

impl View for Delta {
    type V = DeltaView;

    open spec fn view(&self) -> DeltaView {
        match self {
            Delta::Int(n) => DeltaView::Int(*n),
            Delta::Float(r) => DeltaView::Float(r@),
            Delta::Text(s) => DeltaView::Text(s@),
        }
    }
}

/// What a value changes a property by: an integer where it is one, reads as
/// one, or reads as a double that is a whole number and is written without a
/// point; else a double; else a text. `None` for values of no use.
pub open spec fn delta_of(v: ValueView) -> Option<DeltaView> {
    match v {
        ValueView::Bool(b) => Some(
            DeltaView::Int(
                if b {
                    1
                } else {
                    0
                },
            ),
        ),
        ValueView::Int { value, text } => Some(DeltaView::Int(value)),
        ValueView::Float(reading) => Some(DeltaView::Float(reading)),
        ValueView::Text { text, reading, weight } => {
            let t = trimmed(text);
            match i64_value(t) {
                Some(n) => Some(DeltaView::Int(n)),
                None => match reading {
                    Some(r) => match whole_of(r.bits) {
                        Some(n) => if char_from(t, '.', 0) is None {
                            Some(DeltaView::Int(n))
                        } else {
                            Some(DeltaView::Float(r))
                        },
                        None => Some(DeltaView::Float(r)),
                    },
                    None => Some(DeltaView::Text(t)),
                },
            }
        },
        ValueView::Other => None,
    }
}

/// What a value changes a property by.
pub fn effect_delta(v: &EffectValue) -> (r: Option<Delta>)
    ensures
        match r {
            Some(d) => delta_of(v@) == Some(d@),
            None => delta_of(v@) is None,
        },
{
    match v {
        EffectValue::Bool(b) => {
            let n: i64 = if *b {
                1
            } else {
                0
            };
            Some(Delta::Int(n))
        },
        EffectValue::Int { value, text: _ } => Some(Delta::Int(*value)),
        EffectValue::Float(reading) => Some(Delta::Float(reading.duplicate())),
        EffectValue::Text { text, reading, weight: _ } => {
            let t = trim_chars(&chars_of(text.as_str()));
            if let Some(n) = read_i64(&t) {
                return Some(Delta::Int(n));
            }
            match reading {
                Some(r) => {
                    if let Some(n) = whole_number(r.bits) {
                        if find_char(&t, '.', 0).is_none() {
                            return Some(Delta::Int(n));
                        }
                    }
                    Some(Delta::Float(r.duplicate()))
                },
                None => Some(Delta::Text(string_of(&t))),
            }
        },
        EffectValue::Other => None,
    }
}

// ---------------------------------------------------------------------------
// Effects
// ---------------------------------------------------------------------------
/// One effect of an answer: the key, the value, and how the value is shown in
/// a warning.
#[derive(Debug)]
pub struct Effect {
    pub key: String,
    pub value: EffectValue,
    pub shown: String,
}

/// What an `Effect` holds.
pub struct EffectView {
    pub key: Seq<char>,
    pub value: ValueView,
    pub shown: Seq<char>,
}

impl View for Effect {
    type V = EffectView;

    open spec fn view(&self) -> EffectView {
        EffectView { key: self.key@, value: self.value@, shown: self.shown@ }
    }
}

/// What a list of effects holds.
pub open spec fn effect_views(s: Seq<Effect>) -> Seq<EffectView> {
    Seq::new(s.len(), |i: int| s[i]@)
}

/// Where an effect lands: on the one who acts, or on another entity.
#[derive(Debug, PartialEq, Eq)]
pub enum EffectTarget {
    Actor,
    Other { name: String, id: u128 },
}

/// What an `EffectTarget` holds.
pub enum TargetView {
    Actor,
    Other { name: Seq<char>, id: u128 },
}

impl View for EffectTarget {
    type V = TargetView;

    open spec fn view(&self) -> TargetView {
        match self {
            EffectTarget::Actor => TargetView::Actor,
            EffectTarget::Other { name, id } => TargetView::Other { name: name@, id: *id },
        }
    }
}

impl TargetView {
    /// The id of the entity on which the effect lands.
    pub open spec fn id(self, actor_id: u128) -> u128 {
        match self {
            TargetView::Actor => actor_id,
            TargetView::Other { name, id } => id,
        }
    }
}

impl EffectTarget {
    /// The id of the entity on which the effect lands.
    pub fn target_id(&self, actor_id: u128) -> (r: u128)
        ensures
            r == self@.id(actor_id),
    {
        match self {
            EffectTarget::Actor => actor_id,
            EffectTarget::Other { name: _, id } => *id,
        }
    }
}

/// An effect with its key taken apart: the target, and the bare name of the
/// property (empty where the key names none).
#[derive(Debug)]
pub struct ParsedEffect {
    pub target: EffectTarget,
    pub prop_name: String,
    pub raw_key: String,
    pub value: EffectValue,
    pub shown: String,
}

/// What a `ParsedEffect` holds.
pub struct ParsedView {
    pub target: TargetView,
    pub prop_name: Seq<char>,
    pub raw_key: Seq<char>,
    pub value: ValueView,
    pub shown: Seq<char>,
}

impl View for ParsedEffect {
    type V = ParsedView;

    open spec fn view(&self) -> ParsedView {
        ParsedView {
            target: self.target@,
            prop_name: self.prop_name@,
            raw_key: self.raw_key@,
            value: self.value@,
            shown: self.shown@,
        }
    }
}

/// What a list of parsed effects holds.
pub open spec fn parsed_views(s: Seq<ParsedEffect>) -> Seq<ParsedView> {
    Seq::new(s.len(), |i: int| s[i]@)
}

/// What stands before the first dot of a key.
pub open spec fn key_prefix(key: Seq<char>) -> Option<Seq<char>> {
    match char_from(key, '.', 0) {
        Some(d) => Some(key.take(d)),
        None => None,
    }
}

/// The bare name of the property: what stands after the first dot of a key, or
/// the whole key where it has none.
pub open spec fn key_property(key: Seq<char>) -> Seq<char> {
    match char_from(key, '.', 0) {
        Some(d) => key.skip(d + 1),
        None => key,
    }
}

/// The target of a key. A key without a dot, or with nothing after it, speaks
/// of the one who acts; so does the prefix `self` and the actor's own name.
/// Any other prefix is the exact name of an entity, and `None` where no entity
/// has it.
pub open spec fn key_target(
    key: Seq<char>,
    actor_id: u128,
    actor_name: Seq<char>,
    names: Map<Seq<char>, u128>,
) -> Option<TargetView> {
    match key_prefix(key) {
        None => Some(TargetView::Actor),
        Some(prefix) => if key_property(key).len() == 0 || prefix == "self"@ || prefix
            == actor_name {
            Some(TargetView::Actor)
        } else if names.contains_key(prefix) {
            if names[prefix] == actor_id {
                Some(TargetView::Actor)
            } else {
                Some(TargetView::Other { name: prefix, id: names[prefix] })
            }
        } else {
            None
        },
    }
}

/// The effects with a known target, in order.
pub open spec fn routed(
    effects: Seq<EffectView>,
    actor_id: u128,
    actor_name: Seq<char>,
    names: Map<Seq<char>, u128>,
) -> Seq<ParsedView>
    decreases effects.len(),
{
    if effects.len() == 0 {
        Seq::empty()
    } else {
        let e = effects.last();
        let earlier = routed(effects.drop_last(), actor_id, actor_name, names);
        match key_target(e.key, actor_id, actor_name, names) {
            Some(target) => earlier.push(
                ParsedView {
                    target,
                    prop_name: key_property(e.key),
                    raw_key: e.key,
                    value: e.value,
                    shown: e.shown,
                },
            ),
            None => earlier,
        }
    }
}

/// The prefixes that name no entity, each once, in the order of their first
/// use.
pub open spec fn unknown_prefixes(
    effects: Seq<EffectView>,
    actor_id: u128,
    actor_name: Seq<char>,
    names: Map<Seq<char>, u128>,
) -> Seq<Seq<char>>
    decreases effects.len(),
{
    if effects.len() == 0 {
        Seq::empty()
    } else {
        let e = effects.last();
        let earlier = unknown_prefixes(effects.drop_last(), actor_id, actor_name, names);
        if key_target(e.key, actor_id, actor_name, names) is Some || earlier.contains(
            key_prefix(e.key)->0,
        ) {
            earlier
        } else {
            earlier.push(key_prefix(e.key)->0)
        }
    }
}

/// Whether a text is among the strings of `v`.
pub fn holds_text(v: &Vec<String>, s: &str) -> (r: bool)
    ensures
        r == texts(v@).contains(s@),
{
    let mut i: usize = 0;
    while i < v.len()
        invariant
            i <= v@.len(),
            forall|j: int| 0 <= j < i ==> texts(v@)[j] != s@,
        decreases v.len() - i,
    {
        if same_text(v[i].as_str(), s) {
            assert(texts(v@)[i as int] == s@);
            return true;
        }
        i = i + 1;
    }
    false
}

/// The target and the property name of a key; or, as the error, the prefix
/// that names no entity.
fn route(
    key: &str,
    actor_id: u128,
    actor_name: &str,
    name_to_id: &PropertyMap<u128>,
) -> (r: Result<(EffectTarget, String), String>)
    ensures
        match r {
            Ok(p) => key_target(key@, actor_id, actor_name@, name_to_id@) == Some(p.0@) && p.1@
                == key_property(key@),
            Err(prefix) => key_target(key@, actor_id, actor_name@, name_to_id@) is None
                && key_prefix(key@) == Some(prefix@),
        },
{
    let k = chars_of(key);
    match find_char(&k, '.', 0) {
        None => Ok((EffectTarget::Actor, copied(key))),
        Some(dot) => {
            assert(dot < k.len());
            let prefix: String = string_between(&k, 0, dot);
            let prop: String = string_between(&k, dot + 1, k.len());
            assert(prefix@ =~= key@.take(dot as int));
            assert(prop@ =~= key@.skip(dot + 1));
            if prop.as_str().is_empty() || same_text(prefix.as_str(), "self") || same_text(
                prefix.as_str(),
                actor_name,
            ) {
                return Ok((EffectTarget::Actor, prop));
            }
            match name_to_id.get(prefix.as_str()) {
                Some(id) => if *id == actor_id {
                    Ok((EffectTarget::Actor, prop))
                } else {
                    Ok((EffectTarget::Other { name: prefix, id: *id }, prop))
                },
                None => Err(prefix),
            }
        },
    }
}

/// Reads the effects of an answer: finds the target of each, and lists the
/// names that no entity has. Effects with an unknown name are left out.
pub fn parse_effects(
    effects: &Vec<Effect>,
    actor_id: u128,
    actor_name: &str,
    name_to_id: &PropertyMap<u128>,
) -> (r: (Vec<ParsedEffect>, Vec<String>))
    ensures
        parsed_views(r.0@) == routed(
            effect_views(effects@),
            actor_id,
            actor_name@,
            name_to_id@,
        ),
        texts(r.1@) == unknown_prefixes(
            effect_views(effects@),
            actor_id,
            actor_name@,
            name_to_id@,
        ),
{
    broadcast use lemma_texts_push;

    let mut parsed: Vec<ParsedEffect> = Vec::new();
    let mut unknown: Vec<String> = Vec::new();
    let ghost all = effect_views(effects@);
    let ghost names = name_to_id@;
    let mut i: usize = 0;
    assert(all.take(0) =~= Seq::empty());
    assert(parsed_views(parsed@) =~= Seq::empty());
    assert(texts(unknown@) =~= Seq::empty());
    while i < effects.len()
        invariant
            i <= effects@.len(),
            all == effect_views(effects@),
            names == name_to_id@,
            parsed_views(parsed@) == routed(all.take(i as int), actor_id, actor_name@, names),
            texts(unknown@) == unknown_prefixes(
                all.take(i as int),
                actor_id,
                actor_name@,
                names,
            ),
        decreases effects.len() - i,
    {
        let e: &Effect = &effects[i];
        assert(all.take(i + 1).drop_last() =~= all.take(i as int));
        assert(all.take(i + 1).last() == e@);
        match route(e.key.as_str(), actor_id, actor_name, name_to_id) {
            Ok((target, prop_name)) => {
                let p = ParsedEffect {
                    target,
                    prop_name,
                    raw_key: copied(e.key.as_str()),
                    value: e.value.duplicate(),
                    shown: copied(e.shown.as_str()),
                };
                let ghost before = parsed@;
                parsed.push(p);
                assert(parsed_views(parsed@) =~= parsed_views(before).push(p@));
            },
            Err(prefix) => {
                if !holds_text(&unknown, prefix.as_str()) {
                    unknown.push(prefix);
                }
            },
        }
        i = i + 1;
    }
    assert(all.take(i as int) =~= all);
    (parsed, unknown)
}

/// The ids of entities by name, where the last of several with one name wins.
pub open spec fn named_ids(entities: Seq<WorldEntity>) -> Map<Seq<char>, u128>
    decreases entities.len(),
{
    if entities.len() == 0 {
        Map::empty()
    } else {
        named_ids(entities.drop_last()).insert(entities.last().name@, entities.last().id)
    }
}

/// The ids of entities by name, where the last of several with one name wins.
pub fn build_name_index(entities: &Vec<WorldEntity>) -> (r: PropertyMap<u128>)
    ensures
        r@ == named_ids(entities@),
{
    let mut index: PropertyMap<u128> = PropertyMap::new();
    let mut i: usize = 0;
    while i < entities.len()
        invariant
            i <= entities@.len(),
            index@ == named_ids(entities@.take(i as int)),
        decreases entities.len() - i,
    {
        assert(entities@.take(i + 1).drop_last() =~= entities@.take(i as int));
        index.insert(entities[i].name.as_str(), entities[i].id);
        i = i + 1;
    }
    assert(entities@.take(i as int) =~= entities@);
    index
}

/// The lines of the warning for unknown names.
pub open spec fn unknown_lines(names: Seq<Seq<char>>) -> Seq<char>
    decreases names.len(),
{
    if names.len() == 0 {
        Seq::empty()
    } else {
        unknown_lines(names.drop_last()) + "\n  - "@ + debug_form(names.last())
            + " (no entity with that exact name; check spelling and case)"@
    }
}

/// The warning for unknown names; `counted` says what the names are counted
/// as. None where there are no such names.
pub open spec fn unknown_warning(names: Seq<Seq<char>>, counted: Seq<char>) -> Option<Seq<char>> {
    if names.len() == 0 {
        None
    } else {
        Some(
            "Unknown entity names in effects ("@ + dec(names.len()) + " "@ + counted + " skipped):"@
                + unknown_lines(names),
        )
    }
}

/// The warning for names that no entity has: one line for each.
pub fn unknown_names_notice(names: &Vec<String>, counted: &str) -> (r: Option<String>)
    ensures
        match r {
            Some(w) => unknown_warning(texts(names@), counted@) == Some(w@),
            None => unknown_warning(texts(names@), counted@) is None,
        },
{
    if names.len() == 0 {
        return None;
    }
    let mut w: String = copied("Unknown entity names in effects (");
    w.append(dec_text(names.len() as u128).as_str());
    w.append(" ");
    w.append(counted);
    w.append(" skipped):");
    let ghost head = w@;
    let ghost all = texts(names@);
    let mut i: usize = 0;
    assert(w@ =~= head + unknown_lines(all.take(0)));
    while i < names.len()
        invariant
            i <= names@.len(),
            all == texts(names@),
            w@ == head + unknown_lines(all.take(i as int)),
        decreases names.len() - i,
    {
        w.append("\n  - ");
        w.append(debug_text(names[i].as_str()).as_str());
        w.append(" (no entity with that exact name; check spelling and case)");
        assert(all.take(i + 1).drop_last() =~= all.take(i as int));
        assert(w@ =~= head + unknown_lines(all.take(i + 1)));
        i = i + 1;
    }
    assert(all.take(i as int) =~= all);
    Some(w)
}

// ---------------------------------------------------------------------------
// Laws
// ---------------------------------------------------------------------------
/// Every effect is either routed or has its prefix listed as unknown; no
/// prefix is listed twice, and every one listed belongs to an effect that was
/// left out.
pub proof fn law_every_effect_is_accounted_for(
    effects: Seq<EffectView>,
    actor_id: u128,
    actor_name: Seq<char>,
    names: Map<Seq<char>, u128>,
)
    ensures
        forall|i: int| #![trigger effects[i]]
            0 <= i < effects.len() ==> match key_target(
                effects[i].key,
                actor_id,
                actor_name,
                names,
            ) {
                Some(_) => exists|k: int|
                    0 <= k < routed(effects, actor_id, actor_name, names).len() && (
                    #[trigger] routed(effects, actor_id, actor_name, names)[k]).raw_key
                        == effects[i].key,
                None => unknown_prefixes(effects, actor_id, actor_name, names).contains(
                    key_prefix(effects[i].key)->0,
                ),
            },
        unknown_prefixes(effects, actor_id, actor_name, names).no_duplicates(),
        forall|p: Seq<char>| #[trigger]
            unknown_prefixes(effects, actor_id, actor_name, names).contains(p) ==> exists|i: int|
                0 <= i < effects.len() && key_target(
                    (#[trigger] effects[i]).key,
                    actor_id,
                    actor_name,
                    names,
                ) is None && key_prefix(effects[i].key) == Some(p),
    decreases effects.len(),
{
    if effects.len() > 0 {
        let d = effects.drop_last();
        law_every_effect_is_accounted_for(d, actor_id, actor_name, names);
        let r0 = routed(d, actor_id, actor_name, names);
        let r1 = routed(effects, actor_id, actor_name, names);
        let u0 = unknown_prefixes(d, actor_id, actor_name, names);
        let u1 = unknown_prefixes(effects, actor_id, actor_name, names);
        let last = effects.last();
        assert forall|i: int| #![trigger effects[i]]
            0 <= i < effects.len() implies match key_target(
            effects[i].key,
            actor_id,
            actor_name,
            names,
        ) {
            Some(_) => exists|k: int|
                0 <= k < r1.len() && (#[trigger] r1[k]).raw_key == effects[i].key,
            None => u1.contains(key_prefix(effects[i].key)->0),
        } by {
            if i < d.len() {
                assert(d[i] == effects[i]);
                if key_target(effects[i].key, actor_id, actor_name, names) is Some {
                    let k = choose|k: int|
                        0 <= k < r0.len() && (#[trigger] r0[k]).raw_key == d[i].key;
                    assert(r1[k] == r0[k]);
                } else {
                    let p = key_prefix(effects[i].key)->0;
                    let k = choose|k: int| 0 <= k < u0.len() && u0[k] == p;
                    assert(u1[k] == p);
                }
            } else {
                if key_target(last.key, actor_id, actor_name, names) is Some {
                    assert(r1[r1.len() - 1].raw_key == last.key);
                } else if !u0.contains(key_prefix(last.key)->0) {
                    assert(u1[u1.len() - 1] == key_prefix(last.key)->0);
                }
            }
        }
        assert forall|p: Seq<char>| #[trigger] u1.contains(p) implies exists|i: int|
            0 <= i < effects.len() && key_target(
                (#[trigger] effects[i]).key,
                actor_id,
                actor_name,
                names,
            ) is None && key_prefix(effects[i].key) == Some(p) by {
            let k = choose|k: int| 0 <= k < u1.len() && u1[k] == p;
            if k < u0.len() {
                assert(u0[k] == p);
                assert(u0.contains(p));
                let i = choose|i: int|
                    0 <= i < d.len() && key_target(
                        (#[trigger] d[i]).key,
                        actor_id,
                        actor_name,
                        names,
                    ) is None && key_prefix(d[i].key) == Some(p);
                assert(effects[i] == d[i]);
            } else {
                assert(effects[effects.len() - 1] == last);
            }
        }
    }
}

/// A value that is not refused changes a property by a number within the
/// bounds, if by a number at all; one that is refused is a number out of them.
pub proof fn law_accepted_values_are_bounded(v: ValueView)
    ensures
        refusal(v) is None ==> match delta_of(v) {
            Some(DeltaView::Int(n)) => -MAX_DELTA_ABS <= n <= MAX_DELTA_ABS,
            Some(DeltaView::Float(r)) => finite(r.bits) && !exceeds(r.bits, MAX_DELTA_ABS as int),
            _ => true,
        },
        refusal(v) is Some ==> match v.integer() {
            Some(n) => n < -MAX_DELTA_ABS || n > MAX_DELTA_ABS,
            None => match v.reading() {
                Some(r) => exceeds(r.bits, MAX_DELTA_ABS as int),
                None => false,
            },
        },
{
    if refusal(v) is None && v.integer() is None && v.reading() is Some {
        let r = v.reading()->0;
        if let Some(n) = whole_of(r.bits) {
            let x: int = if n < 0 {
                -n
            } else {
                n as int
            };
            lemma_pow2_pos(1074);
            let one = one_unit();
            assert(is_whole(r.bits, n as int));
            assert(x <= 1_000_000) by (nonlinear_arith)
                requires
                    x * one <= 1_000_000 * one,
                    one > 0,
            ;
        }
    }
}

/// More power never means less room for changes, and there is always room for
/// the fixed amount and a little more.
pub proof fn law_cap_grows_with_power(a: int, b: int)
    requires
        a <= b,
    ensures
        1100 <= normalization_cap(a) <= normalization_cap(b),
{
}

/// A key is taken apart at its first dot: what stands before it is the prefix,
/// and what stands after it is the property. A key without a dot is the property
/// itself.
pub proof fn law_key_parts(prefix: Seq<char>, property: Seq<char>)
    requires
        forall|i: int| 0 <= i < prefix.len() ==> prefix[i] != '.',
    ensures
        key_prefix(prefix + seq!['.'] + property) == Some(prefix),
        key_property(prefix + seq!['.'] + property) == property,
        key_prefix(prefix) is None,
        key_property(prefix) == prefix,
{
    let key = prefix + seq!['.'] + property;
    let n = prefix.len() as int;
    assert(key[n] == '.');
    assert forall|j: int| 0 <= j < n implies key[j] != '.' by {
        assert(key[j] == prefix[j]);
    }
    lemma_char_at(key, '.', n);
    lemma_char_from(prefix, '.', 0);
    assert(key.take(n) =~= prefix);
    assert(key.skip(n + 1) =~= property);
}

/// A key lands on the one who acts where it has no dot, names no property, or
/// names them by `self` or by name; else on the entity of that very name; and
/// nowhere where no entity has it.
pub proof fn law_key_lands(
    prefix: Seq<char>,
    property: Seq<char>,
    actor_id: u128,
    actor_name: Seq<char>,
    names: Map<Seq<char>, u128>,
)
    requires
        forall|i: int| 0 <= i < prefix.len() ==> prefix[i] != '.',
    ensures
        key_target(prefix, actor_id, actor_name, names) == Some(TargetView::Actor),
        ({
            let target = key_target(prefix + seq!['.'] + property, actor_id, actor_name, names);
            let own = property.len() == 0 || prefix == "self"@ || prefix == actor_name;
            &&& own ==> target == Some(TargetView::Actor)
            &&& !own && names.contains_key(prefix) ==> target is Some && target->0.id(actor_id)
                == names[prefix]
            &&& !own && names.contains_key(prefix) && names[prefix] != actor_id ==> target == Some(
                TargetView::Other { name: prefix, id: names[prefix] },
            )
            &&& !own && !names.contains_key(prefix) ==> target is None
        }),
        TargetView::Actor.id(actor_id) == actor_id,
{
    law_key_parts(prefix, property);
}

/// Effects are routed one by one, in order; each that has a target keeps its key,
/// value and form.
pub proof fn law_effects_are_routed_in_order(
    a: Seq<EffectView>,
    b: Seq<EffectView>,
    e: EffectView,
    actor_id: u128,
    actor_name: Seq<char>,
    names: Map<Seq<char>, u128>,
)
    ensures
        routed(a + b, actor_id, actor_name, names) == routed(a, actor_id, actor_name, names)
            + routed(b, actor_id, actor_name, names),
        match key_target(e.key, actor_id, actor_name, names) {
            Some(target) => {
                let r = routed(seq![e], actor_id, actor_name, names);
                &&& r.len() == 1
                &&& r[0].target == target
                &&& r[0].prop_name == key_property(e.key)
                &&& r[0].raw_key == e.key
                &&& r[0].value == e.value
                &&& r[0].shown == e.shown
            },
            None => routed(seq![e], actor_id, actor_name, names).len() == 0,
        },
        unknown_prefixes(a, actor_id, actor_name, names).is_prefix_of(
            unknown_prefixes(a + b, actor_id, actor_name, names),
        ),
    decreases b.len(),
{
    let none = Seq::<EffectView>::empty();
    assert(seq![e].drop_last() =~= none);
    assert(seq![e].last() == e);
    assert(routed(none, actor_id, actor_name, names).len() == 0);
    if b.len() == 0 {
        assert(a + b =~= a);
        assert(routed(a, actor_id, actor_name, names) + routed(b, actor_id, actor_name, names)
            =~= routed(a, actor_id, actor_name, names));
    } else {
        law_effects_are_routed_in_order(a, b.drop_last(), e, actor_id, actor_name, names);
        assert((a + b).drop_last() =~= a + b.drop_last());
        assert((a + b).last() == b.last());
        assert(routed(a + b, actor_id, actor_name, names) =~= routed(a, actor_id, actor_name, names)
            + routed(b, actor_id, actor_name, names));
    }
}

/// A name stands for the last entity that has it.
pub proof fn law_name_stands_for_the_last(entities: Seq<WorldEntity>, i: int)
    requires
        0 <= i < entities.len(),
        forall|j: int| i < j < entities.len() ==> (#[trigger] entities[j]).name@ != entities[i].name@,
    ensures
        named_ids(entities).contains_key(entities[i].name@),
        named_ids(entities)[entities[i].name@] == entities[i].id,
    decreases entities.len(),
{
    let d = entities.drop_last();
    let last = entities.len() - 1;
    if i < last {
        assert(entities[last].name@ != entities[i].name@);
        assert(d[i] == entities[i]);
        assert forall|j: int| i < j < d.len() implies (#[trigger] d[j]).name@ != d[i].name@ by {
            assert(d[j] == entities[j]);
        }
        law_name_stands_for_the_last(d, i);
    }
}

/// A name that no entity has stands for none.
pub proof fn law_unknown_name_stands_for_none(entities: Seq<WorldEntity>, name: Seq<char>)
    requires
        forall|j: int| 0 <= j < entities.len() ==> (#[trigger] entities[j]).name@ != name,
    ensures
        !named_ids(entities).contains_key(name),
    decreases entities.len(),
{
    if entities.len() > 0 {
        let d = entities.drop_last();
        assert(entities[entities.len() - 1].name@ != name);
        assert forall|j: int| 0 <= j < d.len() implies (#[trigger] d[j]).name@ != name by {
            assert(d[j] == entities[j]);
        }
        law_unknown_name_stands_for_none(d, name);
    }
}

/// What a value changes a property by: a truth value by one or nothing, a number
/// by itself, and a text by the number that it reads as or, where it is none, by
/// the text without the white space around it.
pub proof fn law_changes_by_values(
    n: i64,
    shown: Seq<char>,
    r: RealView,
    before: Seq<char>,
    core: Seq<char>,
    after: Seq<char>,
    reading: Option<RealView>,
    weight: Option<u64>,
)
    requires
        forall|i: int| 0 <= i < before.len() ==> white(#[trigger] before[i]),
        forall|i: int| 0 <= i < after.len() ==> white(#[trigger] after[i]),
        core.len() > 0 ==> !white(core[0]) && !white(core.last()),
    ensures
        delta_of(ValueView::Bool(true)) == Some(DeltaView::Int(1)),
        delta_of(ValueView::Bool(false)) == Some(DeltaView::Int(0)),
        delta_of(ValueView::Int { value: n, text: shown }) == Some(DeltaView::Int(n)),
        delta_of(ValueView::Float(r)) == Some(DeltaView::Float(r)),
        delta_of(ValueView::Other) is None,
        ({
            let delta = delta_of(ValueView::Text { text: before + core + after, reading, weight });
            &&& i64_value(core) is Some ==> delta == Some(DeltaView::Int(i64_value(core)->0))
            &&& i64_value(core) is None && reading is None ==> delta == Some(DeltaView::Text(core))
            &&& i64_value(core) is None && reading is Some ==> delta == (match whole_of(
                reading->0.bits,
            ) {
                Some(k) => if forall|i: int| 0 <= i < core.len() ==> core[i] != '.' {
                    Some(DeltaView::Int(k))
                } else {
                    Some(DeltaView::Float(reading->0))
                },
                None => Some(DeltaView::Float(reading->0)),
            })
        }),
        delta_of(
            ValueView::Text { text: before + int_dec(n as int) + after, reading, weight },
        ) == Some(DeltaView::Int(n)),
{
    law_trim_takes_the_surrounding(before, core, after);
    lemma_char_from(core, '.', 0);
    law_number_reads_back(n, 0);
    lemma_decimal_is_not_white(n as int);
    law_trim_takes_the_surrounding(before, int_dec(n as int), after);
}

proof fn lemma_decimal_is_not_white(n: int)
    ensures
        int_dec(n).len() > 0,
        !white(int_dec(n)[0]),
        !white(int_dec(n).last()),
{
    let m: nat = if n < 0 {
        (-n) as nat
    } else {
        n as nat
    };
    law_decimal_reads_back(m);
    law_digits_only(dec(m));
    let last = dec(m)[dec(m).len() - 1];
    assert('0' <= last <= '9');
    assert(int_dec(n).last() == last);
}

/// A number is refused as a change exactly where it is more than a million in
/// absolute value, or is no finite number; anything else never is.
pub proof fn law_refusals(
    n: i64,
    shown: Seq<char>,
    r: RealView,
    text: Seq<char>,
    weight: Option<u64>,
)
    ensures
        refusal(ValueView::Bool(true)) is None,
        refusal(ValueView::Bool(false)) is None,
        refusal(ValueView::Other) is None,
        refusal(ValueView::Int { value: n, text: shown }) is Some <==> n > 1_000_000 || n
            < -1_000_000,
        refusal(ValueView::Float(r)) is Some <==> !finite(r.bits) || exceeds(r.bits, 1_000_000),
        i64_value(trimmed(text)) == Some(n) ==> (refusal(
            ValueView::Text { text, reading: Some(r), weight },
        ) is Some <==> n > 1_000_000 || n < -1_000_000) && (refusal(
            ValueView::Text { text, reading: None, weight },
        ) is Some <==> n > 1_000_000 || n < -1_000_000),
        i64_value(trimmed(text)) is None ==> (refusal(
            ValueView::Text { text, reading: Some(r), weight },
        ) is Some <==> !finite(r.bits) || exceeds(r.bits, 1_000_000)) && refusal(
            ValueView::Text { text, reading: None, weight },
        ) is None,
{
}

/// What counts towards the changes of one turn: an integer by its double, a double
/// by itself, a text by the double that comes with it; nothing that is refused or
/// not finite.
pub proof fn law_weights(n: i64, shown: Seq<char>, r: RealView, text: Seq<char>, reading: Option<
    RealView,
>, weight: Option<u64>, b: bool)
    ensures
        -1_000_000 <= n <= 1_000_000 && finite(whole_bits(n as int)) ==> weight_of(
            ValueView::Int { value: n, text: shown },
        ) == Some(whole_bits(n as int)),
        n > 1_000_000 || n < -1_000_000 ==> weight_of(ValueView::Int { value: n, text: shown })
            is None,
        weight_of(ValueView::Float(r)) == if finite(r.bits) && !exceeds(r.bits, 1_000_000) {
            Some(r.bits)
        } else {
            None
        },
        weight_of(ValueView::Bool(b)) is None,
        weight_of(ValueView::Other) is None,
        ({
            let v = ValueView::Text { text, reading, weight };
            weight_of(v) == if refusal(v) is None && weight is Some && finite(weight->0) {
                weight
            } else {
                None
            }
        }),
{
}

/// The changes of one turn may add up to a tenth of the power, but no less than
/// of a power of ten, and to ten more; in hundredths.
pub proof fn law_room_for_changes(power: int)
    ensures
        power >= 10 ==> normalization_cap(power) == 10 * power + 1000,
        power <= 10 ==> normalization_cap(power) == 1100,
{
}

/// Unknown names are warned of exactly where there are some, and each is named.
pub proof fn law_unknown_names_are_named(names: Seq<Seq<char>>, counted: Seq<char>, i: int)
    ensures
        unknown_warning(names, counted) is None <==> names.len() == 0,
        0 <= i < names.len() ==> contains_text(
            unknown_warning(names, counted)->0,
            debug_form(names[i]),
        ),
{
    if 0 <= i < names.len() {
        let head = "Unknown entity names in effects ("@ + dec(names.len()) + " "@ + counted
            + " skipped):"@;
        lemma_name_is_listed(names, i);
        let (a, b) = choose|a: Seq<char>, b: Seq<char>|
            unknown_lines(names) == #[trigger] (a + debug_form(names[i]) + b);
        law_parts_are_found(head + a, debug_form(names[i]), b);
        assert(head + unknown_lines(names) =~= head + a + debug_form(names[i]) + b);
    }
}

proof fn lemma_name_is_listed(names: Seq<Seq<char>>, i: int)
    requires
        0 <= i < names.len(),
    ensures
        exists|a: Seq<char>, b: Seq<char>|
            unknown_lines(names) == #[trigger] (a + debug_form(names[i]) + b),
    decreases names.len(),
{
    let d = names.drop_last();
    let note = " (no entity with that exact name; check spelling and case)"@;
    let tail = "\n  - "@ + debug_form(names.last()) + note;
    if i < d.len() {
        lemma_name_is_listed(d, i);
        assert(d[i] == names[i]);
        let (a, b) = choose|a: Seq<char>, b: Seq<char>|
            unknown_lines(d) == #[trigger] (a + debug_form(d[i]) + b);
        assert(unknown_lines(names) =~= a + debug_form(names[i]) + (b + tail));
    } else {
        assert(unknown_lines(names) =~= (unknown_lines(d) + "\n  - "@) + debug_form(names[i]) + note);
    }
}

} // verus!
