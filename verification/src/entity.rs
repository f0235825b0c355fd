//! Entities of the world: their properties and tags.
use vstd::prelude::*;

use crate::text::{copied, lemma_texts_push, opt_text, same_text, texts};

verus! {

// ---------------------------------------------------------------------------
// Property maps
// ---------------------------------------------------------------------------
/// Named properties with values of one type. No name occurs twice.
#[derive(Debug)]
pub struct PropertyMap<V> {
    entries: Vec<(String, V)>,
}

/// The map that a list of entries stands for; a later entry wins.
pub open spec fn entries_map<V>(s: Seq<(String, V)>) -> Map<Seq<char>, V>
    decreases s.len(),
{
    if s.len() == 0 {
        Map::empty()
    } else {
        entries_map(s.drop_last()).insert(s.last().0@, s.last().1)
    }
}

/// No name occurs twice.
pub open spec fn distinct_names<V>(s: Seq<(String, V)>) -> bool {
    forall|i: int, j: int| 0 <= i < j < s.len() ==> (#[trigger] s[i]).0@ != (#[trigger] s[j]).0@
}

proof fn lemma_entries<V>(s: Seq<(String, V)>)
    requires
        distinct_names(s),
    ensures
        entries_map(s).dom().finite(),
        forall|i: int|
            0 <= i < s.len() ==> entries_map(s).contains_key((#[trigger] s[i]).0@) && entries_map(
                s,
            )[s[i].0@] == s[i].1,
        forall|k: Seq<char>|
            entries_map(s).contains_key(k) ==> exists|i: int| 0 <= i < s.len() && (#[trigger] s[i]).0@ == k,
    decreases s.len(),
{
    if s.len() > 0 {
        let d = s.drop_last();
        assert(distinct_names(d)) by {
            assert forall|i: int, j: int| 0 <= i < j < d.len() implies (#[trigger] d[i]).0@ != (
            #[trigger] d[j]).0@ by {
                assert(s[i].0@ != s[j].0@);
            }
        }
        lemma_entries(d);
        assert forall|i: int| 0 <= i < s.len() implies entries_map(s).contains_key(
            (#[trigger] s[i]).0@,
        ) && entries_map(s)[s[i].0@] == s[i].1 by {
            if i < d.len() {
                assert(d[i] == s[i]);
                assert(s[i].0@ != s[s.len() - 1].0@);
            }
        }
        assert forall|k: Seq<char>| entries_map(s).contains_key(k) implies exists|i: int|
            0 <= i < s.len() && (#[trigger] s[i]).0@ == k by {
            if k == s.last().0@ {
                assert(s[s.len() - 1].0@ == k);
            } else {
                let i = choose|i: int| 0 <= i < d.len() && (#[trigger] d[i]).0@ == k;
                assert(s[i].0@ == k);
            }
        }
    }
}

/// Two lists with the same entries stand for the same map.
proof fn lemma_entries_determined<V>(s: Seq<(String, V)>, m: Map<Seq<char>, V>)
    requires
        distinct_names(s),
        forall|i: int| 0 <= i < s.len() ==> m.contains_key((#[trigger] s[i]).0@) && m[s[i].0@] == s[i].1,
        forall|k: Seq<char>|
            #[trigger] m.contains_key(k) ==> exists|i: int| 0 <= i < s.len() && (#[trigger] s[i]).0@ == k,
    ensures
        entries_map(s) == m,
{
    lemma_entries(s);
    assert forall|k: Seq<char>| entries_map(s).contains_key(k) implies m.contains_key(k)
        && entries_map(s)[k] == m[k] by {
        let i = choose|i: int| 0 <= i < s.len() && (#[trigger] s[i]).0@ == k;
        assert(m.contains_key(s[i].0@));
    }
    assert forall|k: Seq<char>| m.contains_key(k) implies entries_map(s).contains_key(k) by {
        let i = choose|i: int| 0 <= i < s.len() && (#[trigger] s[i]).0@ == k;
        assert(entries_map(s).contains_key(s[i].0@));
    }
    assert(entries_map(s) =~= m);
}

impl<V> View for PropertyMap<V> {
    type V = Map<Seq<char>, V>;

    closed spec fn view(&self) -> Map<Seq<char>, V> {
        entries_map(self.entries@)
    }
}

impl<V> PropertyMap<V> {
    #[verifier::type_invariant]
    spec fn wf(self) -> bool {
        distinct_names(self.entries@)
    }

    /// The entries, in the order in which their names came.
    pub closed spec fn listed(self) -> Seq<(String, V)> {
        self.entries@
    }

    /// No properties.
    pub fn new() -> (r: Self)
        ensures
            r@ == Map::<Seq<char>, V>::empty(),
            r.listed().len() == 0,
    {
        PropertyMap { entries: Vec::new() }
    }

    /// The index of the entry with the given name.
    fn find(&self, name: &str) -> (r: Option<usize>)
        ensures
            match r {
                Some(i) => i < self.entries@.len() && self.entries@[i as int].0@ == name@,
                None => forall|i: int|
                    0 <= i < self.entries@.len() ==> (#[trigger] self.entries@[i]).0@ != name@,
            },
    {
        let mut i: usize = 0;
        while i < self.entries.len()
            invariant
                i <= self.entries@.len(),
                forall|j: int| 0 <= j < i ==> (#[trigger] self.entries@[j]).0@ != name@,
            decreases self.entries.len() - i,
        {
            if same_text(self.entries[i].0.as_str(), name) {
                return Some(i);
            }
            i = i + 1;
        }
        None
    }

    /// Whether there is a property of the given name.
    pub fn contains_key(&self, name: &str) -> (r: bool)
        ensures
            r == self@.contains_key(name@),
    {
        proof {
            use_type_invariant(self);
            lemma_entries(self.entries@);
        }
        self.find(name).is_some()
    }

    /// The value of the property of the given name.
    pub fn get(&self, name: &str) -> (r: Option<&V>)
        ensures
            match r {
                Some(v) => self@.contains_key(name@) && self@[name@] == *v,
                None => !self@.contains_key(name@),
            },
    {
        proof {
            use_type_invariant(self);
            lemma_entries(self.entries@);
        }
        match self.find(name) {
            Some(i) => Some(&self.entries[i].1),
            None => None,
        }
    }

    /// Sets a property.
    pub fn insert(&mut self, name: &str, value: V)
        ensures
            final(self)@ == old(self)@.insert(name@, value),
    {
        proof {
            use_type_invariant(&*self);
            lemma_entries(self.entries@);
        }
        let ghost before = self.entries@;
        let ghost m = entries_map(before).insert(name@, value);
        match self.find(name) {
            Some(i) => {
                let key: String = copied(name);
                let mut entries: Vec<(String, V)> = Vec::new();
                core::mem::swap(&mut self.entries, &mut entries);
                entries.set(i, (key, value));
                proof {
                    let after = entries@;
                    assert(after =~= before.update(i as int, (key, value)));
                    assert(distinct_names(after)) by {
                        assert forall|a: int, b: int| 0 <= a < b < after.len() implies (
                        #[trigger] after[a]).0@ != (#[trigger] after[b]).0@ by {
                            assert(before[a].0@ != before[b].0@);
                        }
                    }
                    assert forall|a: int| 0 <= a < after.len() implies m.contains_key(
                        (#[trigger] after[a]).0@,
                    ) && m[after[a].0@] == after[a].1 by {
                        if a != i {
                            assert(before[a] == after[a]);
                            assert(before[a].0@ != before[i as int].0@);
                        }
                    }
                    assert forall|k: Seq<char>| #[trigger] m.contains_key(k) implies exists|a: int|
                        0 <= a < after.len() && (#[trigger] after[a]).0@ == k by {
                        if k == name@ {
                            assert(after[i as int].0@ == k);
                        } else {
                            let a = choose|a: int|
                                0 <= a < before.len() && (#[trigger] before[a]).0@ == k;
                            assert(after[a].0@ == k);
                        }
                    }
                    lemma_entries_determined(after, m);
                }
                self.entries = entries;
            },
            None => {
                let key: String = copied(name);
                let mut entries: Vec<(String, V)> = Vec::new();
                core::mem::swap(&mut self.entries, &mut entries);
                entries.push((key, value));
                proof {
                    let after = entries@;
                    assert(after.drop_last() =~= before);
                    assert forall|a: int, b: int| 0 <= a < b < after.len() implies (
                    #[trigger] after[a]).0@ != (#[trigger] after[b]).0@ by {
                        if b < before.len() {
                            assert(before[a].0@ != before[b].0@);
                        } else {
                            assert(before[a].0@ != name@);
                        }
                    }
                }
                self.entries = entries;
            },
        }
    }

    /// Takes a property away. The result says whether there was one.
    pub fn remove(&mut self, name: &str) -> (r: bool)
        ensures
            r == old(self)@.contains_key(name@),
            final(self)@ == old(self)@.remove(name@),
    {
        proof {
            use_type_invariant(&*self);
            lemma_entries(self.entries@);
        }
        let ghost before = self.entries@;
        let ghost m = entries_map(before).remove(name@);
        match self.find(name) {
            Some(i) => {
                let mut entries: Vec<(String, V)> = Vec::new();
                core::mem::swap(&mut self.entries, &mut entries);
                let _ = entries.remove(i);
                proof {
                    let after = entries@;
                    assert(after =~= before.remove(i as int));
                    assert forall|a: int, b: int| 0 <= a < b < after.len() implies (
                    #[trigger] after[a]).0@ != (#[trigger] after[b]).0@ by {
                        let a2 = if a < i {
                            a
                        } else {
                            a + 1
                        };
                        let b2 = if b < i {
                            b
                        } else {
                            b + 1
                        };
                        assert(before[a2].0@ != before[b2].0@);
                    }
                    assert forall|a: int| 0 <= a < after.len() implies m.contains_key(
                        (#[trigger] after[a]).0@,
                    ) && m[after[a].0@] == after[a].1 by {
                        let a2 = if a < i {
                            a
                        } else {
                            a + 1
                        };
                        assert(before[a2] == after[a]);
                        if a2 < i {
                            assert(before[a2].0@ != before[i as int].0@);
                        } else {
                            assert(before[i as int].0@ != before[a2].0@);
                        }
                    }
                    assert forall|k: Seq<char>| #[trigger] m.contains_key(k) implies exists|a: int|
                        0 <= a < after.len() && (#[trigger] after[a]).0@ == k by {
                        let a = choose|a: int|
                            0 <= a < before.len() && (#[trigger] before[a]).0@ == k;
                        if a < i {
                            assert(after[a].0@ == k);
                        } else {
                            assert(after[a - 1].0@ == k);
                        }
                    }
                    lemma_entries_determined(after, m);
                }
                self.entries = entries;
                true
            },
            None => {
                assert(m =~= entries_map(before));
                false
            },
        }
    }

    /// How many properties there are. The entries stand for the map, and no
    /// name occurs twice among them.
    pub fn len(&self) -> (r: usize)
        ensures
            r == self.listed().len(),
            entries_map(self.listed()) == self@,
            distinct_names(self.listed()),
            self@.dom().finite(),
    {
        proof {
            use_type_invariant(self);
            lemma_entries(self.entries@);
        }
        self.entries.len()
    }

    /// The property at a place in the order in which their names came.
    pub fn entry(&self, i: usize) -> (r: (&str, &V))
        requires
            i < self.listed().len(),
        ensures
            r.0@ == self.listed()[i as int].0@,
            *r.1 == self.listed()[i as int].1,
    {
        (self.entries[i].0.as_str(), &self.entries[i].1)
    }
}

/// The value of an integer property, or 0.
pub open spec fn int_or_zero(m: Map<Seq<char>, i64>, name: Seq<char>) -> i64 {
    if m.contains_key(name) {
        m[name]
    } else {
        0
    }
}

impl PropertyMap<i64> {
    /// The value of a property, or 0.
    pub fn get_or_zero(&self, name: &str) -> (r: i64)
        ensures
            r == int_or_zero(self@, name@),
    {
        match self.get(name) {
            Some(v) => *v,
            None => 0,
        }
    }
}

// ---------------------------------------------------------------------------
// Entities
// ---------------------------------------------------------------------------
/// An action of an entity, as the entity remembers it, and when it was, in
/// microseconds.
#[derive(Debug, Clone)]
pub struct HistoryRecord {
    pub at: i64,
    pub action: String,
    pub narrative: String,
    pub outcome: String,
}

/// What a `HistoryRecord` holds.
pub struct RecordView {
    pub at: i64,
    pub action: Seq<char>,
    pub narrative: Seq<char>,
    pub outcome: Seq<char>,
}

impl View for HistoryRecord {
    type V = RecordView;

    open spec fn view(&self) -> RecordView {
        RecordView {
            at: self.at,
            action: self.action@,
            narrative: self.narrative@,
            outcome: self.outcome@,
        }
    }
}

/// What a list of records holds.
pub open spec fn record_views(s: Seq<HistoryRecord>) -> Seq<RecordView> {
    Seq::new(s.len(), |i: int| s[i]@)
}

/// What an entity holds.
pub struct EntityView {
    pub id: u128,
    pub entity_type: Seq<char>,
    pub name: Seq<char>,
    pub description: Seq<char>,
    pub x: u64,
    pub y: u64,
    pub tags: Seq<Seq<char>>,
    pub ints: Map<Seq<char>, i64>,
    pub reals: Map<Seq<char>, u64>,
    pub strings: Map<Seq<char>, Seq<char>>,
    pub history_summary: Option<Seq<char>>,
    pub history: Seq<RecordView>,
}

/// Something that lives in the world. Its id is the number of a UUID; its
/// position and its float properties are doubles, held by their bit patterns.
#[derive(Debug)]
pub struct WorldEntity {
    pub id: u128,
    pub entity_type: String,
    pub name: String,
    pub description: String,
    pub x: u64,
    pub y: u64,
    pub tags: Vec<String>,
    pub properties_int: PropertyMap<i64>,
    pub properties_float: PropertyMap<u64>,
    pub properties_string: PropertyMap<String>,
    pub history_summary: Option<String>,
    /// What the entity did, the latest last.
    pub history: Vec<HistoryRecord>,
}

/// The texts that a map of strings holds.
pub open spec fn text_values(m: Map<Seq<char>, String>) -> Map<Seq<char>, Seq<char>> {
    m.map_values(|s: String| s@)
}

pub broadcast proof fn lemma_text_values_insert(m: Map<Seq<char>, String>, k: Seq<char>, v: String)
    ensures
        #[trigger] text_values(m.insert(k, v)) == text_values(m).insert(k, v@),
{
    assert(text_values(m.insert(k, v)) =~= text_values(m).insert(k, v@));
}

pub broadcast proof fn lemma_text_values_remove(m: Map<Seq<char>, String>, k: Seq<char>)
    ensures
        #[trigger] text_values(m.remove(k)) == text_values(m).remove(k),
{
    assert(text_values(m.remove(k)) =~= text_values(m).remove(k));
}

impl View for WorldEntity {
    type V = EntityView;

    open spec fn view(&self) -> EntityView {
        EntityView {
            id: self.id,
            entity_type: self.entity_type@,
            name: self.name@,
            description: self.description@,
            x: self.x,
            y: self.y,
            tags: texts(self.tags@),
            ints: self.properties_int@,
            reals: self.properties_float@,
            strings: text_values(self.properties_string@),
            history_summary: opt_text(self.history_summary),
            history: record_views(self.history@),
        }
    }
}

/// `tags` without any that is `tag`.
pub open spec fn without_tag(tags: Seq<Seq<char>>, tag: Seq<char>) -> Seq<Seq<char>>
    decreases tags.len(),
{
    if tags.len() == 0 {
        tags
    } else if tags.last() == tag {
        without_tag(tags.drop_last(), tag)
    } else {
        without_tag(tags.drop_last(), tag).push(tags.last())
    }
}

/// `tags` with `tag` at the end, where it is not among them.
pub open spec fn with_tag(tags: Seq<Seq<char>>, tag: Seq<char>) -> Seq<Seq<char>> {
    if tags.contains(tag) {
        tags
    } else {
        tags.push(tag)
    }
}

/// An entity that was told of the actions of others up to a tick; of none where
/// the tick is 0.
pub open spec fn told(e: EntityView, tick: i64) -> EntityView {
    if tick != 0 {
        EntityView { ints: e.ints.insert("last_processed_other_tick"@, tick), ..e }
    } else {
        e
    }
}

/// An entity after an action of its own, before which it was told of the actions
/// of others up to a tick.
pub open spec fn remembering(e: EntityView, record: RecordView, tick: i64) -> EntityView {
    told(EntityView { history: e.history.push(record), ..e }, tick)
}

impl EntityView {
    /// The entity is part of the machinery of the world (a world clock, an
    /// abstract entity, or one tagged `meta`) and protected from effects.
    pub open spec fn is_system(self) -> bool {
        self.entity_type == "world_clock"@ || self.entity_type == "abstract"@
            || self.tags.contains("meta"@)
    }

    /// The entity's power; 0 where it has none.
    pub open spec fn power(self) -> i64 {
        int_or_zero(self.ints, "power"@)
    }
}

impl WorldEntity {
    /// An entity without tags, properties, summary and history.
    pub fn new(id: u128, entity_type: &str, name: &str, x: u64, y: u64) -> (r: Self)
        ensures
            r@ == (EntityView {
                id,
                entity_type: entity_type@,
                name: name@,
                description: Seq::<char>::empty(),
                x,
                y,
                tags: Seq::<Seq<char>>::empty(),
                ints: Map::<Seq<char>, i64>::empty(),
                reals: Map::<Seq<char>, u64>::empty(),
                strings: Map::<Seq<char>, Seq<char>>::empty(),
                history_summary: None,
                history: Seq::<RecordView>::empty(),
            }),
    {
        let r = WorldEntity {
            id,
            entity_type: copied(entity_type),
            name: copied(name),
            description: String::new(),
            x,
            y,
            tags: Vec::new(),
            properties_int: PropertyMap::new(),
            properties_float: PropertyMap::new(),
            properties_string: PropertyMap::new(),
            history_summary: None,
            history: Vec::new(),
        };
        assert(r@.history =~= Seq::<RecordView>::empty());
        assert(r@.tags =~= Seq::<Seq<char>>::empty());
        assert(r@.strings =~= Map::<Seq<char>, Seq<char>>::empty());
        r
    }

    /// Whether the entity has a tag.
    pub fn has_tag(&self, tag: &str) -> (r: bool)
        ensures
            r == self@.tags.contains(tag@),
    {
        let mut i: usize = 0;
        while i < self.tags.len()
            invariant
                i <= self.tags@.len(),
                forall|j: int| 0 <= j < i ==> self@.tags[j] != tag@,
            decreases self.tags.len() - i,
        {
            if same_text(self.tags[i].as_str(), tag) {
                assert(self@.tags[i as int] == tag@);
                return true;
            }
            i = i + 1;
        }
        false
    }

    /// Gives the entity a tag, unless it has it.
    pub fn add_tag(&mut self, tag: &str)
        ensures
            final(self)@ == (EntityView { tags: with_tag(old(self)@.tags, tag@), ..old(self)@ }),
    {
        broadcast use lemma_texts_push;

        if !self.has_tag(tag) {
            self.tags.push(copied(tag));
        }
    }

    /// Takes a tag from the entity.
    pub fn remove_tag(&mut self, tag: &str)
        ensures
            final(self)@ == (EntityView { tags: without_tag(old(self)@.tags, tag@), ..old(self)@ }),
    {
        broadcast use lemma_texts_push;

        let mut kept: Vec<String> = Vec::new();
        let mut i: usize = 0;
        let ghost all = texts(self.tags@);
        assert(texts(kept@) =~= without_tag(all.take(0), tag@));
        while i < self.tags.len()
            invariant
                i <= self.tags@.len(),
                all == texts(self.tags@),
                texts(kept@) == without_tag(all.take(i as int), tag@),
            decreases self.tags.len() - i,
        {
            assert(all.take(i + 1).drop_last() =~= all.take(i as int));
            if !same_text(self.tags[i].as_str(), tag) {
                kept.push(copied(self.tags[i].as_str()));
            }
            i = i + 1;
        }
        assert(all.take(i as int) =~= all);
        self.tags = kept;
    }

    /// Whether the entity is part of the machinery of the world.
    pub fn is_system_entity(&self) -> (r: bool)
        ensures
            r == self@.is_system(),
    {
        same_text(self.entity_type.as_str(), "world_clock") || same_text(
            self.entity_type.as_str(),
            "abstract",
        ) || self.has_tag("meta")
    }

    /// Sets an integer property.
    pub fn set_int(&mut self, name: &str, value: i64)
        ensures
            final(self)@ == (EntityView {
                ints: old(self)@.ints.insert(name@, value),
                ..old(self)@
            }),
    {
        self.properties_int.insert(name, value);
    }

    /// Sets a float property, given by its bit pattern.
    pub fn set_float(&mut self, name: &str, bits: u64)
        ensures
            final(self)@ == (EntityView {
                reals: old(self)@.reals.insert(name@, bits),
                ..old(self)@
            }),
    {
        self.properties_float.insert(name, bits);
    }

    /// Sets a string property.
    pub fn set_string(&mut self, name: &str, value: &str)
        ensures
            final(self)@ == (EntityView {
                strings: old(self)@.strings.insert(name@, value@),
                ..old(self)@
            }),
    {
        broadcast use lemma_text_values_insert;

        self.properties_string.insert(name, copied(value));
    }

    /// Takes a property of the given name away from the integers.
    pub fn delete_int(&mut self, name: &str)
        ensures
            final(self)@ == (EntityView { ints: old(self)@.ints.remove(name@), ..old(self)@ }),
    {
        let _ = self.properties_int.remove(name);
    }

    /// Takes a property of the given name away from the floats.
    pub fn delete_float(&mut self, name: &str)
        ensures
            final(self)@ == (EntityView { reals: old(self)@.reals.remove(name@), ..old(self)@ }),
    {
        let _ = self.properties_float.remove(name);
    }

    /// Takes a property of the given name away from the strings.
    pub fn delete_string(&mut self, name: &str)
        ensures
            final(self)@ == (EntityView { strings: old(self)@.strings.remove(name@), ..old(self)@ }),
    {
        broadcast use lemma_text_values_remove;

        let _ = self.properties_string.remove(name);
    }
}

/// Marks the actions of others up to a tick as told to an entity; 0 stands for no
/// such action.
pub fn advance_marker(entity: &mut WorldEntity, tick: i64)
    ensures
        final(entity)@ == told(old(entity)@, tick),
{
    if tick != 0 {
        entity.set_int("last_processed_other_tick", tick);
    }
}

/// Adds an action to the history of an entity, and marks the actions of others
/// up to a tick as told.
pub fn add_to_history(entity: &mut WorldEntity, record: HistoryRecord, tick: i64)
    ensures
        final(entity)@ == remembering(old(entity)@, record@, tick),
{
    let ghost before = entity.history@;
    entity.history.push(record);
    assert(record_views(entity.history@) =~= record_views(before).push(record@));
    advance_marker(entity, tick);
}

// ---------------------------------------------------------------------------
// Laws
// ---------------------------------------------------------------------------
/// Adding an action to the history forgets none, and changes no property but the
/// marker.
pub proof fn law_history_grows(e: EntityView, record: RecordView, tick: i64)
    ensures
        ({
            let after = remembering(e, record, tick);
            &&& after.history.drop_last() == e.history
            &&& after.history.last() == record
            &&& after == (EntityView { history: after.history, ints: after.ints, ..e })
            &&& forall|p: Seq<char>|
                p != "last_processed_other_tick"@ ==> (#[trigger] after.ints.contains_key(p)
                    <==> e.ints.contains_key(p)) && after.ints[p] == e.ints[p]
            &&& int_or_zero(after.ints, "last_processed_other_tick"@) == (if tick != 0 {
                tick
            } else {
                int_or_zero(e.ints, "last_processed_other_tick"@)
            })
        }),
{
    assert(e.history.push(record).drop_last() =~= e.history);
}

/// A tag that was taken away is gone, and every other tag stays.
pub proof fn law_remove_tag(tags: Seq<Seq<char>>, tag: Seq<char>)
    ensures
        !without_tag(tags, tag).contains(tag),
        forall|t: Seq<char>|
            t != tag ==> (#[trigger] without_tag(tags, tag).contains(t) <==> tags.contains(t)),
    decreases tags.len(),
{
    if tags.len() > 0 {
        let d = tags.drop_last();
        law_remove_tag(d, tag);
        let w = without_tag(d, tag);
        assert(tags =~= d.push(tags.last()));
        assert forall|t: Seq<char>| t != tag implies (#[trigger] without_tag(tags, tag).contains(t)
            <==> tags.contains(t)) by {
            lemma_push_contains(d, tags.last(), t);
            lemma_push_contains(w, tags.last(), t);
        }
        lemma_push_contains(w, tags.last(), tag);
    }
}

proof fn lemma_push_contains(s: Seq<Seq<char>>, x: Seq<char>, t: Seq<char>)
    ensures
        s.push(x).contains(t) <==> s.contains(t) || x == t,
{
    if s.contains(t) {
        let i = choose|i: int| 0 <= i < s.len() && s[i] == t;
        assert(s.push(x)[i] == t);
    }
    if x == t {
        assert(s.push(x)[s.len() as int] == t);
    }
    if s.push(x).contains(t) {
        let i = choose|i: int| 0 <= i < s.push(x).len() && s.push(x)[i] == t;
        if i < s.len() {
            assert(s[i] == t);
        }
    }
}

/// A tag that was given is there, and no other tag comes or goes.
pub proof fn law_add_tag(tags: Seq<Seq<char>>, tag: Seq<char>)
    ensures
        with_tag(tags, tag).contains(tag),
        forall|t: Seq<char>|
            t != tag ==> (#[trigger] with_tag(tags, tag).contains(t) <==> tags.contains(t)),
{
    assert forall|t: Seq<char>| #[trigger] tags.push(tag).contains(t) <==> tags.contains(t) || t
        == tag by {
        lemma_push_contains(tags, tag, t);
    }
}

/// Taking a tag away leaves the others in their order, and taking away what is not
/// there changes nothing.
pub proof fn law_tags_keep_their_order(a: Seq<Seq<char>>, b: Seq<Seq<char>>, tag: Seq<char>)
    ensures
        without_tag(a + b, tag) == without_tag(a, tag) + without_tag(b, tag),
        !a.contains(tag) ==> without_tag(a, tag) == a,
        without_tag(seq![tag], tag).len() == 0,
        with_tag(a, tag).take(a.len() as int) == a,
        a.contains(tag) ==> with_tag(a, tag) == a,
        !a.contains(tag) ==> with_tag(a, tag) == a + seq![tag],
    decreases a.len() + b.len(),
{
    assert(seq![tag].drop_last() =~= Seq::<Seq<char>>::empty());
    assert(seq![tag].last() == tag);
    assert(without_tag(Seq::empty(), tag).len() == 0);
    assert(with_tag(a, tag).take(a.len() as int) =~= a);
    if b.len() > 0 {
        law_tags_keep_their_order(a, b.drop_last(), tag);
        assert((a + b).drop_last() =~= a + b.drop_last());
        assert((a + b).last() == b.last());
        assert(without_tag(a + b, tag) =~= without_tag(a, tag) + without_tag(b, tag));
    } else {
        assert(a + b =~= a);
        assert(without_tag(a, tag) + without_tag(b, tag) =~= without_tag(a, tag));
    }
    lemma_absent_tag(a, tag);
}

proof fn lemma_absent_tag(a: Seq<Seq<char>>, tag: Seq<char>)
    ensures
        !a.contains(tag) ==> without_tag(a, tag) == a,
    decreases a.len(),
{
    if a.len() > 0 && !a.contains(tag) {
        let d = a.drop_last();
        assert forall|i: int| 0 <= i < d.len() implies d[i] != tag by {
            assert(a[i] == d[i]);
        }
        lemma_absent_tag(d, tag);
        assert(a[a.len() - 1] != tag);
        assert(d.push(a.last()) =~= a);
    }
}

/// A number property counts as what was given for it, or as 0; the power of an
/// entity is such a property; and an entity is protected as a world clock, as an
/// abstract one, or by the tag `meta`, and by nothing else.
pub proof fn law_numbers_of_entities(e: EntityView, name: Seq<char>, v: i64)
    ensures
        int_or_zero(e.ints.insert(name, v), name) == v,
        int_or_zero(e.ints.remove(name), name) == 0,
        int_or_zero(Map::empty(), name) == 0,
        (EntityView { ints: e.ints.insert("power"@, v), ..e }).power() == v,
        (EntityView { ints: e.ints.remove("power"@), ..e }).power() == 0,
        (EntityView { entity_type: "world_clock"@, ..e }).is_system(),
        (EntityView { entity_type: "abstract"@, ..e }).is_system(),
        (EntityView { tags: with_tag(e.tags, "meta"@), ..e }).is_system(),
        name != "world_clock"@ && name != "abstract"@ ==> !(EntityView {
            entity_type: name,
            tags: without_tag(e.tags, "meta"@),
            ..e
        }).is_system(),
{
    law_add_tag(e.tags, "meta"@);
    law_remove_tag(e.tags, "meta"@);
}

} // verus!
