//! The world: its entities, properties and events, and looking things up in
//! it.
use vstd::prelude::*;
use vstd::string::*;

use crate::apply_all::{entity_at, entity_from, entity_views, find_entity, same_ids};
use crate::entity::{
    law_add_tag, lemma_text_values_insert, text_values, with_tag, EntityView, PropertyMap,
    RecordView, WorldEntity,
};
use crate::ids::{fresh_id, is_random_id, uuid_form, uuid_text};
use crate::lines::{pieces_of, split_pieces};
use crate::number::{i64_value, read_i64, read_usize, usize_value};
use crate::text::{
    begins_with, chars_of, contains_text, copied, first_occurrence, has_prefix, has_text, int_dec,
    int_text, law_first_occurrence, lowercase, opt_str, opt_text, rows, same_text, string_of, texts, to_lowercase, trim_chars, trimmed,
};

verus! {

// ---------------------------------------------------------------------------
// Events
// ---------------------------------------------------------------------------
/// Something that goes on in the world.
#[derive(Debug)]
pub struct WorldEvent {
    pub id: String,
    pub name: String,
    pub description: String,
    pub influence: String,
    pub active: bool,
}

/// What a `WorldEvent` holds.
pub struct EventView {
    pub id: Seq<char>,
    pub name: Seq<char>,
    pub description: Seq<char>,
    pub influence: Seq<char>,
    pub active: bool,
}

impl View for WorldEvent {
    type V = EventView;

    open spec fn view(&self) -> EventView {
        EventView {
            id: self.id@,
            name: self.name@,
            description: self.description@,
            influence: self.influence@,
            active: self.active,
        }
    }
}

/// What a list of events holds.
pub open spec fn event_views(s: Seq<WorldEvent>) -> Seq<EventView> {
    Seq::new(s.len(), |i: int| s[i]@)
}

/// The first index from `i` on of an event with the given id.
pub open spec fn event_from(s: Seq<EventView>, id: Seq<char>, i: int) -> Option<int>
    decreases s.len() - i,
{
    if i < 0 || i >= s.len() {
        None
    } else if s[i].id == id {
        Some(i)
    } else {
        event_from(s, id, i + 1)
    }
}

fn find_event(events: &Vec<WorldEvent>, id: &str) -> (r: Option<usize>)
    ensures
        match r {
            Some(i) => event_from(event_views(events@), id@, 0) == Some(i as int) && i
                < events@.len(),
            None => event_from(event_views(events@), id@, 0) is None,
        },
{
    let ghost all = event_views(events@);
    let mut i: usize = 0;
    while i < events.len()
        invariant
            i <= events@.len(),
            all == event_views(events@),
            event_from(all, id@, 0) == event_from(all, id@, i as int),
        decreases events.len() - i,
    {
        if same_text(events[i].id.as_str(), id) {
            return Some(i);
        }
        i = i + 1;
    }
    None
}

/// Adds an event with the given id at the end.
pub fn push_event(
    events: &mut Vec<WorldEvent>,
    id: String,
    name: String,
    description: String,
    influence: String,
    active: bool,
)
    ensures
        event_views(final(events)@) == event_views(old(events)@).push(
            EventView {
                id: id@,
                name: name@,
                description: description@,
                influence: influence@,
                active,
            },
        ),
{
    let ghost before = event_views(events@);
    let e = WorldEvent { id, name, description, influence, active };
    events.push(e);
    assert(event_views(events@) =~= before.push(e@));
}

/// Adds an event with a fresh id at the end.
pub fn add_world_event(
    events: &mut Vec<WorldEvent>,
    name: String,
    description: String,
    influence: String,
    active: bool,
)
    ensures
        exists|id: u128| #[trigger]
            is_random_id(id) && event_views(final(events)@) == event_views(old(events)@).push(
                EventView {
                    id: uuid_form(id),
                    name: name@,
                    description: description@,
                    influence: influence@,
                    active,
                },
            ),
{
    let id: u128 = fresh_id();
    push_event(events, uuid_text(id), name, description, influence, active);
}

/// What an event becomes when some of its parts are given anew.
pub open spec fn event_updated(
    e: EventView,
    name: Option<Seq<char>>,
    description: Option<Seq<char>>,
    influence: Option<Seq<char>>,
    active: Option<bool>,
) -> EventView {
    EventView {
        id: e.id,
        name: given_or(name, e.name),
        description: given_or(description, e.description),
        influence: given_or(influence, e.influence),
        active: match active {
            Some(a) => a,
            None => e.active,
        },
    }
}

/// What is given, or what was there.
pub open spec fn given_or(given: Option<Seq<char>>, was: Seq<char>) -> Seq<char> {
    match given {
        Some(s) => s,
        None => was,
    }
}

/// Gives parts of an event anew. The result says whether there is such an
/// event.
pub fn update_world_event(
    events: &mut Vec<WorldEvent>,
    id: &str,
    name: Option<String>,
    description: Option<String>,
    influence: Option<String>,
    active: Option<bool>,
) -> (r: bool)
    ensures
        match event_from(event_views(old(events)@), id@, 0) {
            Some(i) => r && event_views(final(events)@) == event_views(old(events)@).update(
                i,
                event_updated(
                    event_views(old(events)@)[i],
                    opt_text(name),
                    opt_text(description),
                    opt_text(influence),
                    active,
                ),
            ),
            None => !r && final(events)@ == old(events)@,
        },
{
    match find_event(events, id) {
        Some(i) => {
            let ghost before = events@;
            let e: &mut WorldEvent = &mut events[i];
            if let Some(s) = name {
                e.name = s;
            }
            if let Some(s) = description {
                e.description = s;
            }
            if let Some(s) = influence {
                e.influence = s;
            }
            if let Some(a) = active {
                e.active = a;
            }
            proof {
                assert(event_views(events@) =~= event_views(before).update(
                    i as int,
                    events@[i as int]@,
                ));
            }
            true
        },
        None => false,
    }
}

/// Takes an event away. The result says whether there was such an event.
pub fn delete_world_event(events: &mut Vec<WorldEvent>, id: &str) -> (r: bool)
    ensures
        match event_from(event_views(old(events)@), id@, 0) {
            Some(i) => r && event_views(final(events)@) == event_views(old(events)@).remove(i),
            None => !r && final(events)@ == old(events)@,
        },
{
    match find_event(events, id) {
        Some(i) => {
            let ghost before = events@;
            let _ = events.remove(i);
            assert(event_views(events@) =~= event_views(before).remove(i as int));
            true
        },
        None => false,
    }
}

// ---------------------------------------------------------------------------
// The world
// ---------------------------------------------------------------------------
/// What a world holds.
pub struct WorldView {
    pub name: Seq<char>,
    pub description: Seq<char>,
    pub entities: Seq<EntityView>,
    pub ints: Map<Seq<char>, i64>,
    pub reals: Map<Seq<char>, u64>,
    pub strings: Map<Seq<char>, Seq<char>>,
    pub events: Seq<EventView>,
    pub action_count: u64,
    pub summary_cap: u32,
}

/// A world. A summary cap of 0 stands for the global default.
#[derive(Debug)]
pub struct World {
    pub name: String,
    pub description: String,
    pub entities: Vec<WorldEntity>,
    pub properties_int: PropertyMap<i64>,
    pub properties_float: PropertyMap<u64>,
    pub properties_string: PropertyMap<String>,
    pub active_events: Vec<WorldEvent>,
    pub action_count: u64,
    pub max_history_summary_chars: u32,
}

impl View for World {
    type V = WorldView;

    open spec fn view(&self) -> WorldView {
        WorldView {
            name: self.name@,
            description: self.description@,
            entities: entity_views(self.entities@),
            ints: self.properties_int@,
            reals: self.properties_float@,
            strings: text_values(self.properties_string@),
            events: event_views(self.active_events@),
            action_count: self.action_count,
            summary_cap: self.max_history_summary_chars,
        }
    }
}

/// No two entities have the same id.
#[verifier::opaque]
pub open spec fn distinct_ids(s: Seq<EntityView>) -> bool {
    forall|i: int, j: int| 0 <= i < j < s.len() ==> (#[trigger] s[i]).id != (#[trigger] s[j]).id
}

impl World {
    /// No two entities of the world have the same id.
    pub open spec fn wf(self) -> bool {
        distinct_ids(self@.entities)
    }

    /// A world with nothing in it.
    pub fn new(name: &str, description: &str) -> (r: World)
        ensures
            r.wf(),
            r@ == (WorldView {
                name: name@,
                description: description@,
                entities: Seq::<EntityView>::empty(),
                ints: Map::<Seq<char>, i64>::empty(),
                reals: Map::<Seq<char>, u64>::empty(),
                strings: Map::<Seq<char>, Seq<char>>::empty(),
                events: Seq::<EventView>::empty(),
                action_count: 0,
                summary_cap: 0,
            }),
    {
        let r = World {
            name: copied(name),
            description: copied(description),
            entities: Vec::new(),
            properties_int: PropertyMap::new(),
            properties_float: PropertyMap::new(),
            properties_string: PropertyMap::new(),
            active_events: Vec::new(),
            action_count: 0,
            max_history_summary_chars: 0,
        };
        proof {
            reveal(distinct_ids);
            assert(r@.entities =~= Seq::<EntityView>::empty());
        }
        assert(r@.events =~= Seq::<EventView>::empty());
        assert(r@.strings =~= Map::<Seq<char>, Seq<char>>::empty());
        r
    }
}

/// A map after pairs were put into it, one after the other.
pub open spec fn put_all<V>(m: Map<Seq<char>, V>, pairs: Seq<(String, V)>) -> Map<Seq<char>, V>
    decreases pairs.len(),
{
    if pairs.len() == 0 {
        m
    } else {
        put_all(m, pairs.drop_last()).insert(pairs.last().0@, pairs.last().1)
    }
}

/// A map of texts after pairs were put into it, one after the other.
pub open spec fn put_all_texts(
    m: Map<Seq<char>, Seq<char>>,
    pairs: Seq<(String, String)>,
) -> Map<Seq<char>, Seq<char>>
    decreases pairs.len(),
{
    if pairs.len() == 0 {
        m
    } else {
        put_all_texts(m, pairs.drop_last()).insert(pairs.last().0@, pairs.last().1@)
    }
}

fn put_pairs<V: Copy>(m: &mut PropertyMap<V>, pairs: &Vec<(String, V)>)
    ensures
        final(m)@ == put_all(old(m)@, pairs@),
{
    let ghost m0 = m@;
    let mut i: usize = 0;
    assert(pairs@.take(0) =~= Seq::empty());
    while i < pairs.len()
        invariant
            i <= pairs@.len(),
            m@ == put_all(m0, pairs@.take(i as int)),
        decreases pairs.len() - i,
    {
        assert(pairs@.take(i + 1).drop_last() =~= pairs@.take(i as int));
        m.insert(pairs[i].0.as_str(), pairs[i].1);
        i = i + 1;
    }
    assert(pairs@.take(i as int) =~= pairs@);
}

fn put_texts(m: &mut PropertyMap<String>, pairs: &Vec<(String, String)>)
    ensures
        text_values(final(m)@) == put_all_texts(text_values(old(m)@), pairs@),
{
    broadcast use lemma_text_values_insert;

    let ghost m0 = text_values(m@);
    let mut i: usize = 0;
    assert(pairs@.take(0) =~= Seq::empty());
    while i < pairs.len()
        invariant
            i <= pairs@.len(),
            text_values(m@) == put_all_texts(m0, pairs@.take(i as int)),
        decreases pairs.len() - i,
    {
        assert(pairs@.take(i + 1).drop_last() =~= pairs@.take(i as int));
        m.insert(pairs[i].0.as_str(), copied(pairs[i].1.as_str()));
        i = i + 1;
    }
    assert(pairs@.take(i as int) =~= pairs@);
}

/// What is to change in a world.
#[derive(Debug)]
pub struct WorldUpdate {
    pub name: Option<String>,
    pub description: Option<String>,
    pub ints: Vec<(String, i64)>,
    pub floats: Vec<(String, u64)>,
    pub strings: Vec<(String, String)>,
}

/// Gives the world a new name and description, where they are given, and sets
/// the given properties.
pub fn update_world(world: &mut World, update: WorldUpdate)
    ensures
        final(world)@ == (WorldView {
            name: given_or(opt_text(update.name), old(world)@.name),
            description: given_or(opt_text(update.description), old(world)@.description),
            ints: put_all(old(world)@.ints, update.ints@),
            reals: put_all(old(world)@.reals, update.floats@),
            strings: put_all_texts(old(world)@.strings, update.strings@),
            ..old(world)@
        }),
        old(world).wf() ==> final(world).wf(),
{
    if let Some(s) = update.name {
        world.name = s;
    }
    if let Some(s) = update.description {
        world.description = s;
    }
    put_pairs(&mut world.properties_int, &update.ints);
    put_pairs(&mut world.properties_float, &update.floats);
    put_texts(&mut world.properties_string, &update.strings);
}

// ---------------------------------------------------------------------------
// Entities
// ---------------------------------------------------------------------------
/// `tags` with the first `n` of `more` given one after the other.
pub open spec fn with_tags(tags: Seq<Seq<char>>, more: Seq<Seq<char>>, n: int) -> Seq<Seq<char>>
    decreases n,
{
    if n <= 0 {
        tags
    } else {
        with_tag(with_tags(tags, more, n - 1), more[n - 1])
    }
}

/// An entity with the given id, description and tags, and without properties.
pub fn build_entity(
    id: u128,
    entity_type: &str,
    name: &str,
    description: Option<String>,
    x: u64,
    y: u64,
    tags: &Vec<String>,
) -> (r: WorldEntity)
    ensures
        r@ == (EntityView {
            id,
            entity_type: entity_type@,
            name: name@,
            description: given_or(opt_text(description), Seq::empty()),
            x,
            y,
            tags: with_tags(Seq::empty(), texts(tags@), tags@.len() as int),
            ints: Map::<Seq<char>, i64>::empty(),
            reals: Map::<Seq<char>, u64>::empty(),
            strings: Map::<Seq<char>, Seq<char>>::empty(),
            history_summary: None,
            history: Seq::<RecordView>::empty(),
        }),
{
    let mut e = WorldEntity::new(id, entity_type, name, x, y);
    if let Some(d) = description {
        e.description = d;
    }
    let ghost start = e@;
    let mut i: usize = 0;
    while i < tags.len()
        invariant
            i <= tags@.len(),
            start.tags == Seq::<Seq<char>>::empty(),
            e@ == (EntityView {
                tags: with_tags(Seq::empty(), texts(tags@), i as int),
                ..start
            }),
        decreases tags.len() - i,
    {
        e.add_tag(tags[i].as_str());
        i = i + 1;
    }
    e
}

/// Entities with `e` among them: in the place of the one with its id, or at the
/// end where there is none.
pub open spec fn with_entity(s: Seq<EntityView>, e: EntityView) -> Seq<EntityView> {
    match entity_at(s, e.id) {
        Some(i) => s.update(i, e),
        None => s.push(e),
    }
}

/// Adds an entity at the end, or puts it in the place of the one with its id.
pub fn add_entity(world: &mut World, e: WorldEntity)
    ensures
        final(world)@ == (WorldView {
            entities: with_entity(old(world)@.entities, e@),
            ..old(world)@
        }),
        old(world).wf() ==> final(world).wf(),
{
    let ghost before = world.entities@;
    proof {
        law_adding_keeps_ids_distinct(entity_views(before), e@);
    }
    match find_entity(&world.entities, e.id) {
        Some(i) => {
            world.entities.set(i, e);
            assert(entity_views(world.entities@) =~= entity_views(before).update(i as int, e@));
        },
        None => {
            world.entities.push(e);
            assert(entity_views(world.entities@) =~= entity_views(before).push(e@));
        },
    }
}

/// Adds a new entity with a fresh id to the world. The result is the id.
pub fn create_entity(
    world: &mut World,
    entity_type: &str,
    name: &str,
    description: Option<String>,
    x: u64,
    y: u64,
    tags: &Vec<String>,
) -> (r: u128)
    ensures
        final(world)@ == (WorldView {
            entities: with_entity(
                old(world)@.entities,
                EntityView {
                    id: r,
                    entity_type: entity_type@,
                    name: name@,
                    description: given_or(opt_text(description), Seq::empty()),
                    x,
                    y,
                    tags: with_tags(Seq::empty(), texts(tags@), tags@.len() as int),
                    ints: Map::<Seq<char>, i64>::empty(),
                    reals: Map::<Seq<char>, u64>::empty(),
                    strings: Map::<Seq<char>, Seq<char>>::empty(),
                    history_summary: None,
                    history: Seq::<RecordView>::empty(),
                },
            ),
            ..old(world)@
        }),
        is_random_id(r),
        old(world).wf() ==> final(world).wf(),
{
    let id: u128 = fresh_id();
    let e = build_entity(id, entity_type, name, description, x, y, tags);
    add_entity(world, e);
    id
}

/// What is to change in an entity.
#[derive(Debug)]
pub struct EntityUpdate {
    pub name: Option<String>,
    pub description: Option<String>,
    pub x: Option<u64>,
    pub y: Option<u64>,
    pub tags: Option<Vec<String>>,
}

/// What an entity becomes by an update.
pub open spec fn entity_updated(e: EntityView, u: EntityUpdate) -> EntityView {
    EntityView {
        name: given_or(opt_text(u.name), e.name),
        description: given_or(opt_text(u.description), e.description),
        x: match u.x {
            Some(b) => b,
            None => e.x,
        },
        y: match u.y {
            Some(b) => b,
            None => e.y,
        },
        tags: match u.tags {
            Some(t) => texts(t@),
            None => e.tags,
        },
        ..e
    }
}

/// Gives parts of an entity anew.
pub fn update_entity(e: &mut WorldEntity, update: EntityUpdate)
    ensures
        final(e)@ == entity_updated(old(e)@, update),
{
    if let Some(s) = update.name {
        e.name = s;
    }
    if let Some(s) = update.description {
        e.description = s;
    }
    if let Some(b) = update.x {
        e.x = b;
    }
    if let Some(b) = update.y {
        e.y = b;
    }
    if let Some(t) = update.tags {
        e.tags = t;
    }
}

/// Takes an entity out of the world. The result says whether it was there.
pub fn delete_entity(world: &mut World, id: u128) -> (r: bool)
    ensures
        match entity_at(old(world)@.entities, id) {
            Some(i) => r && final(world)@ == (WorldView {
                entities: old(world)@.entities.remove(i),
                ..old(world)@
            }),
            None => !r && final(world)@ == old(world)@,
        },
        old(world).wf() ==> final(world).wf(),
{
    match find_entity(&world.entities, id) {
        Some(i) => {
            let ghost before = world.entities@;
            proof {
                lemma_remove_keeps_ids_distinct(entity_views(before), i as int);
            }
            let _ = world.entities.remove(i);
            assert(entity_views(world.entities@) =~= entity_views(before).remove(i as int));
            true
        },
        None => false,
    }
}

/// A value given for a property: an integer, a double with the integer and the
/// text it converts to, or a text with the double that it reads as.
#[derive(Debug)]
pub enum PropertyInput {
    Int { value: i64, as_float: u64 },
    Float { bits: u64, as_int: i64, as_text: String },
    Text { value: String, as_float: Option<u64> },
}

/// The value of an integer property: a text that is no integer counts as 0.
pub fn int_property_value(input: &PropertyInput) -> (r: i64)
    ensures
        r == match *input {
            PropertyInput::Int { value, as_float } => value,
            PropertyInput::Float { bits, as_int, as_text } => as_int,
            PropertyInput::Text { value, as_float } => match i64_value(value@) {
                Some(n) => n,
                None => 0,
            },
        },
{
    match input {
        PropertyInput::Int { value, as_float: _ } => *value,
        PropertyInput::Float { bits: _, as_int, as_text: _ } => *as_int,
        PropertyInput::Text { value, as_float: _ } => match read_i64(
            &chars_of(value.as_str()),
        ) {
            Some(n) => n,
            None => 0,
        },
    }
}

/// The value of a float property: a text that is no number counts as 0.
pub fn float_property_value(input: &PropertyInput) -> (r: u64)
    ensures
        r == match *input {
            PropertyInput::Int { value, as_float } => as_float,
            PropertyInput::Float { bits, as_int, as_text } => bits,
            PropertyInput::Text { value, as_float } => match as_float {
                Some(b) => b,
                None => 0,
            },
        },
{
    match input {
        PropertyInput::Int { value: _, as_float } => *as_float,
        PropertyInput::Float { bits, as_int: _, as_text: _ } => *bits,
        PropertyInput::Text { value: _, as_float } => match as_float {
            Some(b) => *b,
            None => 0,
        },
    }
}

/// The value of a string property.
pub fn string_property_value(input: &PropertyInput) -> (r: String)
    ensures
        r@ == match *input {
            PropertyInput::Int { value, as_float } => int_dec(value as int),
            PropertyInput::Float { bits, as_int, as_text } => as_text@,
            PropertyInput::Text { value, as_float } => value@,
        },
{
    match input {
        PropertyInput::Int { value, as_float: _ } => int_text(*value as i128),
        PropertyInput::Float { bits: _, as_int: _, as_text } => copied(as_text.as_str()),
        PropertyInput::Text { value, as_float: _ } => copied(value.as_str()),
    }
}

// ---------------------------------------------------------------------------
// Search
// ---------------------------------------------------------------------------
/// What entities are looked for: by a part of the name, the type, tags parted
/// by commas, and whether they are system entities.
#[derive(Debug)]
pub struct SearchQuery {
    pub q: Option<String>,
    pub entity_type: Option<String>,
    pub tags: Option<String>,
    pub system: Option<bool>,
    pub include_system: Option<bool>,
    pub limit: Option<usize>,
}

/// An entity has every tag of a list parted by commas.
pub open spec fn has_all_tags(e: EntityView, list: Seq<char>) -> bool {
    forall|i: int|
        0 <= i < pieces_of(list, ',').len() ==> e.tags.contains(
            trimmed(#[trigger] pieces_of(list, ',')[i]),
        )
}

/// An entity is one that is looked for, given the lower-case forms of its name
/// and of the part that is looked for.
pub open spec fn wanted(
    e: EntityView,
    q: SearchQuery,
    lower_name: Seq<char>,
    lower_part: Option<Seq<char>>,
) -> bool {
    &&& lower_part is Some ==> contains_text(lower_name, lower_part->0)
    &&& q.entity_type is Some ==> e.entity_type == q.entity_type->0@
    &&& q.tags is Some ==> has_all_tags(e, q.tags->0@)
    &&& if q.system == Some(true) {
        e.is_system()
    } else if q.include_system == Some(false) {
        !e.is_system()
    } else {
        true
    }
}

/// The lower-case form of the part of a name that is looked for.
pub open spec fn lower_part_of(q: SearchQuery) -> Option<Seq<char>> {
    match q.q {
        Some(s) => Some(lowercase(s@)),
        None => None,
    }
}

/// Entity number `i` is found: it is one that is looked for and, where places
/// are looked at, lies near enough.
pub open spec fn found_at(entities: Seq<EntityView>, q: SearchQuery, near: Option<Seq<bool>>, i: int)
    -> bool {
    wanted(entities[i], q, lowercase(entities[i].name), lower_part_of(q)) && match near {
        Some(n) => n[i],
        None => true,
    }
}

/// The first `n` entities that are found, by their places.
pub open spec fn found_in(
    entities: Seq<EntityView>,
    q: SearchQuery,
    near: Option<Seq<bool>>,
    n: int,
) -> Seq<int>
    decreases n,
{
    if n <= 0 {
        Seq::empty()
    } else if found_at(entities, q, near, n - 1) {
        found_in(entities, q, near, n - 1).push(n - 1)
    } else {
        found_in(entities, q, near, n - 1)
    }
}

/// The first `limit` of `s`.
pub open spec fn at_most<T>(s: Seq<T>, limit: int) -> Seq<T> {
    if s.len() > limit {
        s.take(limit)
    } else {
        s
    }
}

/// Whether an entity has every tag of a list parted by commas.
fn holds_all_tags(e: &WorldEntity, list: &str) -> (r: bool)
    ensures
        r == has_all_tags(e@, list@),
{
    let pieces = split_pieces(&chars_of(list), ',');
    let ghost all = pieces_of(list@, ',');
    let mut i: usize = 0;
    while i < pieces.len()
        invariant
            i <= pieces@.len(),
            all == rows(pieces@),
            all == pieces_of(list@, ','),
            forall|j: int| 0 <= j < i ==> e@.tags.contains(trimmed(#[trigger] all[j])),
        decreases pieces.len() - i,
    {
        let tag: String = string_of(&trim_chars(&pieces[i]));
        if !e.has_tag(tag.as_str()) {
            assert(!e@.tags.contains(trimmed(all[i as int])));
            return false;
        }
        i = i + 1;
    }
    true
}

/// Whether an entity is one that is looked for, given the lower-case forms of
/// its name and of the part that is looked for.
pub fn is_wanted(e: &WorldEntity, q: &SearchQuery, lower_name: &str, lower_part: Option<&str>) -> (r:
    bool)
    ensures
        r == wanted(e@, *q, lower_name@, opt_str(lower_part)),
{
    if let Some(part) = lower_part {
        if !has_text(lower_name, part) {
            return false;
        }
    }
    if let Some(t) = &q.entity_type {
        if !same_text(e.entity_type.as_str(), t.as_str()) {
            return false;
        }
    }
    if let Some(list) = &q.tags {
        if !holds_all_tags(e, list.as_str()) {
            return false;
        }
    }
    match q.system {
        Some(true) => e.is_system_entity(),
        _ => match q.include_system {
            Some(false) => !e.is_system_entity(),
            _ => true,
        },
    }
}

/// The places of the entities that are found, up to a limit of 100 unless
/// another is given. `near` says of each entity whether it lies near enough to
/// the place that is looked at, if any is.
pub fn list_entities(entities: &Vec<WorldEntity>, q: &SearchQuery, near: Option<&Vec<bool>>) -> (r:
    Vec<usize>)
    requires
        near is Some ==> near->0@.len() == entities@.len(),
    ensures
        Seq::new(r@.len(), |i: int| r@[i] as int) == at_most(
            found_in(
                entity_views(entities@),
                *q,
                match near {
                    Some(v) => Some(v@),
                    None => None,
                },
                entities@.len() as int,
            ),
            match q.limit {
                Some(n) => n as int,
                None => 100,
            },
        ),
{
    let ghost all = entity_views(entities@);
    let ghost places = match near {
        Some(v) => Some(v@),
        None => None,
    };
    let lower_part: Option<String> = match &q.q {
        Some(s) => Some(to_lowercase(s.as_str())),
        None => None,
    };
    let mut out: Vec<usize> = Vec::new();
    let mut i: usize = 0;
    assert(Seq::new(out@.len(), |j: int| out@[j] as int) =~= Seq::empty());
    while i < entities.len()
        invariant
            i <= entities@.len(),
            all == entity_views(entities@),
            near is Some ==> near->0@.len() == entities@.len(),
            places == (match near {
                Some(v) => Some(v@),
                None => None,
            }),
            opt_text(lower_part) == lower_part_of(*q),
            Seq::new(out@.len(), |j: int| out@[j] as int) == found_in(all, *q, places, i as int),
        decreases entities.len() - i,
    {
        let e: &WorldEntity = &entities[i];
        let lower_name: String = to_lowercase(e.name.as_str());
        let close: bool = match near {
            Some(v) => v[i],
            None => true,
        };
        let found: bool = is_wanted(
            e,
            q,
            lower_name.as_str(),
            crate::text::borrowed_opt(&lower_part),
        ) && close;
        assert(found == found_at(all, *q, places, i as int));
        let ghost before = out@;
        if found {
            out.push(i);
            assert(Seq::new(out@.len(), |j: int| out@[j] as int) =~= Seq::new(
                before.len(),
                |j: int| before[j] as int,
            ).push(i as int));
        }
        i = i + 1;
    }
    let limit: usize = match q.limit {
        Some(n) => n,
        None => 100,
    };
    let ghost full = out@;
    if out.len() > limit {
        out.truncate(limit);
        assert(Seq::new(out@.len(), |j: int| out@[j] as int) =~= Seq::new(
            full.len(),
            |j: int| full[j] as int,
        ).take(limit as int));
    }
    out
}

// ---------------------------------------------------------------------------
// History
// ---------------------------------------------------------------------------
/// How many entries of a history are asked for: 50 unless a number is given,
/// and never more than 500.
pub fn history_limit(parameter: Option<&str>) -> (r: usize)
    ensures
        r == ({
            let n: int = match parameter {
                Some(s) => match usize_value(s@) {
                    Some(k) => k as int,
                    None => 50,
                },
                None => 50,
            };
            if n > 500 {
                500
            } else {
                n
            }
        }),
{
    let n: usize = match parameter {
        Some(s) => match read_usize(s) {
            Some(k) => k,
            None => 50,
        },
        None => 50,
    };
    if n > 500 {
        500
    } else {
        n
    }
}

/// What a search needs of an entry of the history: who acted, the keys of the
/// effects, and how many actions there were before.
#[derive(Debug)]
pub struct HistoryEntry {
    pub entity_id: String,
    pub effect_keys: Vec<String>,
    pub tick: i64,
}

/// Someone else's action that touched an entity: one of its keys has the
/// entity's name before a dot.
pub open spec fn touches(e: HistoryEntry, entity_id: Seq<char>, entity_name: Seq<char>) -> bool {
    e.entity_id@ != entity_id && exists|k: int|
        0 <= k < e.effect_keys@.len() && begins_with(
            (#[trigger] texts(e.effect_keys@)[k]),
            entity_name + "."@,
        )
}

/// The places of the entries, of the first `n`, that touched an entity.
pub open spec fn touching(
    entries: Seq<HistoryEntry>,
    entity_id: Seq<char>,
    entity_name: Seq<char>,
    n: int,
) -> Seq<int>
    decreases n,
{
    if n <= 0 {
        Seq::empty()
    } else if touches(entries[n - 1], entity_id, entity_name) {
        touching(entries, entity_id, entity_name, n - 1).push(n - 1)
    } else {
        touching(entries, entity_id, entity_name, n - 1)
    }
}

fn is_touching(e: &HistoryEntry, entity_id: &str, prefix: &str, entity_name: &str) -> (r: bool)
    requires
        prefix@ == entity_name@ + "."@,
    ensures
        r == touches(*e, entity_id@, entity_name@),
{
    if same_text(e.entity_id.as_str(), entity_id) {
        return false;
    }
    let mut k: usize = 0;
    while k < e.effect_keys.len()
        invariant
            k <= e.effect_keys@.len(),
            prefix@ == entity_name@ + "."@,
            e.entity_id@ != entity_id@,
            forall|j: int| 0 <= j < k ==> !begins_with(#[trigger] texts(e.effect_keys@)[j], prefix@),
        decreases e.effect_keys.len() - k,
    {
        if has_prefix(e.effect_keys[k].as_str(), prefix) {
            assert(begins_with(texts(e.effect_keys@)[k as int], prefix@));
            return true;
        }
        k = k + 1;
    }
    false
}

/// The places of the entries in which someone else touched an entity, up to a
/// limit.
pub fn history_from_others(
    entries: &Vec<HistoryEntry>,
    entity_id: &str,
    entity_name: &str,
    limit: usize,
) -> (r: Vec<usize>)
    ensures
        Seq::new(r@.len(), |i: int| r@[i] as int) == at_most(
            touching(entries@, entity_id@, entity_name@, entries@.len() as int),
            limit as int,
        ),
{
    let mut prefix: String = copied(entity_name);
    prefix.append(".");
    let mut out: Vec<usize> = Vec::new();
    let mut i: usize = 0;
    assert(Seq::new(out@.len(), |j: int| out@[j] as int) =~= Seq::empty());
    while i < entries.len()
        invariant
            i <= entries@.len(),
            prefix@ == entity_name@ + "."@,
            Seq::new(out@.len(), |j: int| out@[j] as int) == touching(
                entries@,
                entity_id@,
                entity_name@,
                i as int,
            ),
        decreases entries.len() - i,
    {
        let ghost before = out@;
        if is_touching(&entries[i], entity_id, prefix.as_str(), entity_name) {
            out.push(i);
            assert(Seq::new(out@.len(), |j: int| out@[j] as int) =~= Seq::new(
                before.len(),
                |j: int| before[j] as int,
            ).push(i as int));
        }
        i = i + 1;
    }
    let ghost full = out@;
    if out.len() > limit {
        out.truncate(limit);
        assert(Seq::new(out@.len(), |j: int| out@[j] as int) =~= Seq::new(
            full.len(),
            |j: int| full[j] as int,
        ).take(limit as int));
    }
    out
}

// ---------------------------------------------------------------------------
// Laws
// ---------------------------------------------------------------------------
proof fn lemma_entity_from(s: Seq<EntityView>, id: u128, i: int)
    requires
        0 <= i <= s.len(),
    ensures
        match entity_from(s, id, i) {
            Some(k) => i <= k < s.len() && s[k].id == id,
            None => forall|j: int| i <= j < s.len() ==> (#[trigger] s[j]).id != id,
        },
    decreases s.len() - i,
{
    if i < s.len() && s[i].id != id {
        lemma_entity_from(s, id, i + 1);
    }
}

/// Adding an entity keeps the ids distinct and every other entity, and the
/// entity is found afterwards.
pub proof fn law_adding_keeps_ids_distinct(s: Seq<EntityView>, e: EntityView)
    ensures
        distinct_ids(s) ==> distinct_ids(with_entity(s, e)),
        match entity_at(with_entity(s, e), e.id) {
            Some(i) => with_entity(s, e)[i] == e,
            None => false,
        },
        forall|j: int|
            0 <= j < s.len() && (#[trigger] s[j]).id != e.id ==> with_entity(s, e)[j] == s[j],
{
    reveal(distinct_ids);
    lemma_entity_from(s, e.id, 0);
    let after = with_entity(s, e);
    lemma_entity_from(after, e.id, 0);
    match entity_at(s, e.id) {
        Some(i) => {
            assert(after[i] == e);
            lemma_first_entity(s, e.id, 0, i);
            assert forall|j: int| 0 <= j < i implies (#[trigger] after[j]).id != e.id by {
                assert(after[j] == s[j]);
            }
            let k = entity_at(after, e.id);
            assert(k is Some);
            lemma_first_entity(after, e.id, 0, k->0);
        },
        None => {
            assert(after[s.len() as int] == e);
            let k = entity_at(after, e.id);
            assert(k is Some);
            assert forall|j: int| 0 <= j < s.len() implies (#[trigger] after[j]).id != e.id by {
                assert(after[j] == s[j]);
            }
        },
    }
}

proof fn lemma_first_entity(s: Seq<EntityView>, id: u128, i: int, k: int)
    requires
        0 <= i,
        entity_from(s, id, i) == Some(k),
    ensures
        i <= k < s.len(),
        forall|j: int| i <= j < k ==> (#[trigger] s[j]).id != id,
    decreases s.len() - i,
{
    if i < s.len() && s[i].id != id {
        lemma_first_entity(s, id, i + 1, k);
    }
}

proof fn lemma_remove_keeps_ids_distinct(s: Seq<EntityView>, i: int)
    requires
        0 <= i < s.len(),
    ensures
        distinct_ids(s) ==> distinct_ids(s.remove(i)),
{
    reveal(distinct_ids);
    if distinct_ids(s) {
        let rest = s.remove(i);
        assert forall|a: int, b: int| 0 <= a < b < rest.len() implies (#[trigger] rest[a]).id != (
        #[trigger] rest[b]).id by {
            let a1 = if a < i {
                a
            } else {
                a + 1
            };
            let b1 = if b < i {
                b
            } else {
                b + 1
            };
            assert(rest[a] == s[a1] && rest[b] == s[b1]);
        }
    }
}

/// An entity that was taken out of a world is not found any more, and every
/// other entity is still there.
pub proof fn law_deleted_entity_is_gone(s: Seq<EntityView>, id: u128, i: int)
    requires
        distinct_ids(s),
        entity_at(s, id) == Some(i),
    ensures
        entity_at(s.remove(i), id) is None,
        s.remove(i).len() == s.len() - 1,
        forall|j: int| 0 <= j < s.len() && j != i ==> s.remove(i).contains(#[trigger] s[j]),
{
    reveal(distinct_ids);
    lemma_entity_from(s, id, 0);
    let rest = s.remove(i);
    lemma_entity_from(rest, id, 0);
    if let Some(k) = entity_at(rest, id) {
        if k < i {
            assert(s[k].id != s[i].id);
        } else {
            assert(s[i].id != s[k + 1].id);
        }
    }
    assert forall|j: int| 0 <= j < s.len() && j != i implies rest.contains(#[trigger] s[j]) by {
        assert(rest[if j < i {
            j
        } else {
            j - 1
        }] == s[j]);
    }
}

/// Entities that keep their ids and places keep them distinct.
pub proof fn lemma_same_ids_distinct(a: Seq<EntityView>, b: Seq<EntityView>)
    requires
        same_ids(a, b),
        distinct_ids(a),
    ensures
        distinct_ids(b),
{
    reveal(distinct_ids);
    assert forall|i: int, j: int| 0 <= i < j < b.len() implies (#[trigger] b[i]).id != (
    #[trigger] b[j]).id by {
        assert(a[i].id == b[i].id && a[j].id == b[j].id);
    }
}

/// An event that was taken away, of events with different ids, is not found
/// any more, and every other event is still there.
pub proof fn law_deleted_event_is_gone(events: Seq<EventView>, id: Seq<char>, i: int)
    requires
        event_from(events, id, 0) == Some(i),
        forall|a: int, b: int|
            0 <= a < b < events.len() ==> (#[trigger] events[a]).id != (#[trigger] events[b]).id,
    ensures
        event_from(events.remove(i), id, 0) is None,
        events.remove(i).len() == events.len() - 1,
        forall|j: int|
            0 <= j < events.len() && j != i ==> events.remove(i).contains(#[trigger] events[j]),
{
    lemma_event_from(events, id, 0);
    let rest = events.remove(i);
    assert forall|j: int| 0 <= j < events.len() && j != i implies rest.contains(
        #[trigger] events[j],
    ) by {
        assert(rest[if j < i {
            j
        } else {
            j - 1
        }] == events[j]);
    }
    lemma_event_from(rest, id, 0);
    if let Some(k) = event_from(rest, id, 0) {
        if k < i {
            assert(events[k].id != events[i].id);
        } else {
            assert(events[i].id != events[k + 1].id);
        }
    }
}

proof fn lemma_event_from(s: Seq<EventView>, id: Seq<char>, i: int)
    requires
        0 <= i <= s.len(),
    ensures
        match event_from(s, id, i) {
            Some(k) => i <= k < s.len() && s[k].id == id,
            None => forall|j: int| i <= j < s.len() ==> (#[trigger] s[j]).id != id,
        },
    decreases s.len() - i,
{
    if i < s.len() && s[i].id != id {
        lemma_event_from(s, id, i + 1);
    }
}

/// Every entity that is listed is one that is looked for, and each is listed
/// once, in order.
pub proof fn law_found_are_wanted(
    entities: Seq<EntityView>,
    q: SearchQuery,
    near: Option<Seq<bool>>,
    n: int,
)
    requires
        0 <= n <= entities.len(),
    ensures
        forall|k: int|
            0 <= k < found_in(entities, q, near, n).len() ==> 0 <= #[trigger] found_in(
                entities,
                q,
                near,
                n,
            )[k] < n && found_at(entities, q, near, found_in(entities, q, near, n)[k]),
        forall|k: int, l: int|
            0 <= k < l < found_in(entities, q, near, n).len() ==> found_in(entities, q, near, n)[k]
                < found_in(entities, q, near, n)[l],
        forall|i: int|
            0 <= i < n && #[trigger] found_at(entities, q, near, i) ==> found_in(
                entities,
                q,
                near,
                n,
            ).contains(i),
    decreases n,
{
    if n > 0 {
        law_found_are_wanted(entities, q, near, n - 1);
        let a = found_in(entities, q, near, n - 1);
        let b = found_in(entities, q, near, n);
        assert forall|i: int| 0 <= i < n && #[trigger] found_at(
            entities,
            q,
            near,
            i,
        ) implies b.contains(i) by {
            if i == n - 1 {
                assert(b[b.len() - 1] == i);
            } else {
                let k = choose|k: int| 0 <= k < a.len() && a[k] == i;
                assert(b[k] == i);
            }
        }
    }
}

/// An update gives an entity each part that it names, and leaves every other part
/// as it was.
pub proof fn law_update_gives_what_it_names(e: EntityView, u: EntityUpdate)
    ensures
        ({
            let after = entity_updated(e, u);
            &&& match u.name {
                Some(s) => after.name == s@,
                None => after.name == e.name,
            }
            &&& match u.description {
                Some(s) => after.description == s@,
                None => after.description == e.description,
            }
            &&& match u.x {
                Some(x) => after.x == x,
                None => after.x == e.x,
            }
            &&& match u.y {
                Some(y) => after.y == y,
                None => after.y == e.y,
            }
            &&& match u.tags {
                Some(t) => after.tags.len() == t@.len() && forall|i: int|
                    0 <= i < t@.len() ==> after.tags[i] == (#[trigger] t@[i])@,
                None => after.tags == e.tags,
            }
            &&& after.id == e.id
            &&& after.entity_type == e.entity_type
            &&& after.ints == e.ints
            &&& after.reals == e.reals
            &&& after.strings == e.strings
            &&& after.history_summary == e.history_summary
            &&& after.history == e.history
        }),
{
}

/// What an entity shows is what its fields hold.
pub proof fn law_entity_shows_its_fields(e: WorldEntity)
    ensures
        e@.id == e.id,
        e@.entity_type == e.entity_type@,
        e@.name == e.name@,
        e@.description == e.description@,
        e@.x == e.x,
        e@.y == e.y,
        e@.tags.len() == e.tags@.len(),
        forall|i: int| 0 <= i < e.tags@.len() ==> e@.tags[i] == (#[trigger] e.tags@[i])@,
        e@.ints == e.properties_int@,
        e@.reals == e.properties_float@,
        e@.strings.dom() == e.properties_string@.dom(),
        forall|k: Seq<char>| #[trigger]
            e.properties_string@.contains_key(k) ==> e@.strings[k] == e.properties_string@[k]@,
        match e.history_summary {
            Some(s) => e@.history_summary == Some(s@),
            None => e@.history_summary is None,
        },
        e@.history.len() == e.history@.len(),
        forall|i: int|
            0 <= i < e.history@.len() ==> {
                let r = #[trigger] e.history@[i];
                &&& e@.history[i].at == r.at
                &&& e@.history[i].action == r.action@
                &&& e@.history[i].narrative == r.narrative@
                &&& e@.history[i].outcome == r.outcome@
            },
{
    assert(e@.strings.dom() =~= e.properties_string@.dom());
}

/// What a world shows is what its fields hold.
pub proof fn law_world_shows_its_fields(w: World)
    ensures
        w@.name == w.name@,
        w@.description == w.description@,
        w@.entities.len() == w.entities@.len(),
        forall|i: int|
            0 <= i < w.entities@.len() ==> w@.entities[i] == (#[trigger] w.entities@[i])@,
        w@.ints == w.properties_int@,
        w@.reals == w.properties_float@,
        w@.strings.dom() == w.properties_string@.dom(),
        forall|k: Seq<char>| #[trigger]
            w.properties_string@.contains_key(k) ==> w@.strings[k] == w.properties_string@[k]@,
        w@.events.len() == w.active_events@.len(),
        forall|i: int|
            0 <= i < w.active_events@.len() ==> {
                let e = #[trigger] w.active_events@[i];
                &&& w@.events[i].id == e.id@
                &&& w@.events[i].name == e.name@
                &&& w@.events[i].description == e.description@
                &&& w@.events[i].influence == e.influence@
                &&& w@.events[i].active == e.active
            },
        w@.action_count == w.action_count,
        w@.summary_cap == w.max_history_summary_chars,
        w.wf() <==> forall|i: int, j: int|
            0 <= i < j < w.entities@.len() ==> (#[trigger] w.entities@[i]).id != (
            #[trigger] w.entities@[j]).id,
{
    reveal(distinct_ids);
    assert(w@.strings.dom() =~= w.properties_string@.dom());
    if w.wf() {
        assert forall|i: int, j: int| 0 <= i < j < w.entities@.len() implies (
        #[trigger] w.entities@[i]).id != (#[trigger] w.entities@[j]).id by {
            assert(w@.entities[i].id != w@.entities[j].id);
        }
    }
}

/// An update gives an event each part that it names, and leaves every other part,
/// and its id, as it was.
pub proof fn law_event_update_gives_what_it_names(
    e: EventView,
    name: Option<Seq<char>>,
    description: Option<Seq<char>>,
    influence: Option<Seq<char>>,
    active: Option<bool>,
)
    ensures
        ({
            let after = event_updated(e, name, description, influence, active);
            &&& after.id == e.id
            &&& name is Some ==> after.name == name->0
            &&& name is None ==> after.name == e.name
            &&& description is Some ==> after.description == description->0
            &&& description is None ==> after.description == e.description
            &&& influence is Some ==> after.influence == influence->0
            &&& influence is None ==> after.influence == e.influence
            &&& active is Some ==> after.active == active->0
            &&& active is None ==> after.active == e.active
        }),
{
}

/// What is given is taken, and what was there stays where nothing is given.
pub proof fn law_given_or(given: Seq<char>, was: Seq<char>)
    ensures
        given_or(Some(given), was) == given,
        given_or(None, was) == was,
{
}

/// An event is found at the first place that has its id, and nowhere where no
/// event has it.
pub proof fn law_event_is_found(s: Seq<EventView>, id: Seq<char>)
    ensures
        match event_from(s, id, 0) {
            Some(i) => 0 <= i < s.len() && s[i].id == id && forall|j: int|
                0 <= j < i ==> (#[trigger] s[j]).id != id,
            None => forall|j: int| 0 <= j < s.len() ==> (#[trigger] s[j]).id != id,
        },
{
    lemma_event_from(s, id, 0);
    if let Some(i) = event_from(s, id, 0) {
        lemma_first_event(s, id, 0, i);
    }
}

proof fn lemma_first_event(s: Seq<EventView>, id: Seq<char>, i: int, k: int)
    requires
        0 <= i,
        event_from(s, id, i) == Some(k),
    ensures
        forall|j: int| i <= j < k ==> (#[trigger] s[j]).id != id,
    decreases s.len() - i,
{
    if i < s.len() && s[i].id != id {
        lemma_first_event(s, id, i + 1, k);
    }
}

/// An entity is found at the first place that has its id, and nowhere where no
/// entity has it.
pub proof fn law_entity_is_found(s: Seq<EntityView>, id: u128)
    ensures
        match entity_at(s, id) {
            Some(i) => 0 <= i < s.len() && s[i].id == id && forall|j: int|
                0 <= j < i ==> (#[trigger] s[j]).id != id,
            None => forall|j: int| 0 <= j < s.len() ==> (#[trigger] s[j]).id != id,
        },
{
    lemma_entity_from(s, id, 0);
    if let Some(i) = entity_at(s, id) {
        lemma_first_entity(s, id, 0, i);
    }
}

/// Adding an entity makes one more of them, at the end, where none has its id;
/// else it takes the place of the one with its id, and there are as many as
/// before.
pub proof fn law_adding_makes_one_more(s: Seq<EntityView>, e: EntityView)
    ensures
        (forall|j: int| 0 <= j < s.len() ==> (#[trigger] s[j]).id != e.id) ==> with_entity(s, e)
            == s.push(e),
        (exists|j: int| 0 <= j < s.len() && (#[trigger] s[j]).id == e.id) ==> with_entity(s, e).len()
            == s.len(),
        forall|j: int| 0 <= j < s.len() && (#[trigger] s[j]).id == e.id && distinct_ids(s)
            ==> with_entity(s, e) == s.update(j, e),
{
    law_entity_is_found(s, e.id);
    reveal(distinct_ids);
    if let Some(i) = entity_at(s, e.id) {
        assert forall|j: int|
            0 <= j < s.len() && (#[trigger] s[j]).id == e.id && distinct_ids(s) implies with_entity(
            s,
            e,
        ) == s.update(j, e) by {
            if i < j {
                assert(s[i].id != s[j].id);
            } else if j < i {
                assert(s[j].id != s[i].id);
            }
        }
    }
}

/// Of the pairs that are put into a map, the last one of a name is what the map
/// holds under that name.
pub proof fn law_last_pair_counts<V>(m: Map<Seq<char>, V>, pairs: Seq<(String, V)>, i: int)
    requires
        0 <= i < pairs.len(),
        forall|j: int| i < j < pairs.len() ==> (#[trigger] pairs[j]).0@ != pairs[i].0@,
    ensures
        put_all(m, pairs).contains_key(pairs[i].0@),
        put_all(m, pairs)[pairs[i].0@] == pairs[i].1,
    decreases pairs.len(),
{
    let d = pairs.drop_last();
    let last = pairs.len() - 1;
    if i < last {
        assert(pairs[last].0@ != pairs[i].0@);
        assert(d[i] == pairs[i]);
        assert forall|j: int| i < j < d.len() implies (#[trigger] d[j]).0@ != d[i].0@ by {
            assert(d[j] == pairs[j]);
        }
        law_last_pair_counts(m, d, i);
    }
}

/// A name that no pair has is in the map as it was.
pub proof fn law_other_names_stay<V>(m: Map<Seq<char>, V>, pairs: Seq<(String, V)>, k: Seq<char>)
    requires
        forall|i: int| 0 <= i < pairs.len() ==> (#[trigger] pairs[i]).0@ != k,
    ensures
        put_all(m, pairs).contains_key(k) <==> m.contains_key(k),
        put_all(m, pairs)[k] == m[k],
    decreases pairs.len(),
{
    if pairs.len() > 0 {
        let d = pairs.drop_last();
        assert(pairs[pairs.len() - 1].0@ != k);
        assert forall|i: int| 0 <= i < d.len() implies (#[trigger] d[i]).0@ != k by {
            assert(d[i] == pairs[i]);
        }
        law_other_names_stay(m, d, k);
    }
}

/// Of the texts that are put into a map, the last one of a name is what the map
/// holds under that name.
pub proof fn law_last_text_counts(m: Map<Seq<char>, Seq<char>>, pairs: Seq<(String, String)>, i: int)
    requires
        0 <= i < pairs.len(),
        forall|j: int| i < j < pairs.len() ==> (#[trigger] pairs[j]).0@ != pairs[i].0@,
    ensures
        put_all_texts(m, pairs).contains_key(pairs[i].0@),
        put_all_texts(m, pairs)[pairs[i].0@] == pairs[i].1@,
    decreases pairs.len(),
{
    let d = pairs.drop_last();
    let last = pairs.len() - 1;
    if i < last {
        assert(pairs[last].0@ != pairs[i].0@);
        assert(d[i] == pairs[i]);
        assert forall|j: int| i < j < d.len() implies (#[trigger] d[j]).0@ != d[i].0@ by {
            assert(d[j] == pairs[j]);
        }
        law_last_text_counts(m, d, i);
    }
}

/// A name that no text is put under is in the map as it was.
pub proof fn law_other_texts_stay(m: Map<Seq<char>, Seq<char>>, pairs: Seq<(String, String)>, k: Seq<char>)
    requires
        forall|i: int| 0 <= i < pairs.len() ==> (#[trigger] pairs[i]).0@ != k,
    ensures
        put_all_texts(m, pairs).contains_key(k) <==> m.contains_key(k),
        put_all_texts(m, pairs)[k] == m[k],
    decreases pairs.len(),
{
    if pairs.len() > 0 {
        let d = pairs.drop_last();
        assert(pairs[pairs.len() - 1].0@ != k);
        assert forall|i: int| 0 <= i < d.len() implies (#[trigger] d[i]).0@ != k by {
            assert(d[i] == pairs[i]);
        }
        law_other_texts_stay(m, d, k);
    }
}

/// Giving tags one after the other gives each of them once, after those that were
/// there, and no other.
pub proof fn law_tags_are_given(tags: Seq<Seq<char>>, more: Seq<Seq<char>>, n: int)
    requires
        0 <= n <= more.len(),
    ensures
        tags.is_prefix_of(with_tags(tags, more, n)),
        forall|t: Seq<char>| #[trigger]
            with_tags(tags, more, n).contains(t) <==> tags.contains(t) || exists|i: int|
                0 <= i < n && #[trigger] more[i] == t,
        tags.no_duplicates() ==> with_tags(tags, more, n).no_duplicates(),
    decreases n,
{
    let all = with_tags(tags, more, n);
    if n <= 0 {
        assert(tags.is_prefix_of(all));
    } else {
        law_tags_are_given(tags, more, n - 1);
        let before = with_tags(tags, more, n - 1);
        let t = more[n - 1];
        law_add_tag(before, t);
        assert forall|u: Seq<char>| #[trigger] all.contains(u) <==> tags.contains(u) || exists|i: int|
            0 <= i < n && #[trigger] more[i] == u by {
            if u == t {
                assert(more[n - 1] == u);
            } else {
                assert(before.contains(u) <==> tags.contains(u) || exists|i: int|
                    0 <= i < n - 1 && #[trigger] more[i] == u);
            }
        }
        assert(before.is_prefix_of(all));
        if tags.no_duplicates() && !before.contains(t) {
            assert forall|i: int, j: int| 0 <= i < all.len() && 0 <= j < all.len() && i != j implies all[i]
                != all[j] by {
                if i < before.len() {
                    assert(before.contains(before[i]));
                }
                if j < before.len() {
                    assert(before.contains(before[j]));
                }
            }
        }
    }
}

/// The first of some are a beginning: all of them, or as many as the limit says.
pub proof fn law_at_most<T>(s: Seq<T>, limit: int)
    requires
        limit >= 0,
    ensures
        at_most(s, limit).is_prefix_of(s),
        at_most(s, limit).len() <= limit,
        at_most(s, limit).len() == s.len() || at_most(s, limit).len() == limit,
{
    let r = at_most(s, limit);
    assert(r =~= s.subrange(0, r.len() as int));
}

/// A search looks for what the query names, and nothing else: a part of the
/// lower-case name, the very type, every tag of the list without the white space
/// around it, and system entities alone, or none of them.
pub proof fn law_search_criteria(e: EntityView, q: SearchQuery, lower: Seq<char>, part: Option<
    Seq<char>,
>)
    ensures
        wanted(e, q, lower, part) <==> {
            &&& part is Some ==> exists|i: int|
                0 <= i && i + part->0.len() <= lower.len() && #[trigger] lower.subrange(
                    i,
                    i + part->0.len(),
                ) == part->0
            &&& q.entity_type is Some ==> e.entity_type == q.entity_type->0@
            &&& q.tags is Some ==> forall|i: int|
                0 <= i < pieces_of(q.tags->0@, ',').len() ==> e.tags.contains(
                    trimmed(#[trigger] pieces_of(q.tags->0@, ',')[i]),
                )
            &&& q.system == Some(true) ==> e.is_system()
            &&& q.system != Some(true) && q.include_system == Some(false) ==> !e.is_system()
        },
        e.is_system() <==> e.entity_type == "world_clock"@ || e.entity_type == "abstract"@
            || e.tags.contains("meta"@),
{
    if let Some(p) = part {
        law_first_occurrence(lower, p);
        if let Some(i) = first_occurrence(lower, p) {
            assert(lower.subrange(i, i + p.len()) =~= p);
        }
    }
}

/// What is listed is in order, is wanted and near enough, and is no more than the
/// limit; where it is less than the limit, nothing that is wanted is left out.
pub proof fn law_listing_is_complete(
    entities: Seq<EntityView>,
    q: SearchQuery,
    near: Option<Seq<bool>>,
    limit: int,
)
    requires
        limit >= 0,
    ensures
        ({
            let r = at_most(found_in(entities, q, near, entities.len() as int), limit);
            let fits = |i: int|
                wanted(
                    entities[i],
                    q,
                    lowercase(entities[i].name),
                    match q.q {
                        Some(s) => Some(lowercase(s@)),
                        None => None,
                    },
                ) && (near is Some ==> near->0[i]);
            &&& r.len() <= limit
            &&& forall|k: int|
                0 <= k < r.len() ==> 0 <= #[trigger] r[k] < entities.len() && fits(r[k])
            &&& forall|k: int, l: int| 0 <= k < l < r.len() ==> r[k] < r[l]
            &&& forall|i: int|
                0 <= i < entities.len() && #[trigger] fits(i) && !r.contains(i) ==> r.len() == limit
                    && (forall|k: int| 0 <= k < r.len() ==> #[trigger] r[k] < i)
        }),
{
    let n = entities.len() as int;
    let all = found_in(entities, q, near, n);
    let r = at_most(all, limit);
    law_found_are_wanted(entities, q, near, n);
    law_at_most(all, limit);
    assert forall|k: int| 0 <= k < r.len() implies #[trigger] r[k] == all[k] by {}
    let fits = |i: int|
        wanted(
            entities[i],
            q,
            lowercase(entities[i].name),
            match q.q {
                Some(s) => Some(lowercase(s@)),
                None => None,
            },
        ) && (near is Some ==> near->0[i]);
    assert forall|i: int|
        0 <= i < entities.len() && #[trigger] fits(i) && !r.contains(i) implies r.len() == limit && (
    forall|k: int| 0 <= k < r.len() ==> #[trigger] r[k] < i) by {
        assert(found_at(entities, q, near, i));
        assert(all.contains(i));
        let m = choose|m: int| 0 <= m < all.len() && all[m] == i;
        if m < r.len() {
            assert(r[m] == i);
        }
        assert forall|k: int| 0 <= k < r.len() implies #[trigger] r[k] < i by {
            assert(all[k] < all[m]);
        }
    }
}

/// The entries that touched an entity are those of others in which some effect
/// has the entity's name before a dot; they are listed in order, each once.
pub proof fn law_touching(
    entries: Seq<HistoryEntry>,
    entity_id: Seq<char>,
    entity_name: Seq<char>,
    n: int,
)
    requires
        0 <= n <= entries.len(),
    ensures
        ({
            let r = touching(entries, entity_id, entity_name, n);
            &&& forall|k: int, l: int| 0 <= k < l < r.len() ==> r[k] < r[l]
            &&& forall|k: int| 0 <= k < r.len() ==> 0 <= #[trigger] r[k] < n
            &&& forall|i: int| #![trigger entries[i]]
                0 <= i < n ==> (r.contains(i) <==> entries[i].entity_id@ != entity_id && exists|k: int|
                    0 <= k < entries[i].effect_keys@.len() && {
                        let key = (#[trigger] entries[i].effect_keys@[k])@;
                        &&& key.len() > entity_name.len()
                        &&& key.take(entity_name.len() as int) == entity_name
                        &&& key[entity_name.len() as int] == '.'
                    })
        }),
    decreases n,
{
    let r = touching(entries, entity_id, entity_name, n);
    if n > 0 {
        law_touching(entries, entity_id, entity_name, n - 1);
        let before = touching(entries, entity_id, entity_name, n - 1);
        let e = entries[n - 1];
        lemma_touches(e, entity_id, entity_name);
        assert forall|i: int| 0 <= i < n implies (#[trigger] r.contains(i) <==> (before.contains(i)
            || i == n - 1 && touches(e, entity_id, entity_name))) by {
            if before.contains(i) {
                let k = choose|k: int| 0 <= k < before.len() && before[k] == i;
                assert(r[k] == i);
            }
            if i == n - 1 && touches(e, entity_id, entity_name) {
                assert(r[r.len() - 1] == i);
            }
            if r.contains(i) {
                let k = choose|k: int| 0 <= k < r.len() && r[k] == i;
                if k < before.len() {
                    assert(before[k] == i);
                }
            }
        }
        if before.contains(n - 1) {
            let k = choose|k: int| 0 <= k < before.len() && before[k] == n - 1;
            assert(before[k] < n - 1);
        }
    }
}

proof fn lemma_touches(e: HistoryEntry, entity_id: Seq<char>, entity_name: Seq<char>)
    ensures
        touches(e, entity_id, entity_name) <==> e.entity_id@ != entity_id && exists|k: int|
            0 <= k < e.effect_keys@.len() && {
                let key = (#[trigger] e.effect_keys@[k])@;
                &&& key.len() > entity_name.len()
                &&& key.take(entity_name.len() as int) == entity_name
                &&& key[entity_name.len() as int] == '.'
            },
{
    reveal_strlit(".");
    let n = entity_name.len() as int;
    let prefix = entity_name + "."@;
    assert forall|k: int| 0 <= k < e.effect_keys@.len() implies (begins_with(
        #[trigger] texts(e.effect_keys@)[k],
        prefix,
    ) <==> ({
        let key = e.effect_keys@[k]@;
        &&& key.len() > n
        &&& key.take(n) == entity_name
        &&& key[n] == '.'
    })) by {
        let key = e.effect_keys@[k]@;
        if begins_with(key, prefix) {
            assert(key.subrange(0, prefix.len() as int) =~= prefix);
            assert(key.take(n) =~= entity_name) by {
                assert forall|j: int| 0 <= j < n implies key[j] == entity_name[j] by {
                    assert(key.subrange(0, prefix.len() as int)[j] == prefix[j]);
                }
            }
            assert(key.subrange(0, prefix.len() as int)[n] == prefix[n]);
        }
        if key.len() > n && key.take(n) == entity_name && key[n] == '.' {
            assert forall|j: int| 0 <= j < prefix.len() implies key.subrange(
                0,
                prefix.len() as int,
            )[j] == prefix[j] by {
                if j < n {
                    assert(key.take(n)[j] == entity_name[j]);
                }
            }
            assert(key.subrange(0, prefix.len() as int) =~= prefix);
        }
    }
    if touches(e, entity_id, entity_name) {
        let k = choose|k: int|
            0 <= k < e.effect_keys@.len() && begins_with(
                (#[trigger] texts(e.effect_keys@)[k]),
                prefix,
            );
        assert(e.effect_keys@[k]@ == texts(e.effect_keys@)[k]);
    }
    if exists|k: int|
        0 <= k < e.effect_keys@.len() && {
            let key = (#[trigger] e.effect_keys@[k])@;
            &&& key.len() > n
            &&& key.take(n) == entity_name
            &&& key[n] == '.'
        } {
        let k = choose|k: int|
            0 <= k < e.effect_keys@.len() && {
                let key = (#[trigger] e.effect_keys@[k])@;
                &&& key.len() > n
                &&& key.take(n) == entity_name
                &&& key[n] == '.'
            };
        assert(begins_with(texts(e.effect_keys@)[k], prefix));
    }
}

} // verus!
