//! What an entity that is to act is told of the latest actions of others.
use vstd::prelude::*;

use crate::apply_all::entity_views;
use crate::entity::{EntityView, WorldEntity};
use crate::ids::{uuid_form, uuid_text};
use crate::text::same_text;
use crate::world::{at_most, HistoryEntry};

verus! {

/// Of how many actions an entity is told at most.
pub const MAX_TOLD: usize = 10;

/// The id, as a text, is that of an entity that is part of the machinery of the
/// world.
pub open spec fn names_system(entities: Seq<EntityView>, id: Seq<char>) -> bool {
    exists|i: int|
        0 <= i < entities.len() && uuid_form((#[trigger] entities[i]).id) == id
            && entities[i].is_system()
}

/// An action of someone else that an entity has not been told of: one after the
/// tick `marker`, and not of the machinery of the world.
pub open spec fn unprocessed(
    e: HistoryEntry,
    entities: Seq<EntityView>,
    entity_id: Seq<char>,
    marker: i64,
) -> bool {
    e.tick > marker && e.entity_id@ != entity_id && !names_system(entities, e.entity_id@)
}

/// The places of such actions among the first `n` entries.
pub open spec fn unprocessed_among(
    entries: Seq<HistoryEntry>,
    entities: Seq<EntityView>,
    entity_id: Seq<char>,
    marker: i64,
    n: int,
) -> Seq<int>
    decreases n,
{
    if n <= 0 {
        Seq::empty()
    } else if unprocessed(entries[n - 1], entities, entity_id, marker) {
        unprocessed_among(entries, entities, entity_id, marker, n - 1).push(n - 1)
    } else {
        unprocessed_among(entries, entities, entity_id, marker, n - 1)
    }
}

/// The places of the actions that an entity is told of, where the entries come
/// with the most recent first.
pub open spec fn told_of(
    entries: Seq<HistoryEntry>,
    entities: Seq<EntityView>,
    entity_id: Seq<char>,
    marker: i64,
) -> Seq<int> {
    at_most(
        unprocessed_among(entries, entities, entity_id, marker, entries.len() as int),
        MAX_TOLD as int,
    )
}

/// The greatest tick of the entries at some places; 0 where there are none.
pub open spec fn greatest_tick(entries: Seq<HistoryEntry>, places: Seq<int>) -> i64
    decreases places.len(),
{
    if places.len() == 0 {
        0
    } else {
        let rest = greatest_tick(entries, places.drop_last());
        let tick = entries[places.last()].tick;
        if places.len() == 1 || tick > rest {
            tick
        } else {
            rest
        }
    }
}

/// Numbers as integers.
pub open spec fn as_places(v: Seq<usize>) -> Seq<int> {
    Seq::new(v.len(), |i: int| v[i] as int)
}

fn is_of_system(entities: &Vec<WorldEntity>, id: &str) -> (r: bool)
    ensures
        r == names_system(entity_views(entities@), id@),
{
    let ghost all = entity_views(entities@);
    let mut i: usize = 0;
    while i < entities.len()
        invariant
            i <= entities@.len(),
            all == entity_views(entities@),
            forall|j: int|
                0 <= j < i ==> !(uuid_form((#[trigger] all[j]).id) == id@ && all[j].is_system()),
        decreases entities.len() - i,
    {
        assert(all[i as int] == entities@[i as int]@);
        if same_text(uuid_text(entities[i].id).as_str(), id) && entities[i].is_system_entity() {
            return true;
        }
        i = i + 1;
    }
    false
}

/// The places of the actions of others that an entity is told of before it acts:
/// those after the tick `marker`, without those of the machinery of the world,
/// and no more than the most recent ones. The entries come with the most recent
/// first.
pub fn unprocessed_actions(
    entries: &Vec<HistoryEntry>,
    entities: &Vec<WorldEntity>,
    entity_id: &str,
    marker: i64,
) -> (r: Vec<usize>)
    ensures
        as_places(r@) == told_of(entries@, entity_views(entities@), entity_id@, marker),
        forall|i: int| 0 <= i < r@.len() ==> (#[trigger] r@[i]) < entries@.len(),
{
    let ghost all = entity_views(entities@);
    let mut out: Vec<usize> = Vec::new();
    let mut i: usize = 0;
    assert(as_places(out@) =~= Seq::empty());
    while i < entries.len()
        invariant
            i <= entries@.len(),
            all == entity_views(entities@),
            as_places(out@) == unprocessed_among(entries@, all, entity_id@, marker, i as int),
            forall|j: int| 0 <= j < out@.len() ==> (#[trigger] out@[j]) < i,
        decreases entries.len() - i,
    {
        let ghost before = out@;
        let e = &entries[i];
        if e.tick > marker && !same_text(e.entity_id.as_str(), entity_id) && !is_of_system(
            entities,
            e.entity_id.as_str(),
        ) {
            out.push(i);
            assert(as_places(out@) =~= as_places(before).push(i as int));
        }
        i = i + 1;
    }
    let ghost full = out@;
    if out.len() > MAX_TOLD {
        out.truncate(MAX_TOLD);
        assert(as_places(out@) =~= as_places(full).take(MAX_TOLD as int));
    }
    out
}

/// The tick up to which an entity has been told of the actions of others, once it
/// was told of those after the tick `marker`; 0 where there are none.
pub fn compute_max_unprocessed_tick(
    entries: &Vec<HistoryEntry>,
    entities: &Vec<WorldEntity>,
    entity_id: &str,
    marker: i64,
) -> (r: i64)
    ensures
        r == greatest_tick(
            entries@,
            told_of(entries@, entity_views(entities@), entity_id@, marker),
        ),
{
    let told = unprocessed_actions(entries, entities, entity_id, marker);
    let ghost all = as_places(told@);
    let mut tick: i64 = 0;
    let mut i: usize = 0;
    while i < told.len()
        invariant
            i <= told@.len(),
            all == as_places(told@),
            forall|j: int| 0 <= j < told@.len() ==> (#[trigger] told@[j]) < entries@.len(),
            tick == greatest_tick(entries@, all.take(i as int)),
        decreases told.len() - i,
    {
        assert(all.take(i + 1).drop_last() =~= all.take(i as int));
        let t: i64 = entries[told[i]].tick;
        if i == 0 || t > tick {
            tick = t;
        }
        i = i + 1;
    }
    assert(all.take(i as int) =~= all);
    tick
}

// ---------------------------------------------------------------------------
// Laws
// ---------------------------------------------------------------------------
proof fn lemma_among(
    entries: Seq<HistoryEntry>,
    entities: Seq<EntityView>,
    entity_id: Seq<char>,
    marker: i64,
    n: int,
)
    requires
        n <= entries.len(),
    ensures
        forall|k: int|
            0 <= k < unprocessed_among(entries, entities, entity_id, marker, n).len() ==> 0
                <= #[trigger] unprocessed_among(entries, entities, entity_id, marker, n)[k] < n
                && unprocessed(
                entries[unprocessed_among(entries, entities, entity_id, marker, n)[k]],
                entities,
                entity_id,
                marker,
            ),
    decreases n,
{
    if n > 0 {
        lemma_among(entries, entities, entity_id, marker, n - 1);
        let rest = unprocessed_among(entries, entities, entity_id, marker, n - 1);
        let all = unprocessed_among(entries, entities, entity_id, marker, n);
        assert forall|k: int| 0 <= k < all.len() implies 0 <= #[trigger] all[k] < n && unprocessed(
            entries[all[k]],
            entities,
            entity_id,
            marker,
        ) by {
            if k < rest.len() {
                assert(all[k] == rest[k]);
            }
        }
    }
}

proof fn lemma_greatest(entries: Seq<HistoryEntry>, places: Seq<int>)
    ensures
        forall|k: int|
            0 <= k < places.len() ==> entries[#[trigger] places[k]].tick <= greatest_tick(
                entries,
                places,
            ),
        places.len() > 0 ==> exists|k: int|
            0 <= k < places.len() && entries[#[trigger] places[k]].tick == greatest_tick(
                entries,
                places,
            ),
    decreases places.len(),
{
    if places.len() > 0 {
        let rest = places.drop_last();
        lemma_greatest(entries, rest);
        let last = places.len() - 1;
        assert forall|k: int| 0 <= k < places.len() implies entries[#[trigger] places[k]].tick
            <= greatest_tick(entries, places) by {
            if k < last {
                assert(rest[k] == places[k]);
            }
        }
        if greatest_tick(entries, places) != entries[places[last]].tick {
            let k = choose|k: int|
                0 <= k < rest.len() && entries[#[trigger] rest[k]].tick == greatest_tick(
                    entries,
                    rest,
                );
            assert(places[k] == rest[k]);
        }
    }
}

/// An entity is told of the actions of others only, of no more than `MAX_TOLD`,
/// and of none twice: once the marker stands at the tick that comes out, none of
/// those actions is left. The marker only goes forward.
pub proof fn law_nothing_is_told_twice(
    entries: Seq<HistoryEntry>,
    entities: Seq<EntityView>,
    entity_id: Seq<char>,
    marker: i64,
)
    requires
        marker >= 0,
    ensures
        ({
            let told = told_of(entries, entities, entity_id, marker);
            let tick = greatest_tick(entries, told);
            &&& told.len() <= MAX_TOLD
            &&& tick == 0 <==> told.len() == 0
            &&& told.len() > 0 ==> tick > marker
            &&& forall|k: int|
                0 <= k < told.len() ==> {
                    let e = entries[#[trigger] told[k]];
                    &&& unprocessed(e, entities, entity_id, marker)
                    &&& !unprocessed(e, entities, entity_id, tick)
                }
        }),
{
    let all = unprocessed_among(entries, entities, entity_id, marker, entries.len() as int);
    let told = told_of(entries, entities, entity_id, marker);
    lemma_among(entries, entities, entity_id, marker, entries.len() as int);
    lemma_greatest(entries, told);
    assert forall|k: int| 0 <= k < told.len() implies unprocessed(
        entries[#[trigger] told[k]],
        entities,
        entity_id,
        marker,
    ) by {
        assert(told[k] == all[k]);
    }
}

proof fn lemma_all_among(
    entries: Seq<HistoryEntry>,
    entities: Seq<EntityView>,
    entity_id: Seq<char>,
    marker: i64,
    n: int,
    p: int,
)
    requires
        0 <= p < n <= entries.len(),
        unprocessed(entries[p], entities, entity_id, marker),
    ensures
        unprocessed_among(entries, entities, entity_id, marker, n).contains(p),
    decreases n,
{
    let all = unprocessed_among(entries, entities, entity_id, marker, n);
    if p == n - 1 {
        assert(all[all.len() - 1] == p);
    } else {
        lemma_all_among(entries, entities, entity_id, marker, n - 1, p);
        let rest = unprocessed_among(entries, entities, entity_id, marker, n - 1);
        let k = choose|k: int| 0 <= k < rest.len() && rest[k] == p;
        assert(all[k] == p);
    }
}

proof fn lemma_among_ascends(
    entries: Seq<HistoryEntry>,
    entities: Seq<EntityView>,
    entity_id: Seq<char>,
    marker: i64,
    n: int,
)
    requires
        n <= entries.len(),
    ensures
        forall|a: int, b: int|
            0 <= a < b < unprocessed_among(entries, entities, entity_id, marker, n).len()
                ==> #[trigger] unprocessed_among(entries, entities, entity_id, marker, n)[a]
                < #[trigger] unprocessed_among(entries, entities, entity_id, marker, n)[b],
    decreases n,
{
    if n > 0 {
        lemma_among_ascends(entries, entities, entity_id, marker, n - 1);
        lemma_among(entries, entities, entity_id, marker, n - 1);
        let rest = unprocessed_among(entries, entities, entity_id, marker, n - 1);
        let all = unprocessed_among(entries, entities, entity_id, marker, n);
        assert forall|a: int, b: int| 0 <= a < b < all.len() implies #[trigger] all[a]
            < #[trigger] all[b] by {
            assert(all[a] == rest[a]);
            if b < rest.len() {
                assert(all[b] == rest[b]);
            }
        }
    }
}

/// An action is new to an entity where it is later than the marker, of someone
/// else, and of no entity that is protected.
pub proof fn law_new_actions(
    e: HistoryEntry,
    entities: Seq<EntityView>,
    entity_id: Seq<char>,
    marker: i64,
    i: int,
)
    requires
        0 <= i < entities.len(),
    ensures
        unprocessed(e, entities, entity_id, marker) ==> e.tick > marker && e.entity_id@ != entity_id,
        unprocessed(e, entities, entity_id, marker) && uuid_form(entities[i].id) == e.entity_id@
            ==> entities[i].entity_type != "world_clock"@ && entities[i].entity_type != "abstract"@
            && !entities[i].tags.contains("meta"@),
        e.tick > marker && e.entity_id@ != entity_id && (forall|j: int|
            0 <= j < entities.len() && uuid_form((#[trigger] entities[j]).id) == e.entity_id@
                ==> entities[j].entity_type != "world_clock"@ && entities[j].entity_type
                != "abstract"@ && !entities[j].tags.contains("meta"@)) ==> unprocessed(
            e,
            entities,
            entity_id,
            marker,
        ),
{
}

/// An entity is told of new actions in the order of the entries, the first ones
/// first: a new action that it is not told of comes behind ten that it is told
/// of. The tick that comes out is that of one of them.
pub proof fn law_first_new_actions_are_told(
    entries: Seq<HistoryEntry>,
    entities: Seq<EntityView>,
    entity_id: Seq<char>,
    marker: i64,
    p: int,
)
    requires
        0 <= p < entries.len(),
    ensures
        ({
            let told = told_of(entries, entities, entity_id, marker);
            &&& forall|a: int, b: int|
                0 <= a < b < told.len() ==> #[trigger] told[a] < #[trigger] told[b]
            &&& forall|a: int|
                0 <= a < told.len() ==> 0 <= #[trigger] told[a] < entries.len() && unprocessed(
                    entries[told[a]],
                    entities,
                    entity_id,
                    marker,
                )
            &&& unprocessed(entries[p], entities, entity_id, marker) && !told.contains(p)
                ==> told.len() == 10 && forall|a: int| 0 <= a < 10 ==> #[trigger] told[a] < p
            &&& told.len() > 0 ==> exists|a: int|
                0 <= a < told.len() && entries[#[trigger] told[a]].tick == greatest_tick(
                    entries,
                    told,
                )
        }),
{
    let n = entries.len() as int;
    let all = unprocessed_among(entries, entities, entity_id, marker, n);
    let told = told_of(entries, entities, entity_id, marker);
    lemma_among(entries, entities, entity_id, marker, n);
    lemma_among_ascends(entries, entities, entity_id, marker, n);
    lemma_greatest(entries, told);
    assert forall|a: int| 0 <= a < told.len() implies #[trigger] told[a] == all[a] by {}
    assert forall|a: int| 0 <= a < told.len() implies 0 <= #[trigger] told[a] < entries.len()
        && unprocessed(entries[told[a]], entities, entity_id, marker) by {
        assert(told[a] == all[a]);
    }
    assert forall|a: int, b: int| 0 <= a < b < told.len() implies #[trigger] told[a]
        < #[trigger] told[b] by {
        assert(told[a] == all[a] && told[b] == all[b]);
    }
    if unprocessed(entries[p], entities, entity_id, marker) && !told.contains(p) {
        lemma_all_among(entries, entities, entity_id, marker, n, p);
        let k = choose|k: int| 0 <= k < all.len() && all[k] == p;
        if k < told.len() {
            assert(told[k] == p);
        }
        assert forall|a: int| 0 <= a < 10 implies #[trigger] told[a] < p by {
            assert(told[a] == all[a]);
            assert(all[a] < all[k]);
        }
    }
}

} // verus!
