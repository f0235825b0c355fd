//! The cap on the sum of an entity's integer properties.
use vstd::prelude::*;
use vstd::string::*;

use crate::entity::{
    distinct_names, entries_map, int_or_zero, EntityView, PropertyMap, WorldEntity,
};
use crate::text::{
    contains_text, copied, int_dec, int_text, law_parts_are_found, lemma_texts_push, texts,
};

verus! {

/// How much of the cap each point of power gives.
pub const STATS_CAP_POWER_MULTIPLIER: i64 = 5;

/// What every entity may have.
pub const STATS_CAP_BASE: i64 = 100;

/// The least power that counts for the cap.
pub const STATS_CAP_POWER_FLOOR: i64 = 1;

// ---------------------------------------------------------------------------
// Model
// ---------------------------------------------------------------------------
/// The sum of the values of a finite map.
pub open spec fn total(m: Map<Seq<char>, i64>) -> int
    decreases m.dom().len(),
    when m.dom().finite()
{
    if m.dom().len() == 0 {
        0
    } else {
        let k = m.dom().choose();
        m[k] + total(m.remove(k))
    }
}

/// The cap for an entity of the given power.
pub open spec fn stats_cap(power: int) -> int {
    (if power > 1 {
        power
    } else {
        1
    }) * 5 + 100
}

/// The sum of the values of a list of entries.
spec fn listed_total(s: Seq<(String, i64)>) -> int
    decreases s.len(),
{
    if s.len() == 0 {
        0
    } else {
        listed_total(s.drop_last()) + s.last().1
    }
}

/// Any property can be taken out of the sum first.
pub proof fn lemma_total_remove(m: Map<Seq<char>, i64>, k: Seq<char>)
    requires
        m.dom().finite(),
        m.contains_key(k),
    ensures
        total(m) == m[k] + total(m.remove(k)),
    decreases m.dom().len(),
{
    let c = m.dom().choose();
    assert(m.dom().len() > 0) by {
        if m.dom().len() == 0 {
            assert(m.dom() =~= Set::empty());
            assert(m.dom().contains(k));
        }
    }
    assert(m.dom().contains(c));
    assert(m.remove(c).dom() =~= m.dom().remove(c));
    assert(m.remove(k).dom() =~= m.dom().remove(k));
    if c != k {
        lemma_total_remove(m.remove(c), k);
        lemma_total_remove(m.remove(k), c);
        assert(m.remove(c).remove(k) =~= m.remove(k).remove(c));
    }
}

proof fn lemma_listed_total(s: Seq<(String, i64)>)
    requires
        distinct_names(s),
    ensures
        entries_map(s).dom().finite(),
        listed_total(s) == total(entries_map(s)),
        forall|k: Seq<char>|
            #[trigger] entries_map(s).contains_key(k) ==> exists|i: int|
                0 <= i < s.len() && (#[trigger] s[i]).0@ == k,
    decreases s.len(),
{
    if s.len() == 0 {
        assert(entries_map(s).dom() =~= Set::<Seq<char>>::empty());
    } else {
        let d = s.drop_last();
        assert forall|i: int, j: int| 0 <= i < j < d.len() implies (#[trigger] d[i]).0@ != (
        #[trigger] d[j]).0@ by {
            assert(s[i].0@ != s[j].0@);
        }
        lemma_listed_total(d);
        let m = entries_map(s);
        let k = s.last().0@;
        assert(!entries_map(d).contains_key(k)) by {
            if entries_map(d).contains_key(k) {
                let i = choose|i: int| 0 <= i < d.len() && (#[trigger] d[i]).0@ == k;
                assert(s[i].0@ != s[s.len() - 1].0@);
            }
        }
        assert(m.remove(k) =~= entries_map(d));
        lemma_total_remove(m, k);
        assert forall|q: Seq<char>| #[trigger] m.contains_key(q) implies exists|i: int|
            0 <= i < s.len() && (#[trigger] s[i]).0@ == q by {
            if q == k {
                assert(s[s.len() - 1].0@ == q);
            } else {
                let i = choose|i: int| 0 <= i < d.len() && (#[trigger] d[i]).0@ == q;
                assert(s[i].0@ == q);
            }
        }
    }
}

/// The warning for an entity over its cap.
pub open spec fn cap_warning(name: Seq<char>, sum: int, power: int) -> Seq<char> {
    let cap = stats_cap(power);
    "Stats cap exceeded for '"@ + name + "': sum="@ + int_dec(sum) + " > cap="@ + int_dec(cap)
        + " (overage="@ + int_dec(sum - cap) + ", cap formula = max(1, "@ + int_dec(power)
        + "*5) + 100 = "@ + int_dec(cap) + "). Run `python3 code/normalize_stats.py normalize` to fix."@
}

/// The warnings after the cap of an entity was looked at.
pub open spec fn with_cap_warning(warnings: Seq<Seq<char>>, e: EntityView) -> Seq<Seq<char>> {
    if total(e.ints) > stats_cap(e.power() as int) {
        warnings.push(cap_warning(e.name, total(e.ints), e.power() as int))
    } else {
        warnings
    }
}

// ---------------------------------------------------------------------------
// Functions
// ---------------------------------------------------------------------------
/// The cap for an entity of the given power.
pub fn compute_stats_cap(power: i64) -> (r: i128)
    ensures
        r == stats_cap(power as int),
{
    let floored: i64 = if power > STATS_CAP_POWER_FLOOR {
        power
    } else {
        STATS_CAP_POWER_FLOOR
    };
    let wide: i128 = floored as i128;
    let share: i128 = STATS_CAP_POWER_MULTIPLIER as i128;
    assert(wide * share == wide * 5 && 0 <= wide * 5 <= 5 * 0x7FFF_FFFF_FFFF_FFFF)
        by (nonlinear_arith)
        requires
            share == 5,
            0 <= wide <= 0x7FFF_FFFF_FFFF_FFFF,
    ;
    wide * share + STATS_CAP_BASE as i128
}

/// The signed sum of the values of a property map.
fn sum_of(properties: &PropertyMap<i64>) -> (r: i128)
    ensures
        r == total(properties@),
        properties@.dom().finite(),
{
    let n: usize = properties.len();
    let ghost s = properties.listed();
    let mut sum: i128 = 0;
    let mut i: usize = 0;
    assert(s.take(0) =~= Seq::<(String, i64)>::empty());
    while i < n
        invariant
            i <= n,
            n == s.len(),
            s == properties.listed(),
            sum == listed_total(s.take(i as int)),
            -(i as int) * 0x8000_0000_0000_0000 <= sum <= i as int * 0x8000_0000_0000_0000,
        decreases n - i,
    {
        let v: i64 = *properties.entry(i).1;
        assert(s.take(i + 1).drop_last() =~= s.take(i as int));
        assert(i as int * 0x8000_0000_0000_0000 <= 0xFFFF_FFFF_FFFF_FFFE * 0x8000_0000_0000_0000)
            by (nonlinear_arith)
            requires
                i <= 0xFFFF_FFFF_FFFF_FFFE,
        ;
        sum = sum + v as i128;
        i = i + 1;
    }
    assert(s.take(i as int) =~= s);
    proof {
        lemma_listed_total(s);
    }
    sum
}

/// The signed sum of all integer properties of an entity, its power included.
pub fn stats_sum(entity: &WorldEntity) -> (r: i128)
    ensures
        r == total(entity@.ints),
{
    sum_of(&entity.properties_int)
}

/// The sum and the cap of an entity that is over its cap.
pub fn stats_over_cap(entity: &WorldEntity) -> (r: Option<(i128, i128)>)
    ensures
        match r {
            Some(p) => p.0 == total(entity@.ints) && p.1 == stats_cap(entity@.power() as int)
                && p.0 > p.1,
            None => total(entity@.ints) <= stats_cap(entity@.power() as int),
        },
{
    let cap: i128 = compute_stats_cap(entity.properties_int.get_or_zero("power"));
    let sum: i128 = stats_sum(entity);
    if sum > cap {
        Some((sum, cap))
    } else {
        None
    }
}

/// Scales every integer property of an entity that is over its cap; an entity
/// within its cap stays as it is. `scale` says what a value becomes when a sum
/// is brought down to a cap: it is called with the value, the cap and the sum.
/// The result is the sum and the cap where a change was made.
pub fn normalize_entity_stats<F: Fn(i64, i128, i128) -> i64>(
    entity: &mut WorldEntity,
    scale: &F,
) -> (r: Option<(i128, i128)>)
    requires
        forall|v: i64, cap: i128, sum: i128| #[trigger] scale.requires((v, cap, sum)),
    ensures
        match r {
            Some(p) => {
                &&& p.0 == total(old(entity)@.ints)
                &&& p.1 == stats_cap(old(entity)@.power() as int)
                &&& p.0 > p.1
                &&& final(entity)@ == (EntityView { ints: final(entity)@.ints, ..old(entity)@ })
                &&& final(entity)@.ints.dom() == old(entity)@.ints.dom()
                &&& forall|k: Seq<char>| #[trigger]
                    old(entity)@.ints.contains_key(k) ==> scale.ensures(
                        (old(entity)@.ints[k], p.1, p.0),
                        final(entity)@.ints[k],
                    )
            },
            None => total(old(entity)@.ints) <= stats_cap(old(entity)@.power() as int)
                && *final(entity) == *old(entity),
        },
{
    let (sum, cap) = match stats_over_cap(entity) {
        Some(p) => p,
        None => {
            return None;
        },
    };
    let n: usize = entity.properties_int.len();
    let ghost s = entity.properties_int.listed();
    let ghost before = entity.properties_int@;
    let mut scaled: PropertyMap<i64> = PropertyMap::new();
    let mut i: usize = 0;
    assert(s.take(0) =~= Seq::<(String, i64)>::empty());
    while i < n
        invariant
            i <= n,
            n == s.len(),
            s == entity.properties_int.listed(),
            forall|v: i64, cap: i128, sum: i128| #[trigger] scale.requires((v, cap, sum)),
            scaled@.dom() =~= entries_map(s.take(i as int)).dom(),
            forall|k: Seq<char>| #[trigger]
                scaled@.contains_key(k) ==> scale.ensures(
                    (entries_map(s.take(i as int))[k], cap, sum),
                    scaled@[k],
                ),
        decreases n - i,
    {
        let (name, value) = entity.properties_int.entry(i);
        let v: i64 = *value;
        let after: i64 = scale(v, cap, sum);
        assert(s.take(i + 1).drop_last() =~= s.take(i as int));
        scaled.insert(name, after);
        i = i + 1;
    }
    assert(s.take(i as int) =~= s);
    entity.properties_int = scaled;
    Some((sum, cap))
}

/// Adds a warning where an entity is over its cap. The entity itself stays as
/// it is.
pub fn check_stats_cap_warn(entity: &WorldEntity, warnings: &mut Vec<String>)
    ensures
        texts(final(warnings)@) == with_cap_warning(texts(old(warnings)@), entity@),
{
    broadcast use lemma_texts_push;

    let power: i64 = entity.properties_int.get_or_zero("power");
    let cap: i128 = compute_stats_cap(power);
    let sum: i128 = sum_of(&entity.properties_int);
    if sum > cap {
        let cap_shown: String = int_text(cap);
        let mut w: String = copied("Stats cap exceeded for '");
        w.append(entity.name.as_str());
        w.append("': sum=");
        w.append(int_text(sum).as_str());
        w.append(" > cap=");
        w.append(cap_shown.as_str());
        w.append(" (overage=");
        w.append(int_text(sum - cap).as_str());
        w.append(", cap formula = max(1, ");
        w.append(int_text(power as i128).as_str());
        w.append("*5) + 100 = ");
        w.append(cap_shown.as_str());
        w.append("). Run `python3 code/normalize_stats.py normalize` to fix.");
        warnings.push(w);
    }
}

// ---------------------------------------------------------------------------
// Laws
// ---------------------------------------------------------------------------
/// More power never means a lower cap, and the cap is never below 105.
pub proof fn law_cap_grows_with_power(a: int, b: int)
    requires
        a <= b,
    ensures
        105 <= stats_cap(a) <= stats_cap(b),
{
}

/// Setting a property adds to the sum what the property gains.
pub proof fn law_total_insert(m: Map<Seq<char>, i64>, k: Seq<char>, v: i64)
    requires
        m.dom().finite(),
    ensures
        total(m.insert(k, v)) == total(m) - int_or_zero(m, k) + v,
{
    let n = m.insert(k, v);
    assert(n.dom() =~= m.dom().insert(k));
    lemma_total_remove(n, k);
    assert(n.remove(k) =~= m.remove(k));
    if m.contains_key(k) {
        lemma_total_remove(m, k);
    } else {
        assert(m.remove(k) =~= m);
    }
}

/// The cap is five times the power, or the power of 1 where it is less, and a
/// hundred.
pub proof fn law_cap_of_power(power: int)
    ensures
        power >= 1 ==> stats_cap(power) == 5 * power + 100,
        power <= 1 ==> stats_cap(power) == 105,
{
}

/// The sum is that of all values: nothing for no property, and what every further
/// property has more.
pub proof fn law_total_of_properties(m: Map<Seq<char>, i64>, k: Seq<char>, v: i64)
    requires
        m.dom().finite(),
        !m.contains_key(k),
    ensures
        total(Map::<Seq<char>, i64>::empty()) == 0,
        total(m.insert(k, v)) == total(m) + v,
{
    law_total_insert(m, k, v);
}

/// An entity is warned of exactly where the sum of its properties is over the cap
/// for its power, by its name.
pub proof fn law_over_the_cap_is_warned_of(warnings: Seq<Seq<char>>, e: EntityView)
    ensures
        ({
            let power: int = if e.ints.contains_key("power"@) {
                e.ints["power"@] as int
            } else {
                0
            };
            let after = with_cap_warning(warnings, e);
            if total(e.ints) > stats_cap(power) {
                &&& after.len() == warnings.len() + 1
                &&& after.drop_last() == warnings
                &&& contains_text(after.last(), e.name)
            } else {
                after == warnings
            }
        }),
{
    let after = with_cap_warning(warnings, e);
    if after.len() > warnings.len() {
        assert(after.drop_last() =~= warnings);
        let head = "Stats cap exceeded for '"@;
        let w = after.last();
        assert(w.take(head.len() as int) =~= head);
        let n = head.len() as int;
        assert(w.subrange(n, n + e.name.len()) =~= e.name);
        assert(w =~= head + e.name + w.skip(n + e.name.len()));
        law_parts_are_found(head, e.name, w.skip(n + e.name.len()));
    }
}

} // verus!
