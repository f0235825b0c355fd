//! The tags that follow from an entity's properties: `hidden` and `corrupted`.
//!
//! A tag comes where its threshold falls below 0 and goes where it reaches 1;
//! in between it stays as it is. Thresholds are counted in tenths.
use vstd::prelude::*;
use vstd::string::*;

use crate::entity::{
    int_or_zero, law_add_tag, law_remove_tag, with_tag, without_tag, EntityView, WorldEntity,
};
use crate::text::{copied, dec, dec_text};

verus! {

/// The tag of entities that have dropped out of common awareness.
pub const HIDDEN_TAG: &'static str = "hidden";

/// The tag of entities whose corruption has overtaken their strength.
pub const CORRUPTED_TAG: &'static str = "corrupted";

/// A tag that follows from an entity's properties.
#[derive(Debug, Clone, Copy, PartialEq, Eq, Structural)]
pub enum TagRule {
    Hidden,
    Corrupted,
}

impl TagRule {
    /// The tag.
    pub open spec fn tag_text(self) -> Seq<char> {
        match self {
            TagRule::Hidden => HIDDEN_TAG@,
            TagRule::Corrupted => CORRUPTED_TAG@,
        }
    }

    /// The threshold of an entity, in tenths.
    pub open spec fn tenths(self, e: EntityView) -> int {
        match self {
            TagRule::Hidden => hidden_tenths(e),
            TagRule::Corrupted => corrupted_tenths(e),
        }
    }

    /// The tag.
    pub fn tag(&self) -> (r: &'static str)
        ensures
            r@ == self.tag_text(),
    {
        match self {
            TagRule::Hidden => HIDDEN_TAG,
            TagRule::Corrupted => CORRUPTED_TAG,
        }
    }

    /// Brings the tag of an entity in line with its properties.
    pub fn update(&self, entity: &mut WorldEntity) -> (r: TagUpdate)
        ensures
            r.threshold_tenths == self.tenths(old(entity)@),
            r.added == comes(old(entity)@.tags, self.tag_text(), self.tenths(old(entity)@)),
            r.removed == goes(old(entity)@.tags, self.tag_text(), self.tenths(old(entity)@)),
            final(entity)@ == after_rule(
                old(entity)@,
                self.tag_text(),
                self.tenths(old(entity)@),
            ),
    {
        match self {
            TagRule::Hidden => update_hidden_tag(entity),
            TagRule::Corrupted => update_corrupted_tag(entity),
        }
    }
}

/// What became of a tag, and the threshold, in tenths, that decided it.
#[derive(Debug, Clone, Copy, PartialEq, Eq, Structural)]
pub struct TagUpdate {
    pub added: bool,
    pub removed: bool,
    pub threshold_tenths: i128,
}

/// Ten times `max(10, power) / 10 + visibility`.
pub open spec fn hidden_tenths(e: EntityView) -> int {
    (if e.power() > 10 {
        e.power() as int
    } else {
        10
    }) + 10 * int_or_zero(e.ints, "visibility"@)
}

/// Ten times `max(1, power) - corruption`.
pub open spec fn corrupted_tenths(e: EntityView) -> int {
    10 * ((if e.power() > 1 {
        e.power() as int
    } else {
        1
    }) - int_or_zero(e.ints, "corruption"@))
}

/// The tag has to come.
pub open spec fn comes(tags: Seq<Seq<char>>, tag: Seq<char>, tenths: int) -> bool {
    tenths < 0 && !tags.contains(tag)
}

/// The tag has to go.
pub open spec fn goes(tags: Seq<Seq<char>>, tag: Seq<char>, tenths: int) -> bool {
    tenths >= 10 && tags.contains(tag)
}

/// An entity after the rule for a tag.
pub open spec fn after_rule(e: EntityView, tag: Seq<char>, tenths: int) -> EntityView {
    EntityView {
        tags: if comes(e.tags, tag, tenths) {
            with_tag(e.tags, tag)
        } else if goes(e.tags, tag, tenths) {
            without_tag(e.tags, tag)
        } else {
            e.tags
        },
        ..e
    }
}

/// Tenths as a decimal number with three places.
pub open spec fn three_places(tenths: int) -> Seq<char> {
    let a = if tenths < 0 {
        -tenths
    } else {
        tenths
    };
    (if tenths < 0 {
        "-"@
    } else {
        ""@
    }) + dec((a / 10) as nat) + "."@ + dec((a % 10) as nat) + "00"@
}

/// The warning for a tag that came.
pub open spec fn added_warning(tag: Seq<char>, name: Seq<char>, tenths: int) -> Seq<char> {
    "Added '"@ + tag + "' tag to '"@ + name + "' (threshold="@ + three_places(tenths) + " < 0)"@
}

/// The warning for a tag that went.
pub open spec fn removed_warning(tag: Seq<char>, name: Seq<char>, tenths: int) -> Seq<char> {
    "Removed '"@ + tag + "' tag from '"@ + name + "' (threshold="@ + three_places(tenths)
        + " >= 1)"@
}

fn apply_rule(entity: &mut WorldEntity, tag: &str, tenths: i128) -> (r: TagUpdate)
    ensures
        final(entity)@ == after_rule(old(entity)@, tag@, tenths as int),
        r.added == comes(old(entity)@.tags, tag@, tenths as int),
        r.removed == goes(old(entity)@.tags, tag@, tenths as int),
        r.threshold_tenths == tenths,
{
    let present: bool = entity.has_tag(tag);
    if tenths < 0 && !present {
        entity.add_tag(tag);
        TagUpdate { added: true, removed: false, threshold_tenths: tenths }
    } else if tenths >= 10 && present {
        entity.remove_tag(tag);
        TagUpdate { added: false, removed: true, threshold_tenths: tenths }
    } else {
        TagUpdate { added: false, removed: false, threshold_tenths: tenths }
    }
}

/// Brings the `hidden` tag in line with power and visibility. The threshold is
/// `max(10, power) / 10 + visibility`.
pub fn update_hidden_tag(entity: &mut WorldEntity) -> (r: TagUpdate)
    ensures
        r.threshold_tenths == hidden_tenths(old(entity)@),
        r.added == comes(old(entity)@.tags, HIDDEN_TAG@, hidden_tenths(old(entity)@)),
        r.removed == goes(old(entity)@.tags, HIDDEN_TAG@, hidden_tenths(old(entity)@)),
        final(entity)@ == after_rule(old(entity)@, HIDDEN_TAG@, hidden_tenths(old(entity)@)),
{
    let power: i64 = entity.properties_int.get_or_zero("power");
    let visibility: i64 = entity.properties_int.get_or_zero("visibility");
    let floored: i64 = if power > 10 {
        power
    } else {
        10
    };
    apply_rule(entity, HIDDEN_TAG, floored as i128 + 10 * visibility as i128)
}

/// Brings the `corrupted` tag in line with power and corruption. The threshold
/// is `max(1, power) - corruption`.
pub fn update_corrupted_tag(entity: &mut WorldEntity) -> (r: TagUpdate)
    ensures
        r.threshold_tenths == corrupted_tenths(old(entity)@),
        r.added == comes(old(entity)@.tags, CORRUPTED_TAG@, corrupted_tenths(old(entity)@)),
        r.removed == goes(old(entity)@.tags, CORRUPTED_TAG@, corrupted_tenths(old(entity)@)),
        final(entity)@ == after_rule(old(entity)@, CORRUPTED_TAG@, corrupted_tenths(old(entity)@)),
{
    let power: i64 = entity.properties_int.get_or_zero("power");
    let corruption: i64 = entity.properties_int.get_or_zero("corruption");
    let floored: i64 = if power > 1 {
        power
    } else {
        1
    };
    apply_rule(entity, CORRUPTED_TAG, 10 * (floored as i128 - corruption as i128))
}

/// Tenths as a decimal number with three places.
fn three_places_text(tenths: i128) -> (r: String)
    requires
        tenths > i128::MIN,
    ensures
        r@ == three_places(tenths as int),
{
    let mut s: String = if tenths < 0 {
        copied("-")
    } else {
        copied("")
    };
    let a: u128 = if tenths < 0 {
        (-tenths) as u128
    } else {
        tenths as u128
    };
    s.append(dec_text(a / 10).as_str());
    s.append(".");
    s.append(dec_text(a % 10).as_str());
    s.append("00");
    s
}

/// The warning for a tag that came or went.
pub fn tag_notice(tag: &str, name: &str, update: &TagUpdate) -> (r: String)
    requires
        update.threshold_tenths > i128::MIN,
    ensures
        r@ == if update.added {
            added_warning(tag@, name@, update.threshold_tenths as int)
        } else {
            removed_warning(tag@, name@, update.threshold_tenths as int)
        },
{
    let mut w: String = copied(
        if update.added {
            "Added '"
        } else {
            "Removed '"
        },
    );
    w.append(tag);
    w.append(
        if update.added {
            "' tag to '"
        } else {
            "' tag from '"
        },
    );
    w.append(name);
    w.append("' (threshold=");
    w.append(three_places_text(update.threshold_tenths).as_str());
    w.append(
        if update.added {
            " < 0)"
        } else {
            " >= 1)"
        },
    );
    w
}

// ---------------------------------------------------------------------------
// Laws
// ---------------------------------------------------------------------------
/// After its rule a tag is there where the threshold is below 0, is not there
/// where it is 1 or more, and is as it was in between.
pub proof fn law_rule_decides(e: EntityView, tag: Seq<char>, tenths: int)
    ensures
        tenths < 0 ==> after_rule(e, tag, tenths).tags.contains(tag),
        tenths >= 10 ==> !after_rule(e, tag, tenths).tags.contains(tag),
        0 <= tenths < 10 ==> after_rule(e, tag, tenths) == e,
{
    law_add_tag(e.tags, tag);
    law_remove_tag(e.tags, tag);
}

/// A rule that has run has nothing more to do.
pub proof fn law_rule_is_stable(e: EntityView, tag: Seq<char>, tenths: int)
    ensures
        after_rule(after_rule(e, tag, tenths), tag, tenths) == after_rule(e, tag, tenths),
        !comes(after_rule(e, tag, tenths).tags, tag, tenths),
        !goes(after_rule(e, tag, tenths).tags, tag, tenths),
{
    law_rule_decides(e, tag, tenths);
}

/// A rule changes no tag but its own.
pub proof fn law_rule_keeps_other_tags(e: EntityView, tag: Seq<char>, tenths: int, other: Seq<char>)
    requires
        other != tag,
    ensures
        after_rule(e, tag, tenths).tags.contains(other) <==> e.tags.contains(other),
{
    law_add_tag(e.tags, tag);
    law_remove_tag(e.tags, tag);
}

/// The thresholds, in tenths: for `hidden`, the power, or 10 where it is less, and
/// ten times the visibility; for `corrupted`, ten times what the power, or 1 where
/// it is less, exceeds the corruption by. A property that is missing counts as 0.
pub proof fn law_thresholds_of_tags(e: EntityView, power: int, visibility: int, corruption: int)
    requires
        power == (if e.ints.contains_key("power"@) {
            e.ints["power"@] as int
        } else {
            0
        }),
        visibility == (if e.ints.contains_key("visibility"@) {
            e.ints["visibility"@] as int
        } else {
            0
        }),
        corruption == (if e.ints.contains_key("corruption"@) {
            e.ints["corruption"@] as int
        } else {
            0
        }),
    ensures
        TagRule::Hidden.tag_text() == "hidden"@,
        TagRule::Corrupted.tag_text() == "corrupted"@,
        power >= 10 ==> TagRule::Hidden.tenths(e) == power + 10 * visibility,
        power <= 10 ==> TagRule::Hidden.tenths(e) == 10 + 10 * visibility,
        power >= 1 ==> TagRule::Corrupted.tenths(e) == 10 * power - 10 * corruption,
        power <= 1 ==> TagRule::Corrupted.tenths(e) == 10 - 10 * corruption,
{
}

/// A tag that has to come is missing below 0, and one that has to go is there from
/// 1 on; what a rule changes is told.
pub proof fn law_rule_tells_what_it_changes(e: EntityView, tag: Seq<char>, tenths: int)
    ensures
        comes(e.tags, tag, tenths) <==> !e.tags.contains(tag) && after_rule(
            e,
            tag,
            tenths,
        ).tags.contains(tag),
        goes(e.tags, tag, tenths) <==> e.tags.contains(tag) && !after_rule(
            e,
            tag,
            tenths,
        ).tags.contains(tag),
{
    law_add_tag(e.tags, tag);
    law_remove_tag(e.tags, tag);
}

/// Tenths are shown as whole ones, a point, the tenth that is left and two zeros;
/// below 0 with a sign before them.
pub proof fn law_three_places(ones: nat, tenth: nat)
    requires
        tenth < 10,
    ensures
        three_places((10 * ones + tenth) as int) == dec(ones) + "."@ + dec(tenth) + "00"@,
        10 * ones + tenth > 0 ==> three_places(-(10 * ones + tenth)) == "-"@ + three_places(
            (10 * ones + tenth) as int,
        ),
{
    reveal_strlit("");
    let t = 10 * ones + tenth;
    assert(t / 10 == ones && t % 10 == tenth);
    assert(three_places(t as int) =~= dec(ones) + "."@ + dec(tenth) + "00"@);
    if t > 0 {
        assert(three_places(-t) =~= "-"@ + three_places(t as int));
    }
}

} // verus!
