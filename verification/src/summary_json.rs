//! Edits of a history summary as they stand in JSON: one edit, a list of them,
//! or an empty object or list for none.
use vstd::prelude::*;
use vstd::string::*;

use crate::json::{
    json_length, json_length_at, json_members, json_members_at, json_string, json_string_at,
};
use crate::summary::{
    replace_views, HistorySummaryReplace, HistorySummaryReplaceOneOrMany, ReplaceView,
};
use crate::text::{copied, dec, dec_text, opt_text};

verus! {

/// What stands at a place of a document: an object with so many members, or a
/// list of so many values; and the texts among its members that make an edit.
#[derive(Debug)]
pub struct EditFacts {
    pub members: Option<usize>,
    pub length: Option<usize>,
    pub old_part: Option<String>,
    pub new_part: Option<String>,
}

/// What an `EditFacts` holds.
pub struct EditFactsView {
    pub members: Option<usize>,
    pub length: Option<usize>,
    pub old_part: Option<Seq<char>>,
    pub new_part: Option<Seq<char>>,
}

impl View for EditFacts {
    type V = EditFactsView;

    open spec fn view(&self) -> EditFactsView {
        EditFactsView {
            members: self.members,
            length: self.length,
            old_part: opt_text(self.old_part),
            new_part: opt_text(self.new_part),
        }
    }
}

/// What a list of facts holds.
pub open spec fn facts_views(s: Seq<EditFacts>) -> Seq<EditFactsView> {
    Seq::new(s.len(), |i: int| s[i]@)
}

/// The edit that the facts make: they are those of an object with both parts.
pub open spec fn edit_of(f: EditFactsView) -> Option<ReplaceView> {
    if f.members is Some && f.old_part is Some && f.new_part is Some {
        Some(ReplaceView { old_part: f.old_part->0, new_part: f.new_part->0 })
    } else {
        None
    }
}

/// Every one of the facts makes an edit.
pub open spec fn all_edits(items: Seq<EditFactsView>) -> bool {
    forall|i: int| 0 <= i < items.len() ==> edit_of(#[trigger] items[i]) is Some
}

/// The edits that the facts of a whole document and of the values of its list
/// make. An empty object or list makes none, and `None` stands for what is no
/// edit and no list of edits.
pub open spec fn edits_of(whole: EditFactsView, items: Seq<EditFactsView>) -> Option<
    Seq<ReplaceView>,
> {
    if whole.members == Some(0usize) || whole.length == Some(0usize) {
        Some(Seq::empty())
    } else if edit_of(whole) is Some {
        Some(seq![edit_of(whole)->0])
    } else if whole.length is Some && all_edits(items) {
        Some(Seq::new(items.len(), |i: int| edit_of(items[i])->0))
    } else {
        None
    }
}

/// The edits come as one edit: the document is an object with both parts. A
/// list, also an empty one, and an empty object hold many.
pub open spec fn is_one_edit(whole: EditFactsView) -> bool {
    whole.members != Some(0usize) && whole.length != Some(0usize) && edit_of(whole) is Some
}

/// Why a document is refused.
pub open spec fn shape_error() -> Seq<char> {
    "history_summary_replace: expected {old_part, new_part} or array, or empty {}/[]; got: data did not match any variant of untagged enum Raw"@
}

/// The edit that the facts make.
pub fn settle_edit(f: &EditFacts) -> (r: Option<HistorySummaryReplace>)
    ensures
        match r {
            Some(e) => edit_of(f@) == Some(e@),
            None => edit_of(f@) is None,
        },
{
    if f.members.is_some() {
        if let (Some(a), Some(b)) = (&f.old_part, &f.new_part) {
            return Some(
                HistorySummaryReplace {
                    old_part: copied(a.as_str()),
                    new_part: copied(b.as_str()),
                },
            );
        }
    }
    None
}

/// The edits that the facts of a whole document and of the values of its list
/// make.
pub fn settle_edits(whole: &EditFacts, items: &Vec<EditFacts>) -> (r: Result<
    HistorySummaryReplaceOneOrMany,
    String,
>)
    ensures
        match r {
            Ok(e) => edits_of(whole@, facts_views(items@)) == Some(replace_views(e.replaces())) && (
            e is Single <==> is_one_edit(whole@)),
            Err(m) => edits_of(whole@, facts_views(items@)) is None && m@ == shape_error(),
        },
{
    let empty: bool = match (whole.members, whole.length) {
        (Some(0), _) => true,
        (_, Some(0)) => true,
        _ => false,
    };
    if empty {
        let none: Vec<HistorySummaryReplace> = Vec::new();
        assert(replace_views(none@) =~= Seq::<ReplaceView>::empty());
        return Ok(HistorySummaryReplaceOneOrMany::Many(none));
    }
    if let Some(e) = settle_edit(whole) {
        assert(replace_views(seq![e]) =~= seq![e@]);
        return Ok(HistorySummaryReplaceOneOrMany::Single(e));
    }
    let ghost all = facts_views(items@);
    let mut edits: Vec<HistorySummaryReplace> = Vec::new();
    let mut i: usize = 0;
    while i < items.len()
        invariant
            i <= items@.len(),
            all == facts_views(items@),
            edits@.len() == i,
            forall|j: int|
                0 <= j < i ==> edit_of(#[trigger] all[j]) == Some(edits@[j]@),
            whole.length != Some(0usize),
            whole.members != Some(0usize),
            edit_of(whole@) is None,
        decreases items.len() - i,
    {
        match settle_edit(&items[i]) {
            Some(e) => edits.push(e),
            None => {
                assert(edit_of(all[i as int]) is None);
                return Err(shape_error_text());
            },
        }
        i = i + 1;
    }
    if whole.length.is_some() {
        assert(replace_views(edits@) =~= Seq::new(all.len(), |j: int| edit_of(all[j])->0));
        Ok(HistorySummaryReplaceOneOrMany::Many(edits))
    } else {
        Err(shape_error_text())
    }
}

fn shape_error_text() -> (r: String)
    ensures
        r@ == shape_error(),
{
    copied(
        "history_summary_replace: expected {old_part, new_part} or array, or empty {}/[]; got: data did not match any variant of untagged enum Raw",
    )
}

// ---------------------------------------------------------------------------
// Reading
// ---------------------------------------------------------------------------
/// The facts at a place of a document.
pub open spec fn facts_at(json: Seq<char>, place: Seq<char>) -> EditFactsView {
    EditFactsView {
        members: json_members(json, place),
        length: json_length(json, place),
        old_part: json_string(json, place + "/old_part"@),
        new_part: json_string(json, place + "/new_part"@),
    }
}

/// The place of value number `i` of a list.
pub open spec fn item_place(i: nat) -> Seq<char> {
    "/"@ + dec(i)
}

/// The facts of the values of the list that a document is.
pub open spec fn items_in(json: Seq<char>) -> Seq<EditFactsView> {
    Seq::new(
        match json_length(json, ""@) {
            Some(n) => n as nat,
            None => 0,
        },
        |i: int| facts_at(json, item_place(i as nat)),
    )
}

/// The edits in a document.
pub open spec fn edits_in(json: Seq<char>) -> Option<Seq<ReplaceView>> {
    edits_of(facts_at(json, ""@), items_in(json))
}

fn text_at(json: &str, place: &str, part: &str) -> (r: Option<String>)
    ensures
        opt_text(r) == json_string(json@, place@ + part@),
{
    let mut p: String = copied(place);
    p.append(part);
    json_string_at(json, p.as_str())
}

fn read_facts(json: &str, place: &str) -> (r: EditFacts)
    ensures
        r@ == facts_at(json@, place@),
{
    EditFacts {
        members: json_members_at(json, place),
        length: json_length_at(json, place),
        old_part: text_at(json, place, "/old_part"),
        new_part: text_at(json, place, "/new_part"),
    }
}

/// Reads the edits of a document.
pub fn read_edits(json: &str) -> (r: Result<HistorySummaryReplaceOneOrMany, String>)
    ensures
        match r {
            Ok(e) => edits_in(json@) == Some(replace_views(e.replaces())) && (e is Single
                <==> is_one_edit(facts_at(json@, ""@))),
            Err(m) => edits_in(json@) is None && m@ == shape_error(),
        },
{
    let whole = read_facts(json, "");
    let n: usize = match whole.length {
        Some(n) => n,
        None => 0,
    };
    let mut items: Vec<EditFacts> = Vec::new();
    let mut i: usize = 0;
    while i < n
        invariant
            i <= n,
            n == items_in(json@).len(),
            items@.len() == i,
            forall|j: int| 0 <= j < i ==> (#[trigger] items@[j])@ == items_in(json@)[j],
        decreases n - i,
    {
        let mut place: String = copied("/");
        place.append(dec_text(i as u128).as_str());
        items.push(read_facts(json, place.as_str()));
        i = i + 1;
    }
    assert(facts_views(items@) =~= items_in(json@));
    settle_edits(&whole, &items)
}

// ---------------------------------------------------------------------------
// Laws
// ---------------------------------------------------------------------------
/// An empty object and an empty list are both no edit at all, and never an
/// error.
pub proof fn law_empty_means_no_edit(whole: EditFactsView, items: Seq<EditFactsView>)
    requires
        whole.members == Some(0usize) || whole.length == Some(0usize),
    ensures
        edits_of(whole, items) == Some(Seq::<ReplaceView>::empty()),
{
}

/// An object with both parts is one edit, and a list of such objects is many:
/// the edits of its values, in order.
pub proof fn law_shapes(whole: EditFactsView, items: Seq<EditFactsView>)
    ensures
        whole.members is Some && whole.members != Some(0usize) && whole.length is None
            && whole.old_part is Some && whole.new_part is Some ==> is_one_edit(whole) && edits_of(
            whole,
            items,
        ) == Some(
            seq![ReplaceView { old_part: whole.old_part->0, new_part: whole.new_part->0 }],
        ),
        whole.members is None && whole.length is Some ==> !is_one_edit(whole),
        whole.members is None && whole.length is Some && whole.length != Some(0usize) && all_edits(
            items,
        ) ==> edits_of(whole, items) == Some(
            Seq::new(items.len(), |i: int| edit_of(items[i])->0),
        ),
{
}

/// An object that lacks one of the two parts, and has others, is refused.
pub proof fn law_partial_edit_is_refused(whole: EditFactsView, items: Seq<EditFactsView>)
    requires
        whole.members is Some,
        whole.members != Some(0usize),
        whole.length is None,
        whole.old_part is None || whole.new_part is None,
    ensures
        edits_of(whole, items) is None,
{
}

/// An edit is an object with both parts, as texts; the edits of a document are
/// read from its own members, or from those of the values of its list.
pub proof fn law_edits_in_documents(json: Seq<char>, f: EditFactsView, i: nat)
    ensures
        edit_of(f) is Some <==> f.members is Some && f.old_part is Some && f.new_part is Some,
        edit_of(f) is Some ==> edit_of(f)->0.old_part == f.old_part->0 && edit_of(f)->0.new_part
            == f.new_part->0,
        facts_at(json, ""@).members == json_members(json, ""@),
        facts_at(json, ""@).length == json_length(json, ""@),
        facts_at(json, ""@).old_part == json_string(json, "/old_part"@),
        facts_at(json, ""@).new_part == json_string(json, "/new_part"@),
        items_in(json).len() == (match json_length(json, ""@) {
            Some(n) => n as nat,
            None => 0,
        }),
        i < items_in(json).len() ==> {
            let item = items_in(json)[i as int];
            &&& item.members == json_members(json, "/"@ + dec(i))
            &&& item.length == json_length(json, "/"@ + dec(i))
            &&& item.old_part == json_string(json, "/"@ + dec(i) + "/old_part"@)
            &&& item.new_part == json_string(json, "/"@ + dec(i) + "/new_part"@)
        },
        edits_in(json) == edits_of(facts_at(json, ""@), items_in(json)),
{
    reveal_strlit("");
    assert(""@ + "/old_part"@ =~= "/old_part"@);
    assert(""@ + "/new_part"@ =~= "/new_part"@);
}

/// A list of which some value is no edit is refused, and so is a document that is
/// neither an object nor a list.
pub proof fn law_other_documents_are_refused(whole: EditFactsView, items: Seq<EditFactsView>, i: int)
    requires
        whole.members is None,
        whole.length is None || whole.length != Some(0usize) && 0 <= i < items.len() && edit_of(
            items[i],
        ) is None,
    ensures
        edits_of(whole, items) is None,
{
}

} // verus!
