//! What a model's answer, or an edit request, makes of an entity's history
//! summary; and the laws of summaries.
use vstd::prelude::*;
use vstd::string::*;

use crate::find_replace::{
    closing, find_replace_range, law_literal_wins, law_passage_by_words, law_replace_range_in_bounds,
    law_unpunctuated_passage, replace_range, without_closing,
};
use crate::quirks::{folded, law_fold_grows};
use crate::summary::{
    apply_history_summary_replaces, apply_summary_fallback, chain_cut_warning, chain_text,
    chain_update, chain_warnings, cut_to, fallback_update, full_cut_warning, full_is_cut, full_summary, no_change,
    or_empty, placeholder, preview, replace_views, replaced, skip_warning, ApplyReplaceResult, HistorySummaryReplace,
    HistorySummaryReplaceOneOrMany, ReplaceView, UpdateView,
};
use crate::text::{
    alphanumeric, begins_with, borrowed_opt, contains_text, copied, copied_opt, debug_form, dec,
    dec_text, law_parts_are_found, law_trim_takes_the_surrounding, law_words_are_runs,
    lemma_occurrence, lemma_occurrence_exists, lemma_texts_concat, lemma_texts_push, occurs_at,
    opt_str, same_text, spans_from, texts, trimmed, white, words,
};

verus! {

broadcast use {lemma_texts_push, lemma_texts_concat};

// ---------------------------------------------------------------------------
// The cap
// ---------------------------------------------------------------------------
/// The cap on a summary's characters and where it comes from: the world's own
/// setting, or the global default where the world has none (0).
pub fn resolve_history_summary_cap_info(world_cap: u32, global_default: u32) -> (r: (
    u32,
    &'static str,
))
    ensures
        world_cap != 0 ==> r.0 == world_cap && r.1@ == "world"@,
        world_cap == 0 ==> r.0 == global_default && r.1@ == "global"@,
{
    if world_cap != 0 {
        (world_cap, "world")
    } else {
        (global_default, "global")
    }
}

// ---------------------------------------------------------------------------
// A model's answer
// ---------------------------------------------------------------------------
pub open spec fn both_warning() -> Seq<char> {
    "Both history_summary and history_summary_replace present; using replace (history_summary dropped)"@
}

pub open spec fn neither_warning() -> Seq<char> {
    "Neither history_summary nor history_summary_replace in LLM response; summary not updated"@
}

/// `w`, and the warning for a cut summary where there was a cut.
pub open spec fn with_cut_warning(w: Seq<Seq<char>>, cut: bool, max: nat) -> Seq<Seq<char>> {
    if cut {
        w.push(full_cut_warning(max))
    } else {
        w
    }
}

/// What an answer with replacements makes of a summary. Replacements win over
/// a full summary, which is used only where they change nothing.
pub open spec fn replaced_update(
    current: Option<Seq<char>>,
    full: Option<Seq<char>>,
    reps: Seq<ReplaceView>,
    max: nat,
) -> UpdateView {
    let chain = chain_update(current, reps, max);
    match full {
        None => UpdateView {
            new_summary: chain.new_summary,
            truncated: chain.truncated,
            warnings: with_cut_warning(chain.warnings, chain.truncated, max),
        },
        Some(f) => {
            let warned = seq![both_warning()] + chain.warnings;
            match fallback_update(f, current, chain.new_summary, max) {
                Some(fb) => UpdateView {
                    new_summary: fb.new_summary,
                    truncated: chain.truncated || fb.truncated,
                    warnings: with_cut_warning(
                        warned + fb.warnings,
                        chain.truncated || fb.truncated,
                        max,
                    ),
                },
                None => UpdateView {
                    new_summary: chain.new_summary,
                    truncated: chain.truncated,
                    warnings: with_cut_warning(warned, chain.truncated, max),
                },
            }
        },
    }
}

/// What an answer makes of a summary: replacements where it has some, else its
/// full summary, else nothing but a warning.
pub open spec fn answer_update(
    current: Option<Seq<char>>,
    full: Option<Seq<char>>,
    reps: Option<Seq<ReplaceView>>,
    max: nat,
) -> UpdateView {
    match reps {
        Some(rs) => replaced_update(current, full, rs, max),
        None => match full {
            Some(f) => UpdateView {
                new_summary: full_summary(f, max),
                truncated: full_is_cut(f, max),
                warnings: with_cut_warning(Seq::empty(), full_is_cut(f, max), max),
            },
            None => UpdateView {
                new_summary: current,
                truncated: false,
                warnings: seq![neither_warning()],
            },
        },
    }
}

/// The replacements of an answer, where it has some.
pub open spec fn answer_replaces(
    reps: Option<HistorySummaryReplaceOneOrMany>,
) -> Option<Seq<ReplaceView>> {
    match reps {
        Some(r) => Some(replace_views(r.replaces())),
        None => None,
    }
}

/// The warning for a full summary that was cut.
fn push_cut_warning(warnings: &mut Vec<String>, cut: bool, max_chars: usize)
    ensures
        texts(final(warnings)@) == with_cut_warning(texts(old(warnings)@), cut, max_chars as nat),
{
    if cut {
        let mut w: String = copied("LLM history_summary exceeded ");
        w.append(dec_text(max_chars as u128).as_str());
        w.append(" chars; truncated.");
        warnings.push(w);
    }
}

/// What an answer makes of a summary. `full` is the answer's whole new summary
/// and `replaces` its surgical edits; either may be absent.
pub fn update_history_summary(
    current: Option<&str>,
    full: Option<&str>,
    replaces: Option<HistorySummaryReplaceOneOrMany>,
    max_chars: usize,
) -> (r: ApplyReplaceResult)
    ensures
        r@ == answer_update(
            opt_str(current),
            opt_str(full),
            answer_replaces(replaces),
            max_chars as nat,
        ),
{
    let mut warnings: Vec<String> = Vec::new();
    assert(texts(warnings@) =~= Seq::empty());
    match replaces {
        Some(one_or_many) => {
            if full.is_some() {
                warnings.push(
                    copied(
                        "Both history_summary and history_summary_replace present; using replace (history_summary dropped)",
                    ),
                );
                assert(texts(warnings@) =~= seq![both_warning()]);
            }
            let list: Vec<HistorySummaryReplace> = one_or_many.into_vec();
            let mut chain = apply_history_summary_replaces(current, list.as_slice(), max_chars);
            let ghost chain_view = chain@;
            warnings.append(&mut chain.warnings);
            assert(full is None ==> texts(warnings@) =~= chain_view.warnings);
            let fallback = match full {
                Some(f) => apply_summary_fallback(
                    f,
                    current,
                    borrowed_opt(&chain.new_summary),
                    max_chars,
                ),
                None => None,
            };
            match fallback {
                Some(mut fb) => {
                    let ghost fb_view = fb@;
                    warnings.append(&mut fb.warnings);
                    let truncated: bool = chain.truncated || fb.truncated;
                    push_cut_warning(&mut warnings, truncated, max_chars);
                    ApplyReplaceResult { new_summary: fb.new_summary, truncated, warnings }
                },
                None => {
                    push_cut_warning(&mut warnings, chain.truncated, max_chars);
                    ApplyReplaceResult {
                        new_summary: chain.new_summary,
                        truncated: chain.truncated,
                        warnings,
                    }
                },
            }
        },
        None => match full {
            Some(f) => {
                // With no summary and no replacement the fallback stores the
                // whole text under the same rules.
                match apply_summary_fallback(f, None, None, max_chars) {
                    Some(fb) => {
                        push_cut_warning(&mut warnings, fb.truncated, max_chars);
                        ApplyReplaceResult {
                            new_summary: fb.new_summary,
                            truncated: fb.truncated,
                            warnings,
                        }
                    },
                    None => ApplyReplaceResult { new_summary: None, truncated: false, warnings },
                }
            },
            None => {
                warnings.push(
                    copied(
                        "Neither history_summary nor history_summary_replace in LLM response; summary not updated",
                    ),
                );
                assert(texts(warnings@) =~= seq![neither_warning()]);
                ApplyReplaceResult { new_summary: copied_opt(current), truncated: false, warnings }
            },
        },
    }
}

// ---------------------------------------------------------------------------
// An edit request
// ---------------------------------------------------------------------------
/// What becomes of a request to replace one passage of a summary.
#[derive(Debug, Clone)]
pub enum SummaryEdit {
    /// The passage is not there, and the caller wants that as an error.
    NotFound { message: String },
    /// The passage is not there; nothing changes. The summary has `chars`
    /// characters.
    Unchanged { chars: usize },
    /// The summary to store, with its warnings.
    Stored(ApplyReplaceResult),
}

/// A non-empty passage is not found in a summary.
pub open spec fn passage_missing(current: Seq<char>, old_part: Seq<char>) -> bool {
    old_part.len() > 0 && old_part != "!ALL!"@ && replace_range(current, old_part) is None
}

/// Replaces one passage of a summary on request. A passage that is not found
/// is an error where the caller asked for one, and else leaves the summary as
/// it is.
pub fn edit_history_summary(
    current: Option<&str>,
    edit: HistorySummaryReplace,
    not_found_is_error: bool,
    max_chars: usize,
) -> (r: SummaryEdit)
    ensures
        passage_missing(or_empty(opt_str(current)), edit.old_part@) ==> match r {
            SummaryEdit::NotFound { message } => not_found_is_error && message@
                == "old_part not found in current summary (length "@ + dec(
                vstd::utf8::encode_utf8(or_empty(opt_str(current))).len(),
            ) + ")"@,
            SummaryEdit::Unchanged { chars } => !not_found_is_error && chars == or_empty(
                opt_str(current),
            ).len(),
            SummaryEdit::Stored(_) => false,
        },
        !passage_missing(or_empty(opt_str(current)), edit.old_part@) ==> match r {
            SummaryEdit::Stored(s) => s@ == chain_update(
                opt_str(current),
                seq![edit@],
                max_chars as nat,
            ),
            _ => false,
        },
{
    let text: &str = match current {
        Some(c) => c,
        None => "",
    };
    proof {
        reveal_strlit("");
        assert(text@ =~= or_empty(opt_str(current)));
    }
    let missing: bool = !edit.old_part.as_str().is_empty() && !same_text(
        edit.old_part.as_str(),
        "!ALL!",
    ) && find_replace_range(text, edit.old_part.as_str()).is_none();
    if missing {
        if not_found_is_error {
            let mut message: String = copied("old_part not found in current summary (length ");
            message.append(dec_text(text.as_bytes().len() as u128).as_str());
            message.append(")");
            return SummaryEdit::NotFound { message };
        }
        return SummaryEdit::Unchanged { chars: text.unicode_len() };
    }
    let ghost view = edit@;
    let mut list: Vec<HistorySummaryReplace> = Vec::new();
    list.push(edit);
    assert(replace_views(list@) =~= seq![view]);
    SummaryEdit::Stored(apply_history_summary_replaces(current, list.as_slice(), max_chars))
}

// ---------------------------------------------------------------------------
// Laws
// ---------------------------------------------------------------------------
/// No summary and an empty one are treated alike.
pub proof fn law_no_summary_is_empty_summary(reps: Seq<ReplaceView>, max: nat)
    ensures
        chain_update(None, reps, max) == chain_update(Some(Seq::empty()), reps, max),
{
}

/// Applying two chains one after the other is applying their concatenation.
pub proof fn law_chain_concat(current: Seq<char>, a: Seq<ReplaceView>, b: Seq<ReplaceView>)
    ensures
        chain_text(current, a + b) == chain_text(chain_text(current, a), b),
    decreases b.len(),
{
    if b.len() == 0 {
        assert(a + b =~= a);
    } else {
        law_chain_concat(current, a, b.drop_last());
        assert((a + b).drop_last() =~= a + b.drop_last());
    }
}

/// After `!ALL!` nothing of what stood before matters: the chain goes on from
/// its new text, whatever the summary was and whatever came earlier.
pub proof fn law_all_discards_the_past(
    current: Seq<char>,
    before: Seq<ReplaceView>,
    all: ReplaceView,
    after: Seq<ReplaceView>,
)
    requires
        all.old_part == "!ALL!"@,
    ensures
        chain_text(current, before.push(all) + after) == chain_text(all.new_part, after),
{
    law_chain_concat(current, before.push(all), after);
    assert(before.push(all).drop_last() =~= before);
}

/// An empty passage appends to what the chain has so far.
pub proof fn law_empty_old_part_appends(
    current: Seq<char>,
    before: Seq<ReplaceView>,
    rep: ReplaceView,
)
    requires
        rep.old_part.len() == 0,
    ensures
        chain_text(current, before.push(rep)) == chain_text(current, before) + rep.new_part,
        chain_warnings(current, before.push(rep)) == chain_warnings(current, before),
{
    reveal_strlit("!ALL!");
    assert(before.push(rep).drop_last() =~= before);
}

/// A passage that stands in the summary is replaced at its first occurrence,
/// and only there, without a warning.
pub proof fn law_found_passage_is_replaced(
    current: Seq<char>,
    before: Seq<ReplaceView>,
    rep: ReplaceView,
    k: int,
)
    requires
        rep.old_part.len() > 0,
        rep.old_part != "!ALL!"@,
        occurs_at(chain_text(current, before), rep.old_part, k),
    ensures
        chain_warnings(current, before.push(rep)) == chain_warnings(current, before),
        exists|i: int|
            0 <= i <= k && occurs_at(chain_text(current, before), rep.old_part, i) && chain_text(
                current,
                before.push(rep),
            ) == #[trigger] chain_text(current, before).take(i) + rep.new_part + chain_text(
                current,
                before,
            ).skip(i + rep.old_part.len()) && forall|j: int|
                0 <= j < i ==> !occurs_at(chain_text(current, before), rep.old_part, j),
{
    let state = chain_text(current, before);
    assert(before.push(rep).drop_last() =~= before);
    law_literal_wins(state, rep.old_part, k);
    let p = replace_range(state, rep.old_part)->0;
    assert(chain_text(current, before.push(rep)) == state.take(p.0) + rep.new_part + state.skip(
        p.0 + rep.old_part.len(),
    ));
}

/// A replacement that is skipped changes nothing and leaves one warning; one
/// that is not skipped leaves none.
pub proof fn law_skip_keeps_text(current: Seq<char>, before: Seq<ReplaceView>, rep: ReplaceView)
    ensures
        replaced(chain_text(current, before), rep) is None ==> chain_text(current, before.push(rep))
            == chain_text(current, before) && chain_warnings(current, before.push(rep)).len()
            == chain_warnings(current, before).len() + 1,
        replaced(chain_text(current, before), rep) is Some ==> chain_warnings(
            current,
            before.push(rep),
        ) == chain_warnings(current, before),
{
    assert(before.push(rep).drop_last() =~= before);
}

/// The empty chain changes nothing that fits under the cap, and warns of
/// nothing.
pub proof fn law_empty_chain_is_identity(current: Seq<char>, max: nat)
    requires
        current.len() <= max,
    ensures
        no_change(Some(current), chain_update(Some(current), Seq::empty(), max).new_summary),
        !chain_update(Some(current), Seq::empty(), max).truncated,
        chain_update(Some(current), Seq::empty(), max).warnings == Seq::<Seq<char>>::empty(),
{
    assert(current.len() == 0 ==> current =~= Seq::empty());
}

/// Whatever an answer does, a stored summary that it sets fits under the cap
/// and is never empty.
pub proof fn law_summary_fits_cap(
    current: Option<Seq<char>>,
    full: Option<Seq<char>>,
    reps: Option<Seq<ReplaceView>>,
    max: nat,
)
    requires
        full is Some || reps is Some,
    ensures
        match answer_update(current, full, reps, max).new_summary {
            Some(s) => 0 < s.len() <= max,
            None => true,
        },
{
    if let Some(f) = full {
        law_full_summary_fits(f, max);
    }
}

/// A full summary that is kept fits under the cap and is not empty.
pub proof fn law_full_summary_fits(full: Seq<char>, max: nat)
    ensures
        match full_summary(full, max) {
            Some(s) => 0 < s.len() <= max,
            None => true,
        },
{
}

/// A cut text is the start of the original, with an ellipsis.
pub proof fn law_cut_keeps_start(s: Seq<char>, max: nat)
    requires
        s.len() > max >= 1,
    ensures
        cut_to(s, max).len() == max,
        cut_to(s, max).drop_last() == s.take(max - 1),
        cut_to(s, max).last() == '…',
{
    assert(cut_to(s, max).drop_last() =~= s.take(max - 1));
}

/// Where the replacements make a change, a full summary that came along is
/// not used; where they make none and it says something, it is.
pub proof fn law_fallback_only_without_change(
    current: Option<Seq<char>>,
    full: Seq<char>,
    reps: Seq<ReplaceView>,
    max: nat,
)
    ensures
        !no_change(current, chain_update(current, reps, max).new_summary) ==> answer_update(
            current,
            Some(full),
            Some(reps),
            max,
        ).new_summary == chain_update(current, reps, max).new_summary,
        no_change(current, chain_update(current, reps, max).new_summary) && !placeholder(
            trimmed(full),
        ) ==> answer_update(current, Some(full), Some(reps), max).new_summary == full_summary(
            full,
            max,
        ),
{
}

/// One edit does the same to a summary whether it comes in an answer or as a
/// request, unless the request is for a passage that is not there; such an edit
/// leaves the text as it is in an answer too.
pub proof fn law_edits_agree(current: Option<Seq<char>>, edit: ReplaceView, max: nat)
    ensures
        ({
            let answered = answer_update(current, None, Some(seq![edit]), max);
            let requested = chain_update(current, seq![edit], max);
            &&& answered.new_summary == requested.new_summary
            &&& answered.truncated == requested.truncated
            &&& requested.warnings.is_prefix_of(answered.warnings)
        }),
        passage_missing(or_empty(current), edit.old_part) ==> chain_text(
            or_empty(current),
            seq![edit],
        ) == or_empty(current),
{
    let text = or_empty(current);
    assert(seq![edit].drop_last() =~= Seq::<ReplaceView>::empty());
    assert(seq![edit].last() == edit);
    reveal_with_fuel(chain_text, 3);
}

/// In a summary without content no passage is found.
pub proof fn law_nothing_stands_in_an_empty_summary(old_part: Seq<char>)
    requires
        old_part.len() > 0,
        old_part != "!ALL!"@,
    ensures
        passage_missing(Seq::empty(), old_part),
{
    let none = Seq::<char>::empty();
    lemma_occurrence(none, old_part, 0);
    lemma_occurrence(none, without_closing(old_part), 0);
    law_fold_grows(old_part);
    law_fold_grows(none);
    assert(folded(none) =~= none);
    lemma_occurrence(none, folded(old_part), 0);
    assert(words(none) =~= Seq::<Seq<char>>::empty());
    lemma_occurrence(words(none), words(old_part), 0);
}

/// The warnings of two chains applied one after the other are as many as those
/// of their concatenation.
pub proof fn law_warnings_add_up(current: Seq<char>, a: Seq<ReplaceView>, b: Seq<ReplaceView>)
    ensures
        chain_warnings(current, a + b).len() == chain_warnings(current, a).len() + chain_warnings(
            chain_text(current, a),
            b,
        ).len(),
    decreases b.len(),
{
    if b.len() == 0 {
        assert(a + b =~= a);
    } else {
        law_warnings_add_up(current, a, b.drop_last());
        law_chain_concat(current, a, b.drop_last());
        assert((a + b).drop_last() =~= a + b.drop_last());
    }
}

/// Applying a chain under a cap that cuts nothing off is applying any beginning
/// of it, and then the rest to what that leaves: the summary is the same, and
/// the warnings are as many.
pub proof fn law_chains_apply_in_order(
    current: Option<Seq<char>>,
    a: Seq<ReplaceView>,
    b: Seq<ReplaceView>,
    max: nat,
)
    requires
        chain_text(or_empty(current), a).len() <= max,
        chain_text(or_empty(current), a + b).len() <= max,
    ensures
        ({
            let whole = chain_update(current, a + b, max);
            let first = chain_update(current, a, max);
            let then = chain_update(first.new_summary, b, max);
            &&& whole.new_summary == then.new_summary
            &&& whole.warnings.len() == first.warnings.len() + then.warnings.len()
            &&& !whole.truncated && !first.truncated && !then.truncated
        }),
{
    let text = or_empty(current);
    law_chain_concat(text, a, b);
    law_warnings_add_up(text, a, b);
    let first = chain_update(current, a, max);
    assert(or_empty(first.new_summary) =~= chain_text(text, a));
}

/// What a chain gives under a cap follows from what it gives under one that
/// cuts nothing off: the same where that fits; else its beginning with an
/// ellipsis, and one more warning, which speaks of the cap. A cap of 0 leaves
/// nothing.
pub proof fn law_cap_follows_from_uncapped(
    current: Option<Seq<char>>,
    reps: Seq<ReplaceView>,
    max: nat,
    large: nat,
)
    requires
        chain_text(or_empty(current), reps).len() <= large,
    ensures
        ({
            let full = chain_update(current, reps, large);
            let s = or_empty(full.new_summary);
            let r = chain_update(current, reps, max);
            &&& !full.truncated
            &&& r.truncated == (s.len() > max)
            &&& !r.truncated ==> r.new_summary == full.new_summary && r.warnings == full.warnings
            &&& r.truncated && max >= 1 ==> r.new_summary == Some(s.take(max - 1).push('…'))
            &&& r.truncated && max == 0 ==> r.new_summary is None
            &&& r.truncated ==> r.warnings.len() == full.warnings.len() + 1 && r.warnings.drop_last()
                == full.warnings && contains_text(r.warnings.last(), "over cap"@)
        }),
{
    let text = chain_text(or_empty(current), reps);
    let full = chain_update(current, reps, large);
    assert(or_empty(full.new_summary) =~= text);
    if text.len() > max {
        lemma_cut_warning_speaks_of_cap(text.len(), max);
        let r = chain_update(current, reps, max);
        assert(r.warnings.drop_last() =~= full.warnings);
    }
}

proof fn lemma_cut_warning_speaks_of_cap(len: nat, max: nat)
    ensures
        contains_text(chain_cut_warning(len, max), "over cap"@),
{
    reveal_strlit("history_summary was ");
    reveal_strlit(" chars (over cap of ");
    reveal_strlit("over cap");
    let w = chain_cut_warning(len, max);
    let head = "history_summary was "@ + dec(len) + " chars (over cap of "@;
    let k = ("history_summary was "@.len() + dec(len).len() + 8) as int;
    assert(w.take(head.len() as int) =~= head);
    assert(w.subrange(k, k + 8) =~= "over cap"@) by {
        assert forall|i: int| 0 <= i < 8 implies w[k + i] == #[trigger] "over cap"@[i] by {
            assert(w[k + i] == head[k + i]);
            assert(head[k + i] == " chars (over cap of "@[8 + i]);
        }
    }
    lemma_occurrence_exists(w, "over cap"@, 0, k);
}

/// A replacement puts its new part in the place of exactly the range that is
/// found: what stands before and after it is kept. Where nothing is found, it is
/// skipped.
pub proof fn law_replacement_keeps_the_rest(state: Seq<char>, rep: ReplaceView)
    requires
        rep.old_part.len() > 0,
        rep.old_part != "!ALL!"@,
        state.len() > 0,
    ensures
        match replace_range(state, rep.old_part) {
            Some(p) => {
                &&& replaced(state, rep) is Some
                &&& replaced(state, rep)->0.len() == state.len() - (p.1 - p.0) + rep.new_part.len()
                &&& replaced(state, rep)->0.take(p.0) == state.take(p.0)
                &&& replaced(state, rep)->0.subrange(p.0, p.0 + rep.new_part.len()) == rep.new_part
                &&& replaced(state, rep)->0.skip(p.0 + rep.new_part.len()) == state.skip(p.1)
            },
            None => replaced(state, rep) is None,
        },
{
    law_replace_range_in_bounds(state, rep.old_part);
    if let Some(p) = replace_range(state, rep.old_part) {
        let after = replaced(state, rep)->0;
        assert(after.take(p.0) =~= state.take(p.0));
        assert(after.subrange(p.0, p.0 + rep.new_part.len()) =~= rep.new_part);
        assert(after.skip(p.0 + rep.new_part.len()) =~= state.skip(p.1));
    }
}

/// A passage that is quoted with closing punctuation, and stands in the summary
/// without it, is replaced alone: what stands before and after it is kept.
pub proof fn law_quoted_passage_is_replaced(
    before: Seq<char>,
    core: Seq<char>,
    tail: Seq<char>,
    after: Seq<char>,
    new_part: Seq<char>,
)
    requires
        core.len() > 0,
        tail.len() > 0,
        forall|i: int| 0 <= i < tail.len() ==> closing(#[trigger] tail[i]),
        !closing(core.last()),
        core + tail != "!ALL!"@,
        forall|j: int| !occurs_at(before + core + after, core + tail, j),
        forall|j: int| !occurs_at(words(before + core + after), words(core + tail), j),
        forall|j: int| 0 <= j < before.len() ==> !occurs_at(before + core + after, core, j),
    ensures
        replaced(before + core + after, ReplaceView { old_part: core + tail, new_part }) == Some(
            before + new_part + after,
        ),
{
    let hay = before + core + after;
    let k = before.len() as int;
    let rep = ReplaceView { old_part: core + tail, new_part };
    assert(hay.subrange(k, k + core.len()) =~= core);
    law_unpunctuated_passage(hay, core, tail, k);
    let p = replace_range(hay, core + tail)->0;
    assert(occurs_at(hay, core, p.0));
    assert(p.0 == k);
    assert(hay.take(k) =~= before);
    assert(hay.skip(p.1) =~= after);
}

/// A passage that stands in the summary but for white space is replaced with all
/// its words, from the first to the last; what stands around it is kept.
pub proof fn law_passage_by_words_is_replaced(state: Seq<char>, rep: ReplaceView, k: int)
    requires
        rep.old_part != "!ALL!"@,
        forall|j: int| !occurs_at(state, rep.old_part, j),
        words(rep.old_part).len() > 0,
        occurs_at(words(state), words(rep.old_part), k),
        forall|j: int| 0 <= j < k ==> !occurs_at(words(state), words(rep.old_part), j),
    ensures
        exists|a: int, b: int|
            0 <= a < b <= state.len() && words(#[trigger] state.subrange(a, b)) == words(
                rep.old_part,
            ) && words(state.take(a)) == words(state).take(k) && replaced(state, rep) == Some(
                state.take(a) + rep.new_part + state.skip(b),
            ),
{
    law_passage_by_words(state, rep.old_part, k);
    let p = replace_range(state, rep.old_part)->0;
    assert(words(state.subrange(p.0, p.1)) == words(rep.old_part));
    law_words_are_runs(rep.old_part);
    assert(rep.old_part.len() > 0) by {
        let span = spans_from(rep.old_part, 0)[0];
        assert(0 <= span.0 < span.1 <= rep.old_part.len());
    }
}

/// One replacement alone does what it does to the summary, or leaves it.
pub proof fn law_chain_of_one(current: Seq<char>, rep: ReplaceView)
    ensures
        chain_text(current, Seq::empty()) == current,
        chain_warnings(current, Seq::empty()).len() == 0,
        replaced(current, rep) is Some ==> chain_text(current, seq![rep]) == replaced(current, rep)->0
            && chain_warnings(current, seq![rep]).len() == 0,
        replaced(current, rep) is None ==> chain_text(current, seq![rep]) == current
            && chain_warnings(current, seq![rep]).len() == 1,
        rep.old_part == "!ALL!"@ ==> replaced(current, rep) == Some(rep.new_part),
        rep.old_part.len() == 0 ==> replaced(current, rep) == Some(current + rep.new_part),
{
    reveal_strlit("!ALL!");
    let none = Seq::<ReplaceView>::empty();
    assert(seq![rep].drop_last() =~= none);
    assert(seq![rep].last() == rep);
    assert(chain_text(current, none) == current);
    assert(chain_warnings(current, none) == Seq::<Seq<char>>::empty());
    assert(chain_text(current, seq![rep]) == match replaced(current, rep) {
        Some(after) => after,
        None => current,
    });
}

/// The warning for a skipped replacement says which one it was.
pub proof fn law_skip_warning_names_the_replacement(i: nat, state: Seq<char>, rep: ReplaceView)
    ensures
        begins_with(skip_warning(i, state, rep), "history_summary_replace["@ + dec(i) + "]"@),
        state.len() > 0 ==> contains_text(skip_warning(i, state, rep), debug_form(preview(rep.old_part))),
        rep.old_part.len() <= 60 ==> preview(rep.old_part) == rep.old_part,
        rep.old_part.len() > 60 ==> preview(rep.old_part) == rep.old_part.take(60).push('…'),
{
    reveal_strlit("]");
    reveal_strlit("]: current summary is empty; cannot search for non-empty old_part; skipped");
    reveal_strlit("]: old_part not found in current summary (length ");
    let head = "history_summary_replace["@ + dec(i);
    let w = skip_warning(i, state, rep);
    let n = head.len() as int;
    assert(w.take(n) =~= head);
    assert(w[n] == ']');
    let full = head + "]"@;
    assert(w.subrange(0, n + 1) =~= full);
    if state.len() > 0 {
        let a = head + "]: old_part not found in current summary (length "@ + dec(state.len())
            + "); skipped (looking for: "@;
        law_parts_are_found(a, debug_form(preview(rep.old_part)), ")"@);
        assert(w =~= a + debug_form(preview(rep.old_part)) + ")"@);
    }
}

/// A text says nothing exactly where no letter and no digit stands in it.
pub proof fn law_placeholder(s: Seq<char>, i: int)
    ensures
        0 <= i < s.len() && alphanumeric(s[i]) ==> !placeholder(s),
        !placeholder(s) ==> exists|j: int| 0 <= j < s.len() && alphanumeric(#[trigger] s[j]),
{
}

/// A full summary is kept without the white space around it: whole where it fits,
/// else its beginning with an ellipsis; and not at all where it says nothing, or
/// where not even one character fits beside the ellipsis.
pub proof fn law_full_summary(before: Seq<char>, core: Seq<char>, after: Seq<char>, max: nat)
    requires
        forall|i: int| 0 <= i < before.len() ==> white(#[trigger] before[i]),
        forall|i: int| 0 <= i < after.len() ==> white(#[trigger] after[i]),
        core.len() > 0 ==> !white(core[0]) && !white(core.last()),
    ensures
        ({
            let kept = full_summary(before + core + after, max);
            &&& placeholder(core) ==> kept is None
            &&& !placeholder(core) && core.len() <= max ==> kept == Some(core)
            &&& !placeholder(core) && core.len() > max && max >= 2 ==> kept == Some(
                core.take(max - 1).push('…'),
            )
            &&& !placeholder(core) && core.len() > max && max <= 1 ==> kept is None
            &&& full_is_cut(before + core + after, max) <==> !placeholder(core) && core.len() > max
        }),
{
    law_trim_takes_the_surrounding(before, core, after);
}

/// What an answer without a summary does: nothing but a warning. One with a full
/// summary alone sets it, and warns where it was cut.
pub proof fn law_answer_with_full_summary(current: Option<Seq<char>>, full: Seq<char>, max: nat)
    ensures
        ({
            let neither = answer_update(current, None, None, max);
            let set = answer_update(current, Some(full), None, max);
            &&& neither.new_summary == current
            &&& !neither.truncated
            &&& neither.warnings.len() == 1
            &&& set.new_summary == full_summary(full, max)
            &&& set.truncated == full_is_cut(full, max)
            &&& set.warnings.len() == (if full_is_cut(full, max) {
                1nat
            } else {
                0nat
            })
        }),
{
}

/// What an answer with replacements does: what they make of the summary, with
/// their warnings; a full summary beside them is warned of first, and is used only
/// where they change nothing and it says something.
pub proof fn law_answer_with_replacements(
    current: Option<Seq<char>>,
    full: Option<Seq<char>>,
    reps: Seq<ReplaceView>,
    max: nat,
)
    ensures
        ({
            let chain = chain_update(current, reps, max);
            let r = answer_update(current, full, Some(reps), max);
            let unchanged = or_empty(current) == or_empty(chain.new_summary);
            let used = full is Some && unchanged && !placeholder(trimmed(full->0));
            &&& !used ==> r.new_summary == chain.new_summary && r.truncated == chain.truncated
            &&& used ==> r.new_summary == full_summary(full->0, max) && r.truncated == (
            chain.truncated || full_is_cut(full->0, max))
            &&& full is None ==> chain.warnings.is_prefix_of(r.warnings)
            &&& full is Some ==> (seq![both_warning()] + chain.warnings).is_prefix_of(r.warnings)
            &&& r.warnings.len() == chain.warnings.len() + (if full is Some {
                1nat
            } else {
                0nat
            }) + (if used {
                1nat
            } else {
                0nat
            }) + (if used && full_is_cut(full->0, max) {
                1nat
            } else {
                0nat
            }) + (if r.truncated {
                1nat
            } else {
                0nat
            })
        }),
{
    let chain = chain_update(current, reps, max);
    let r = answer_update(current, full, Some(reps), max);
    if full is None {
        assert(chain.warnings =~= r.warnings.subrange(0, chain.warnings.len() as int));
    } else {
        let head = seq![both_warning()] + chain.warnings;
        assert(head =~= r.warnings.subrange(0, head.len() as int));
    }
}

/// A passage is missing where it is not found and is to be found at all: an empty
/// one and the one that stands for the whole summary never are.
pub proof fn law_passage_missing(current: Seq<char>, old_part: Seq<char>)
    ensures
        old_part.len() == 0 ==> !passage_missing(current, old_part),
        old_part == "!ALL!"@ ==> !passage_missing(current, old_part),
        old_part.len() > 0 && old_part != "!ALL!"@ ==> (passage_missing(current, old_part)
            <==> replace_range(current, old_part) is None),
{
}

/// The replacements of an answer are its one or its many, in order.
pub proof fn law_replaces(one: HistorySummaryReplace, many: Vec<HistorySummaryReplace>, i: int)
    ensures
        ({
            let single = answer_replaces(Some(HistorySummaryReplaceOneOrMany::Single(one)));
            let list = answer_replaces(Some(HistorySummaryReplaceOneOrMany::Many(many)));
            &&& single is Some && single->0.len() == 1
            &&& single->0[0].old_part == one.old_part@
            &&& single->0[0].new_part == one.new_part@
            &&& list is Some && list->0.len() == many@.len()
            &&& 0 <= i < many@.len() ==> list->0[i].old_part == many@[i].old_part@
            &&& 0 <= i < many@.len() ==> list->0[i].new_part == many@[i].new_part@
            &&& answer_replaces(None) is None
        }),
{
}

/// A replacement that is skipped is warned of, after those that were skipped
/// before it, under its number in the chain.
pub proof fn law_skipped_replacements_are_numbered(
    current: Seq<char>,
    before: Seq<ReplaceView>,
    rep: ReplaceView,
)
    requires
        replaced(chain_text(current, before), rep) is None,
    ensures
        chain_warnings(current, before.push(rep)).drop_last() == chain_warnings(current, before),
        begins_with(
            chain_warnings(current, before.push(rep)).last(),
            "history_summary_replace["@ + dec(before.len()) + "]"@,
        ),
{
    assert(before.push(rep).drop_last() =~= before);
    let w = skip_warning(before.len(), chain_text(current, before), rep);
    assert(chain_warnings(current, before).push(w).drop_last() =~= chain_warnings(current, before));
    law_skip_warning_names_the_replacement(before.len(), chain_text(current, before), rep);
}

} // verus!
