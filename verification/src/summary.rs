//! The rolling history summary of an entity: surgical replacements, the
//! fallback to a full summary, and the length cap.
use vstd::prelude::*;
use vstd::string::*;

use crate::find_replace::{find_replace_chars, replace_range};
use crate::text::{
    alphanumeric, chars_of, copied, debug_form, debug_text, dec, dec_text, is_alphanumeric,
    lemma_texts_concat, lemma_texts_push, opt_str, opt_text, same_text, string_between, string_of,
    texts, trim_chars, trimmed,
};

verus! {

broadcast use {lemma_texts_push, lemma_texts_concat};

// ---------------------------------------------------------------------------
// Data
// ---------------------------------------------------------------------------
/// One edit of a summary: `new_part` takes the place of `old_part`. An empty
/// `old_part` appends, and `!ALL!` replaces the whole summary.
#[derive(Debug, Clone)]
pub struct HistorySummaryReplace {
    pub old_part: String,
    pub new_part: String,
}

/// What a `HistorySummaryReplace` holds.
pub struct ReplaceView {
    pub old_part: Seq<char>,
    pub new_part: Seq<char>,
}

impl View for HistorySummaryReplace {
    type V = ReplaceView;

    open spec fn view(&self) -> ReplaceView {
        ReplaceView { old_part: self.old_part@, new_part: self.new_part@ }
    }
}

/// What a sequence of replacements holds.
pub open spec fn replace_views(s: Seq<HistorySummaryReplace>) -> Seq<ReplaceView> {
    Seq::new(s.len(), |i: int| s[i]@)
}

/// Either one replacement or a list of them.
#[derive(Debug)]
pub enum HistorySummaryReplaceOneOrMany {
    Single(HistorySummaryReplace),
    Many(Vec<HistorySummaryReplace>),
}

impl HistorySummaryReplaceOneOrMany {
    /// The replacements, in order.
    pub open spec fn replaces(self) -> Seq<HistorySummaryReplace> {
        match self {
            HistorySummaryReplaceOneOrMany::Single(r) => seq![r],
            HistorySummaryReplaceOneOrMany::Many(rs) => rs@,
        }
    }

    /// Flattens to a list, whatever the shape was.
    pub fn into_vec(self) -> (r: Vec<HistorySummaryReplace>)
        ensures
            r@ == self.replaces(),
    {
        match self {
            HistorySummaryReplaceOneOrMany::Single(r) => {
                let mut v: Vec<HistorySummaryReplace> = Vec::new();
                v.push(r);
                assert(v@ =~= seq![r]);
                v
            },
            HistorySummaryReplaceOneOrMany::Many(rs) => rs,
        }
    }
}

/// What becomes of a summary.
pub struct UpdateView {
    pub new_summary: Option<Seq<char>>,
    pub truncated: bool,
    pub warnings: Seq<Seq<char>>,
}

/// What a chain of replacements makes of a summary.
#[derive(Debug, Clone)]
pub struct ApplyReplaceResult {
    /// The new summary, or `None` where the chain left no content.
    pub new_summary: Option<String>,
    /// The result was cut to the cap.
    pub truncated: bool,
    /// One line for each replacement that was skipped, and one for the cut.
    pub warnings: Vec<String>,
}

impl View for ApplyReplaceResult {
    type V = UpdateView;

    open spec fn view(&self) -> UpdateView {
        UpdateView {
            new_summary: opt_text(self.new_summary),
            truncated: self.truncated,
            warnings: texts(self.warnings@),
        }
    }
}

/// What the fallback to a dropped full summary gives.
#[derive(Debug, Clone, PartialEq)]
pub struct FallbackResult {
    /// The value to store (`None` for no summary).
    pub new_summary: Option<String>,
    /// The result was cut to the cap.
    pub truncated: bool,
    /// The notice of the fallback, and one line for the cut.
    pub warnings: Vec<String>,
}

impl View for FallbackResult {
    type V = UpdateView;

    open spec fn view(&self) -> UpdateView {
        UpdateView {
            new_summary: opt_text(self.new_summary),
            truncated: self.truncated,
            warnings: texts(self.warnings@),
        }
    }
}

// ---------------------------------------------------------------------------
// Model
// ---------------------------------------------------------------------------
/// One less than `max`, or 0.
pub open spec fn room(max: nat) -> int {
    if max == 0 {
        0
    } else {
        max - 1
    }
}

/// The first characters of `s`, with an ellipsis: `max` characters in all, for
/// a `max` of at least 1.
pub open spec fn cut_to(s: Seq<char>, max: nat) -> Seq<char> {
    s.take(room(max)).push('…')
}

/// What one replacement makes of `state`; `None` where it is skipped.
pub open spec fn replaced(state: Seq<char>, rep: ReplaceView) -> Option<Seq<char>> {
    if rep.old_part == "!ALL!"@ {
        Some(rep.new_part)
    } else if rep.old_part.len() == 0 {
        Some(state + rep.new_part)
    } else if state.len() == 0 {
        None
    } else {
        match replace_range(state, rep.old_part) {
            Some(p) => Some(state.take(p.0) + rep.new_part + state.skip(p.1)),
            None => None,
        }
    }
}

/// The first characters of a passage that was not found, for a warning.
pub open spec fn preview(s: Seq<char>) -> Seq<char> {
    if s.len() > 60 {
        s.take(60).push('…')
    } else {
        s
    }
}

/// The warning for replacement number `i`, skipped on `state`.
pub open spec fn skip_warning(i: nat, state: Seq<char>, rep: ReplaceView) -> Seq<char> {
    if state.len() == 0 {
        "history_summary_replace["@ + dec(i)
            + "]: current summary is empty; cannot search for non-empty old_part; skipped"@
    } else {
        "history_summary_replace["@ + dec(i) + "]: old_part not found in current summary (length "@
            + dec(state.len()) + "); skipped (looking for: "@ + debug_form(preview(rep.old_part))
            + ")"@
    }
}

/// The text that a chain of replacements leaves, before the cap.
pub open spec fn chain_text(current: Seq<char>, reps: Seq<ReplaceView>) -> Seq<char>
    decreases reps.len(),
{
    if reps.len() == 0 {
        current
    } else {
        let before = chain_text(current, reps.drop_last());
        match replaced(before, reps.last()) {
            Some(after) => after,
            None => before,
        }
    }
}

/// The warnings of a chain of replacements, before the cap.
pub open spec fn chain_warnings(current: Seq<char>, reps: Seq<ReplaceView>) -> Seq<Seq<char>>
    decreases reps.len(),
{
    if reps.len() == 0 {
        Seq::empty()
    } else {
        let before = chain_text(current, reps.drop_last());
        let earlier = chain_warnings(current, reps.drop_last());
        match replaced(before, reps.last()) {
            Some(_) => earlier,
            None => earlier.push(skip_warning((reps.len() - 1) as nat, before, reps.last())),
        }
    }
}

/// The warning for a chain result of `len` characters that was cut to `max`.
pub open spec fn chain_cut_warning(len: nat, max: nat) -> Seq<char> {
    "history_summary was "@ + dec(len) + " chars (over cap of "@ + dec(max) + " by "@ + dec(
        (len - max) as nat,
    ) + "); truncated to ≤"@ + dec(max)
        + " chars. The LLM should use history_summary_replace on a future turn to shrink this to ≤"@
        + dec(max)
        + " chars (e.g. a surgical edit of stale content, or !ALL! for a full rewrite)."@
}

/// The contents of an optional text, where no text counts as an empty one.
pub open spec fn or_empty(o: Option<Seq<char>>) -> Seq<char> {
    match o {
        Some(s) => s,
        None => Seq::empty(),
    }
}

/// What a chain of replacements makes of a summary under a cap of `max`
/// characters.
pub open spec fn chain_update(
    current: Option<Seq<char>>,
    reps: Seq<ReplaceView>,
    max: nat,
) -> UpdateView {
    let text = chain_text(or_empty(current), reps);
    let warnings = chain_warnings(or_empty(current), reps);
    if text.len() > max {
        UpdateView {
            new_summary: if max == 0 {
                None
            } else {
                Some(cut_to(text, max))
            },
            truncated: true,
            warnings: warnings.push(chain_cut_warning(text.len(), max)),
        }
    } else {
        UpdateView {
            new_summary: if text.len() == 0 {
                None
            } else {
                Some(text)
            },
            truncated: false,
            warnings,
        }
    }
}

/// `s` says nothing: no letter and no digit stands in it.
pub open spec fn placeholder(s: Seq<char>) -> bool {
    forall|i: int| 0 <= i < s.len() ==> !alphanumeric(#[trigger] s[i])
}

/// The summary that a full text stands for under a cap of `max` characters:
/// trimmed, `None` where it says nothing or nothing fits.
pub open spec fn full_summary(full: Seq<char>, max: nat) -> Option<Seq<char>> {
    let t = trimmed(full);
    if placeholder(t) {
        None
    } else if t.len() > max {
        if max <= 1 {
            None
        } else {
            Some(cut_to(t, max))
        }
    } else {
        Some(t)
    }
}

/// A full text is over the cap once trimmed, and says something.
pub open spec fn full_is_cut(full: Seq<char>, max: nat) -> bool {
    !placeholder(trimmed(full)) && trimmed(full).len() > max
}

/// The warning for a full summary that was cut to `max`.
pub open spec fn full_cut_warning(max: nat) -> Seq<char> {
    "LLM history_summary exceeded "@ + dec(max) + " chars; truncated."@
}

pub open spec fn fallback_warning() -> Seq<char> {
    "history_summary_replace was a no-op; fell back to the dropped history_summary value"@
}

/// A chain of replacements that led from `current` to `result` changed
/// nothing.
pub open spec fn no_change(current: Option<Seq<char>>, result: Option<Seq<char>>) -> bool {
    or_empty(current) == or_empty(result)
}

/// What the fallback to `dropped` gives; `None` where it does not apply.
pub open spec fn fallback_update(
    dropped: Seq<char>,
    current: Option<Seq<char>>,
    result: Option<Seq<char>>,
    max: nat,
) -> Option<UpdateView> {
    if !no_change(current, result) || placeholder(trimmed(dropped)) {
        None
    } else {
        Some(
            UpdateView {
                new_summary: full_summary(dropped, max),
                truncated: full_is_cut(dropped, max),
                warnings: if full_is_cut(dropped, max) {
                    seq![fallback_warning(), full_cut_warning(max)]
                } else {
                    seq![fallback_warning()]
                },
            },
        )
    }
}

// ---------------------------------------------------------------------------
// Functions
// ---------------------------------------------------------------------------
/// Whether `s` has no meaningful content: only white space, punctuation,
/// ellipses, dashes and the like.
pub fn is_placeholder_summary(s: &str) -> (r: bool)
    ensures
        r == placeholder(s@),
{
    is_placeholder_chars(&chars_of(s))
}

fn is_placeholder_chars(v: &Vec<char>) -> (r: bool)
    ensures
        r == placeholder(v@),
{
    let mut i: usize = 0;
    while i < v.len()
        invariant
            i <= v@.len(),
            forall|j: int| 0 <= j < i ==> !alphanumeric(#[trigger] v@[j]),
        decreases v.len() - i,
    {
        if is_alphanumeric(v[i]) {
            assert(alphanumeric(v@[i as int]));
            return false;
        }
        i = i + 1;
    }
    true
}

/// The first characters of `v`, with an ellipsis.
fn cut_chars(v: &Vec<char>, max: usize) -> (r: String)
    requires
        v@.len() > max,
    ensures
        r@ == cut_to(v@, max as nat),
{
    let keep: usize = if max == 0 {
        0
    } else {
        max - 1
    };
    let mut cut: String = string_between(v, 0, keep);
    assert(v@.subrange(0, keep as int) =~= v@.take(room(max as nat)));
    cut.push('…');
    cut
}

/// The warning for a full summary that was cut.
fn cut_notice(max: usize) -> (r: String)
    ensures
        r@ == full_cut_warning(max as nat),
{
    let mut w: String = copied("LLM history_summary exceeded ");
    w.append(dec_text(max as u128).as_str());
    w.append(" chars; truncated.");
    w
}

/// The value to keep of a full text that says something, and whether it had to
/// be cut.
fn capped_full(t: &Vec<char>, max_chars: usize) -> (r: (Option<String>, bool))
    ensures
        r.1 == (t@.len() > max_chars),
        opt_text(r.0) == if t@.len() > max_chars {
            if max_chars <= 1 {
                None
            } else {
                Some(cut_to(t@, max_chars as nat))
            }
        } else {
            Some(t@)
        },
{
    if t.len() > max_chars {
        if max_chars <= 1 {
            (None, true)
        } else {
            (Some(cut_chars(t, max_chars)), true)
        }
    } else {
        (Some(string_of(t)), false)
    }
}

/// The value to store when a replace chain changed nothing although a full
/// summary came along with it: the full summary, trimmed and cut to the cap.
/// `None` where the chain made a change, or where the full summary says
/// nothing.
pub fn apply_summary_fallback(
    dropped_full: &str,
    current: Option<&str>,
    replace_result_new_summary: Option<&str>,
    max_chars: usize,
) -> (r: Option<FallbackResult>)
    ensures
        match r {
            Some(fb) => fallback_update(
                dropped_full@,
                opt_str(current),
                opt_str(replace_result_new_summary),
                max_chars as nat,
            ) == Some(fb@),
            None => fallback_update(
                dropped_full@,
                opt_str(current),
                opt_str(replace_result_new_summary),
                max_chars as nat,
            ) is None,
        },
{
    let unchanged: bool = match (current, replace_result_new_summary) {
        (Some(c), Some(n)) => same_text(c, n),
        (None, None) => true,
        (Some(c), None) => c.is_empty(),
        (None, Some(n)) => n.is_empty(),
    };
    proof {
        assert(unchanged == no_change(opt_str(current), opt_str(replace_result_new_summary))) by {
            if let Some(c) = current {
                assert(c@.len() == 0 ==> c@ =~= Seq::empty());
            }
            if let Some(n) = replace_result_new_summary {
                assert(n@.len() == 0 ==> n@ =~= Seq::empty());
            }
        }
    }
    if !unchanged {
        return None;
    }
    let t = trim_chars(&chars_of(dropped_full));
    if is_placeholder_chars(&t) {
        return None;
    }
    let (new_summary, truncated) = capped_full(&t, max_chars);
    let mut warnings: Vec<String> = Vec::new();
    warnings.push(
        copied(
            "history_summary_replace was a no-op; fell back to the dropped history_summary value",
        ),
    );
    if truncated {
        warnings.push(cut_notice(max_chars));
    }
    proof {
        if truncated {
            assert(texts(warnings@) =~= seq![
                fallback_warning(),
                full_cut_warning(max_chars as nat),
            ]);
        } else {
            assert(texts(warnings@) =~= seq![fallback_warning()]);
        }
    }
    Some(FallbackResult { new_summary, truncated, warnings })
}

/// The warning for a replacement that was skipped.
fn skip_notice(i: usize, state: &Vec<char>, rep: &HistorySummaryReplace) -> (r: String)
    ensures
        r@ == skip_warning(i as nat, state@, rep@),
{
    let mut w: String = copied("history_summary_replace[");
    w.append(dec_text(i as u128).as_str());
    if state.len() == 0 {
        w.append("]: current summary is empty; cannot search for non-empty old_part; skipped");
        return w;
    }
    w.append("]: old_part not found in current summary (length ");
    w.append(dec_text(state.len() as u128).as_str());
    w.append("); skipped (looking for: ");
    let old = chars_of(rep.old_part.as_str());
    let shown: String = if old.len() > 60 {
        let mut p: String = string_between(&old, 0, 60);
        assert(old@.subrange(0, 60) =~= old@.take(60));
        p.push('…');
        p
    } else {
        string_of(&old)
    };
    w.append(debug_text(shown.as_str()).as_str());
    w.append(")");
    w
}

/// What one replacement makes of `state`; `None` where it is skipped.
fn replace_once(state: &Vec<char>, rep: &HistorySummaryReplace) -> (r: Option<Vec<char>>)
    ensures
        match r {
            Some(v) => replaced(state@, rep@) == Some(v@),
            None => replaced(state@, rep@) is None,
        },
{
    if same_text(rep.old_part.as_str(), "!ALL!") {
        return Some(chars_of(rep.new_part.as_str()));
    }
    let old = chars_of(rep.old_part.as_str());
    let mut new = chars_of(rep.new_part.as_str());
    if old.len() == 0 {
        let mut out = crate::text::chars_between(state, 0, state.len());
        out.append(&mut new);
        assert(out@ =~= state@ + rep.new_part@);
        return Some(out);
    }
    if state.len() == 0 {
        return None;
    }
    match find_replace_chars(state, &old) {
        Some(p) => {
            let mut out = crate::text::chars_between(state, 0, p.0);
            let mut tail = crate::text::chars_between(state, p.1, state.len());
            out.append(&mut new);
            out.append(&mut tail);
            assert(out@ =~= state@.take(p.0 as int) + rep.new_part@ + state@.skip(p.1 as int));
            Some(out)
        },
        None => None,
    }
}

/// The warning for a chain result that was cut.
fn chain_cut_notice(len: usize, max_chars: usize) -> (r: String)
    requires
        len > max_chars,
    ensures
        r@ == chain_cut_warning(len as nat, max_chars as nat),
{
    let max: String = dec_text(max_chars as u128);
    let mut w: String = copied("history_summary was ");
    w.append(dec_text(len as u128).as_str());
    w.append(" chars (over cap of ");
    w.append(max.as_str());
    w.append(" by ");
    w.append(dec_text((len - max_chars) as u128).as_str());
    w.append("); truncated to ≤");
    w.append(max.as_str());
    w.append(
        " chars. The LLM should use history_summary_replace on a future turn to shrink this to ≤",
    );
    w.append(max.as_str());
    w.append(" chars (e.g. a surgical edit of stale content, or !ALL! for a full rewrite).");
    w
}

/// Applies a chain of replacements to a summary, in order, and cuts the result
/// to `max_chars`; a cap of 0 leaves no summary. A replacement whose passage is not found is skipped with a
/// warning; the rest of the chain still applies.
pub fn apply_history_summary_replaces(
    current: Option<&str>,
    replaces: &[HistorySummaryReplace],
    max_chars: usize,
) -> (r: ApplyReplaceResult)
    ensures
        r@ == chain_update(opt_str(current), replace_views(replaces@), max_chars as nat),
        chain_text(or_empty(opt_str(current)), replace_views(replaces@)).len() <= usize::MAX,
{
    let mut warnings: Vec<String> = Vec::new();
    let mut state: Vec<char> = match current {
        Some(c) => chars_of(c),
        None => Vec::new(),
    };
    let ghost start = or_empty(opt_str(current));
    let ghost views = replace_views(replaces@);
    assert(state@ =~= start);
    assert(views.take(0) =~= Seq::empty());
    assert(texts(warnings@) =~= Seq::empty());
    let mut i: usize = 0;
    while i < replaces.len()
        invariant
            i <= replaces@.len(),
            views == replace_views(replaces@),
            state@ == chain_text(start, views.take(i as int)),
            texts(warnings@) == chain_warnings(start, views.take(i as int)),
        decreases replaces.len() - i,
    {
        let rep: &HistorySummaryReplace = &replaces[i];
        assert(views.take(i + 1).drop_last() =~= views.take(i as int));
        assert(views.take(i + 1).last() == rep@);
        match replace_once(&state, rep) {
            Some(after) => {
                state = after;
            },
            None => {
                warnings.push(skip_notice(i, &state, rep));
            },
        }
        i = i + 1;
    }
    assert(views.take(i as int) =~= views);
    if state.len() > max_chars {
        warnings.push(chain_cut_notice(state.len(), max_chars));
        let new_summary: Option<String> = if max_chars == 0 {
            None
        } else {
            Some(cut_chars(&state, max_chars))
        };
        ApplyReplaceResult { new_summary, truncated: true, warnings }
    } else if state.len() == 0 {
        ApplyReplaceResult { new_summary: None, truncated: false, warnings }
    } else {
        ApplyReplaceResult { new_summary: Some(string_of(&state)), truncated: false, warnings }
    }
}

} // verus!
