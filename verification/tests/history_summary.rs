//! History summaries: replacements, the fallback, updates and edits.
use open_world::find_replace::find_replace_range;
use open_world::quirks::normalize_llm_unicode_quirks;
use open_world::summary::{
    apply_history_summary_replaces, apply_summary_fallback, is_placeholder_summary,
    HistorySummaryReplace, HistorySummaryReplaceOneOrMany,
};
use open_world::summary_json::{read_edits, settle_edit, settle_edits, EditFacts};
use open_world::summary_update::{
    edit_history_summary, resolve_history_summary_cap_info, update_history_summary, SummaryEdit,
};

fn r(old: &str, new: &str) -> HistorySummaryReplace {
    HistorySummaryReplace { old_part: old.to_string(), new_part: new.to_string() }
}

#[test]
fn append_to_existing_summary() {
    let result = apply_history_summary_replaces(
        Some("hello world"),
        &[r("", " (appended)")],
        10_000,
    );
    assert_eq!(result.new_summary.as_deref(), Some("hello world (appended)"));
    assert!(!result.truncated);
    assert!(result.warnings.is_empty(), "no warning expected, got: {:?}", result.warnings);
}

#[test]
fn empty_old_part_with_none_summary_creates_new() {
    let result = apply_history_summary_replaces(
        None,
        &[r("", "fresh start")],
        10_000,
    );
    assert_eq!(result.new_summary.as_deref(), Some("fresh start"));
    assert!(!result.truncated);
    assert!(result.warnings.is_empty());
}

#[test]
fn empty_old_part_with_empty_string_summary_creates_new() {
    let result = apply_history_summary_replaces(
        Some(""),
        &[r("", "replacement")],
        10_000,
    );
    assert_eq!(result.new_summary.as_deref(), Some("replacement"));
}

#[test]
fn both_empty_is_noop() {
    let result = apply_history_summary_replaces(
        Some("existing content"),
        &[r("", "")],
        10_000,
    );
    assert_eq!(result.new_summary.as_deref(), Some("existing content"));
    assert!(!result.truncated);
}

#[test]
fn find_and_replace_works() {
    let result = apply_history_summary_replaces(
        Some("foo bar foo"),
        &[r("foo", "BAZ")],
        10_000,
    );
    assert_eq!(result.new_summary.as_deref(), Some("BAZ bar foo"));
    assert!(!result.truncated);
    assert!(result.warnings.is_empty());
}

#[test]
fn not_found_logs_warning() {
    let result = apply_history_summary_replaces(
        Some("foo bar"),
        &[r("DOES_NOT_EXIST", "X")],
        10_000,
    );
    assert_eq!(result.new_summary.as_deref(), Some("foo bar"));
    assert_eq!(result.warnings.len(), 1);
    assert!(result.warnings[0].contains("old_part not found"));
}

#[test]
fn non_empty_old_part_with_none_summary_warns_and_skips() {
    let result = apply_history_summary_replaces(
        None,
        &[r("X", "Y")],
        10_000,
    );
    assert_eq!(result.new_summary, None);
    assert_eq!(result.warnings.len(), 1);
    assert!(result.warnings[0].contains("current summary is empty"));
}

#[test]
fn chain_of_replaces_applies_in_order() {
    let result = apply_history_summary_replaces(
        Some("foo bar"),
        &[r("foo", "FOO"), r("bar", "BAR")],
        10_000,
    );
    assert_eq!(result.new_summary.as_deref(), Some("FOO BAR"));
    assert!(result.warnings.is_empty());
}

#[test]
fn chain_with_not_found_in_middle_continues_with_rest() {
    let result = apply_history_summary_replaces(
        Some("foo bar"),
        &[
            r("foo", "FOO"),
            r("DOES_NOT_EXIST", "X"),  // skipped with warning
            r("bar", "BAR"),
        ],
        10_000,
    );
    assert_eq!(result.new_summary.as_deref(), Some("FOO BAR"));
    assert_eq!(result.warnings.len(), 1);
    assert!(result.warnings[0].contains("history_summary_replace[1]"));
}

#[test]
fn chain_with_empty_old_part_after_replace() {
    let result = apply_history_summary_replaces(
        Some("foo"),
        &[
            r("foo", "FOO"),           // state: "FOO"
            r("", " (note)"),          // append: "FOO (note)"
        ],
        10_000,
    );
    assert_eq!(result.new_summary.as_deref(), Some("FOO (note)"));
    assert!(result.warnings.is_empty());
}

#[test]
fn truncation_when_over_cap() {
    let result = apply_history_summary_replaces(
        Some("x"),
        &[r("x", &"y".repeat(200))],
        100,
    );
    assert!(result.truncated);
    assert!(result.warnings.iter().any(|w| w.contains("over cap")));
    let warn = result.warnings.iter().find(|w| w.contains("over cap")).unwrap();
    assert!(warn.contains("200"), "warning should mention the pre-truncate length: {warn}");
    assert!(warn.contains("100"), "warning should mention the cap: {warn}");
    assert!(warn.contains("100"), "warning should mention the over-by amount: {warn}");
    assert!(warn.contains("history_summary_replace"),
        "warning should hint at the fix path: {warn}");
    let s = result.new_summary.unwrap();
    assert!(s.ends_with('…'));
    assert_eq!(s.chars().count(), 100);
}

#[test]
fn truncation_when_cap_lowered() {
    let summary = "x".repeat(150);
    let result = apply_history_summary_replaces(
        Some(&summary),
        &[], // LLM sent no replace edits
        100, // new (lowered) cap
    );
    assert!(result.truncated, "stored summary over the new cap must be truncated");
    let s = result.new_summary.as_ref().unwrap();
    assert!(s.chars().count() <= 100, "truncated length must be ≤ cap");
    let warn = result.warnings.iter().find(|w| w.contains("over cap")).unwrap();
    assert!(warn.contains("150"), "warning should mention pre-truncate length: {warn}");
    assert!(warn.contains("100"), "warning should mention the cap: {warn}");
    assert!(warn.contains("50"), "warning should mention the over-by amount: {warn}");
}

#[test]
fn truncation_exactly_at_cap_no_op() {
    let result = apply_history_summary_replaces(
        Some(&"x".repeat(50)),
        &[],
        50,
    );
    assert!(!result.truncated);
    assert!(!result.warnings.iter().any(|w| w.contains("over cap")),
        "exactly-at-cap should not produce an over-cap warning");
}

#[test]
fn delete_to_empty_results_in_none() {
    let result = apply_history_summary_replaces(
        Some("ONLY_THIS"),
        &[r("ONLY_THIS", "")],
        10_000,
    );
    assert_eq!(result.new_summary, None);
}

#[test]
fn all_full_replace_discards_current() {
    let result = apply_history_summary_replaces(
        Some("old narrative that is being thrown away"),
        &[r("!ALL!", "completely fresh summary, new arc")],
        10_000,
    );
    assert_eq!(
        result.new_summary.as_deref(),
        Some("completely fresh summary, new arc")
    );
    assert!(result.warnings.is_empty(), "got warnings: {:?}", result.warnings);
    assert!(!result.truncated);
}

#[test]
fn all_full_replace_then_append() {
    let result = apply_history_summary_replaces(
        Some("stale content"),
        &[
            r("!ALL!", "fresh chapter 1 content"),
            r("", " (next: investigate ruins)"),
        ],
        10_000,
    );
    assert_eq!(
        result.new_summary.as_deref(),
        Some("fresh chapter 1 content (next: investigate ruins)")
    );
    assert!(result.warnings.is_empty());
}

#[test]
fn all_full_replace_with_empty_new_part_results_in_none() {
    let result = apply_history_summary_replaces(
        Some("existing summary content"),
        &[r("!ALL!", "")],
        10_000,
    );
    assert_eq!(result.new_summary, None);
    assert!(result.warnings.is_empty());
}

#[test]
fn all_full_replace_with_none_summary_and_empty_new_part() {
    let result = apply_history_summary_replaces(
        None,
        &[r("!ALL!", "")],
        10_000,
    );
    assert_eq!(result.new_summary, None);
}

#[test]
fn one_or_many_into_vec_single() {
    let one = HistorySummaryReplaceOneOrMany::Single(r("a", "b"));
    assert_eq!(one.into_vec().len(), 1);
}

#[test]
fn one_or_many_into_vec_many() {
    let many = HistorySummaryReplaceOneOrMany::Many(vec![r("a", "b"), r("c", "d")]);
    assert_eq!(many.into_vec().len(), 2);
}


#[test]
fn find_replace_range_strict_match() {
    let h = "the hero met the dragon at dawn";
    let r = find_replace_range(h, "met the dragon");
    assert_eq!(r, Some((9, 23)));
}

#[test]
fn find_replace_range_strict_no_match() {
    let h = "the hero met the dragon at dawn";
    assert_eq!(find_replace_range(h, "killed the dragon"), None);
}

#[test]
fn find_replace_range_collapses_extra_spaces() {
    let h = "the hero met  the  dragon at dawn";   // double spaces in haystack
    let r = find_replace_range(h, "met the dragon");
    assert!(r.is_some(), "should match despite double spaces");
    let (s, e) = r.unwrap();
    assert_eq!(&h[s..e], "met  the  dragon"); // range covers the original
}

#[test]
fn find_replace_range_collapses_leading_trailing_spaces() {
    let h = "met the dragon at dawn";
    let r = find_replace_range(h, "  met the dragon  ");
    assert!(r.is_some());
}

#[test]
fn find_replace_range_strips_trailing_period() {
    let h = "met the dragon at dawn";
    let r = find_replace_range(h, "met the dragon.");
    assert!(r.is_some(), "should match despite trailing period in needle");
}

#[test]
fn find_replace_range_strips_trailing_comma() {
    let h = "scout, ready for orders";
    let r = find_replace_range(h, "scout, ready,");
    assert!(r.is_some());
}

#[test]
fn find_replace_range_rejects_meaningful_diff() {
    let h = "the hero met the dragon at dawn";
    assert_eq!(find_replace_range(h, "met a wyvern"), None);
}

#[test]
fn find_replace_range_empty_needle_returns_zero_zero() {
    let h = "the hero met the dragon";
    assert_eq!(find_replace_range(h, ""), Some((0, 0)));
}

#[test]
fn find_replace_range_folds_smart_quotes_to_ascii() {
    let h = r#"the hero said "met the dragon" to the bard"#;
    let n = "\u{201C}met the dragon\u{201D}";
    let r = find_replace_range(h, n);
    assert!(r.is_some(), "should match despite smart quotes");
    let (s, e) = r.unwrap();
    assert_eq!(&h[s..e], "\"met the dragon\"");
}

#[test]
fn find_replace_range_folds_em_dash_to_hyphen() {
    let h = "the realm of Aethermoor—where shadows linger";
    let n = "Aethermoor-where";
    let r = find_replace_range(h, n);
    assert!(r.is_some(), "should match despite em-dash vs hyphen");
    let (s, e) = r.unwrap();
    assert_eq!(&h[s..e], "Aethermoor—where");
}

#[test]
fn find_replace_range_folds_fullwidth_punctuation() {
    let h = "She recruited twelve knights\u{FF0C}then vanished";
    let n = "twelve knights\u{FF0C}then";
    let r = find_replace_range(h, n);
    assert!(r.is_some(), "should match despite full-width comma");
    let (s, e) = r.unwrap();
    assert_eq!(&h[s..e], "twelve knights\u{FF0C}then");
}

#[test]
fn find_replace_range_folds_nbsp_to_space() {
    let h = "the\u{00A0}hero\u{00A0}met the dragon";
    let n = "the hero met the dragon";
    let r = find_replace_range(h, n);
    assert!(r.is_some());
    let (s, e) = r.unwrap();
    assert_eq!(&h[s..e], "the\u{00A0}hero\u{00A0}met the dragon");
}

#[test]
fn find_replace_range_folds_fi_ligature() {
    let h = "the hero met the \u{FB01}re drake at dawn";
    let n = "fire drake";
    let r = find_replace_range(h, n);
    assert!(r.is_some(), "ligature should fold to ASCII digraph");
    let (s, e) = r.unwrap();
    assert_eq!(&h[s..e], "\u{FB01}re drake");
}

#[test]
fn find_replace_range_folds_long_s() {
    let h = "the \u{017F}ilent dragon";
    let n = "silent dragon";
    let r = find_replace_range(h, n);
    assert!(r.is_some());
}

#[test]
fn find_replace_range_still_rejects_real_wording_diff() {
    let h = "the hero met the dragon at dawn";
    let n = "killed the dragon";
    assert!(find_replace_range(h, n).is_none());
}

#[test]
fn not_found_warning_includes_old_part_preview() {
    let result = apply_history_summary_replaces(
        Some("the realm is quiet tonight"),
        &[r("She travels to the Shadow Ridge Camp to recruit", "X")],
        10_000,
    );
    assert_eq!(result.warnings.len(), 1);
    let w = &result.warnings[0];
    assert!(w.contains("not found"), "warning text: {w:?}");
    assert!(
        w.contains("She travels to the Shadow Ridge Camp"),
        "warning should include the missing old_part preview: {w:?}"
    );
}

#[test]
fn unicode_quirk_match_succeeds_without_warning() {
    let result = apply_history_summary_replaces(
        Some(r#"the bard said "the dragon sleeps" last night"#),
        &[r("\u{201C}the dragon sleeps\u{201D}", "\u{201C}the dragon wakes\u{201D}")],
        10_000,
    );
    assert!(
        result.warnings.is_empty(),
        "smart-quote match should not warn: {:?}",
        result.warnings
    );
    let new = result.new_summary.unwrap();
    assert!(new.contains("the dragon wakes"));
}

#[test]
fn is_placeholder_summary_detects_ellipsis_alone() {
    assert!(is_placeholder_summary("…"));
    assert!(is_placeholder_summary("… "));
    assert!(is_placeholder_summary(" …"));
}

#[test]
fn is_placeholder_summary_detects_dash_alone() {
    assert!(is_placeholder_summary("—"));
    assert!(is_placeholder_summary("-"));
    assert!(is_placeholder_summary(" -- "));
}

#[test]
fn is_placeholder_summary_detects_punctuation_only() {
    assert!(is_placeholder_summary("..."));
    assert!(is_placeholder_summary(".,;:"));
    assert!(is_placeholder_summary("   "));
}

#[test]
fn is_placeholder_summary_accepts_real_summaries() {
    assert!(!is_placeholder_summary("The hero drew their sword."));
    assert!(!is_placeholder_summary("a"));
    assert!(!is_placeholder_summary("…but tomorrow the dragon wakes"));
    assert!(!is_placeholder_summary("42"));
}

#[test]
fn falls_back_when_replace_is_noop_and_dropped_is_meaningful() {
    let current = Some("Velora holds the boundary vigil.");
    let replace_result = Some("Velora holds the boundary vigil.");
    let dropped = "Velora the Undying now actively reinforces the boundary seal, \
                   inscribing silver sigils at four cardinal points. Her vigilance has \
                   transitioned from passive watching to active counter-corruption.";
    let fb = apply_summary_fallback(dropped, current, replace_result, 10_000);
    let fb = fb.expect("fallback should fire when replace is a no-op and dropped is meaningful");
    assert_eq!(
        fb.new_summary.as_deref(),
        Some(dropped),
        "fallback should return the dropped full summary"
    );
    assert!(!fb.truncated, "should not truncate under cap");
    assert_eq!(fb.warnings.len(), 1);
    assert!(fb.warnings[0].contains("fell back to the dropped history_summary value"));
}

#[test]
fn does_not_fire_when_replace_made_real_change() {
    let current = Some("Velora holds the vigil.");
    let replace_result = Some("Velora is now actively reinforcing the boundary.");
    let dropped = "completely different full rewrite";
    let fb = apply_summary_fallback(dropped, current, replace_result, 10_000);
    assert!(fb.is_none(), "fallback should NOT fire when replace made a change");
}

#[test]
fn does_not_fire_when_dropped_is_empty() {
    let current = Some("Velora holds the vigil.");
    let replace_result = Some("Velora holds the vigil.");
    let dropped = "";
    let fb = apply_summary_fallback(dropped, current, replace_result, 10_000);
    assert!(fb.is_none(), "fallback should NOT fire when dropped is empty");
}

#[test]
fn does_not_fire_when_dropped_is_placeholder() {
    let current = Some("Velora holds the vigil.");
    let replace_result = Some("Velora holds the vigil.");
    for placebo in &["…", "… ", "—", ".", " -- ", "  "] {
        let fb = apply_summary_fallback(placebo, current, replace_result, 10_000);
        assert!(
            fb.is_none(),
            "fallback should NOT fire when dropped is placeholder ({:?})",
            placebo
        );
    }
}

#[test]
fn truncates_dropped_when_over_cap() {
    let current = Some("short");
    let replace_result = Some("short");
    let dropped = "x".repeat(200);
    let fb = apply_summary_fallback(&dropped, current, replace_result, 100)
        .expect("fallback should fire");
    assert!(fb.truncated, "should be truncated");
    let s = fb.new_summary.expect("truncated value must still be present when cut is non-empty");
    assert!(s.ends_with('…'));
    assert_eq!(s.chars().count(), 100);
    assert_eq!(fb.warnings.len(), 2);
    assert!(fb.warnings[0].contains("fell back"));
    assert!(fb.warnings[1].contains("truncated"));
}

#[test]
fn degenerate_zero_cap_returns_none() {
    let current = Some("short");
    let replace_result = Some("short");
    let dropped = "x".repeat(200);
    let fb = apply_summary_fallback(&dropped, current, replace_result, 0)
        .expect("fallback should fire even with zero cap");
    assert!(fb.truncated);
    assert_eq!(
        fb.new_summary, None,
        "zero-cap degenerate should yield None (empty-as-None rule)"
    );
}

#[test]
fn noop_with_none_current_still_fires_fallback() {
    let fb = apply_summary_fallback("fresh start", None, None, 10_000)
        .expect("fallback should fire when both are None and dropped is meaningful");
    assert_eq!(fb.new_summary.as_deref(), Some("fresh start"));
    assert!(!fb.truncated);
}

#[test]
fn trims_dropped_value() {
    let current = Some("stored");
    let replace_result = Some("stored");
    let dropped = "   the new summary content   ";
    let fb = apply_summary_fallback(dropped, current, replace_result, 10_000)
        .expect("fallback should fire");
    assert_eq!(
        fb.new_summary.as_deref(),
        Some("the new summary content"),
        "dropped value should be trimmed"
    );
}

// ---------------------------------------------------------------------------
// Exact texts and edges
// ---------------------------------------------------------------------------
#[test]
fn skipped_replacements_say_why() {
    let result = apply_history_summary_replaces(Some("foo bar"), &[r("baz", "X")], 100);
    assert_eq!(
        result.warnings,
        vec!["history_summary_replace[0]: old_part not found in current summary (length 7); skipped (looking for: \"baz\")"]
    );
    let long = "é".repeat(61);
    let result = apply_history_summary_replaces(Some("x"), &[r(&long, "X")], 100);
    let shown = format!("{}…", "é".repeat(60));
    assert!(result.warnings[0].ends_with(&format!("(looking for: {:?})", shown)));
    let result = apply_history_summary_replaces(None, &[r("", ""), r("X", "Y")], 100);
    assert_eq!(
        result.warnings,
        vec!["history_summary_replace[1]: current summary is empty; cannot search for non-empty old_part; skipped"]
    );
}

#[test]
fn a_cut_is_announced() {
    let result = apply_history_summary_replaces(Some("abcdef"), &[], 4);
    assert_eq!(result.new_summary.as_deref(), Some("abc…"));
    assert_eq!(
        result.warnings,
        vec!["history_summary was 6 chars (over cap of 4 by 2); truncated to ≤4 chars. The LLM should use history_summary_replace on a future turn to shrink this to ≤4 chars (e.g. a surgical edit of stale content, or !ALL! for a full rewrite)."]
    );
    let none = apply_history_summary_replaces(Some("abc"), &[], 0);
    assert_eq!(none.new_summary, None);
    assert!(none.truncated);
    assert!(none.warnings[0].contains("over cap"));
    let one = apply_history_summary_replaces(Some("abc"), &[], 1);
    assert_eq!(one.new_summary.as_deref(), Some("…"));
}

#[test]
fn the_cap_follows_from_the_uncapped_text() {
    let chain = [r("b", "xyz"), r("missing", "q"), r("", "!")];
    let full = apply_history_summary_replaces(Some("abc"), &chain, usize::MAX);
    let text = full.new_summary.clone().unwrap();
    assert_eq!(text, "axyzc!");
    for max in 1..8 {
        let capped = apply_history_summary_replaces(Some("abc"), &chain, max);
        assert_eq!(capped.truncated, text.chars().count() > max);
        if capped.truncated {
            let mut cut: String = text.chars().take(max - 1).collect();
            cut.push('…');
            assert_eq!(capped.new_summary, Some(cut));
            assert_eq!(capped.warnings.len(), full.warnings.len() + 1);
        } else {
            assert_eq!(capped.new_summary, full.new_summary);
            assert_eq!(capped.warnings, full.warnings);
        }
    }
}

#[test]
fn warnings_of_chains_add_up() {
    let chain = [r("nowhere", "x"), r("a", ""), r("b", "c"), r("also not", "y")];
    let whole = apply_history_summary_replaces(Some("ab"), &chain, usize::MAX);
    for i in 0..5 {
        let first = apply_history_summary_replaces(Some("ab"), &chain[..i], usize::MAX);
        let rest =
            apply_history_summary_replaces(first.new_summary.as_deref(), &chain[i..], usize::MAX);
        assert_eq!(rest.new_summary, whole.new_summary);
        assert_eq!(first.warnings.len() + rest.warnings.len(), whole.warnings.len());
    }
}

#[test]
fn no_summary_and_an_empty_one_are_alike() {
    for chain in [vec![r("a", "b")], vec![r("", "x"), r("x", "y")], vec![]] {
        let a = apply_history_summary_replaces(None, &chain, 5);
        let b = apply_history_summary_replaces(Some(""), &chain, 5);
        assert_eq!(a.new_summary, b.new_summary);
        assert_eq!(a.warnings, b.warnings);
    }
}

#[test]
fn two_chains_in_a_row_are_one_chain() {
    let a = [r("one", "two"), r("", "!")];
    let b = [r("two", "three"), r("!", "?")];
    let first = apply_history_summary_replaces(Some("one, two"), &a, 1000);
    let second = apply_history_summary_replaces(first.new_summary.as_deref(), &b, 1000);
    let both = [r("one", "two"), r("", "!"), r("two", "three"), r("!", "?")];
    let once = apply_history_summary_replaces(Some("one, two"), &both, 1000);
    assert_eq!(second.new_summary, once.new_summary);
    assert_eq!(once.new_summary.as_deref(), Some("three, two?"));
}

#[test]
fn long_ligatures_map_back_to_their_place() {
    let h = "the o\u{FB03}ce was shut";
    let (s, e) = find_replace_range(h, "office").unwrap();
    assert_eq!(&h[s..e], "o\u{FB03}ce");
    let h = "ba\u{FB04}ed!";
    let (s, e) = find_replace_range(h, "baffled").unwrap();
    assert_eq!(&h[s..e], "ba\u{FB04}ed");
}

#[test]
fn ranges_are_bytes() {
    let h = "déjà vu, déjà lu";
    let (s, e) = find_replace_range(h, "lu").unwrap();
    assert_eq!((s, e), (h.len() - 2, h.len()));
    assert_eq!(find_replace_range("", "x"), None);
    assert_eq!(find_replace_range("x", "   "), None);
}

#[test]
fn folding_is_plain_and_stable() {
    let s = "\u{201C}a\u{2014}b\u{201D} \u{FB03}\u{017F}\u{FB06}\u{200B}\u{FF1F}x";
    let once = normalize_llm_unicode_quirks(s);
    assert_eq!(once, "\"a-b\" ffisst ?x");
    assert_eq!(normalize_llm_unicode_quirks(&once), once);
    assert_eq!(normalize_llm_unicode_quirks("plain\u{FB00}"), "plain\u{FB00}");
}

#[test]
fn a_deleted_summary_is_a_change() {
    assert!(apply_summary_fallback("new text", Some("old"), None, 100).is_none());
    assert!(apply_summary_fallback("new text", Some(""), None, 100).is_some());
    assert!(apply_summary_fallback("new text", None, Some("x"), 100).is_none());
}

#[test]
fn a_cap_of_one_leaves_no_room_for_a_full_summary() {
    let fb = apply_summary_fallback("words", None, None, 1).unwrap();
    assert!(fb.truncated);
    assert_eq!(fb.new_summary, None);
    assert_eq!(fb.warnings[1], "LLM history_summary exceeded 1 chars; truncated.");
}

// ---------------------------------------------------------------------------
// Updates by an answer
// ---------------------------------------------------------------------------
#[test]
fn an_answer_without_a_summary_changes_nothing() {
    let u = update_history_summary(Some("as it was"), None, None, 100);
    assert_eq!(u.new_summary.as_deref(), Some("as it was"));
    assert_eq!(
        u.warnings,
        vec!["Neither history_summary nor history_summary_replace in LLM response; summary not updated"]
    );
}

#[test]
fn a_full_summary_replaces_the_old_one() {
    let u = update_history_summary(Some("old"), Some("  new  "), None, 100);
    assert_eq!(u.new_summary.as_deref(), Some("new"));
    assert!(u.warnings.is_empty());
    let u = update_history_summary(Some("old"), Some("…"), None, 100);
    assert_eq!(u.new_summary, None);
    let u = update_history_summary(Some("old"), Some("abcdef"), None, 4);
    assert_eq!(u.new_summary.as_deref(), Some("abc…"));
    assert_eq!(u.warnings, vec!["LLM history_summary exceeded 4 chars; truncated."]);
}

#[test]
fn replacements_win_over_a_full_summary() {
    let chain = HistorySummaryReplaceOneOrMany::Single(r("old", "new"));
    let u = update_history_summary(Some("old text"), Some("full"), Some(chain), 100);
    assert_eq!(u.new_summary.as_deref(), Some("new text"));
    assert_eq!(
        u.warnings,
        vec!["Both history_summary and history_summary_replace present; using replace (history_summary dropped)"]
    );
}

#[test]
fn a_full_summary_is_used_where_replacements_change_nothing() {
    let chain = HistorySummaryReplaceOneOrMany::Many(vec![]);
    let u = update_history_summary(Some("old text"), Some("a full one"), Some(chain), 6);
    assert_eq!(u.new_summary.as_deref(), Some("old t…"));
    let chain = HistorySummaryReplaceOneOrMany::Many(vec![]);
    let u = update_history_summary(Some("old"), Some("a full one"), Some(chain), 6);
    assert_eq!(u.new_summary.as_deref(), Some("a ful…"));
    assert_eq!(
        u.warnings,
        vec![
            "Both history_summary and history_summary_replace present; using replace (history_summary dropped)",
            "history_summary_replace was a no-op; fell back to the dropped history_summary value",
            "LLM history_summary exceeded 6 chars; truncated.",
            "LLM history_summary exceeded 6 chars; truncated.",
        ]
    );
}

// ---------------------------------------------------------------------------
// Edits on request
// ---------------------------------------------------------------------------
#[test]
fn an_edit_of_a_missing_passage() {
    match edit_history_summary(Some("déjà"), r("vu", "x"), true, 100) {
        SummaryEdit::NotFound { message } => {
            assert_eq!(message, "old_part not found in current summary (length 6)")
        }
        other => panic!("{:?}", other),
    }
    match edit_history_summary(Some("déjà"), r("vu", "x"), false, 100) {
        SummaryEdit::Unchanged { chars } => assert_eq!(chars, 4),
        other => panic!("{:?}", other),
    }
    for current in [None, Some("")] {
        match edit_history_summary(current, r("vu", "x"), true, 100) {
            SummaryEdit::NotFound { message } => {
                assert_eq!(message, "old_part not found in current summary (length 0)")
            }
            other => panic!("{:?}", other),
        }
        match edit_history_summary(current, r("vu", "x"), false, 100) {
            SummaryEdit::Unchanged { chars } => assert_eq!(chars, 0),
            other => panic!("{:?}", other),
        }
    }
}

#[test]
fn an_edit_is_stored() {
    match edit_history_summary(Some("déjà vu"), r("vu", "lu"), true, 100) {
        SummaryEdit::Stored(s) => assert_eq!(s.new_summary.as_deref(), Some("déjà lu")),
        other => panic!("{:?}", other),
    }
    match edit_history_summary(Some("x"), r("!ALL!", "y"), true, 100) {
        SummaryEdit::Stored(s) => assert_eq!(s.new_summary.as_deref(), Some("y")),
        other => panic!("{:?}", other),
    }
}

#[test]
fn the_cap_of_the_world_comes_first() {
    assert_eq!(resolve_history_summary_cap_info(500, 10000), (500, "world"));
    assert_eq!(resolve_history_summary_cap_info(0, 10000), (10000, "global"));
}

#[test]
fn edits_and_answers_agree() {
    for (old, new) in [("b", "x"), ("", " c"), ("!ALL!", "new"), ("zzz", "x")] {
        let one = HistorySummaryReplaceOneOrMany::Single(r(old, new));
        let answered = update_history_summary(Some("a b"), None, Some(one), 4);
        match edit_history_summary(Some("a b"), r(old, new), false, 4) {
            SummaryEdit::Stored(s) => {
                assert_eq!(s.new_summary, answered.new_summary);
                assert_eq!(s.truncated, answered.truncated);
            }
            SummaryEdit::Unchanged { chars } => {
                assert_eq!(chars, 3);
                assert_eq!(answered.new_summary, Some("a b".to_string()));
            }
            SummaryEdit::NotFound { .. } => panic!("not asked for"),
        }
    }
}

#[test]
fn ranges_can_be_cut_out() {
    let text = "the “ﬁre” — burns";
    for needle in ["“ﬁre”", "\"fire\"", "- burns", "burns.", "the   \u{201C}ﬁre”"] {
        let (from, to) = find_replace_range(text, needle).unwrap();
        assert!(text.is_char_boundary(from) && text.is_char_boundary(to) && from <= to);
    }
}

// ---------------------------------------------------------------------------
// Edits in JSON
// ---------------------------------------------------------------------------
#[test]
fn one_or_many_deserializes_empty_object_as_noop() {
    let parsed = read_edits("{}").expect("empty object should parse");
    assert_eq!(parsed.into_vec().len(), 0);
}

#[test]
fn one_or_many_deserializes_empty_array_as_noop() {
    let parsed = read_edits("[]").expect("empty array should parse");
    assert_eq!(parsed.into_vec().len(), 0);
}

#[test]
fn one_or_many_deserializes_single_object() {
    let parsed =
        read_edits(r#"{"old_part":"a","new_part":"b"}"#).expect("single object should parse");
    let v = parsed.into_vec();
    assert_eq!(v.len(), 1);
    assert_eq!(v[0].old_part, "a");
    assert_eq!(v[0].new_part, "b");
}

#[test]
fn one_or_many_deserializes_array_of_two() {
    let parsed =
        read_edits(r#"[{"old_part":"a","new_part":"b"},{"old_part":"c","new_part":"d"}]"#)
            .expect("array should parse");
    let v = parsed.into_vec();
    assert_eq!(v.len(), 2);
    assert_eq!(v[1].old_part, "c");
}

#[test]
fn one_or_many_rejects_partial_object() {
    let result = read_edits(r#"{"old_part":"a"}"#);
    assert!(result.is_err(), "missing new_part must still fail");
}

#[test]
fn other_shapes_are_refused() {
    for json in ["null", "3", "\"a\"", "[1]", r#"[{"old_part":"a"}]"#, r#"["a"]"#, r#"["a","b"]"#, "[{}]", "x"] {
        assert!(read_edits(json).is_err(), "{json}");
    }
    assert!(read_edits("3").unwrap_err().starts_with("history_summary_replace: expected"));
    let v = read_edits(r#"{"old_part":"a","new_part":"b","note":1}"#).unwrap().into_vec();
    assert_eq!(v.len(), 1);
}

#[test]
fn edits_are_made_of_facts() {
    let facts = |members: Option<usize>, length: Option<usize>, old: Option<&str>, new: Option<&str>| {
        EditFacts {
            members,
            length,
            old_part: old.map(|s| s.to_string()),
            new_part: new.map(|s| s.to_string()),
        }
    };
    let whole = facts(Some(2), None, Some("a"), Some("b"));
    assert_eq!(settle_edit(&whole).unwrap().new_part, "b");
    assert!(settle_edit(&facts(Some(1), None, Some("a"), None)).is_none());
    let list = facts(None, Some(1), None, None);
    assert_eq!(settle_edits(&list, &vec![whole]).unwrap().into_vec().len(), 1);
    assert!(settle_edits(&list, &vec![facts(None, None, None, None)]).is_err());
}

#[test]
fn one_edit_and_lists_keep_their_shape() {
    let single = |json: &str| {
        matches!(read_edits(json), Ok(HistorySummaryReplaceOneOrMany::Single(_)))
    };
    let many = |json: &str| matches!(read_edits(json), Ok(HistorySummaryReplaceOneOrMany::Many(_)));
    assert!(single(r#"{"old_part":"a","new_part":"b"}"#));
    assert!(many(r#"[{"old_part":"a","new_part":"b"}]"#));
    assert!(many("[]"));
    assert!(many("{}"));
}
