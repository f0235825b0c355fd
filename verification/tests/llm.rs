//! Answers of the model, replies of its service, and reports of calls.
use open_world::llm_reply::{
    messages_url, read_counts, read_reply, read_reply_facts, record_url, record_url_from,
    settle_reply, trim_slashes, CallCounts, LlmReply, ReplyBlock, ReplyFacts, ReportOutcome,
    ReportWarnings,
};
use open_world::llm_response::{
    choose_attempt, extract_action_field, extract_json, fix_known_malformed_patterns,
    has_braces_in_order, list_attempts, parse_attempts, strip_double_braces_outside_strings, Repair,
};
use serde_json::Value;

/// Parses an answer as the server does: the first attempt that is an object
/// with an action counts.
fn parse_llm_action_response(raw: &str) -> Result<(Value, Option<String>), String> {
    let attempts = parse_attempts(raw);
    let mut values = Vec::new();
    let mut errors = Vec::new();
    for a in &attempts {
        match serde_json::from_str::<Value>(&a.text) {
            Ok(v) => {
                values.push(Some(v));
                errors.push(None);
            }
            Err(e) => {
                values.push(None);
                errors.push(Some(e.to_string()));
            }
        }
    }
    let (i, warning) = choose_attempt(&attempts, &errors)?;
    Ok((values[i].take().unwrap(), warning))
}

#[test]
fn repairs_empty_key_before_new_part() {
    let broken = r#"{"old_part":"Currently broadcasting...Post-Harmonization Era.","":"new_part":"Now actively collecting..."}"#;
    let repaired = fix_known_malformed_patterns(broken);
    let parsed: Value = serde_json::from_str(&repaired).expect("repaired string must parse");
    assert_eq!(
        parsed.get("old_part").and_then(|v| v.as_str()),
        Some("Currently broadcasting...Post-Harmonization Era.")
    );
    assert_eq!(
        parsed.get("new_part").and_then(|v| v.as_str()),
        Some("Now actively collecting...")
    );
}

#[test]
fn repairs_empty_key_before_old_part() {
    let broken = r#"{"new_part":"newer text","":"old_part":"some text"}"#;
    let repaired = fix_known_malformed_patterns(broken);
    let parsed: Value = serde_json::from_str(&repaired).unwrap();
    assert_eq!(parsed.get("old_part").and_then(|v| v.as_str()), Some("some text"));
    assert_eq!(parsed.get("new_part").and_then(|v| v.as_str()), Some("newer text"));
}

#[test]
fn leaves_valid_json_unchanged() {
    let ok = r#"{"old_part":"a","new_part":"b"}"#;
    let repaired = fix_known_malformed_patterns(ok);
    assert_eq!(repaired, ok);
}

#[test]
fn does_not_touch_unrelated_empty_keys() {
    let unrelated = r#"{"":"unexpected_value","x":"y"}"#;
    let repaired = fix_known_malformed_patterns(unrelated);
    assert_eq!(repaired, unrelated);
}

#[test]
fn repairs_every_empty_key() {
    assert_eq!(
        fix_known_malformed_patterns("{\"a\":1,\"\": \n \"old_part\":\"x\",\"\":\"new_part\":\"y\"}"),
        "{\"a\":1,\"old_part\":\"x\",\"new_part\":\"y\"}"
    );
}

#[test]
fn strict_parse_ok_returns_none_repair_warning() {
    let ok = r#"{
        "action": "study_ancient_tome",
        "outcome": "Learns a new spell.",
        "effects": {"knowledge": 1},
        "narrative": "The scholar pores over the brittle pages.",
        "history_summary": "Studied ancient magic."
    }"#;
    let (parsed, warning) = parse_llm_action_response(ok).expect("well-formed response must parse");
    assert_eq!(parsed["action"], "study_ancient_tome");
    assert!(warning.is_none(), "strict-parse-ok path must not emit a repair warning");
}

#[test]
fn broken_history_summary_replace_triggers_repair_warning() {
    let broken = r#"{
        "action": "broadcast_chronicle_update",
        "outcome": "The World Clock's narration shifts.",
        "effects": {"influence": 0},
        "narrative": "The clock's tone changes.",
        "history_summary": "Now collecting era markers.",
        "history_summary_replace": [{"old_part":"Currently broadcasting...Post-Harmonization Era.","":"new_part":"Now actively collecting..."}]
    }"#;
    let (parsed, warning) = parse_llm_action_response(broken).expect("repaired response must parse");
    assert_eq!(parsed["action"], "broadcast_chronicle_update");
    let w = warning.expect("repair path must emit a warning");
    assert!(w.contains("parse_llm_action_response"), "warning should identify source fn: {}", w);
    assert!(w.contains("empty-key"), "warning should name the bug class: {}", w);
}

#[test]
fn unparseable_garbage_returns_err_with_no_warning() {
    let garbage = r#"this is not json at all"#;
    let result = parse_llm_action_response(garbage);
    assert!(result.is_err(), "unparseable input must error");
    let message = result.unwrap_err();
    assert!(message.starts_with("JSON parse error: "));
    assert!(message.ends_with(" - Input: this is not json at all"));
}

#[test]
fn doubled_braces_are_repaired() {
    let (parsed, warning) =
        parse_llm_action_response("Sure: {{\"action\":\"a {{b}}\",\"effects\":{{\"x\":1}}}} done").unwrap();
    assert_eq!(parsed["action"], "a {{b}}");
    assert_eq!(parsed["effects"]["x"], 1);
    let w = warning.unwrap();
    assert!(w.contains("(stripped `{`/`}` wrappers outside JSON strings"), "{}", w);
}

#[test]
fn a_repair_that_does_not_help_is_mentioned() {
    let message = parse_llm_action_response("{{oops}}").unwrap_err();
    assert!(message.ends_with(" - Input (after repair attempt): {oops}"), "{}", message);
}

#[test]
fn attempts_are_listed_in_order() {
    let one = list_attempts("{}", "{}");
    assert_eq!(one.len(), 1);
    assert_eq!(one[0].repair, Repair::Strict);
    let three = list_attempts("a", "{{b}}");
    assert_eq!(three.len(), 3);
    assert_eq!((three[1].text.as_str(), three[1].repair), ("{{b}}", Repair::EmptyKeys));
    assert_eq!((three[2].text.as_str(), three[2].repair), ("{b}", Repair::DoubleBraces));
}

#[test]
fn the_first_attempt_that_parses_counts() {
    let attempts = list_attempts("a", "{{b}}");
    let e = |s: &str| Some(s.to_string());
    let (i, w) = choose_attempt(&attempts, &vec![e("x"), None, None]).unwrap();
    assert_eq!(i, 1);
    assert!(w.unwrap().contains("empty-key"));
    let (i, w) = choose_attempt(&attempts, &vec![None, None, None]).unwrap();
    assert_eq!((i, w), (0, None));
    assert_eq!(
        choose_attempt(&attempts, &vec![e("x"), e("y"), e("z")]).unwrap_err(),
        "JSON parse error: z - Input (after repair attempt): {b}"
    );
}

#[test]
fn json_is_cut_out_of_the_answer() {
    assert_eq!(extract_json("Here: {\"a\":{}} ok"), "{\"a\":{}}");
    assert_eq!(extract_json("no braces"), "no braces");
    assert_eq!(extract_json("open { only"), "open { only");
    assert_eq!(extract_json("}{"), "");
    assert!(has_braces_in_order("}{"));
    assert!(!has_braces_in_order("} {"));
    assert!(has_braces_in_order("é{}"));
}

#[test]
fn braces_in_literals_stay() {
    assert_eq!(
        strip_double_braces_outside_strings(r#"{{"k":"{{x}} \" }}"}}"#),
        r#"{"k":"{{x}} \" }}"}"#
    );
    assert_eq!(strip_double_braces_outside_strings("{{{"), "{{");
    let plain = r#"{"a":[{"b":1},{"c":{"d":2} }]}"#;
    assert_eq!(strip_double_braces_outside_strings(plain), plain);
}

#[test]
fn the_action_is_found_in_broken_answers() {
    assert_eq!(
        extract_action_field(r#"{"action" :  "guard \"the\" gate", broken"#),
        Some(r#"guard \"the\" gate"#.to_string())
    );
    assert_eq!(extract_action_field(r#"{"action": 5}"#), None);
    assert_eq!(extract_action_field(r#"{"action": "open"#), None);
    assert_eq!(extract_action_field(r#"{"deed": "x"}"#), None);
    assert_eq!(extract_action_field(r#"{"action""#), None);
    assert_eq!(extract_action_field(r#""action":"""#), Some(String::new()));
}

// ---------------------------------------------------------------------------
// Replies
// ---------------------------------------------------------------------------
#[test]
fn addresses_have_no_double_slash() {
    assert_eq!(
        messages_url("https://api.minimax.io/anthropic//"),
        "https://api.minimax.io/anthropic/v1/messages"
    );
    assert_eq!(trim_slashes("///"), "");
    assert_eq!(trim_slashes("a/b"), "a/b");
}

#[test]
fn content_blocks_make_the_answer() {
    let body = r#"{"content":[{"type":"thinking","thinking":"hm"},{"type":"text","text":"a"},
        {"type":"tool"},{"type":"text","text":"b"},{"type":"thinking","thinking":"so"}],
        "base_resp":{"status_code":0},"usage":{"input_tokens":3,"output_tokens":4}}"#;
    match read_reply(body) {
        Some(LlmReply::Answer { raw_response, reasoning }) => {
            assert_eq!(raw_response, "ab");
            assert_eq!(reasoning.as_deref(), Some("so"));
        }
        other => panic!("{:?}", other),
    }
    assert_eq!(
        read_counts(body, 7, 8, 9),
        CallCounts {
            tokens_in: Some(3),
            tokens_out: Some(4),
            reasoning_tokens: None,
            chars_in: Some(7),
            chars_out: Some(8),
            chars_reasoning: Some(9),
        }
    );
}

#[test]
fn choices_are_the_other_known_form() {
    match read_reply(r#"{"choices":[{"message":{"content":"hello"}}]}"#) {
        Some(LlmReply::Answer { raw_response, reasoning }) => {
            assert_eq!(raw_response, "hello");
            assert_eq!(reasoning, None);
        }
        other => panic!("{:?}", other),
    }
    let facts = read_reply_facts(r#"{"choices":{"0":{"message":{"content":"no"}}}}"#).unwrap();
    assert_eq!(facts.choice, None);
}

#[test]
fn errors_and_empty_replies() {
    assert!(read_reply("<html>").is_none());
    match read_reply(r#"{"base_resp":{"status_code":1008,"status_msg":"no balance"}}"#) {
        Some(LlmReply::ServiceError { message }) => {
            assert_eq!(message, "MiniMax API error (1008): no balance")
        }
        other => panic!("{:?}", other),
    }
    match read_reply(r#"{"base_resp":{"status_code":-1}}"#) {
        Some(LlmReply::ServiceError { message }) => {
            assert_eq!(message, "MiniMax API error (-1): Unknown error")
        }
        other => panic!("{:?}", other),
    }
    match read_reply(r#"{"content":[{"type":"thinking","thinking":"hm"}]}"#) {
        Some(LlmReply::Empty { reasoning }) => assert_eq!(reasoning.as_deref(), Some("hm")),
        other => panic!("{:?}", other),
    }
}

#[test]
fn facts_decide_the_reply() {
    let block = |kind: &str, text: Option<&str>| ReplyBlock {
        kind: Some(kind.to_string()),
        text: text.map(|t| t.to_string()),
        thinking: None,
    };
    let facts = ReplyFacts {
        status_code: Some(0),
        status_msg: None,
        blocks: vec![block("text", None), block("text", Some(""))],
        choice: Some("choice".to_string()),
    };
    match settle_reply(&facts) {
        LlmReply::Answer { raw_response, .. } => assert_eq!(raw_response, "choice"),
        other => panic!("{:?}", other),
    }
}

// ---------------------------------------------------------------------------
// Reports
// ---------------------------------------------------------------------------
#[test]
fn reports_carry_what_is_known() {
    let counts = CallCounts {
        tokens_in: Some(10),
        tokens_out: None,
        reasoning_tokens: None,
        chars_in: Some(-1),
        chars_out: None,
        chars_reasoning: Some(0),
    };
    assert_eq!(
        record_url("http://127.0.0.1:8765/", "mini max", "M2.7/é", "open-world_~.", &counts),
        "http://127.0.0.1:8765/api/llm-usage/record?provider=mini%20max&model=M2.7%2F%C3%A9&project=open-world_~.&tokens_in=10&chars_in=-1&chars_reasoning=0"
    );
    assert_eq!(
        record_url_from("b", "p", "m", "x", &counts),
        "b/api/llm-usage/record?provider=p&model=m&project=x&tokens_in=10&chars_in=-1&chars_reasoning=0"
    );
}

#[test]
fn one_warning_for_each_outage() {
    let mut w = ReportWarnings { warned: false };
    assert!(w.note(ReportOutcome::Failed));
    assert!(!w.note(ReportOutcome::Failed));
    assert!(!w.note(ReportOutcome::NoToken));
    assert!(!w.note(ReportOutcome::Accepted));
    assert!(w.note(ReportOutcome::NoToken));
    assert!(!w.note(ReportOutcome::NoToken));
}
