//! Calls of the model for an entity: admission and records.
use open_world::entity::WorldEntity;
use open_world::llm_call::{
    admit_entity_action, admit_llm_call, body_record, failed_record, first_choice, is_true,
    rejected_record, reply_record, unconfigured_record, Admission, CallEnd, Refusal,
};
use open_world::llm_reply::LlmReply;
use open_world::process::{process_instruction, unreadable_answer};
use open_world::rate_limit::{LlmRateLimiter, RateLimitReason};

const COOKIE: Option<&str> = Some("other=2; openworld_auth=1");
const ENV: &str = "KEY=secret\n";

fn entities() -> Vec<WorldEntity> {
    vec![WorldEntity::new(5, "npc", "Mira", 0, 0)]
}

fn call(
    limiter: &mut LlmRateLimiter,
    cookies: Option<&str>,
    id: u128,
    env: &str,
) -> Result<Admission, Refusal> {
    admit_llm_call(cookies, "openworld_auth", limiter, 0, &entities(), id, env, "KEY")
}

fn act(
    limiter: &mut LlmRateLimiter,
    cookies: Option<&str>,
    id: u128,
    process: Option<&str>,
    env: &str,
) -> Result<Admission, Refusal> {
    admit_entity_action(cookies, "openworld_auth", limiter, 0, &entities(), id, process, env, "KEY")
}

#[test]
fn calls_are_admitted_in_order() {
    let mut limiter = LlmRateLimiter::new(true, 3);
    assert_eq!(call(&mut limiter, None, 6, "").err(), Some(Refusal::Unauthorized));
    assert_eq!(limiter.status(0).calls_in_last_hour, 0);
    assert_eq!(call(&mut limiter, COOKIE, 6, "").err(), Some(Refusal::EntityNotFound));
    assert_eq!(limiter.status(0).calls_in_last_hour, 1);
    assert_eq!(call(&mut limiter, COOKIE, 5, "").err(), Some(Refusal::NotConfigured));
    assert_eq!(limiter.status(0).calls_in_last_hour, 2);
    let a = call(&mut limiter, COOKIE, 5, ENV).unwrap();
    assert_eq!((a.entity_name.as_str(), a.api_key.as_str()), ("Mira", "secret"));
    let reason = RateLimitReason::LimitReached { retry_after_secs: 3600 };
    assert_eq!(call(&mut limiter, COOKIE, 5, ENV).err(), Some(Refusal::RateLimited(reason)));
    assert_eq!(call(&mut limiter, COOKIE, 6, "").err(), Some(Refusal::RateLimited(reason)));
}

#[test]
fn actions_are_admitted_in_order() {
    let mut limiter = LlmRateLimiter::new(true, 1);
    assert_eq!(act(&mut limiter, None, 6, None, "").err(), Some(Refusal::Unauthorized));
    assert_eq!(act(&mut limiter, COOKIE, 6, Some("true"), "").err(), Some(Refusal::EntityNotFound));
    assert_eq!(act(&mut limiter, COOKIE, 5, Some("true"), "").err(), Some(Refusal::WrongEndpoint));
    assert_eq!(act(&mut limiter, COOKIE, 5, Some("1"), "").err(), Some(Refusal::NotConfigured));
    assert_eq!(limiter.status(0).calls_in_last_hour, 0);
    assert_eq!(act(&mut limiter, COOKIE, 5, None, ENV).unwrap().entity_name, "Mira");
    assert_eq!(limiter.status(0).calls_in_last_hour, 1);
    assert!(matches!(act(&mut limiter, COOKIE, 5, None, ENV), Err(Refusal::RateLimited(_))));
}

#[test]
fn refusals_have_words_and_a_status() {
    let reason = RateLimitReason::LimitReached { retry_after_secs: 9 };
    let all = vec![
        (Refusal::Unauthorized, 401, "Authentication required", None),
        (Refusal::EntityNotFound, 404, "Entity not found", None),
        (
            Refusal::WrongEndpoint,
            400,
            "Use /api/entities/:id/action/process for processing",
            None,
        ),
        (
            Refusal::NotConfigured,
            200,
            "LLM not configured. Add LLM_API_KEY to your .env file.",
            None,
        ),
        (
            Refusal::RateLimited(reason),
            429,
            "LLM rate limit reached. Try again in 9s.",
            Some(9),
        ),
        (
            Refusal::RateLimited(RateLimitReason::LimitZero),
            429,
            "LLM calls are deactivated (max_calls_per_hour = 0)",
            None,
        ),
    ];
    for (r, status, message, wait) in all {
        assert_eq!(r.status(), status);
        assert_eq!(r.message(), message);
        assert_eq!(r.retry_after_secs(), wait);
    }
    assert!(is_true(Some("true")));
    assert!(!is_true(Some("True")));
    assert!(!is_true(None));
}

#[test]
fn answers_are_recorded() {
    let body = "{\"content\":[{\"type\":\"thinking\",\"thinking\":\"a \\\"b\\\"\"},\
                {\"type\":\"text\",\"text\":\"{}\"}]}";
    let r = body_record("200 OK", body);
    assert_eq!(r.end, CallEnd::Answered);
    assert!(r.success());
    assert_eq!(r.error, None);
    assert_eq!(r.response, "{}");
    assert_eq!(r.raw_response, "{}");
    assert_eq!(r.reasoning, Some("a \"b\"".to_string()));
    assert_eq!(r.parsing_outcome, "Success - response received");
    assert_eq!(r.extra, "Reasoning: Some(\"a \\\"b\\\"\")");
    let plain = LlmReply::Answer { raw_response: "x".to_string(), reasoning: None };
    assert_eq!(reply_record(Some(plain), "200 OK", "").extra, "Reasoning: None");
}

#[test]
fn failures_are_recorded() {
    let r = body_record("502 Bad Gateway", "<html>");
    assert_eq!(r.end, CallEnd::Unreadable);
    assert!(!r.success());
    assert_eq!(r.error, Some("Failed to parse response: <html>".to_string()));
    assert_eq!(r.response, "<html>");
    assert_eq!(r.parsing_outcome, "Response parse error");
    assert_eq!(r.extra, "Status: 502 Bad Gateway");

    let body = "{\"base_resp\":{\"status_code\":1004,\"status_msg\":\"denied\"}}";
    let r = body_record("200 OK", body);
    assert_eq!(r.end, CallEnd::ServiceError);
    assert_eq!(r.error, Some("MiniMax API error (1004): denied".to_string()));
    assert_eq!(r.parsing_outcome, "MiniMax API error (1004): denied");
    assert_eq!(r.extra, "MiniMax API error");
    assert_eq!(r.response, body);

    let r = body_record("200 OK", "{\"content\":[{\"type\":\"thinking\",\"thinking\":\"t\"}]}");
    assert_eq!(r.end, CallEnd::Empty);
    assert_eq!(r.error, Some("Empty response from LLM".to_string()));
    assert_eq!(r.extra, "No content blocks found");
    assert_eq!(r.reasoning, Some("t".to_string()));
    assert_eq!(r.raw_response, "");

    let r = unconfigured_record();
    assert_eq!(r.end, CallEnd::NotConfigured);
    assert_eq!(
        r.error,
        Some("LLM not configured. Add LLM_API_KEY to your .env file.".to_string())
    );
    assert_eq!(r.extra, "LLM not configured");

    let r = failed_record("timeout");
    assert_eq!(r.end, CallEnd::Failed);
    assert_eq!(r.error, Some("Request failed: timeout".to_string()));
    assert_eq!(r.parsing_outcome, "Request failed: timeout");
    assert_eq!(r.extra, "Network/request error");

    let r = rejected_record("500 Internal Server Error", "oops");
    assert_eq!(r.error, Some("LLM API error: 500 Internal Server Error - oops".to_string()));
    assert_eq!(r.extra, "Status: 500 Internal Server Error (entity_action)");
    assert_eq!(r.response, "oops");
}

#[test]
fn first_choices_are_found() {
    assert_eq!(first_choice("{\"choices\":[{\"message\":{\"content\":\"hi\"}}]}"), "hi");
    assert_eq!(first_choice("{\"choices\":{\"0\":{\"message\":{\"content\":\"hi\"}}}}"), "");
    assert_eq!(first_choice("{\"choices\":[]}"), "");
    assert_eq!(first_choice("nothing"), "");
}

#[test]
fn instructions_name_the_entity() {
    assert_eq!(
        process_instruction(1, Some("rest")),
        "Process action for entity 00000000-0000-0000-0000-000000000001: rest"
    );
    assert_eq!(
        process_instruction(16, None),
        "Process action for entity 00000000-0000-0000-0000-000000000010"
    );
    assert_eq!(unreadable_answer("bad"), "Failed to parse LLM response: bad");
}
