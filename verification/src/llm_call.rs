//! Calls of the language model for an entity: who may make one, and how its
//! end is logged and answered.
use vstd::prelude::*;
use vstd::string::*;

use crate::apply_all::{entity_at, entity_views, find_entity};
use crate::entity::{EntityView, WorldEntity};
use crate::env_file::{env_value, read_env_var, some_grants, verify_auth_cookie};
use crate::json::{json_document, json_length, json_length_at, json_string, json_string_at};
use crate::llm_reply::{facts_in, read_reply, reply_of, LlmReply, ReplyView};
use crate::rate_limit::{after_call, decision, LlmRateLimiter, RateLimitDecision, RateLimitReason};
use crate::text::{
    copied, debug_form, debug_text, ends_with, law_parts_are_found, opt_str, opt_text, same_text,
};
use crate::world::law_entity_is_found;

verus! {

// ---------------------------------------------------------------------------
// Admission
// ---------------------------------------------------------------------------
/// Why a call is not made.
#[derive(Debug, Clone, Copy, PartialEq, Eq, Structural)]
pub enum Refusal {
    /// The request does not carry the cookie.
    Unauthorized,
    /// There is no entity with the id.
    EntityNotFound,
    /// The request asks to carry out an answer, which is done elsewhere.
    WrongEndpoint,
    /// There is no key for the service.
    NotConfigured,
    /// The limiter refuses the call.
    RateLimited(RateLimitReason),
}

impl Refusal {
    /// The refusal in words.
    pub open spec fn text(self) -> Seq<char> {
        match self {
            Refusal::Unauthorized => "Authentication required"@,
            Refusal::EntityNotFound => "Entity not found"@,
            Refusal::WrongEndpoint => "Use /api/entities/:id/action/process for processing"@,
            Refusal::NotConfigured => "LLM not configured. Add LLM_API_KEY to your .env file."@,
            Refusal::RateLimited(reason) => reason.text(),
        }
    }

    /// The refusal in words.
    pub fn message(&self) -> (r: String)
        ensures
            r@ == self.text(),
    {
        match self {
            Refusal::Unauthorized => copied("Authentication required"),
            Refusal::EntityNotFound => copied("Entity not found"),
            Refusal::WrongEndpoint => copied("Use /api/entities/:id/action/process for processing"),
            Refusal::NotConfigured => copied(
                "LLM not configured. Add LLM_API_KEY to your .env file.",
            ),
            Refusal::RateLimited(reason) => reason.message(),
        }
    }

    /// The status of the answer to a request that is refused. A service without
    /// a key is no fault of the request.
    pub fn status(&self) -> (r: u16)
        ensures
            r == match *self {
                Refusal::Unauthorized => 401u16,
                Refusal::EntityNotFound => 404u16,
                Refusal::WrongEndpoint => 400u16,
                Refusal::NotConfigured => 200u16,
                Refusal::RateLimited(_) => 429u16,
            },
    {
        match self {
            Refusal::Unauthorized => 401,
            Refusal::EntityNotFound => 404,
            Refusal::WrongEndpoint => 400,
            Refusal::NotConfigured => 200,
            Refusal::RateLimited(_) => 429,
        }
    }

    /// How long to wait before the next request, in seconds, where waiting
    /// helps.
    pub fn retry_after_secs(&self) -> (r: Option<u64>)
        ensures
            match *self {
                Refusal::RateLimited(RateLimitReason::LimitReached { retry_after_secs }) => r
                    == Some(retry_after_secs),
                _ => r is None,
            },
    {
        match self {
            Refusal::RateLimited(RateLimitReason::LimitReached { retry_after_secs }) => Some(
                *retry_after_secs,
            ),
            _ => None,
        }
    }
}

/// What a call is made with: the name of the entity and the key for the service.
#[derive(Debug)]
pub struct Admission {
    pub entity_name: String,
    pub api_key: String,
}

/// What the result of an admission holds.
pub open spec fn admission_view(r: Result<Admission, Refusal>) -> Result<
    (Seq<char>, Seq<char>),
    Refusal,
> {
    match r {
        Ok(a) => Ok((a.entity_name@, a.api_key@)),
        Err(e) => Err(e),
    }
}

/// A request with these cookies comes from someone who gave the password.
pub open spec fn authorized(cookies: Option<Seq<char>>, cookie_name: Seq<char>) -> bool {
    match cookies {
        Some(header) => some_grants(header, cookie_name),
        None => false,
    }
}

/// The name of the entity with the given id.
pub open spec fn name_of(entities: Seq<EntityView>, id: u128) -> Option<Seq<char>> {
    match entity_at(entities, id) {
        Some(i) => Some(entities[i].name),
        None => None,
    }
}

/// Whether a call with a given context is made: the cookie is looked at first,
/// and then the limiter, the entity and the key.
pub open spec fn llm_admission(
    authorized: bool,
    limit: RateLimitDecision,
    name: Option<Seq<char>>,
    key: Option<Seq<char>>,
) -> Result<(Seq<char>, Seq<char>), Refusal> {
    if !authorized {
        Err(Refusal::Unauthorized)
    } else if let RateLimitDecision::Blocked(reason) = limit {
        Err(Refusal::RateLimited(reason))
    } else if name is None {
        Err(Refusal::EntityNotFound)
    } else if key is None {
        Err(Refusal::NotConfigured)
    } else {
        Ok((name->0, key->0))
    }
}

/// Whether an entity acts at once: the cookie is looked at first, and then the
/// entity, what the request asks for, the key and the limiter.
pub open spec fn action_admission(
    authorized: bool,
    limit: RateLimitDecision,
    name: Option<Seq<char>>,
    process_only: bool,
    key: Option<Seq<char>>,
) -> Result<(Seq<char>, Seq<char>), Refusal> {
    if !authorized {
        Err(Refusal::Unauthorized)
    } else if name is None {
        Err(Refusal::EntityNotFound)
    } else if process_only {
        Err(Refusal::WrongEndpoint)
    } else if key is None {
        Err(Refusal::NotConfigured)
    } else if let RateLimitDecision::Blocked(reason) = limit {
        Err(Refusal::RateLimited(reason))
    } else {
        Ok((name->0, key->0))
    }
}

/// Whether the model may be called for an entity with a given context. Every
/// call that gets past the cookie counts for the limiter, also one that comes
/// to nothing.
pub fn admit_llm_call(
    cookies: Option<&str>,
    cookie_name: &str,
    limiter: &mut LlmRateLimiter,
    now: u64,
    entities: &Vec<WorldEntity>,
    id: u128,
    env: &str,
    api_key_name: &str,
) -> (r: Result<Admission, Refusal>)
    requires
        old(limiter).wf(),
    ensures
        final(limiter).wf(),
        admission_view(r) == llm_admission(
            authorized(opt_str(cookies), cookie_name@),
            decision(old(limiter)@, now),
            name_of(entity_views(entities@), id),
            env_value(env@, api_key_name@),
        ),
        final(limiter)@ == if authorized(opt_str(cookies), cookie_name@) {
            after_call(old(limiter)@, now)
        } else {
            old(limiter)@
        },
{
    if !verify_auth_cookie(cookies, cookie_name) {
        return Err(Refusal::Unauthorized);
    }
    if let RateLimitDecision::Blocked(reason) = limiter.try_acquire(now) {
        return Err(Refusal::RateLimited(reason));
    }
    match find_entity(entities, id) {
        None => Err(Refusal::EntityNotFound),
        Some(i) => match read_env_var(env, api_key_name) {
            None => Err(Refusal::NotConfigured),
            Some(api_key) => Ok(
                Admission { entity_name: copied(entities[i].name.as_str()), api_key },
            ),
        },
    }
}

/// Whether an entity may act at once. Only a call that is about to be made
/// counts for the limiter.
pub fn admit_entity_action(
    cookies: Option<&str>,
    cookie_name: &str,
    limiter: &mut LlmRateLimiter,
    now: u64,
    entities: &Vec<WorldEntity>,
    id: u128,
    process: Option<&str>,
    env: &str,
    api_key_name: &str,
) -> (r: Result<Admission, Refusal>)
    requires
        old(limiter).wf(),
    ensures
        final(limiter).wf(),
        admission_view(r) == action_admission(
            authorized(opt_str(cookies), cookie_name@),
            decision(old(limiter)@, now),
            name_of(entity_views(entities@), id),
            opt_str(process) == Some("true"@),
            env_value(env@, api_key_name@),
        ),
        final(limiter)@ == match r {
            Ok(_) | Err(Refusal::RateLimited(_)) => after_call(old(limiter)@, now),
            Err(_) => old(limiter)@,
        },
{
    if !verify_auth_cookie(cookies, cookie_name) {
        return Err(Refusal::Unauthorized);
    }
    match find_entity(entities, id) {
        None => Err(Refusal::EntityNotFound),
        Some(i) => {
            if is_true(process) {
                return Err(Refusal::WrongEndpoint);
            }
            match read_env_var(env, api_key_name) {
                None => Err(Refusal::NotConfigured),
                Some(api_key) => {
                    if let RateLimitDecision::Blocked(reason) = limiter.try_acquire(now) {
                        return Err(Refusal::RateLimited(reason));
                    }
                    Ok(Admission { entity_name: copied(entities[i].name.as_str()), api_key })
                },
            }
        },
    }
}

/// Whether a parameter of a request is `true`.
pub fn is_true(parameter: Option<&str>) -> (r: bool)
    ensures
        r == (opt_str(parameter) == Some("true"@)),
{
    match parameter {
        Some(p) => same_text(p, "true"),
        None => false,
    }
}

// ---------------------------------------------------------------------------
// Records
// ---------------------------------------------------------------------------
/// How a call ended.
#[derive(Debug, Clone, Copy, PartialEq, Eq, Structural)]
pub enum CallEnd {
    /// It was not made, for want of a key.
    NotConfigured,
    /// The service could not be reached.
    Failed,
    /// The reply is no JSON.
    Unreadable,
    /// The service reports an error.
    ServiceError,
    /// There is no answer in the reply.
    Empty,
    /// There is one.
    Answered,
}

/// How a call ended, with what is logged of it and the answer that came.
#[derive(Debug)]
pub struct CallRecord {
    pub end: CallEnd,
    /// For the log of errors, and for the one who asked.
    pub error: Option<String>,
    /// What came back, for the log of calls.
    pub response: String,
    pub parsing_outcome: String,
    pub extra: String,
    /// The answer, or nothing.
    pub raw_response: String,
    pub reasoning: Option<String>,
}

/// What a `CallRecord` holds.
pub struct RecordView {
    pub end: CallEnd,
    pub error: Option<Seq<char>>,
    pub response: Seq<char>,
    pub parsing_outcome: Seq<char>,
    pub extra: Seq<char>,
    pub raw_response: Seq<char>,
    pub reasoning: Option<Seq<char>>,
}

impl View for CallRecord {
    type V = RecordView;

    open spec fn view(&self) -> RecordView {
        RecordView {
            end: self.end,
            error: opt_text(self.error),
            response: self.response@,
            parsing_outcome: self.parsing_outcome@,
            extra: self.extra@,
            raw_response: self.raw_response@,
            reasoning: opt_text(self.reasoning),
        }
    }
}

impl CallRecord {
    /// Whether the call brought an answer.
    pub fn success(&self) -> (r: bool)
        ensures
            r == (self.end == CallEnd::Answered),
    {
        matches!(self.end, CallEnd::Answered)
    }
}

/// The record of a call without an answer.
pub open spec fn failure(
    end: CallEnd,
    error: Seq<char>,
    response: Seq<char>,
    parsing_outcome: Seq<char>,
    extra: Seq<char>,
    reasoning: Option<Seq<char>>,
) -> RecordView {
    RecordView {
        end,
        error: Some(error),
        response,
        parsing_outcome,
        extra,
        raw_response: Seq::empty(),
        reasoning,
    }
}

fn failure_record(
    end: CallEnd,
    error: String,
    response: &str,
    parsing_outcome: &str,
    extra: &str,
    reasoning: Option<String>,
) -> (r: CallRecord)
    ensures
        r@ == failure(
            end,
            error@,
            response@,
            parsing_outcome@,
            extra@,
            opt_text(reasoning),
        ),
{
    let r = CallRecord {
        end,
        error: Some(error),
        response: copied(response),
        parsing_outcome: copied(parsing_outcome),
        extra: copied(extra),
        raw_response: String::new(),
        reasoning,
    };
    assert(r.raw_response@ =~= Seq::<char>::empty());
    r
}

/// The record of a call that was not made, for want of a key.
pub fn unconfigured_record() -> (r: CallRecord)
    ensures
        r@ == failure(
            CallEnd::NotConfigured,
            Refusal::NotConfigured.text(),
            ""@,
            Refusal::NotConfigured.text(),
            "LLM not configured"@,
            None,
        ),
{
    let error: String = Refusal::NotConfigured.message();
    let shown: String = copied(error.as_str());
    failure_record(
        CallEnd::NotConfigured,
        error,
        "",
        shown.as_str(),
        "LLM not configured",
        None,
    )
}

/// The record of a call that did not reach the service.
pub fn failed_record(error: &str) -> (r: CallRecord)
    ensures
        r@ == failure(
            CallEnd::Failed,
            "Request failed: "@ + error@,
            ""@,
            "Request failed: "@ + error@,
            "Network/request error"@,
            None,
        ),
{
    let mut message: String = copied("Request failed: ");
    message.append(error);
    let shown: String = copied(message.as_str());
    failure_record(CallEnd::Failed, message, "", shown.as_str(), "Network/request error", None)
}

/// An optional text as the log shows it.
pub open spec fn shown_option(o: Option<Seq<char>>) -> Seq<char> {
    match o {
        Some(s) => "Some("@ + debug_form(s) + ")"@,
        None => "None"@,
    }
}

/// The record of a call to which something came back; without a reply where it
/// is no JSON.
pub open spec fn reply_record_of(
    reply: Option<ReplyView>,
    status: Seq<char>,
    body: Seq<char>,
) -> RecordView {
    match reply {
        None => failure(
            CallEnd::Unreadable,
            "Failed to parse response: "@ + body,
            body,
            "Response parse error"@,
            "Status: "@ + status,
            None,
        ),
        Some(ReplyView::ServiceError { message }) => failure(
            CallEnd::ServiceError,
            message,
            body,
            message,
            "MiniMax API error"@,
            None,
        ),
        Some(ReplyView::Empty { reasoning }) => failure(
            CallEnd::Empty,
            "Empty response from LLM"@,
            body,
            "Empty response from LLM"@,
            "No content blocks found"@,
            reasoning,
        ),
        Some(ReplyView::Answer { raw_response, reasoning }) => RecordView {
            end: CallEnd::Answered,
            error: None,
            response: raw_response,
            parsing_outcome: "Success - response received"@,
            extra: "Reasoning: "@ + shown_option(reasoning),
            raw_response,
            reasoning,
        },
    }
}

/// What an optional reply holds.
pub open spec fn reply_view(reply: Option<LlmReply>) -> Option<ReplyView> {
    match reply {
        Some(x) => Some(x@),
        None => None,
    }
}

/// The record of a call, given what its reply comes down to.
pub fn reply_record(reply: Option<LlmReply>, status: &str, body: &str) -> (r: CallRecord)
    ensures
        r@ == reply_record_of(reply_view(reply), status@, body@),
{
    match reply {
        None => {
            let mut error: String = copied("Failed to parse response: ");
            error.append(body);
            let mut extra: String = copied("Status: ");
            extra.append(status);
            failure_record(
                CallEnd::Unreadable,
                error,
                body,
                "Response parse error",
                extra.as_str(),
                None,
            )
        },
        Some(LlmReply::ServiceError { message }) => {
            let shown: String = copied(message.as_str());
            failure_record(
                CallEnd::ServiceError,
                message,
                body,
                shown.as_str(),
                "MiniMax API error",
                None,
            )
        },
        Some(LlmReply::Empty { reasoning }) => failure_record(
            CallEnd::Empty,
            copied("Empty response from LLM"),
            body,
            "Empty response from LLM",
            "No content blocks found",
            reasoning,
        ),
        Some(LlmReply::Answer { raw_response, reasoning }) => {
            let mut extra: String = copied("Reasoning: ");
            match &reasoning {
                Some(s) => {
                    extra.append("Some(");
                    extra.append(debug_text(s.as_str()).as_str());
                    extra.append(")");
                },
                None => {
                    extra.append("None");
                },
            }
            assert(extra@ =~= "Reasoning: "@ + shown_option(opt_text(reasoning)));
            CallRecord {
                end: CallEnd::Answered,
                error: None,
                response: copied(raw_response.as_str()),
                parsing_outcome: copied("Success - response received"),
                extra,
                raw_response,
                reasoning,
            }
        },
    }
}

/// What the body of a reply comes down to; `None` where it is no JSON.
pub open spec fn reply_in(body: Seq<char>) -> Option<ReplyView> {
    if json_document(body) {
        Some(reply_of(facts_in(body)))
    } else {
        None
    }
}

/// The record of a call to which a body came back with a status.
pub fn body_record(status: &str, body: &str) -> (r: CallRecord)
    ensures
        r@ == reply_record_of(reply_in(body@), status@, body@),
{
    let reply = read_reply(body);
    reply_record(reply, status, body)
}

// ---------------------------------------------------------------------------
// Calls for an entity that acts at once
// ---------------------------------------------------------------------------
/// The record of a call that the service refused with a status.
pub fn rejected_record(status: &str, body: &str) -> (r: CallRecord)
    ensures
        r@ == failure(
            CallEnd::ServiceError,
            "LLM API error: "@ + status@ + " - "@ + body@,
            body@,
            "LLM API error: "@ + status@ + " - "@ + body@,
            "Status: "@ + status@ + " (entity_action)"@,
            None,
        ),
{
    let mut error: String = copied("LLM API error: ");
    error.append(status);
    error.append(" - ");
    error.append(body);
    let shown: String = copied(error.as_str());
    let mut extra: String = copied("Status: ");
    extra.append(status);
    extra.append(" (entity_action)");
    failure_record(CallEnd::ServiceError, error, body, shown.as_str(), extra.as_str(), None)
}

/// The answer of the first choice in a reply, or nothing.
pub open spec fn first_choice_in(body: Seq<char>) -> Seq<char> {
    if json_length(body, "/choices"@) is Some {
        match json_string(body, "/choices/0/message/content"@) {
            Some(s) => s,
            None => Seq::empty(),
        }
    } else {
        Seq::empty()
    }
}

/// The answer of the first choice in a reply, or nothing.
pub fn first_choice(body: &str) -> (r: String)
    ensures
        r@ == first_choice_in(body@),
{
    let none: String = String::new();
    assert(none@ =~= Seq::<char>::empty());
    if json_length_at(body, "/choices").is_some() {
        match json_string_at(body, "/choices/0/message/content") {
            Some(s) => s,
            None => none,
        }
    } else {
        none
    }
}

// ---------------------------------------------------------------------------
// Laws
// ---------------------------------------------------------------------------
/// Without the cookie nothing is told of an entity, the key or the limiter: the
/// refusal is the same whatever they are.
pub proof fn law_cookie_comes_first(
    limit: RateLimitDecision,
    name: Option<Seq<char>>,
    process_only: bool,
    key: Option<Seq<char>>,
)
    ensures
        llm_admission(false, limit, name, key) == Err::<(Seq<char>, Seq<char>), Refusal>(
            Refusal::Unauthorized,
        ),
        action_admission(false, limit, name, process_only, key) == Err::<
            (Seq<char>, Seq<char>),
            Refusal,
        >(Refusal::Unauthorized),
{
}

/// No call is made that the limiter refuses, for an entity that is not there or
/// without a key; and every other call of one with the cookie is.
pub proof fn law_admitted_calls(
    authorized: bool,
    limit: RateLimitDecision,
    name: Option<Seq<char>>,
    process_only: bool,
    key: Option<Seq<char>>,
)
    ensures
        llm_admission(authorized, limit, name, key) is Ok <==> authorized && limit
            == RateLimitDecision::Allowed && name is Some && key is Some,
        action_admission(authorized, limit, name, process_only, key) is Ok <==> authorized && limit
            == RateLimitDecision::Allowed && name is Some && key is Some && !process_only,
{
}

/// A record has an answer exactly where it has no error.
pub proof fn law_error_or_answer(reply: Option<ReplyView>, status: Seq<char>, body: Seq<char>)
    ensures
        ({
            let r = reply_record_of(reply, status, body);
            &&& r.error is None <==> r.end == CallEnd::Answered
            &&& r.error is Some ==> r.raw_response.len() == 0
        }),
{
}

/// An answer that is taken from a reply is never empty.
pub proof fn law_answers_are_not_empty(status: Seq<char>, body: Seq<char>)
    ensures
        ({
            let r = reply_record_of(reply_in(body), status, body);
            r.end == CallEnd::Answered ==> r.raw_response.len() > 0
        }),
{
}

/// Calls are refused for the first reason that there is, in this order: with a
/// context, the cookie, the limiter, the entity and the key; for an entity that
/// acts at once, the cookie, the entity, what is asked for, the key and the
/// limiter. What is admitted comes with the entity's name and the key.
pub proof fn law_refusals_in_order(
    reason: RateLimitReason,
    limit: RateLimitDecision,
    name: Seq<char>,
    names: Option<Seq<char>>,
    process_only: bool,
    key: Seq<char>,
    keys: Option<Seq<char>>,
)
    ensures
        ({
            let blocked = RateLimitDecision::Blocked(reason);
            let open = RateLimitDecision::Allowed;
            &&& llm_admission(true, blocked, names, keys) == Err::<(Seq<char>, Seq<char>), Refusal>(
                Refusal::RateLimited(reason),
            )
            &&& llm_admission(true, open, None, keys) == Err::<(Seq<char>, Seq<char>), Refusal>(Refusal::EntityNotFound)
            &&& llm_admission(true, open, Some(name), None) == Err::<(Seq<char>, Seq<char>), Refusal>(
                Refusal::NotConfigured,
            )
            &&& llm_admission(true, open, Some(name), Some(key)) == Ok::<(Seq<char>, Seq<char>), Refusal>((name, key))
            &&& action_admission(true, limit, None, process_only, keys) == Err::<(Seq<char>, Seq<char>), Refusal>(
                Refusal::EntityNotFound,
            )
            &&& action_admission(true, limit, Some(name), true, keys) == Err::<(Seq<char>, Seq<char>), Refusal>(
                Refusal::WrongEndpoint,
            )
            &&& action_admission(true, limit, Some(name), false, None) == Err::<(Seq<char>, Seq<char>), Refusal>(
                Refusal::NotConfigured,
            )
            &&& action_admission(true, blocked, Some(name), false, Some(key)) == Err::<(Seq<char>, Seq<char>), Refusal>(
                Refusal::RateLimited(reason),
            )
            &&& action_admission(true, open, Some(name), false, Some(key)) == Ok::<(Seq<char>, Seq<char>), Refusal>(
                (name, key),
            )
        }),
{
}

/// Who has no cookies is not authorized; who has some is where one of them grants
/// it. The entity that is meant is the first one with the id.
pub proof fn law_who_and_whom(
    header: Seq<char>,
    cookie_name: Seq<char>,
    entities: Seq<EntityView>,
    id: u128,
    i: int,
)
    ensures
        !authorized(None, cookie_name),
        authorized(Some(header), cookie_name) <==> some_grants(header, cookie_name),
        0 <= i < entities.len() && entities[i].id == id && (forall|j: int|
            0 <= j < i ==> (#[trigger] entities[j]).id != id) ==> name_of(entities, id) == Some(
            entities[i].name,
        ),
        (forall|j: int| 0 <= j < entities.len() ==> (#[trigger] entities[j]).id != id) ==> name_of(
            entities,
            id,
        ) is None,
{
    law_entity_is_found(entities, id);
    if let Some(k) = entity_at(entities, id) {
        if 0 <= i < entities.len() && entities[i].id == id && (forall|j: int|
            0 <= j < i ==> (#[trigger] entities[j]).id != id) {
            if k < i {
                assert(entities[k].id != id);
            } else if i < k {
                assert(entities[i].id != id);
            }
        }
    }
}

/// What is kept of a call: the answer and the thoughts of one that was answered;
/// of any other no answer, and an error that says what came back.
pub proof fn law_records(
    message: Seq<char>,
    raw: Seq<char>,
    reasoning: Option<Seq<char>>,
    status: Seq<char>,
    body: Seq<char>,
)
    ensures
        ({
            let unreadable = reply_record_of(None, status, body);
            let refused = reply_record_of(Some(ReplyView::ServiceError { message }), status, body);
            let empty = reply_record_of(Some(ReplyView::Empty { reasoning }), status, body);
            let answered = reply_record_of(
                Some(ReplyView::Answer { raw_response: raw, reasoning }),
                status,
                body,
            );
            &&& unreadable.end == CallEnd::Unreadable && unreadable.response == body
                && unreadable.raw_response.len() == 0 && unreadable.reasoning is None
            &&& unreadable.error is Some && ends_with(unreadable.error->0, body) && ends_with(
                unreadable.extra,
                status,
            )
            &&& refused.end == CallEnd::ServiceError && refused.error == Some(message)
                && refused.parsing_outcome == message && refused.response == body
                && refused.raw_response.len() == 0 && refused.reasoning is None
            &&& empty.end == CallEnd::Empty && empty.error is Some && empty.response == body
                && empty.raw_response.len() == 0 && empty.reasoning == reasoning
            &&& answered.end == CallEnd::Answered && answered.error is None && answered.response
                == raw && answered.raw_response == raw && answered.reasoning == reasoning
        }),
{
    law_parts_are_found("Failed to parse response: "@, body, Seq::empty());
    law_parts_are_found("Status: "@, status, Seq::empty());
}

/// A reply is read where it is JSON; its first choice is the text that stands
/// there, or nothing.
pub proof fn law_replies(body: Seq<char>)
    ensures
        json_document(body) ==> reply_in(body) == Some(reply_of(facts_in(body))),
        !json_document(body) ==> reply_in(body) is None,
        json_length(body, "/choices"@) is Some && json_string(body, "/choices/0/message/content"@)
            is Some ==> first_choice_in(body) == json_string(
            body,
            "/choices/0/message/content"@,
        )->0,
        json_length(body, "/choices"@) is None || json_string(body, "/choices/0/message/content"@)
            is None ==> first_choice_in(body).len() == 0,
{
}

} // verus!
