//! The settings of the server and what they are unless told otherwise.
use vstd::prelude::*;

use crate::json::{
    json_bool, json_bool_at, json_integer, json_integer_at, json_open, json_open_at, json_write,
    json_written,
};
use crate::text::{copied, opt_text};

verus! {

/// Where the server listens.
#[derive(Debug, Clone)]
pub struct ServerSettings {
    pub host: String,
    pub port: u16,
}

/// The world that a fresh server starts with.
#[derive(Debug, Clone)]
pub struct AppWorldSettings {
    pub name: String,
    pub description: String,
}

/// The language model, and how it may be used.
#[derive(Debug, Clone)]
pub struct LlmSettings {
    pub provider: String,
    pub model: String,
    pub api_key_name: String,
    pub api_url: String,
    pub max_output_tokens: u32,
    pub llm_timeout_secs: u64,
    pub calls_per_hour_enabled: bool,
    pub max_calls_per_hour: u32,
    pub default_max_history_summary_chars: u32,
}

/// How callers show who they are.
#[derive(Debug, Clone)]
pub struct SecuritySettings {
    pub password_var_name: String,
    pub cookie_name: String,
    pub cookie_duration_secs: u64,
}

/// What the client shows.
#[derive(Debug, Clone)]
pub struct UiSettings {
    pub title: String,
}

/// All settings.
#[derive(Debug, Clone)]
pub struct Settings {
    pub server: ServerSettings,
    pub world: AppWorldSettings,
    pub llm: LlmSettings,
    pub security: SecuritySettings,
    pub ui: UiSettings,
}

pub fn default_api_url() -> (r: String)
    ensures
        r@ == "https://api.minimax.io/anthropic"@,
{
    copied("https://api.minimax.io/anthropic")
}

pub fn default_api_key_name() -> (r: String)
    ensures
        r@ == "MINIMAX_API_KEY"@,
{
    copied("MINIMAX_API_KEY")
}

pub fn default_max_output_tokens() -> (r: u32)
    ensures
        r == 50000,
{
    50000
}

pub fn default_llm_timeout_secs() -> (r: u64)
    ensures
        r == 180,
{
    180
}

pub fn default_llm_calls_enabled() -> (r: bool)
    ensures
        r,
{
    true
}

pub fn default_max_calls_per_hour() -> (r: u32)
    ensures
        r == 0,
{
    0
}

pub fn default_max_history_summary_chars() -> (r: u32)
    ensures
        r == 10000,
{
    10000
}

pub fn default_password_var_name() -> (r: String)
    ensures
        r@ == "WEB_PASSWORD"@,
{
    copied("WEB_PASSWORD")
}

pub fn default_cookie_name() -> (r: String)
    ensures
        r@ == "openworld_auth"@,
{
    copied("openworld_auth")
}

pub fn default_cookie_duration() -> (r: u64)
    ensures
        r == 3600,
{
    3600
}

impl Default for Settings {
    /// The settings of a server without a settings file.
    fn default() -> (r: Self)
        ensures
            r.server.host@ == "0.0.0.0"@,
            r.server.port == 8080,
            r.world.name@ == "New World"@,
            r.world.description@ == "A new world waiting to be explored"@,
            r.llm.provider@ == "minimax-portal"@,
            r.llm.model@ == "MiniMax-M2.7-highspeed"@,
            r.llm.api_key_name@ == "MINIMAX_API_KEY"@,
            r.llm.api_url@ == "https://api.minimax.io/anthropic"@,
            r.llm.max_output_tokens == 50000,
            r.llm.llm_timeout_secs == 180,
            r.llm.calls_per_hour_enabled,
            r.llm.max_calls_per_hour == 0,
            r.llm.default_max_history_summary_chars == 10000,
            r.security.password_var_name@ == "WEB_PASSWORD"@,
            r.security.cookie_name@ == "openworld_auth"@,
            r.security.cookie_duration_secs == 3600,
            r.ui.title@ == "Open World"@,
    {
        Settings {
            server: ServerSettings { host: copied("0.0.0.0"), port: 8080 },
            world: AppWorldSettings {
                name: copied("New World"),
                description: copied("A new world waiting to be explored"),
            },
            llm: LlmSettings {
                provider: copied("minimax-portal"),
                model: copied("MiniMax-M2.7-highspeed"),
                api_key_name: default_api_key_name(),
                api_url: default_api_url(),
                max_output_tokens: default_max_output_tokens(),
                llm_timeout_secs: default_llm_timeout_secs(),
                calls_per_hour_enabled: default_llm_calls_enabled(),
                max_calls_per_hour: default_max_calls_per_hour(),
                default_max_history_summary_chars: default_max_history_summary_chars(),
            },
            security: SecuritySettings {
                password_var_name: default_password_var_name(),
                cookie_name: default_cookie_name(),
                cookie_duration_secs: default_cookie_duration(),
            },
            ui: UiSettings { title: copied("Open World") },
        }
    }
}

// ---------------------------------------------------------------------------
// The settings file
// ---------------------------------------------------------------------------
/// The limiter's settings can be read in the content of the settings file.
pub open spec fn holds_limits(text: Seq<char>, enabled: bool, max_calls_per_hour: u32) -> bool {
    &&& json_bool(text, "/llm/calls_per_hour_enabled"@) == Some(enabled)
    &&& json_integer(text, "/llm/max_calls_per_hour"@) == Some(max_calls_per_hour as i64)
}

/// The content of the settings file after the limiter's settings were written to
/// its `llm` member, which is made where it is not there. `None` where the
/// content is no JSON, or neither holds nor can be given such an object, or
/// where the settings could not be read back.
pub open spec fn limits_written(raw: Seq<char>, enabled: bool, max_calls_per_hour: u32) -> Option<
    Seq<char>,
> {
    if json_open(raw, ""@) && json_open(raw, "/llm"@) {
        let written = json_written(
            raw,
            "llm"@,
            "calls_per_hour_enabled"@,
            enabled,
            "max_calls_per_hour"@,
            max_calls_per_hour,
        );
        match written {
            Some(text) => if holds_limits(text, enabled, max_calls_per_hour) {
                Some(text)
            } else {
                None
            },
            None => None,
        }
    } else {
        None
    }
}

/// Writes the limiter's settings into the content of the settings file, from
/// where they can be read back.
pub fn settings_with_limits(raw: &str, enabled: bool, max_calls_per_hour: u32) -> (r: Option<
    String,
>)
    ensures
        opt_text(r) == limits_written(raw@, enabled, max_calls_per_hour),
        r is Some ==> holds_limits(r->0@, enabled, max_calls_per_hour),
{
    if !json_open_at(raw, "") || !json_open_at(raw, "/llm") {
        return None;
    }
    proof {
        reveal_strlit("/");
        reveal_strlit("llm");
        reveal_strlit("/llm");
        assert("/"@ + "llm"@ =~= "/llm"@);
    }
    match json_write(
        raw,
        "llm",
        "calls_per_hour_enabled",
        enabled,
        "max_calls_per_hour",
        max_calls_per_hour,
    ) {
        Some(text) => if json_bool_at(text.as_str(), "/llm/calls_per_hour_enabled") == Some(enabled)
            && json_integer_at(text.as_str(), "/llm/max_calls_per_hour") == Some(
            max_calls_per_hour as i64,
        ) {
            Some(text)
        } else {
            None
        },
        None => None,
    }
}

/// Settings are written where, and only where, the file holds an object for them
/// or can be given one and both can be read back.
pub proof fn law_limits_are_written(raw: Seq<char>, enabled: bool, max_calls_per_hour: u32)
    ensures
        match limits_written(raw, enabled, max_calls_per_hour) {
            Some(text) => {
                &&& json_open(raw, ""@)
                &&& json_open(raw, "/llm"@)
                &&& json_bool(text, "/llm/calls_per_hour_enabled"@) == Some(enabled)
                &&& json_integer(text, "/llm/max_calls_per_hour"@) == Some(
                    max_calls_per_hour as i64,
                )
                &&& Some(text) == json_written(
                    raw,
                    "llm"@,
                    "calls_per_hour_enabled"@,
                    enabled,
                    "max_calls_per_hour"@,
                    max_calls_per_hour,
                )
            },
            None => {
                ||| !json_open(raw, ""@)
                ||| !json_open(raw, "/llm"@)
                ||| match json_written(
                    raw,
                    "llm"@,
                    "calls_per_hour_enabled"@,
                    enabled,
                    "max_calls_per_hour"@,
                    max_calls_per_hour,
                ) {
                    Some(text) => json_bool(text, "/llm/calls_per_hour_enabled"@) != Some(enabled)
                        || json_integer(text, "/llm/max_calls_per_hour"@) != Some(
                        max_calls_per_hour as i64,
                    ),
                    None => true,
                }
            },
        },
{
}

} // verus!
