//! Logs, dates, the environment file, cookies, files, settings and the limiter.
use open_world::calendar::{date_of_day, date_of_secs, date_text, Date};
use open_world::env_file::{
    check_password, configure_env, fresh_env_content, list_env_variables, masked_value, read_env_var,
    verify_auth_cookie, write_env_var, write_env_vars, EnvSetup, PasswordCheck,
};
use open_world::files::{
    backup_filename, content_type, history_snapshot_filename, in_build_directory, is_backup_filename,
    is_listed_size, is_skipped_name, order_by_text, snapshot_filename,
};
use open_world::logs::{
    floor_char_boundary, is_log_filename, log_error, log_kind, log_llm, log_stats_change,
    trim_log_content, truncated_by, DailyLogger, LlmCall, StatsChange,
};
use open_world::rate_limit::{LlmRateLimiter, RateLimitDecision, RateLimitReason, SECOND, WINDOW};
use open_world::settings::{settings_with_limits, Settings};

// ---------------------------------------------------------------------------
// Limiter
// ---------------------------------------------------------------------------
#[test]
fn calls_are_refused_when_switched_off() {
    let mut l = LlmRateLimiter::new(false, 5);
    let d = l.try_acquire(0);
    assert_eq!(d, RateLimitDecision::Blocked(RateLimitReason::Disabled));
    l.reconfigure(true, 0);
    assert_eq!(l.try_acquire(0), RateLimitDecision::Blocked(RateLimitReason::LimitZero));
    assert_eq!(
        RateLimitReason::Disabled.message(),
        "LLM calls are globally disabled (calls_per_hour_enabled = false)"
    );
    assert_eq!(
        RateLimitReason::LimitZero.message(),
        "LLM calls are deactivated (max_calls_per_hour = 0)"
    );
    assert!(l.status(0).calls_blocked());
    assert!(!l.status(0).limit_reached());
}

#[test]
fn no_more_than_the_limit_within_an_hour() {
    let mut l = LlmRateLimiter::new(true, 2);
    let start = 10 * SECOND;
    assert_eq!(l.try_acquire(start), RateLimitDecision::Allowed);
    assert_eq!(l.try_acquire(start + SECOND / 2), RateLimitDecision::Allowed);
    let refused = l.try_acquire(start + 2 * SECOND + 1);
    let reason = RateLimitReason::LimitReached { retry_after_secs: 3598 };
    assert_eq!(refused, RateLimitDecision::Blocked(reason));
    assert_eq!(reason.message(), "LLM rate limit reached. Try again in 3598s.");
    assert!(l.status(start + 2 * SECOND).limit_reached());
    assert_eq!(l.status(start + 2 * SECOND).retry_after_secs, Some(3598));
    assert!(matches!(l.try_acquire(start + WINDOW - 1), RateLimitDecision::Blocked(_)));
    assert_eq!(l.try_acquire(start + WINDOW), RateLimitDecision::Allowed);
    assert!(matches!(l.try_acquire(start + WINDOW), RateLimitDecision::Blocked(_)));
    assert_eq!(l.status(start + 3 * WINDOW).calls_in_last_hour, 0);
    assert_eq!(l.status(start + 3 * WINDOW).retry_after_secs, None);
}

#[test]
fn waiting_helps() {
    let mut l = LlmRateLimiter::new(true, 1);
    assert_eq!(l.try_acquire(5), RateLimitDecision::Allowed);
    let now = 123 * SECOND + 7;
    match l.try_acquire(now) {
        RateLimitDecision::Blocked(RateLimitReason::LimitReached { retry_after_secs }) => {
            assert_eq!(retry_after_secs, 3600 - 123);
            let later = now + retry_after_secs * SECOND;
            assert_eq!(l.try_acquire(later), RateLimitDecision::Allowed);
        }
        other => panic!("{:?}", other),
    }
}

#[test]
fn new_settings_keep_the_window() {
    let mut l = LlmRateLimiter::new(true, 3);
    assert_eq!(l.try_acquire(0), RateLimitDecision::Allowed);
    assert_eq!(l.try_acquire(0), RateLimitDecision::Allowed);
    l.reconfigure(true, 2);
    assert!(matches!(l.try_acquire(1), RateLimitDecision::Blocked(_)));
    let s = l.status(1);
    assert_eq!((s.enabled, s.max_calls_per_hour, s.calls_in_last_hour), (true, 2, 2));
}

#[test]
fn settings_left_out_keep_their_live_value() {
    let mut l = LlmRateLimiter::new(true, 9);
    assert_eq!(l.update(None, Some(4)), Ok(()));
    assert_eq!(l.try_acquire(0), RateLimitDecision::Allowed);
    assert_eq!(l.update(Some(false), None), Ok(()));
    let s = l.status(0);
    assert_eq!((s.enabled, s.max_calls_per_hour, s.calls_in_last_hour), (false, 4, 1));
    assert_eq!(l.update(None, Some(7)), Ok(()));
    let s = l.status(0);
    assert_eq!((s.enabled, s.max_calls_per_hour, s.calls_in_last_hour), (false, 7, 1));
    assert_eq!(
        l.update(None, None),
        Err("Provide calls_per_hour_enabled and/or max_calls_per_hour".to_string())
    );
    let s = l.status(0);
    assert_eq!((s.enabled, s.max_calls_per_hour), (false, 7));
}

// ---------------------------------------------------------------------------
// Dates
// ---------------------------------------------------------------------------
#[test]
fn days_have_dates() {
    for (days, text) in [
        (0, "1970-01-01"),
        (30, "1970-01-31"),
        (31, "1970-02-01"),
        (58, "1970-02-28"),
        (59, "1970-03-01"),
        (364, "1970-12-31"),
        (365, "1971-01-01"),
        (789, "1972-02-29"),
        (1095, "1972-12-31"),
        (10957, "2000-01-01"),
        (11016, "2000-02-29"),
        (20608, "2026-06-04"),
        (47540, "2100-02-28"),
        (47541, "2100-03-01"),
    ] {
        assert_eq!(date_text(&date_of_day(days)), text);
    }
    assert_eq!(date_of_secs(86399), "1970-01-01");
    assert_eq!(date_of_secs(86400), "1970-01-02");
    assert_eq!(date_text(&Date { year: 12345, month: 1, day: 2 }), "12345-01-02");
}

// ---------------------------------------------------------------------------
// Logs
// ---------------------------------------------------------------------------
#[test]
fn log_files_change_with_the_day() {
    let mut l = DailyLogger::new("2026-06-04");
    assert_eq!(l.names.errors, "error-log-2026-06-04.log");
    assert_eq!(l.names.llm, "llm-log-2026-06-04.log");
    assert_eq!(l.names.stats_changes, "stats-change-log-2026-06-04.log");
    assert!(!l.ensure_today("2026-06-04"));
    assert!(l.ensure_today("2026-06-05"));
    assert_eq!(l.names.llm, "llm-log-2026-06-05.log");
    assert_eq!(l.today_date, "2026-06-05");
}

#[test]
fn log_names_are_told_apart() {
    assert_eq!(log_kind("llm-log-2026-06-04.log"), Some("llm"));
    assert_eq!(log_kind("error-log-x.log"), Some("error"));
    assert_eq!(log_kind("stats-change-log-x.log"), Some("stats-change"));
    assert_eq!(log_kind("odd.log"), Some("other"));
    assert_eq!(log_kind("llm-log-x.log.bak"), None);
    assert!(is_log_filename("llm-log-2026-06-04.log"));
    assert!(is_log_filename("stats-change-log-2026-06-04.log"));
    assert!(!is_log_filename("llm-log-../x.log"));
    assert!(!is_log_filename("llm-log-a\\b.log"));
    assert!(!is_log_filename("llm-log-a..log"));
    assert!(!is_log_filename("other.log"));
    assert!(!is_log_filename("llm-log-x.txt"));
}

#[test]
fn log_lines() {
    assert_eq!(log_error("T", "oops"), "[T] ERROR: oops\n");
    let call = LlmCall {
        label: "",
        context: "ctx",
        response: "resp",
        time_ms: 12,
        success: false,
        parsing_outcome: "out",
        extra: "more",
    };
    assert_eq!(
        log_llm("T", &call),
        "\n\n\n** LLM - T **\nInstruction:\nctx\n\n** Result: LLM - T **\nSuccess: FAILED\nTime: 12 ms\n--- Response ---\nresp\n--- Parsing ---\nout\n--- Extra ---\nmore\n\n"
    );
    let mut change = StatsChange {
        entity_name: "Velora the Undying",
        id: 0xf26dd963_0000_4000_8000_000000000001,
        prop: "morale",
        old_value: 487,
        new_value: 535,
        cross: false,
        actor_name: "Velora the Undying",
        warnings: 2,
    };
    assert_eq!(
        log_stats_change("T", &change),
        "[T] entity=Velora the Undying (f26dd963)\n      prop=morale old=487 new=535 delta=+48 actor=Velora the Undying cross=false warnings=2\n"
    );
    change.new_value = -3;
    change.cross = true;
    assert!(log_stats_change("T", &change).contains(" new=-3 delta=-490 "));
    assert!(log_stats_change("T", &change).contains(" cross=true "));
}

#[test]
fn logs_are_cut_to_their_end() {
    let raw = "a\nb\nc\n";
    assert_eq!(trim_log_content(raw, None, None), (raw.to_string(), false));
    assert_eq!(trim_log_content(raw, Some(4), None), (raw.to_string(), false));
    assert_eq!(trim_log_content(raw, Some(3), None), ("b\nc\n".to_string(), true));
    assert_eq!(trim_log_content(raw, Some(1), None), ("".to_string(), true));
    assert_eq!(trim_log_content(raw, Some(0), None), ("".to_string(), true));
    assert_eq!(trim_log_content("x", Some(1), None), ("x".to_string(), false));
    assert_eq!(trim_log_content("abcdef", None, Some(2)), ("ef".to_string(), true));
    assert_eq!(trim_log_content("abc", None, Some(3)), ("abc".to_string(), false));
    assert_eq!(trim_log_content("abc", None, Some(0)), ("".to_string(), true));
    assert_eq!(trim_log_content("aéb", None, Some(2)), ("éb".to_string(), true));
    assert_eq!(trim_log_content("l1\nl2é", Some(1), Some(1)), ("é".to_string(), true));
}

#[test]
fn boundaries_of_characters() {
    let s = "aé…";
    assert_eq!(s.len(), 6);
    let floors: Vec<usize> = (0..9).map(|i| floor_char_boundary(s, i)).collect();
    assert_eq!(floors, vec![0, 1, 1, 3, 3, 3, 6, 6, 6]);
}

#[test]
fn cuts_are_named() {
    assert_eq!(truncated_by(true, Some(3), Some(5)), "tail=3");
    assert_eq!(truncated_by(true, None, Some(5)), "max_bytes=5");
    assert_eq!(truncated_by(false, Some(3), None), "none");
    assert_eq!(truncated_by(true, None, None), "none");
}

// ---------------------------------------------------------------------------
// Environment file
// ---------------------------------------------------------------------------
#[test]
fn variables_are_read() {
    let content = "# a comment\n\n  KEY = value with = sign \r\nEMPTY=\nPH = placeholder\nKEY=later\nno assignment\n";
    assert_eq!(read_env_var(content, "KEY").as_deref(), Some("value with = sign"));
    assert_eq!(read_env_var(content, "EMPTY"), None);
    assert_eq!(read_env_var(content, "PH"), None);
    assert_eq!(read_env_var(content, "NONE"), None);
    assert_eq!(read_env_var("#KEY=x", "#KEY"), None);
    assert_eq!(read_env_var("", "KEY"), None);
}

#[test]
fn variables_are_written() {
    assert_eq!(write_env_var("", "A", "1"), "A=1");
    assert_eq!(write_env_var("# c\nA = 0\nB=2\nA=3\n", "A", "1"), "# c\nA=1\nB=2\nA=1");
    assert_eq!(write_env_var("B=2\n\n", "A", "1"), "B=2\n\nA=1");
    assert_eq!(write_env_var("x\r\ny", "A", "1"), "x\ny\nA=1");
}

#[test]
fn what_is_written_is_read_back() {
    for content in ["", "A=0", "# A=1\nB=2", "A=placeholder\nA=7\n", "C=1\r"] {
        let now = write_env_var(content, "A", "secret value");
        assert_eq!(read_env_var(&now, "A").as_deref(), Some("secret value"));
        assert_eq!(read_env_var(&now, "B"), read_env_var(content, "B"));
        assert_eq!(read_env_var(&now, "C"), read_env_var(content, "C"));
        assert_eq!(read_env_var(&write_env_var(content, "A", "placeholder"), "A"), None);
    }
}

#[test]
fn a_fresh_file_has_placeholders() {
    let content = fresh_env_content("MINIMAX_API_KEY", "WEB_PASSWORD");
    assert_eq!(
        content,
        "# Open World Environment Variables\n# Do not commit this file to version control!\n\nMINIMAX_API_KEY=placeholder\nWEB_PASSWORD=placeholder\n"
    );
    assert_eq!(read_env_var(&content, "WEB_PASSWORD"), None);
}

#[test]
fn secrets_are_masked() {
    let shown = list_env_variables("API_KEY=abc\nWeb_Password=x\nPORT = 80\nMY_SECRET=\nZ=placeholder");
    let pair = |a: &str, b: &str| (a.to_string(), b.to_string());
    assert_eq!(
        shown,
        vec![
            pair("API_KEY", "********"),
            pair("Web_Password", "********"),
            pair("PORT", "80"),
            pair("MY_SECRET", ""),
            pair("Z", ""),
        ]
    );
    assert_eq!(masked_value("monkey", "banana"), "********");
    assert_eq!(masked_value("port", "80"), "80");
}

#[test]
fn the_key_and_the_password_are_set_up() {
    let fresh = fresh_env_content("K", "P");
    match configure_env(&fresh, "K", "P", false, Some("key1"), Some("pw")) {
        EnvSetup::Saved(s) => {
            assert_eq!(read_env_var(&s, "K").as_deref(), Some("key1"));
            assert_eq!(read_env_var(&s, "P").as_deref(), Some("pw"));
            assert!(matches!(
                configure_env(&s, "K", "P", false, Some("key2"), None),
                EnvSetup::Unauthorized
            ));
            assert!(matches!(configure_env(&s, "K", "P", true, None, None), EnvSetup::Saved(_)));
            assert_eq!(check_password(&s, "P", "pw"), PasswordCheck::Verified);
            assert_eq!(check_password(&s, "P", "PW"), PasswordCheck::Wrong);
        }
        other => panic!("{:?}", other),
    }
    assert!(matches!(
        configure_env(&fresh, "K", "P", false, Some("placeholder"), Some("pw")),
        EnvSetup::InvalidApiKey
    ));
    match configure_env(&fresh, "K", "P", false, Some("key1"), Some("")) {
        EnvSetup::InvalidPassword(s) => {
            assert_eq!(read_env_var(&s, "K").as_deref(), Some("key1"));
            assert_eq!(read_env_var(&s, "P"), None);
        }
        other => panic!("{:?}", other),
    }
    assert_eq!(check_password(&fresh, "P", "pw"), PasswordCheck::NotConfigured);
}

#[test]
fn cookies_are_looked_through() {
    let ok = |h: Option<&str>| verify_auth_cookie(h, "openworld_auth");
    assert!(ok(Some("openworld_auth=1")));
    assert!(ok(Some("a=b;  openworld_auth=1 ; c=d")));
    assert!(!ok(Some("openworld_auth=0")));
    assert!(!ok(Some("openworld_auth =1")));
    assert!(!ok(Some("xopenworld_auth=1")));
    assert!(!ok(Some("openworld_auth=1=1")));
    assert!(!ok(Some("openworld_auth")));
    assert!(!ok(Some("")));
    assert!(!ok(None));
}

// ---------------------------------------------------------------------------
// Files and settings
// ---------------------------------------------------------------------------
#[test]
fn names_of_files() {
    let name = backup_filename("20260604_101112");
    assert_eq!(name, "open-world-backup-20260604_101112.tar.gz");
    assert!(is_backup_filename(&name));
    assert!(!is_backup_filename("open-world-backup-x.zip"));
    assert!(!is_backup_filename("backup.tar.gz"));
    assert_eq!(snapshot_filename("manual", "20260604-101112"), "save-manual-20260604-101112.owbl");
    assert_eq!(
        history_snapshot_filename("manual", "20260604-101112"),
        "action_history-manual-20260604-101112.jsonl"
    );
}

#[test]
fn types_and_places_of_files() {
    for (name, kind) in [
        ("a.rs", "text/plain"),
        ("a.html", "text/html"),
        ("a.css", "text/css"),
        ("a.json", "application/json"),
        ("a.md", "text/markdown"),
        ("a.toml", "application/toml"),
        ("a.RS", "application/octet-stream"),
        ("rs", "application/octet-stream"),
    ] {
        assert_eq!(content_type(name), kind);
    }
    assert!(in_build_directory("target/x") && in_build_directory("a/target/x"));
    assert!(!in_build_directory("targets/x") && !in_build_directory("a/target"));
    assert!(is_skipped_name("target") && is_skipped_name(".git") && !is_skipped_name("src"));
    assert!(is_listed_size(9_999_999) && !is_listed_size(10_000_000));
}

#[test]
fn settings_without_a_file() {
    let s = Settings::default();
    assert_eq!((s.server.host.as_str(), s.server.port), ("0.0.0.0", 8080));
    assert_eq!(s.world.name, "New World");
    assert_eq!(s.llm.provider, "minimax-portal");
    assert_eq!(s.llm.max_output_tokens, 50000);
    assert_eq!(s.llm.llm_timeout_secs, 180);
    assert!(s.llm.calls_per_hour_enabled);
    assert_eq!(s.llm.max_calls_per_hour, 0);
    assert_eq!(s.llm.default_max_history_summary_chars, 10000);
    assert_eq!(s.security.cookie_name, "openworld_auth");
    assert_eq!(s.security.cookie_duration_secs, 3600);
    assert_eq!(s.ui.title, "Open World");
}

#[test]
fn several_variables_are_written_in_turn() {
    let vars = vec![
        ("KEY".to_string(), "new".to_string()),
        ("OTHER".to_string(), "x y".to_string()),
    ];
    let content = write_env_vars("# notice\nKEY=old\n", &vars);
    assert_eq!(read_env_var(&content, "KEY"), Some("new".to_string()));
    assert_eq!(read_env_var(&content, "OTHER"), Some("x y".to_string()));
    assert!(content.starts_with("# notice\n"));
    assert_eq!(write_env_vars("KEY=old\n", &Vec::new()), "KEY=old\n");
}

#[test]
fn listings_are_in_order() {
    let keys: Vec<String> = vec!["b".to_string(), "a".to_string(), "c".to_string(), "a".to_string()];
    assert_eq!(order_by_text(&keys, false), vec![1, 3, 0, 2]);
    assert_eq!(order_by_text(&keys, true), vec![2, 0, 1, 3]);
    let words: Vec<String> = vec!["ab".to_string(), "a".to_string(), "Z".to_string()];
    assert_eq!(order_by_text(&words, false), vec![2, 1, 0]);
    assert_eq!(order_by_text(&Vec::new(), true), Vec::<usize>::new());
}

#[test]
fn logs_of_every_day_may_be_shown() {
    for secs in [0u64, 951_782_400, 1_780_941_841, 253_402_300_800] {
        let date = date_of_secs(secs);
        assert!(date.chars().all(|c| c.is_ascii_digit() || c == '-'));
        let names = DailyLogger::new(&date).names;
        assert!(is_log_filename(&names.errors));
        assert!(is_log_filename(&names.llm));
        assert!(is_log_filename(&names.stats_changes));
    }
}

#[test]
fn the_more_restrictive_cut_decides() {
    let raw = "eins\nzwei\ndréi\nvïer\n";
    for tail in [None, Some(1), Some(2), Some(3), Some(9)] {
        for max in [None, Some(0), Some(2), Some(4), Some(8), Some(100)] {
            let (content, truncated) = trim_log_content(raw, tail, max);
            assert!(raw.ends_with(&content));
            assert!(truncated || content == raw);
            let by_lines = trim_log_content(raw, tail, None).0;
            let by_bytes = trim_log_content(raw, None, max).0;
            let shorter = if by_lines.len() <= by_bytes.len() { by_lines } else { by_bytes };
            assert_eq!(content, shorter);
            if let Some(t) = tail {
                assert!(content.matches('\n').count() < t);
            }
            if let Some(m) = max {
                assert!(content.len() <= m + 3);
            }
        }
    }
}

#[test]
fn limits_are_written_into_the_settings() {
    let raw = r#"{"llm":{"max_calls_per_hour":9,"model":"m"},"ui":{"title":"t"}}"#;
    let out = settings_with_limits(raw, false, 30).unwrap();
    let v: serde_json::Value = serde_json::from_str(&out).unwrap();
    assert_eq!(v["llm"]["calls_per_hour_enabled"], serde_json::Value::from(false));
    assert_eq!(v["llm"]["max_calls_per_hour"], serde_json::Value::from(30));
    assert_eq!(v["llm"]["model"], serde_json::Value::from("m"));
    assert_eq!(v["ui"]["title"], serde_json::Value::from("t"));
    assert!(out.starts_with("{\n  \"llm\": {\n"));
}

#[test]
fn settings_that_cannot_be_read_back_are_not_written() {
    // A member of this name holds raw JSON where it comes first.
    let raw = r#"{"llm":{},"$serde_json::private::RawValue":"x"}"#;
    assert_eq!(settings_with_limits(raw, true, 5), None);
}

#[test]
fn missing_settings_are_made() {
    for raw in ["{}", "null", r#"{"llm":null}"#, r#"{"llm":{}}"#] {
        let out = settings_with_limits(raw, true, 5).unwrap();
        assert_eq!(
            out,
            "{\n  \"llm\": {\n    \"calls_per_hour_enabled\": true,\n    \"max_calls_per_hour\": 5\n  }\n}"
        );
    }
    for raw in ["", "{", "[]", "3", r#"{"llm":[]}"#, r#"{"llm":"x"}"#] {
        assert_eq!(settings_with_limits(raw, true, 5), None);
    }
}
