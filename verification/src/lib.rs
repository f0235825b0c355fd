//! Verified core of the Open World simulation server.
pub mod apply;
pub mod apply_all;
pub mod calendar;
pub mod cycle;
pub mod double;
pub mod effects;
pub mod entity;
pub mod env_file;
pub mod feed;
pub mod files;
pub mod find_replace;
pub mod history;
pub mod ids;
pub mod json;
pub mod lines;
pub mod llm_call;
pub mod llm_reply;
pub mod llm_response;
pub mod logs;
pub mod number;
pub mod process;
pub mod quirks;
pub mod rate_limit;
pub mod scheduler;
pub mod settings;
pub mod stats;
pub mod summary;
pub mod summary_json;
pub mod summary_update;
pub mod tag_rules;
pub mod text;
pub mod world;
