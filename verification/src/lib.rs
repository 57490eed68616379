//! Storage, ingest and query logic of a self-hosted observability backend.

pub mod auth;
pub mod auth_context;
pub mod auth_laws;
pub mod config;
pub mod config_laws;
pub mod daily_laws;
pub mod daily_pages;
pub mod encoding;
pub mod error;
pub mod governance_laws;
pub mod ingest;
pub mod ingest_laws;
pub mod json;
pub mod json_laws;
pub mod json_read;
pub mod label_governance;
pub mod labels;
pub mod maps;
pub mod media;
pub mod media_laws;
pub mod media_store;
pub mod memory_db;
pub mod metrics;
pub mod metrics_daily;
pub mod metrics_laws;
pub mod metrics_overview;
pub mod metrics_query;
pub mod number;
pub mod order;
pub mod overview_laws;
pub mod projects;
pub mod query_laws;
pub mod rate_limit;
pub mod retention;
pub mod retention_laws;
pub mod rows;
pub mod sql;
pub mod sql_laws;
pub mod stats;
pub mod stats_laws;
pub mod store_laws;
pub mod sums;
pub mod text;
pub mod text_laws;
pub mod time;
