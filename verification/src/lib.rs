//! A webhook router: provider webhooks come in over HTTP, extensions turn them
//! into events on dotted channels, and subscribers receive the events whose
//! channels their patterns match.
//!
//! This crate is the router's logic. It holds no socket, file or clock: what
//! comes from outside is an argument, and what is to be done outside is a
//! result.

pub mod channel;
pub mod channel_claims;
pub mod cli;
pub mod client;
pub mod client_error;
pub mod config;
pub mod connection;
pub mod cursor;
pub mod daemon;
pub mod delivery_log;
pub mod digest;
pub mod discovery;
pub mod dispatch;
pub mod dispatch_window;
pub mod encoding;
pub mod ext_dev;
pub mod ext_github;
pub mod ext_hmac;
pub mod ext_kit;
pub mod ext_teams;
pub mod extension_registration;
pub mod frame;
pub mod harness;
pub mod ids;
pub mod ingest;
pub mod json;
pub mod messages;
pub mod metrics;
pub mod ndjson;
pub mod outbound_queue;
pub mod resume;
pub mod session;
pub mod status;
pub mod string_map;
pub mod subscriber_ws;
pub mod subscribers;
pub mod supervisor;
pub mod text;
pub mod token_control;
pub mod token_store;
