//! Plugin runtime for a chat-bot host: configuration value trees bound to a
//! TOML-like text format, plugin manifests, content-hash gated hot reload,
//! enable/disable persistence, and the task bookkeeping used to dispatch
//! event callbacks into plugin code.

pub mod call;
pub mod class_ica;
pub mod config;
pub mod data_struct;
pub mod error;
pub mod manifest;
pub mod plugin;
pub mod storage;
pub mod strutil;
pub mod toml_text;
