//! A proxy that asks a model to go on thinking where its reasoning was cut off, and folds all
//! rounds into one response.
pub mod answer;
pub mod app;
pub mod cli;
pub mod codex;
pub mod config;
pub mod creds;
pub mod end_laws;
pub mod events;
pub mod json;
pub mod laws;
pub mod lines;
pub mod logging;
pub mod model;
pub mod proxy;
pub mod response;
pub mod round_laws;
pub mod service;
pub mod sse;
pub mod store;
pub mod text;
pub mod usage;
pub mod value;
