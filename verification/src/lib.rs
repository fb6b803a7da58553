//! Manifold: a local pipeline runtime.
//!
//! A pipeline is a graph of nodes, each with an engine, its code and the names of its inputs. The
//! library reads and checks pipelines ([`config`], [`yaml`]), decides which node runs when
//! ([`graph`], [`schedule`]), keeps records of runs and a graph of edges in a store ([`record`],
//! [`runtext`], [`store`], [`namespace`], [`batch`], [`runtime`]), decides how guests are called and
//! what the host tells them ([`guest`], [`pdk`], [`asset`]), and says what the commands show
//! ([`cli`], [`inspect`], [`report`], [`manifest`], [`wasm_check`]).
//!
//! Files, sockets, tasks, the clock and the terminal are left to the program around it.

pub mod asset;
pub mod batch;
pub mod cli;
pub mod config;
pub mod engine;
pub mod error;
pub mod graph;
pub mod guest;
pub mod ids;
pub mod inspect;
pub mod json;
pub mod jsontext;
pub mod manifest;
pub mod namespace;
pub mod pdk;
pub mod record;
pub mod report;
pub mod runtext;
pub mod runtime;
pub mod schedule;
pub mod store;
pub mod strmap;
pub mod text;
pub mod value;
pub mod wasm_check;
pub mod yaml;
