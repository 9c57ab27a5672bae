//! A 5v5 matchmaking engine: queues of waiting players by rating, compatible
//! lobbies of ten, balanced teams, and the HTTP and JSON text that a service
//! around it speaks.
pub mod balance;
pub mod clock;
pub mod config;
pub mod counters;
pub mod engine;
pub mod http;
mod invariants;
pub mod json;
pub mod laws;
pub mod object;
pub mod options;
pub mod player;
pub mod pool;
pub mod reader;
pub mod rules;
pub mod selection;
pub mod text;
pub mod worker;
