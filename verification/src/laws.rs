//! What the library promises as a whole, stated and proved.
pub mod heads;
pub mod listings;
pub mod matches;
pub mod objects;
pub mod options;
pub mod payload;
pub mod queue;
pub mod reports;
pub mod requests;
pub mod rules;
pub mod service;
pub mod steps;
pub mod teams;
pub mod text;
pub mod wire;
pub mod words;
