//! Verified core of a Pulsar topic health checker.

pub mod assoc;
pub mod config;
pub mod cursor;
pub mod cycle;
pub mod decimal;
pub mod detail;
pub mod drain;
pub mod fleet;
pub mod float;
pub mod health;
pub mod keys;
pub mod kube;
pub mod literal;
pub mod metrics;
pub mod names;
pub mod number;
pub mod order;
pub mod output;
pub mod panels;
pub mod podtable;
pub mod pulsar;
pub mod screen;
pub mod session;
pub mod settings;
pub mod snapshot;
pub mod stability;
pub mod state;
pub mod table;
pub mod tally;
pub mod text;
pub mod timestamp;
pub mod view;
