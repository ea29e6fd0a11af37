//! The logic of a multilateration server: sessions, slots, clusters, output.

pub mod bias;
pub mod binary;
pub mod calendar;
pub mod clock;
pub mod cluster;
pub mod columns;
pub mod export;
pub mod frames;
pub mod geo;
pub mod handshake;
pub mod hash;
pub mod json;
pub mod lines;
pub mod listing;
pub mod mapping;
pub mod message;
pub mod moments;
pub mod order;
pub mod output;
pub mod rows;
pub mod session;
pub mod state;
pub mod table;
pub mod tally;
pub mod text;
pub mod traffic;
