//! A market-data stack: order books, feed arbitration and recovery, replay,
//! matching and the order path, with the behaviour of every operation stated in
//! its contract.

pub mod account;
pub mod alloc_guard;
pub mod apply;
pub mod arbitration;
pub mod books;
pub mod bytes;
pub mod client;
pub mod config;
pub mod corpus;
pub mod describe;
pub mod digest;
pub mod engine;
pub mod fast;
pub mod feed;
pub mod fingerprint;
pub mod following;
pub mod generator;
pub mod handler;
pub mod histogram;
pub mod hostcheck;
pub mod hostinfo;
mod ladder;
pub mod lines;
pub mod mbo;
pub mod message;
pub mod model;
pub mod order_map;
pub mod orderpath;
pub mod poke;
pub mod priority;
pub mod protocol;
pub mod rebuild;
pub mod recovery;
pub mod reference;
pub mod ring;
pub mod rng;
pub mod runner;
pub mod sheet;
pub mod shelf;
pub mod space;
pub mod store;
pub mod text;
pub mod tick;
pub mod trades;
pub mod transport;
pub mod tsc;
pub mod uplink;
pub mod view;
