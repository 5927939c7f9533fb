//! Core of an interactive viewer for UFW-style kernel firewall logs:
//! a line parser, an address and interface classifier, a filter engine,
//! and the live-tail synchronization state machine that keeps the
//! operator's selection stable while the backing file grows.
pub mod classify;
pub mod display;
pub mod encode;
pub mod entry;
pub mod filter;
pub mod ip;
pub mod parse;
pub mod services;
pub mod text;
pub mod viewer;
