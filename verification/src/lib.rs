//! edge-relay: the pure logic of a Telegram-to-Lovense relay, verified.
//!
//! The library decides what an incoming bot message means, builds the
//! Lovense cloud-command and pairing bodies, and checks who may drive the toy.
//! Everything that talks to the network lives outside this crate.

pub mod auth;
pub mod text;
pub mod number;
pub mod command;
pub mod telegram;
pub mod lovense;
