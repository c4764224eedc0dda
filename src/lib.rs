//! Tracks a changing set of smart-card readers and the card identifiers read
//! from them. The card service itself is driven by the caller: it lists the
//! readers, waits for a state change and talks to the cards, and this library
//! decides which readers to track, which to read, and what to deliver, in
//! which order.

pub mod config;
pub mod reader;
pub mod response;
pub mod state;
