//! A small community-bot core: a starboard engine that mirrors highly-starred
//! messages into a dedicated channel, and a relationship engine that manages
//! invite-based, typed member groups scoped to a community.
//!
//! Both engines work against in-memory stores that are handed in explicitly,
//! so every decision they make is verified; the surrounding process owns the
//! chat-gateway I/O and drives the engines with plain values.
#![allow(unused_imports)]

use vstd::prelude::*;

pub mod config;
pub mod relationship;
pub mod starboard;
pub mod text;

verus! {

/// Generic newtype wrapper for handing a foreign value around by reference.
pub struct W<T>(pub T);

} // verus!
