//! Vehicle dispatch core: a weighted road graph answering shortest-distance
//! and nearest-goal queries, a bounded time-expiring cache of volatile
//! vehicle state, and a dispatch coordinator that binds pending orders to
//! the nearest available vehicle through a two-step durable commit.

pub mod auth;
pub mod cache;
pub mod dispatch;
pub mod errors;
pub mod graph;
pub mod orders;
