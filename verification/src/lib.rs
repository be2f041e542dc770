//! An event-sourcing consumer runtime over an append-only, globally ordered
//! message log: catch-up/tail polling, batched position checkpointing,
//! command dispatch with idempotent handlers, and aggregate hydration by
//! folding an entity's event stream.

pub mod account;
pub mod clock;
pub mod codec;
pub mod commands;
pub mod consumer;
pub mod events;
pub mod handler;
pub mod json;
pub mod message;
pub mod message_store;
pub mod position_store;
pub mod text;
