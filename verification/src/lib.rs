//! Core of a chat assistant that tracks, per conversation, a roster of
//! registered participants and a log of messages classified as solution
//! postings.
//!
//! The crate has three parts: a deterministic text classification and name
//! extraction pipeline ([`message_parse`], [`katas`]), a verified binary codec
//! for the stored aggregates ([`codec`]), and a chat-partitioned persistence
//! layer over a durable key-to-bytes store ([`db`]).

pub mod types;

pub mod message_parse;

pub mod codec;

pub mod db;

pub mod katas;

pub mod laws;
