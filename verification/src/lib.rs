//! Core logic of a local-first spaced-repetition trainer: memory items, the
//! SM-2 scheduler and the bookkeeping half of FSRS-6, statistics, streaks,
//! the knowledge graph, gamification, review sessions and backup rotation.
//!
//! Time is carried as milliseconds since the Unix epoch (UTC) and calendar
//! days as whole days since 1970-01-01.

pub mod clock;
pub mod text;
pub mod calendar;
pub mod seqs;
pub mod error;
pub mod domain;
pub mod scheduler;
pub mod fsrs;
pub mod graph;
pub mod ordering;
pub mod stats;
pub mod gamification;
pub mod session;
pub mod settings;
pub mod window_state;
pub mod store;
pub mod backup;
pub mod assets;
