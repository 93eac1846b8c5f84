//! Core rules of a spaced-repetition study engine: question banks and their
//! validation, study-session planning, progress aggregation, review
//! scheduling bookkeeping, and the group-study room state machine.

pub mod api;
pub mod banks;
pub mod card;
pub mod group;
pub mod progress;
pub mod questions;
pub mod session;
pub mod shuffle;
pub mod stats;
pub mod study_plan;
pub mod text;
pub mod validation;
