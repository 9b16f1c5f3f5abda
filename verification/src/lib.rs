//! Adaptive selection engine for a spaced-practice quiz tool.
//!
//! The crate tracks a decayed per-item mastery estimate, offers four
//! strategies for picking the next items to practice, resolves composite
//! item sets in dependency order, and drives the retry-until-clean
//! practice session.  All state lives in plain in-memory values; reading
//! stored rows, rendering prompts and persisting answers are left to the
//! surrounding program.

pub mod console;
pub mod estimator;
pub mod questions;
pub mod rank;
pub mod ratio;
pub mod resolver;
pub mod rng;
pub mod selection;
pub mod service;
pub mod session;
pub mod si;
