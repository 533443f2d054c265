//! A registry of localization sources grouped by override namespace, with
//! a priority-ordered assignment solver and a per-locale resolution state
//! machine that decides what to probe, what to build and what to report.

pub mod driver;
pub mod locale;
pub mod registry;
pub mod solver;
pub mod source;
