//! Recurring date ranges for a small personal calendar.
//!
//! A range is written as `YYYY[+[N]]-MM[+[N]]-DD[+[N]]`: an anchor date and,
//! per unit, an optional recurrence that is either a fixed count or "up to
//! now". The crate parses such a specifier, resolves it against a reference
//! date into a bounded range with one stepping unit, and expands that range
//! into its dates. Around that core it holds the calendar's events, their
//! filtering by kind, and the headings rendered for them.

pub mod date;
pub mod specifier;
pub mod resolve;
pub mod expand;
pub mod events;
pub mod render;
pub mod crs;
