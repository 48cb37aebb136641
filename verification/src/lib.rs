//! A fuzzy-matching launcher core: a subsequence scorer, a deduplicating
//! candidate aggregator, a usage-history store with a plain-text format, and
//! the ranking engine that combines them.

pub mod config;
pub mod desktop;
pub mod errors;
pub mod finder;
pub mod history;
pub mod launcher;
pub mod scorer;
pub mod sources;
pub mod text;
pub mod ui;
