//! Core of a static-site build tool: a declarative query engine over parsed
//! content records (sort / order / limit / group), a content-source resolver,
//! path classification for incremental rebuilds, a debounced rebuild
//! scheduler, and a time-windowed memoization cache.

pub mod cache;
pub mod classify;
pub mod content;
pub mod dsl;
pub mod fields;
pub mod helpers;
pub mod schedule;
pub mod sorting;
pub mod strutil;
