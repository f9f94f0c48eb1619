//! Verified core of a workshop toolkit for filter test data: reading the
//! tab-separated exports of measurement instruments, merging upstream and
//! downstream sensor files, and the small decisions behind its prompts.

pub mod text;
pub mod columns;
pub mod merge;
pub mod exports;
pub mod prompts;
pub mod labels;
pub mod config;
