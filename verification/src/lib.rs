//! teum: a plain-text time tracker. One entry per line, one file per ISO
//! week; this crate holds the format, the rules and the reports.
pub mod text;
pub mod calendar;
pub mod interval;
pub mod round_trip;
pub mod parse;
pub mod format;
pub mod period;
pub mod order;
pub mod config;
pub mod datafile;
pub mod commands;
pub mod doctor;
pub mod report;
pub mod state;
pub mod summary;
pub mod display;
pub mod rewrite;
