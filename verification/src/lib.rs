//! Time tracking: timesheet lines, the records they describe, and the store
//! that keeps one record per calendar date.

pub mod calendar;
pub mod date;
pub mod edit;
pub mod factor;
pub mod fee;
pub mod import;
pub mod legacy_parser;
pub mod legacy_writer;
pub mod record;
pub mod report;
pub mod round_trip;
pub mod storage;
pub mod text;
pub mod time;
