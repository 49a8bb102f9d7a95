//! Appends Wilder RSI columns to monthly kline tables.
//!
//! - [`rsi`] computes one column, price by price, over any number type.
//! - [`exact`] writes the index down as a formula over real numbers and shows
//!   that a column holds it where the operations are exact.
//! - [`table`] reads and writes comma-separated tables through the `csv` crate.
//! - [`convert`] turns the bytes of a table into those of the converted table.
//! - [`carry`] takes the files of a group through one after the other.
//! - [`inspect`] looks at a table before it is converted.
//! - [`names`], [`months`] and [`outputs`] deal with the names of files.
//! - [`files`], [`collect`] and [`groups`] find input files, put them in order
//!   and group them by directory.
//! - [`modes`], [`schedule`], [`select`] and [`run`] decide how files are
//!   inspected, which of them are converted, in which groups, and when a run
//!   ends early.
//! - [`text`], [`report`], [`warnings`] and [`overview`] put it all in words.
pub mod carry;
pub mod collect;
pub mod convert;
pub mod exact;
pub mod files;
pub mod groups;
pub mod inspect;
pub mod modes;
pub mod months;
pub mod names;
pub mod outputs;
pub mod overview;
pub mod report;
pub mod rsi;
pub mod run;
pub mod schedule;
pub mod select;
pub mod table;
pub mod text;
pub mod warnings;
