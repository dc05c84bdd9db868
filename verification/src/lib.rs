//! Statistics over exported chat transcripts.
//!
//! A transcript is a text in which a header line, with a date, a time of day
//! and an author, opens each message. [`extract`] turns the text into
//! messages, [`stats`] counts what each author has sent, [`years`] does so
//! year by year, [`order`] puts the authors in order, and [`present`] writes
//! the result as lines or as a table.

pub mod extract;
pub mod header;
pub mod lines;
pub mod order;
pub mod present;
pub mod stats;
pub mod text;
pub mod timestamp;
pub mod years;
