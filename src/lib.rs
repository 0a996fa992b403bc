//! Puzzles on text, calendars and time zones, with a verified interval algebra
//! over one UTC day at its core.

pub mod audit;
pub mod collation;
pub mod crossword;
pub mod dates;
pub mod encodings;
pub mod greek;
pub mod interval;
pub mod logins;
pub mod messages;
pub mod names;
pub mod numerals;
pub mod password_policy;
pub mod passwords;
pub mod schedule;
pub mod slope;
pub mod text;
pub mod travel;
pub mod waves;
