//! A typing test in the terminal: the verified logic of a test.
//!
//! - `session`: how each key changes a running test, and what the screen shows.
//! - `text`, `layout` and `window`: the words of a test, their layout in lines
//!   and the shown window.
//! - `results`: the counts and the marked text of a finished test.
//! - `stats`, `decimal`: the line format of the record of past tests, and the
//!   time of a record.
//! - `error`: errors.

pub mod decimal;
pub mod error;
pub mod layout;
pub mod results;
pub mod session;
pub mod stats;
pub mod text;
pub mod window;
