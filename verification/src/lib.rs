//! Parsing and tabulation of semiconductor test logs: the text log format
//! of the tester and the records of STDF files.
pub mod chars;
pub mod path;
pub mod pattern;
pub mod stdf;
pub mod txt;
pub mod txt_new;
pub mod unit;
