//! A persistent command history and the pieces around it.
//!
//! * [`lines`] is the model of the line-oriented text format that the history
//!   file uses, with the verified routines that read and write it.
//! * [`history`] is the in-memory log of commands, loaded from the text of a
//!   backing file and flushed as text to append.
//! * [`retention`] trims a text to its last lines.
//! * [`data_frame_names`] numbers the rows of a list of dataset names.
//!
//! The library never touches the file system: callers hand it the text that
//! they read and write back the text that it returns.
pub mod data_frame_names;
pub mod history;
pub mod lines;
pub mod retention;
