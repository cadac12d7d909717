//! Window geometry for screen capture.
//!
//! [`parse_xwininfo`] reads the rectangle of a window out of the text that
//! `xwininfo` prints, and [`recorder_args`] builds from it the command line
//! that makes `ffmpeg` record that rectangle. Both are functions from plain
//! values to plain values; starting the two programs is left to the caller.

pub mod error;
pub mod field;
pub mod number;
pub mod recorder;
pub mod text;
pub mod xwininfo;

pub use error::{FieldError, ParseError};
pub use field::Field;
pub use number::NumberErrorKind;
pub use recorder::recorder_args;
pub use xwininfo::{parse_xwininfo, WindowInfo};
