//! Building blocks of a small log viewer: selecting the first or last lines of a
//! text, decoding millisecond timestamps embedded in log lines, a fixed-capacity
//! ring buffer, terminal colour styles and a tiny command-line option parser.

pub mod text;
pub mod number;
pub mod ring;
pub mod lines;
pub mod color;
pub mod cli;
pub mod stamp;
pub mod clock;
pub mod monitor;
