//! Pathy: a visual explorer for the `PATH` environment variable.
//!
//! The crate holds the logic of the tool: the text formatting of sizes and
//! ages, the table renderers, the terminal capability decisions and the state
//! machine of the interactive editor. Everything that touches the file
//! system, the environment or the terminal lives in the application around it.

pub mod text;
pub mod path;
pub mod terminal;
pub mod layout;
pub mod display;
pub mod tui;
