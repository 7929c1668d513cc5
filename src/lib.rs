//! Console log formatting: a color per severity, a `[LEVEL] file:line `
//! prefix, and message bodies whose continuation lines align under the
//! first line's text.
pub mod level;
pub mod text;
pub mod format;
pub mod init;
pub mod filter;
