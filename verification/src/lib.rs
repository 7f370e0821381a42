//! Browsing and maintaining a coding assistant's auto-memory files: frontmatter
//! parsing, index maintenance, slug and date formatting, and the state
//! machine behind the terminal browser.

pub mod text;
pub mod memory;
pub mod mutate;
pub mod display;
pub mod app;
pub mod keys;
pub mod steps;
pub mod screen;
pub mod laws;
