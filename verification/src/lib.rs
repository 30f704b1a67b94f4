//! Verified core of a tool that protects `.env`-style configuration files:
//! it encrypts or decrypts the value half of each `KEY=VALUE` line while
//! preserving the file's structure, classifies candidate files by filename
//! convention, and derives paired output filenames.
//!
//! All text is handled as bytes; the surrounding binary converts to and from
//! `String` at its edges.

pub mod engine;
pub mod gitignore;
pub mod plan;
pub mod scanner;
pub mod setenv;
pub mod text;
