//! The Obscura engine, which turns a web page into markdown.

pub mod browser;
