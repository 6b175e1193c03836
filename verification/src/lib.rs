//! Verified core of a tool that repacks the ChatGPT Classic Windows MSIX
//! into a native Linux Electron package.
pub mod asar;
pub mod cli;
pub mod extract;
pub mod fetch;
pub mod json;
pub mod pack;
pub mod package;
pub mod patch;
pub mod text;
