//! System metrics for a terminal status bar: parsers for the kernel's
//! `/proc` and `/sys` texts and for `df` output, the plugin configuration,
//! the bar renderer, and the plugin's event decisions, each with its
//! behaviour stated as a contract and proved with Verus.
pub mod config;
pub mod decimal;
pub mod metrics;
pub mod plugin;
pub mod render;
pub mod text;
