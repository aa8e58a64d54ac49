pub mod text;
pub mod config;
pub mod applet;
pub mod metrics;
pub mod format;
pub mod ui;
pub mod order;
