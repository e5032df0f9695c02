//! The verified core of a slot-based window layout service.
pub mod config;
pub mod engine;
pub mod gesture;
pub mod glob;
pub mod layout;
pub mod number;
pub mod paint;
pub mod service;
pub mod text;
pub mod wide;
pub mod window;
pub mod wires;
