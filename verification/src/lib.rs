//! Binary split layout for the terminal panes of one window.

pub mod arithmetic;
pub mod config_update;
pub mod display_update;
pub mod event_queue;
pub mod exact;
pub mod finite;
pub mod laws;
pub mod layout;
pub mod moving;
pub mod operations;
pub mod pixels;
pub mod pointer;
pub mod precision;
pub mod ratio;
pub mod rect;
pub mod ref_test;
pub mod rest;
pub mod rounding;
pub mod shapes;
pub mod single;
pub mod tiling;
pub mod window_context;
pub mod window_laws;
pub mod window_operations;
