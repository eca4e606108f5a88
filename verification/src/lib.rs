//! Core of a software keyboard/mouse switch: one or more source hosts capture
//! input-device events and ship them over a framed protocol to a sink host,
//! which injects them on virtual devices and switches the active source on a
//! configurable key chord.

pub mod clipsync;
pub mod codec;
pub mod event;
pub mod monitor;
pub mod registry;
pub mod session;
pub mod switch;
pub mod writer;
