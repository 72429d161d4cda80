//! onair-bot: watch the camera and switch an on-air light accordingly.
//!
//! This crate holds the decisions of the daemon: the debouncer that confirms
//! camera state changes, the selection of processes that hold a video device,
//! configuration parsing, and the SwitchBot request signing and reply handling.
//! Reading `/proc`, talking HTTP and sleeping are left to the program around it.

pub mod camera;
pub mod config;
pub mod daemon;
pub mod debounce;
pub mod switchbot;
pub mod text;
