//! Mouse Jump: a thumbnail of the whole virtual desktop, and a click on it that
//! teleports the cursor.
//!
//! This crate holds what the program decides and computes, from plain values to
//! plain values. Talking to KWin, to Wayland and to the command line tools is
//! left to the program around it.
#![allow(unused_imports)]

pub mod commands;
pub mod coords;
pub mod double;
pub mod kscreen;
pub mod kwin;
pub mod layout;
pub mod number;
pub mod overlay;
pub mod render;
pub mod rounding;
pub mod scaling;
pub mod screenshot;
pub mod text;
pub mod warp;
