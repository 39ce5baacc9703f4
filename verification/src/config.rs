//! Shared configuration values: the default window geometry and start page.

use vstd::prelude::*;

verus! {

pub const DEFAULT_WIDTH: i32 = 800;

pub const DEFAULT_HEIGHT: i32 = 800;

pub const DEFAULT_URL: &'static str = "file://examples/welcome.html";

/// A window size in pixels.
#[derive(Debug, PartialEq)]
pub struct Dimensions {
    pub width: i32,
    pub height: i32,
}

} // verus!
