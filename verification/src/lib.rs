//! A CPU-side pixel framebuffer with frame-by-frame input tracking.
//!
//! The library has two components, both driven once per frame by a host
//! event loop:
//!
//! * [`input::InputTracker`] turns raw press/release edges from the host
//!   into a three-state-per-key model (`Pressed`, `Down`, `Released`) that
//!   an application polls during its update callback.
//! * [`surface::Surface`] owns a row-major array of RGBA pixels and offers
//!   bounds-clipped write operations; its bytes are handed to a renderer
//!   once per frame.

pub mod color;
pub mod input;
pub mod surface;
