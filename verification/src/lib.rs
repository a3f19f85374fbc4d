//! Core of a sequence-numbered, lossy, unreliable-delivery packet transport:
//! packet framing over raw datagram bytes, a fixed-capacity circular receive
//! buffer addressed by wrapping sequence numbers, sender sequence stamping,
//! and the integer helpers around it (frame delay buffering, a spatial
//! quantizer with run-length coding for macroblocks, and typing metrics).
//!
//! Socket I/O, clocks, rendering and other device work live outside this
//! crate; everything here is pure state and bytes, specified and verified.

use vstd::prelude::*;

pub mod frames;
pub mod rtp;
pub mod video;
pub mod wpm;

verus! {

/// Width of a captured video frame in pixels.
pub const VIDEO_WIDTH: usize = 640;

/// Height of a captured video frame in pixels.
pub const VIDEO_HEIGHT: usize = 480;

/// Number of frame slots in the sender-side delay buffer.
pub const VIDEO_FRAME_DELAY: usize = 30;

/// Bytes per pixel in packed YUYV 4:2:2.
pub const PIXEL_WIDTH: usize = 2;

/// Width of a macroblock in pixels.
pub const MACROBLOCK_X_DIM: usize = 16;

/// Height of a macroblock in pixels.
pub const MACROBLOCK_Y_DIM: usize = 16;

/// Bytes of packed YUYV 4:2:2 covered by one macroblock.
pub const MACROBLOCK_BYTE_SIZE: usize = MACROBLOCK_X_DIM * MACROBLOCK_Y_DIM * PIXEL_WIDTH;

/// Maximum payload bytes in one datagram (stays under a typical path MTU).
pub const PACKET_PAYLOAD_SIZE_THRESHOLD: usize = 1400;

} // verus!
