//! Post-processing for a RetinaFace detector: everything in it that integers decide.
//!
//! The network hands back three tensors per batch: landmark offsets, class
//! confidences and box offsets, one row per anchor. Turning them into faces
//! takes the anchors of the image size, the decoding of the offsets against
//! them, a confidence filter, non-maximum suppression, and the assembly of
//! what is left.
//!
//! This crate holds the steps of that pipeline that are decided by integers,
//! each with a proved contract:
//!
//! - [`anchors`]: which anchors a configuration has, and in which order;
//! - [`cache`]: the anchors of the configurations used last, kept for reuse;
//! - [`tensor`]: the layout of the raw tensors and the check of their sizes;
//! - [`binary32`]: the order of single-precision numbers, read off their bits;
//! - [`detections`]: the confidence filter, the order of what suppression
//!   kept, and the assembly of the faces of one image;
//! - [`batch`]: the same for a batch, image by image;
//! - [`config`]: the configuration and its default;
//! - [`error`]: the ways a call can fail.
//!
//! Arithmetic on real numbers (the decoding of offsets, the softmax, the
//! overlap of boxes) is the caller's. Real numbers cross this crate as
//! IEEE-754 bit patterns, and anchors leave it as exact fractions.

pub mod anchors;
pub mod batch;
pub mod binary32;
pub mod cache;
pub mod config;
pub mod detections;
pub mod error;
pub mod tensor;
