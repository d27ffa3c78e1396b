//! Steganography on 24-bit RGB images by bit-plane complexity segmentation,
//! with the bit and image utilities it rests on.

pub mod bit_operations;
pub mod bpcs;
pub mod errors;
pub mod image_steganalysis;
pub mod image_utils;
