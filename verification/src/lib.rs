//! Wavelet-domain image steganography.
//!
//! A secret raster image is hidden inside a cover image by replacing the
//! best-matching detail blocks of the cover's wavelet decomposition with the
//! difference between the secret's approximation blocks and their nearest
//! cover counterparts.  A compact key records which blocks were matched and
//! where the differences were written, so that a later call can recover the
//! secret's encoded content from the watermarked image alone.

pub mod block;
pub mod codec;
pub mod color;
pub mod error;
pub mod image;
pub mod matching;
pub mod sqrt;
pub mod stegano;
pub mod transform;

pub use color::RGBColor;
pub use error::StegoError;
pub use image::PPMImage;
pub use transform::DWTImage;
