//! Image and text helpers for a camera dictionary: YUV decoding, rotation,
//! rectangle drawing and cropping, threshold computation, edge detection,
//! character block splitting, contour tracking, Chinese word segmentation and
//! the package signature check.
//!
//! - `yuv`: YUV 4:2:0 frames to RGB888, and the samples each pixel of a planar
//!   frame takes.
//! - `rotate`: RGB888 images turned by a quarter, a half or three quarters.
//! - `rect`: filling, outlining and cutting out rectangles of images.
//! - `threshold`: gray levels and a binarization threshold from the histogram.
//! - `edges`: edge maps and binarized images from gray levels.
//! - `split`: character blocks of an edge map.
//! - `character`: the character block under a touched point of a gray image.
//! - `retina`: the retina-cell edge scan and contour tracking.
//! - `bitmap`: Android bitmap formats, pixel packing and RGB to BGR order.
//! - `words`: Chinese word segmentation.
//! - `apk`, `signature`, `text`: locating the package's APK, the digests of its
//!   manifest, and the text scanning they share.

pub mod apk;
pub mod bitmap;
pub mod character;
pub mod edges;
pub mod rect;
pub mod retina;
pub mod rotate;
pub mod signature;
pub mod split;
pub mod text;
pub mod threshold;
pub mod words;
pub mod yuv;
