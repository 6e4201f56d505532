//! Discrete core of an ambient-occlusion renderer: choosing the nearest hit
//! along a ray, counting unoccluded sample rays, resolving sub-sample results
//! into gray pixels, handing scanlines out to workers and merging their rows,
//! and encoding the finished frame as a binary PPM image.

pub mod dispatch;
pub mod hit;
pub mod pixel;
pub mod ppm;
pub mod shade;
