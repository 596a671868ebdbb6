//! A monochrome (one bit per pixel) rendering engine for memory-constrained
//! display hardware. The engine renders into a caller-supplied byte buffer
//! that covers only a horizontal strip of the logical canvas, strip by strip,
//! so that no full frame buffer is ever needed. It offers rectangle fills,
//! run-length-encoded image blitting, raw bitmap blitting and text layout,
//! all bounded by a shared clipping rectangle.

pub mod bits;
pub mod clip;
pub mod color;
pub mod font;
pub mod frame;
pub mod image;
pub mod render;
pub mod rle;

pub use clip::Clip;
pub use font::Text;
pub use frame::Frame;
pub use frame::Rectangle;
pub use frame::TextAlignment;
pub use image::MonoImage;
pub use render::Renderer;
