//! A character-cell software rasterizer: the frame and its sample buffer,
//! the depth test and the ordering of depths and shades it rests on, the
//! colour each cell is shown in, the order the frame is printed in, and the
//! decisions of the viewer: which loader a model file needs and what the
//! loop does after each frame.

pub mod binary32;
pub mod depth;
pub mod frame;
pub mod model;
pub mod scan;
pub mod session;
pub mod shader;

pub use frame::{dominant_color, Charxel, Frame, Framebuffer, Pixel, Rgb};
pub use model::{corner_offsets, format_of_extension, format_of_lowercase, ModelFormat};
pub use session::{next_step, prints_newlines, quits, KeyPress, RunMode, Step};
pub use shader::SimpleShader;
