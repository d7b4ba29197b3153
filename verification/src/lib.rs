//! Core of an interactive terminal line editor: a Unicode-aware text buffer
//! with a line/column model, cursor navigation, in-place editing, and a
//! viewport layout algorithm rendered through an abstract `Renderer`.

pub mod buffer;
pub mod charclass;
pub mod line;
pub mod render;
pub mod segment;
pub mod view;

pub use buffer::Buffer;
pub use charclass::CharClass;
pub use line::{Line, LineConfig, LineMut};
pub use render::{Error, RenderOp, Renderer};
pub use view::View;
