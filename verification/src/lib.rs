pub mod position;
pub mod text_buffer;
pub mod util;
