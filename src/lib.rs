pub mod laws;
pub mod model;
pub mod stream;

pub use stream::{Res, Stream, StreamError};
