//! Incremental reassembly of text-framed protocol messages from an
//! arbitrarily chunked byte stream.
//!
//! Bytes arrive in chunks of any size; the parser reconstructs discrete
//! transmissions (heartbeats and complete frames) from them, resuming
//! exactly where it left off when input runs out mid-frame.
pub mod frame;
pub mod frame_buffer;
pub mod header;
pub mod model;
pub mod pool;

pub use frame::Frame;
pub use frame::Transmission;
pub use frame_buffer::FrameBuffer;
pub use header::Header;
pub use header::HeaderCodec;
pub use header::HeaderList;
pub use model::FrameError;
pub use model::FrameSection;
