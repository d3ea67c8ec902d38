//! Traits and buffer discipline for block ciphers and block-level stream
//! ciphers: paired input/output views, lane-group chunking, backend
//! dispatch and keystream application.
pub mod block;
pub mod buffer;
pub mod chunks;
pub mod errors;
pub mod sizes;
pub mod stream_core;

pub use crate::block::{
    BlockBackend, BlockCipher, BlockClosure, BlockCtx, BlockDecrypt, BlockDecryptMut, BlockEncrypt,
    BlockEncryptMut, BlockTransform, BlocksCtx,
};
pub use crate::buffer::{Block, InOut, InOutBuf};
pub use crate::chunks::chunk_partition;
pub use crate::errors::{LengthMismatch, StreamCipherError};
pub use crate::sizes::{BlockSizeUser, IvSizeUser, IvState, ParBlocksSizeUser};
pub use crate::stream_core::{Counter, KeystreamModel, StreamCipherCore, StreamCipherSeekCore};
