//! Verified core of a small video player: the bookkeeping of the packet queue
//! shared by the demuxing and decoding threads, and the copy of a decoded
//! YV12 frame into a locked streaming texture.

pub mod planes;
pub mod playback;
