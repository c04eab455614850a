//! Piece selection for streaming playback of a torrent, and the DNS messages that a
//! resolver bound to one network interface exchanges with its server.
pub mod lengths;
pub mod outside;
pub mod stream_state;
pub mod interleave;
pub mod streams;
pub mod file_stream;
pub mod torrent;
pub mod addr;
pub mod dns;
pub mod resolver;
pub mod laws;
