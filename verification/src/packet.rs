//! The packet: one chunk of a file with its place in the transfer.

use vstd::prelude::*;

verus! {

/// The largest payload, in bytes, that one packet carries. With the longest
/// filename a frame then takes 8466 bytes, which one datagram holds.
pub const MAX_CHUNK_SIZE: usize = 8192;

/// The longest filename, in bytes of UTF-8, that a packet carries.
pub const MAX_FILENAME_LEN: usize = 255;

/// The mathematical value of a [`Packet`].
pub struct PacketView {
    pub filename: Seq<char>,
    pub bytes: Seq<u8>,
    pub sequence_id: u64,
    pub index: u32,
    pub is_final: bool,
}

/// One chunk of a file transfer together with its position in the transfer.
#[derive(Debug, Clone, PartialEq, Eq)]
pub struct Packet {
    /// Name under which the receiver stores the reconstructed file.
    pub filename: String,
    /// The payload chunk.
    pub bytes: Vec<u8>,
    /// The transfer this packet belongs to.
    pub sequence_id: u64,
    /// Zero-based position of the chunk within its transfer.
    pub index: u32,
    /// Whether this is the last chunk of its transfer.
    pub is_final: bool,
}

impl View for Packet {
    type V = PacketView;

    open spec fn view(&self) -> PacketView {
        PacketView {
            filename: self.filename@,
            bytes: self.bytes@,
            sequence_id: self.sequence_id,
            index: self.index,
            is_final: self.is_final,
        }
    }
}

impl Packet {
    /// Number of payload bytes in this packet.
    pub fn get_bytes_len(&self) -> (n: usize)
        ensures
            n == self@.bytes.len(),
    {
        self.bytes.len()
    }
}

} // verus!
