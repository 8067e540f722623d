//! The wire format: one packet, one frame.

use vstd::prelude::*;
use vstd::slice::{slice_subrange, slice_to_vec};
use vstd::utf8::{
    decode_utf8, decode_utf8_encode_utf8, encode_utf8, encode_utf8_decode_utf8,
    encode_utf8_valid_utf8, valid_utf8,
};
use crate::packet::{Packet, PacketView, MAX_CHUNK_SIZE, MAX_FILENAME_LEN};

verus! {

/// Bytes of a frame before the filename: transfer id, index, final flag and
/// the filename's length.
pub const HEADER_LEN: usize = 15;

/// Why a packet cannot be put on the wire.
#[derive(Debug, Clone, Copy, PartialEq, Eq, Structural)]
pub enum EncodeError {
    /// The filename takes more than `MAX_FILENAME_LEN` bytes.
    NameTooLong,
    /// The payload takes more than `MAX_CHUNK_SIZE` bytes.
    PayloadTooLarge,
}

/// Why a frame is not a packet.
#[derive(Debug, Clone, Copy, PartialEq, Eq, Structural)]
pub enum DecodeError {
    /// The frame ends before the header, the filename or the payload does.
    Truncated,
    /// The final flag is neither 0 nor 1.
    BadFlag,
    /// The filename's length is over `MAX_FILENAME_LEN`.
    NameTooLong,
    /// The filename is not UTF-8.
    BadName,
    /// The payload's length is over `MAX_CHUNK_SIZE`.
    PayloadTooLarge,
    /// Bytes follow the payload.
    TrailingBytes,
}

/// Whether a packet fits in a frame.
pub open spec fn encodable(p: PacketView) -> bool {
    &&& encode_utf8(p.filename).len() <= MAX_FILENAME_LEN
    &&& p.bytes.len() <= MAX_CHUNK_SIZE
}

/// The frame of a packet: the transfer id in 8 bytes, the index in 4, the
/// final flag in 1, the filename's length in 2, the filename in UTF-8, the
/// payload's length in 4, and the payload. Numbers are big-endian.
pub open spec fn frame_of(p: PacketView) -> Seq<u8> {
    let name = encode_utf8(p.filename);
    be_bytes(p.sequence_id as nat, 8) + be_bytes(p.index as nat, 4) + seq![
        if p.is_final {
            1u8
        } else {
            0u8
        },
    ] + be_bytes(name.len(), 2) + name + be_bytes(p.bytes.len(), 4) + p.bytes
}

/// The filename's length as a frame of at least `HEADER_LEN` bytes states it.
pub open spec fn stated_name_len(frame: Seq<u8>) -> nat {
    be_value(frame.subrange(13, 15))
}

/// The payload's length as a frame states it behind the filename.
pub open spec fn stated_payload_len(frame: Seq<u8>) -> nat {
    let at = HEADER_LEN + stated_name_len(frame);
    be_value(frame.subrange(at, at + 4))
}

/// The packet that a frame holds, or the first reason, reading from the
/// front, why it holds none.
pub open spec fn parse_frame(frame: Seq<u8>) -> Result<PacketView, DecodeError> {
    let name_len = stated_name_len(frame);
    let name_end = HEADER_LEN + name_len;
    let payload_len = stated_payload_len(frame);
    let payload_at = name_end + 4;
    if frame.len() < HEADER_LEN {
        Err(DecodeError::Truncated)
    } else if frame[12] > 1 {
        Err(DecodeError::BadFlag)
    } else if name_len > MAX_FILENAME_LEN {
        Err(DecodeError::NameTooLong)
    } else if frame.len() < payload_at {
        Err(DecodeError::Truncated)
    } else if !valid_utf8(frame.subrange(HEADER_LEN as int, name_end)) {
        Err(DecodeError::BadName)
    } else if payload_len > MAX_CHUNK_SIZE {
        Err(DecodeError::PayloadTooLarge)
    } else if frame.len() < payload_at + payload_len {
        Err(DecodeError::Truncated)
    } else if frame.len() > payload_at + payload_len {
        Err(DecodeError::TrailingBytes)
    } else {
        Ok(
            PacketView {
                filename: decode_utf8(frame.subrange(HEADER_LEN as int, name_end)),
                bytes: frame.subrange(payload_at, payload_at + payload_len),
                sequence_id: be_value(frame.subrange(0, 8)) as u64,
                index: be_value(frame.subrange(8, 12)) as u32,
                is_final: frame[12] == 1,
            },
        )
    }
}

/// The big-endian digits of `value` in `width` bytes: the value modulo
/// `256^width`, most significant byte first.
pub open spec fn be_bytes(value: nat, width: nat) -> Seq<u8>
    decreases width,
{
    if width == 0 {
        Seq::empty()
    } else {
        be_bytes(value / 256, (width - 1) as nat).push((value % 256) as u8)
    }
}

/// The number that `bytes` spell, most significant byte first.
pub open spec fn be_value(bytes: Seq<u8>) -> nat
    decreases bytes.len(),
{
    if bytes.len() == 0 {
        0
    } else {
        be_value(bytes.drop_last()) * 256 + bytes.last() as nat
    }
}

/// `256^width`.
pub open spec fn radix_pow(width: nat) -> nat
    decreases width,
{
    if width == 0 {
        1
    } else {
        256 * radix_pow((width - 1) as nat)
    }
}

/// The first few powers of 256.
pub proof fn lemma_radix_pow_values()
    ensures
        radix_pow(0) == 1,
        radix_pow(1) == 0x100,
        radix_pow(2) == 0x1_0000,
        radix_pow(3) == 0x100_0000,
        radix_pow(4) == 0x1_0000_0000,
        radix_pow(8) == 0x1_0000_0000_0000_0000,
{
    reveal_with_fuel(radix_pow, 9);
}

/// The digits of a value are as many as asked for.
pub proof fn lemma_be_bytes_len(value: nat, width: nat)
    ensures
        be_bytes(value, width).len() == width,
    decreases width,
{
    if width > 0 {
        lemma_be_bytes_len(value / 256, (width - 1) as nat);
    }
}

/// What `n` bytes spell is below `256^n`.
pub proof fn lemma_be_value_bound(bytes: Seq<u8>)
    ensures
        be_value(bytes) < radix_pow(bytes.len()),
    decreases bytes.len(),
{
    if bytes.len() > 0 {
        lemma_be_value_bound(bytes.drop_last());
    }
}

/// A value that fits in `width` bytes is read back from its digits.
pub proof fn lemma_be_value_of_bytes(value: nat, width: nat)
    requires
        value < radix_pow(width),
    ensures
        be_value(be_bytes(value, width)) == value,
    decreases width,
{
    if width > 0 {
        let rest = be_bytes(value / 256, (width - 1) as nat);
        lemma_be_value_of_bytes(value / 256, (width - 1) as nat);
        assert(be_bytes(value, width).drop_last() =~= rest);
    }
}

/// Bytes are the digits of the value they spell.
pub proof fn lemma_be_bytes_of_value(bytes: Seq<u8>)
    ensures
        be_bytes(be_value(bytes), bytes.len()) == bytes,
    decreases bytes.len(),
{
    if bytes.len() > 0 {
        lemma_be_bytes_of_value(bytes.drop_last());
        let v = be_value(bytes);
        assert(v / 256 == be_value(bytes.drop_last()));
        assert(v % 256 == bytes.last() as nat);
        assert(be_bytes(v, bytes.len()) =~= bytes);
    } else {
        assert(be_bytes(0, 0) =~= bytes);
    }
}

/// Appends the big-endian digits of `value` in `width` bytes to `out`.
fn put_be(out: &mut Vec<u8>, value: u64, width: usize)
    requires
        width <= 8,
    ensures
        final(out)@ == old(out)@ + be_bytes(value as nat, width as nat),
{
    let mut digits: [u8; 8] = [0u8;8];
    let mut rest: u64 = value;
    let mut k: usize = 0;
    // digits[8 - k..8] holds the k least significant digits
    while k < width
        invariant
            k <= width <= 8,
            digits@.len() == 8,
            be_bytes(value as nat, width as nat) == be_bytes(rest as nat, (width - k) as nat)
                + digits@.subrange(8 - k, 8),
        decreases width - k,
    {
        let ghost before = digits@;
        digits[7 - k] = (rest % 256) as u8;
        proof {
            assert(digits@.subrange(8 - (k + 1), 8) =~= seq![(rest % 256) as u8]
                + before.subrange(8 - k, 8));
            assert(be_bytes(rest as nat, (width - k) as nat) == be_bytes(
                rest as nat / 256,
                (width - k - 1) as nat,
            ).push((rest % 256) as u8));
            assert(be_bytes(rest as nat / 256, (width - k - 1) as nat).push((rest % 256) as u8)
                + before.subrange(8 - k, 8) =~= be_bytes(
                rest as nat / 256,
                (width - k - 1) as nat,
            ) + digits@.subrange(8 - (k + 1), 8));
        }
        rest = rest / 256;
        k += 1;
    }
    let mut i: usize = 8 - width;
    while i < 8
        invariant
            8 - width <= i <= 8,
            width <= 8,
            digits@.len() == 8,
            out@ == old(out)@ + digits@.subrange(8 - width, i as int),
        decreases 8 - i,
    {
        out.push(digits[i]);
        assert(digits@.subrange(8 - width, i + 1) =~= digits@.subrange(8 - width, i as int).push(
            digits@[i as int],
        ));
        i += 1;
    }
    assert(be_bytes(rest as nat, 0) =~= Seq::empty());
}

/// Powers of 256 grow with the exponent.
pub proof fn lemma_radix_pow_monotonic(a: nat, b: nat)
    requires
        a <= b,
    ensures
        radix_pow(a) <= radix_pow(b),
        radix_pow(a) >= 1,
    decreases b,
{
    if a < b {
        lemma_radix_pow_monotonic(a, (b - 1) as nat);
    } else if a > 0 {
        lemma_radix_pow_monotonic((a - 1) as nat, (a - 1) as nat);
    }
}

/// Reads the number that the `width` bytes from `start` spell, most
/// significant byte first.
fn get_be(bytes: &[u8], start: usize, width: usize) -> (value: u64)
    requires
        width <= 8,
        start + width <= bytes@.len(),
    ensures
        value == be_value(bytes@.subrange(start as int, start + width)),
{
    let len = bytes.len();
    let mut value: u64 = 0;
    let mut k: usize = 0;
    while k < width
        invariant
            k <= width <= 8,
            start + width <= bytes@.len() == len,
            value == be_value(bytes@.subrange(start as int, start + k)),
            value < radix_pow(k as nat),
        decreases width - k,
    {
        proof {
            lemma_radix_pow_monotonic((k + 1) as nat, 8);
            lemma_radix_pow_values();
            let next = bytes@.subrange(start as int, start + k + 1);
            assert(next.drop_last() =~= bytes@.subrange(start as int, start + k));
            assert(next.last() == bytes@[start + k]);
            assert(value * 256 + bytes@[start + k] < radix_pow((k + 1) as nat)) by {
                assert(radix_pow((k + 1) as nat) == 256 * radix_pow(k as nat));
            }
        }
        value = value * 256 + bytes[start + k] as u64;
        k += 1;
    }
    value
}

/// A packet that fits in a frame is read back from its frame.
pub proof fn lemma_parse_frame_of(p: PacketView)
    requires
        encodable(p),
    ensures
        parse_frame(frame_of(p)) == Ok::<PacketView, DecodeError>(p),
{
    let name = encode_utf8(p.filename);
    let frame = frame_of(p);
    let flag = if p.is_final {
        1u8
    } else {
        0u8
    };
    lemma_radix_pow_values();
    lemma_be_bytes_len(p.sequence_id as nat, 8);
    lemma_be_bytes_len(p.index as nat, 4);
    lemma_be_bytes_len(name.len(), 2);
    lemma_be_bytes_len(p.bytes.len(), 4);
    lemma_be_value_of_bytes(p.sequence_id as nat, 8);
    lemma_be_value_of_bytes(p.index as nat, 4);
    lemma_be_value_of_bytes(name.len(), 2);
    lemma_be_value_of_bytes(p.bytes.len(), 4);
    encode_utf8_valid_utf8(p.filename);
    encode_utf8_decode_utf8(p.filename);
    let name_end = HEADER_LEN + name.len();
    assert(frame.subrange(0, 8) =~= be_bytes(p.sequence_id as nat, 8));
    assert(frame.subrange(8, 12) =~= be_bytes(p.index as nat, 4));
    assert(frame[12] == flag);
    assert(frame.subrange(13, 15) =~= be_bytes(name.len(), 2));
    assert(frame.subrange(HEADER_LEN as int, name_end) =~= name);
    assert(frame.subrange(name_end, name_end + 4) =~= be_bytes(p.bytes.len(), 4));
    assert(frame.subrange(name_end + 4, name_end + 4 + p.bytes.len()) =~= p.bytes);
}

/// A frame that holds a packet is that packet's frame, and the packet fits
/// in a frame: no two frames hold the same packet.
pub proof fn lemma_frame_of_parsed(frame: Seq<u8>)
    requires
        parse_frame(frame) is Ok,
    ensures
        encodable(parse_frame(frame)->Ok_0),
        frame_of(parse_frame(frame)->Ok_0) == frame,
{
    let p = parse_frame(frame)->Ok_0;
    let name_len = stated_name_len(frame);
    let name_end = HEADER_LEN + name_len;
    let payload_len = stated_payload_len(frame);
    let name = frame.subrange(HEADER_LEN as int, name_end);
    lemma_radix_pow_values();
    decode_utf8_encode_utf8(name);
    lemma_be_value_bound(frame.subrange(0, 8));
    lemma_be_value_bound(frame.subrange(8, 12));
    lemma_be_bytes_of_value(frame.subrange(0, 8));
    lemma_be_bytes_of_value(frame.subrange(8, 12));
    lemma_be_bytes_of_value(frame.subrange(13, 15));
    lemma_be_bytes_of_value(frame.subrange(name_end, name_end + 4));
    assert(frame_of(p) =~= frame);
}

/// A frame cut short anywhere holds no packet: every proper prefix of a
/// packet's frame is rejected as truncated.
pub proof fn lemma_truncated_frame(p: PacketView, k: int)
    requires
        encodable(p),
        0 <= k < frame_of(p).len(),
    ensures
        parse_frame(frame_of(p).subrange(0, k)) == Err::<PacketView, DecodeError>(
            DecodeError::Truncated,
        ),
{
    let frame = frame_of(p);
    let cut = frame.subrange(0, k);
    let name = encode_utf8(p.filename);
    let name_end = HEADER_LEN + name.len();
    lemma_parse_frame_of(p);
    lemma_radix_pow_values();
    lemma_be_bytes_len(p.sequence_id as nat, 8);
    lemma_be_bytes_len(p.index as nat, 4);
    lemma_be_bytes_len(name.len(), 2);
    lemma_be_bytes_len(p.bytes.len(), 4);
    lemma_be_value_of_bytes(name.len(), 2);
    lemma_be_value_of_bytes(p.bytes.len(), 4);
    assert(frame.subrange(13, 15) =~= be_bytes(name.len(), 2));
    assert(frame.subrange(name_end, name_end + 4) =~= be_bytes(p.bytes.len(), 4));
    assert(frame.len() == name_end + 4 + p.bytes.len());
    if k >= HEADER_LEN {
        assert(cut[12] == frame[12]);
        assert(cut.subrange(13, 15) =~= frame.subrange(13, 15));
        if k >= name_end + 4 {
            assert(cut.subrange(HEADER_LEN as int, name_end) =~= frame.subrange(
                HEADER_LEN as int,
                name_end,
            ));
            assert(cut.subrange(name_end, name_end + 4) =~= frame.subrange(
                name_end,
                name_end + 4,
            ));
        }
    }
}

/// `String::from_utf8` of the standard library: the text that the bytes
/// spell where they are UTF-8, and nothing where they are not.
#[verifier::external_body]
fn text_from_utf8(bytes: Vec<u8>) -> (text: Option<String>)
    ensures
        match text {
            Some(s) => valid_utf8(bytes@) && s@ == decode_utf8(bytes@),
            None => !valid_utf8(bytes@),
        },
{
    String::from_utf8(bytes).ok()
}

/// Puts a packet in a frame.
pub fn encode(packet: &Packet) -> (r: Result<Vec<u8>, EncodeError>)
    ensures
        match r {
            Ok(frame) => {
                &&& encodable(packet@)
                &&& frame@ == frame_of(packet@)
                &&& parse_frame(frame@) == Ok::<PacketView, DecodeError>(packet@)
            },
            Err(EncodeError::NameTooLong) => encode_utf8(packet@.filename).len()
                > MAX_FILENAME_LEN,
            Err(EncodeError::PayloadTooLarge) => encode_utf8(packet@.filename).len()
                <= MAX_FILENAME_LEN && packet@.bytes.len() > MAX_CHUNK_SIZE,
        },
{
    let name = packet.filename.as_str().as_bytes();
    if name.len() > MAX_FILENAME_LEN {
        return Err(EncodeError::NameTooLong);
    }
    if packet.bytes.len() > MAX_CHUNK_SIZE {
        return Err(EncodeError::PayloadTooLarge);
    }
    let mut frame: Vec<u8> = Vec::new();
    put_be(&mut frame, packet.sequence_id, 8);
    put_be(&mut frame, packet.index as u64, 4);
    frame.push(if packet.is_final { 1u8 } else { 0u8 });
    put_be(&mut frame, name.len() as u64, 2);
    frame.extend_from_slice(name);
    put_be(&mut frame, packet.bytes.len() as u64, 4);
    frame.extend_from_slice(packet.bytes.as_slice());
    assert(frame@ =~= frame_of(packet@));
    proof {
        lemma_parse_frame_of(packet@);
    }
    Ok(frame)
}

/// Reads the packet that a frame holds.
pub fn decode(frame: &[u8]) -> (r: Result<Packet, DecodeError>)
    ensures
        match r {
            Ok(packet) => {
                &&& parse_frame(frame@) == Ok::<PacketView, DecodeError>(packet@)
                &&& encodable(packet@)
                &&& frame_of(packet@) == frame@
            },
            Err(e) => parse_frame(frame@) == Err::<PacketView, DecodeError>(e),
        },
{
    proof {
        if parse_frame(frame@) is Ok {
            lemma_frame_of_parsed(frame@);
        }
    }
    let len = frame.len();
    if len < HEADER_LEN {
        return Err(DecodeError::Truncated);
    }
    let flag = frame[12];
    if flag > 1 {
        return Err(DecodeError::BadFlag);
    }
    proof {
        lemma_be_value_bound(frame@.subrange(0, 8));
        lemma_be_value_bound(frame@.subrange(8, 12));
        lemma_be_value_bound(frame@.subrange(13, 15));
        lemma_radix_pow_values();
    }
    let name_len = get_be(frame, 13, 2) as usize;
    if name_len > MAX_FILENAME_LEN {
        return Err(DecodeError::NameTooLong);
    }
    let name_end = HEADER_LEN + name_len;
    let payload_at = name_end + 4;
    if len < payload_at {
        return Err(DecodeError::Truncated);
    }
    let filename = match text_from_utf8(slice_to_vec(slice_subrange(frame, HEADER_LEN, name_end))) {
        Some(text) => text,
        None => {
            return Err(DecodeError::BadName);
        },
    };
    proof {
        lemma_be_value_bound(frame@.subrange(name_end as int, name_end + 4));
    }
    let payload_len = get_be(frame, name_end, 4) as usize;
    if payload_len > MAX_CHUNK_SIZE {
        return Err(DecodeError::PayloadTooLarge);
    }
    if len < payload_at + payload_len {
        return Err(DecodeError::Truncated);
    }
    if len > payload_at + payload_len {
        return Err(DecodeError::TrailingBytes);
    }
    Ok(
        Packet {
            filename,
            bytes: slice_to_vec(slice_subrange(frame, payload_at, payload_at + payload_len)),
            sequence_id: get_be(frame, 0, 8),
            index: get_be(frame, 8, 4) as u32,
            is_final: flag == 1,
        },
    )
}

} // verus!
