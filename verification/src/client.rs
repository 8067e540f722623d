//! The send path: a file's bytes split into the packets of one transfer,
//! and the frames to hand to the transport, packet by packet.

use vstd::prelude::*;
use vstd::slice::{slice_subrange, slice_to_vec};
use vstd::utf8::encode_utf8;
use crate::packet::{Packet, PacketView, MAX_CHUNK_SIZE, MAX_FILENAME_LEN};
use crate::sequence::{
    concat_payloads, first_filename, is_complete, lemma_concat_payloads_push,
    lemma_first_filename_uniform, Sequence,
};
use crate::wire::{encodable, encode, frame_of, EncodeError};

verus! {

/// Why bytes cannot be split into packets.
#[derive(Debug, Clone, Copy, PartialEq, Eq, Structural)]
pub enum PacketizeError {
    /// The chunk size is zero or over `MAX_CHUNK_SIZE`.
    ChunkSize,
    /// The chunks are more than a packet's index can count.
    TooManyChunks,
}

/// The number of chunks of `chunk` bytes that `len` bytes take. No bytes
/// still take one chunk, which is empty.
pub open spec fn chunk_count(len: nat, chunk: nat) -> nat
    recommends
        chunk > 0,
{
    if len == 0 {
        1
    } else {
        ((len - 1) / (chunk as int) + 1) as nat
    }
}

/// The `i`-th chunk of `data`: the bytes from `i * chunk` on, `chunk` of
/// them or as many as are left.
pub open spec fn chunk_of(data: Seq<u8>, chunk: nat, i: int) -> Seq<u8> {
    let start = i * chunk;
    let end = if start + chunk < data.len() {
        start + chunk
    } else {
        data.len() as int
    };
    data.subrange(start, end)
}

/// The packets that carry `data` in chunks of `chunk` bytes under the
/// transfer id `id`: indexed from zero, each with the filename, the last
/// one marked final.
pub open spec fn packetized(filename: Seq<char>, data: Seq<u8>, id: u64, chunk: nat) -> Seq<
    PacketView,
> {
    let count = chunk_count(data.len(), chunk);
    Seq::new(
        count,
        |i: int|
            PacketView {
                filename,
                bytes: chunk_of(data, chunk, i),
                sequence_id: id,
                index: i as u32,
                is_final: i == count - 1,
            },
    )
}

/// Where the chunks of `len > 0` bytes start and end: chunk `i` starts
/// inside the data exactly when `i` is below the chunk count, and it
/// reaches the end of the data exactly when it is the last.
pub proof fn lemma_chunk_bounds(len: nat, chunk: nat, i: nat)
    requires
        len > 0,
        chunk > 0,
    ensures
        i * chunk < len <==> i < chunk_count(len, chunk),
        i * chunk + chunk >= len <==> i + 1 >= chunk_count(len, chunk),
{
    let q = (len - 1) / (chunk as int);
    assert(q * chunk <= len - 1 < q * chunk + chunk) by (nonlinear_arith)
        requires
            q == (len - 1) / (chunk as int),
            chunk > 0,
            len > 0,
    ;
    assert(i <= q ==> i * chunk <= q * chunk) by (nonlinear_arith)
        requires
            chunk > 0,
    ;
    assert(i >= q + 1 ==> i * chunk >= q * chunk + chunk) by (nonlinear_arith)
        requires
            chunk > 0,
    ;
    assert(i + 1 <= q ==> i * chunk + chunk <= q * chunk) by (nonlinear_arith)
        requires
            chunk > 0,
    ;
}

/// The payloads of the first `k` packets are the first `k` chunks' worth of
/// the data.
proof fn lemma_packetized_prefix(filename: Seq<char>, data: Seq<u8>, id: u64, chunk: nat, k: nat)
    requires
        chunk > 0,
        k <= chunk_count(data.len(), chunk),
    ensures
        concat_payloads(packetized(filename, data, id, chunk).subrange(0, k as int))
            == data.subrange(
            0,
            if k * chunk < data.len() {
                (k * chunk) as int
            } else {
                data.len() as int
            },
        ),
    decreases k,
{
    let packets = packetized(filename, data, id, chunk);
    if k == 0 {
        assert(packets.subrange(0, 0) =~= Seq::empty());
        assert(0 * chunk == 0);
        assert(data.subrange(0, 0) =~= Seq::empty());
    } else {
        let j = (k - 1) as nat;
        lemma_packetized_prefix(filename, data, id, chunk, j);
        lemma_concat_payloads_push(packets.subrange(0, j as int), packets[j as int]);
        assert(packets.subrange(0, j as int).push(packets[j as int]) =~= packets.subrange(
            0,
            k as int,
        ));
        assert(k * chunk == j * chunk + chunk) by (nonlinear_arith)
            requires
                k == j + 1,
        ;
        if data.len() > 0 {
            lemma_chunk_bounds(data.len(), chunk, j);
        } else {
            assert(j * chunk == 0);
        }
        let cut = if j * chunk < data.len() {
            (j * chunk) as int
        } else {
            data.len() as int
        };
        let end = if k * chunk < data.len() {
            (k * chunk) as int
        } else {
            data.len() as int
        };
        assert(cut == j * chunk);
        assert(packets[j as int].bytes == data.subrange(cut, end));
        assert(data.subrange(0, cut) + data.subrange(cut, end) =~= data.subrange(0, end));
    }
}

/// Packetizing and then joining the payloads in index order gives the data
/// back, whatever its length.
pub proof fn lemma_packetized_payload(filename: Seq<char>, data: Seq<u8>, id: u64, chunk: nat)
    requires
        chunk > 0,
    ensures
        concat_payloads(packetized(filename, data, id, chunk)) == data,
{
    let packets = packetized(filename, data, id, chunk);
    let count = chunk_count(data.len(), chunk);
    lemma_packetized_prefix(filename, data, id, chunk, count);
    assert(packets.subrange(0, count as int) =~= packets);
    if data.len() > 0 {
        lemma_chunk_bounds(data.len(), chunk, count);
    }
    assert(data.subrange(0, data.len() as int) =~= data);
}

/// No packet of a packetization carries more than a chunk, and every
/// packet carries the filename and the transfer id.
pub proof fn lemma_packetized_chunks(filename: Seq<char>, data: Seq<u8>, id: u64, chunk: nat)
    requires
        chunk > 0,
    ensures
        forall|i: int|
            0 <= i < packetized(filename, data, id, chunk).len() ==> {
                &&& (#[trigger] packetized(filename, data, id, chunk)[i]).bytes.len() <= chunk
                &&& packetized(filename, data, id, chunk)[i].filename == filename
                &&& packetized(filename, data, id, chunk)[i].sequence_id == id
            },
{
    let packets = packetized(filename, data, id, chunk);
    assert forall|i: int| 0 <= i < packets.len() implies (#[trigger] packets[i]).bytes.len()
        <= chunk by {
        if data.len() > 0 {
            lemma_chunk_bounds(data.len(), chunk, i as nat);
        } else {
            assert(i == 0);
            assert(i * chunk == 0) by (nonlinear_arith)
                requires
                    i == 0,
            ;
        }
    }
}

/// A packetization whose chunks a packet's index can count is a complete
/// transfer.
pub proof fn lemma_packetized_complete(filename: Seq<char>, data: Seq<u8>, id: u64, chunk: nat)
    requires
        chunk > 0,
        chunk_count(data.len(), chunk) <= 0x1_0000_0000,
    ensures
        is_complete(packetized(filename, data, id, chunk)),
{
}

/// Splits `data` into packets of at most `chunk_size` bytes of payload under
/// the transfer id `sequence_id`, each stamped with `filename`. Empty data
/// gives one packet with an empty payload, so that the transfer still ends.
pub fn packetize(filename: &str, data: &[u8], sequence_id: u64, chunk_size: usize) -> (r: Result<
    Sequence,
    PacketizeError,
>)
    ensures
        match r {
            Ok(sequence) => {
                &&& 0 < chunk_size <= MAX_CHUNK_SIZE
                &&& chunk_count(data@.len(), chunk_size as nat) <= 0x1_0000_0000
                &&& sequence@ == packetized(filename@, data@, sequence_id, chunk_size as nat)
                &&& is_complete(sequence@)
                &&& concat_payloads(sequence@) == data@
                &&& first_filename(sequence@) == filename@
                &&& forall|i: int|
                    0 <= i < sequence@.len() ==> (#[trigger] sequence@[i]).bytes.len()
                        <= chunk_size
            },
            Err(PacketizeError::ChunkSize) => chunk_size == 0 || chunk_size > MAX_CHUNK_SIZE,
            Err(PacketizeError::TooManyChunks) => {
                &&& 0 < chunk_size <= MAX_CHUNK_SIZE
                &&& chunk_count(data@.len(), chunk_size as nat) > 0x1_0000_0000
            },
        },
{
    if chunk_size == 0 || chunk_size > MAX_CHUNK_SIZE {
        return Err(PacketizeError::ChunkSize);
    }
    let len = data.len();
    let count: u64 = if len == 0 {
        1
    } else {
        ((len - 1) / chunk_size) as u64 + 1
    };
    if count > 0x1_0000_0000 {
        return Err(PacketizeError::TooManyChunks);
    }
    let ghost want = packetized(filename@, data@, sequence_id, chunk_size as nat);
    let mut packets: Vec<Packet> = Vec::new();
    let mut i: u64 = 0;
    let mut start: usize = 0;
    while i < count
        invariant
            0 < chunk_size <= MAX_CHUNK_SIZE,
            len == data@.len(),
            count == chunk_count(len as nat, chunk_size as nat),
            count <= 0x1_0000_0000,
            want == packetized(filename@, data@, sequence_id, chunk_size as nat),
            i <= count,
            i < count ==> start == i * chunk_size,
            start <= len,
            packets@.len() == i,
            forall|j: int| 0 <= j < i ==> (#[trigger] packets@[j])@ == want[j],
        decreases count - i,
    {
        let end = if len - start > chunk_size {
            start + chunk_size
        } else {
            len
        };
        proof {
            if len > 0 {
                lemma_chunk_bounds(len as nat, chunk_size as nat, (i + 1) as nat);
            }
            assert((i + 1) * chunk_size == i * chunk_size + chunk_size) by (nonlinear_arith);
        }
        let packet = Packet {
            filename: filename.to_owned(),
            bytes: slice_to_vec(slice_subrange(data, start, end)),
            sequence_id,
            index: i as u32,
            is_final: i == count - 1,
        };
        assert(packet@ == want[i as int]);
        packets.push(packet);
        start = end;
        i += 1;
    }
    let sequence = Sequence { packets };
    assert(sequence@ =~= want);
    proof {
        lemma_packetized_payload(filename@, data@, sequence_id, chunk_size as nat);
        lemma_packetized_chunks(filename@, data@, sequence_id, chunk_size as nat);
        lemma_packetized_complete(filename@, data@, sequence_id, chunk_size as nat);
        lemma_first_filename_uniform(sequence@, filename@);
    }
    Ok(sequence)
}

/// Where the base name of a path starts: behind its last `/`, or at the
/// front where it has none.
pub open spec fn base_name_start(path: Seq<char>) -> nat
    decreases path.len(),
{
    if path.len() == 0 {
        0
    } else if path.last() == '/' {
        path.len()
    } else {
        base_name_start(path.drop_last())
    }
}

/// The base name of a path: what follows its last `/`.
pub open spec fn base_name(path: Seq<char>) -> Seq<char> {
    path.subrange(base_name_start(path) as int, path.len() as int)
}

/// The base name is the longest tail of the path that holds no `/`.
pub proof fn lemma_base_name(path: Seq<char>)
    ensures
        base_name_start(path) <= path.len(),
        forall|i: int| base_name_start(path) <= i < path.len() ==> path[i] != '/',
        base_name_start(path) > 0 ==> path[base_name_start(path) - 1] == '/',
    decreases path.len(),
{
    if path.len() > 0 && path.last() != '/' {
        let head = path.drop_last();
        lemma_base_name(head);
        assert forall|i: int| base_name_start(path) <= i < path.len() implies path[i] != '/' by {
            if i < head.len() {
                assert(head[i] == path[i]);
            }
        }
        if base_name_start(path) > 0 {
            assert(head[base_name_start(path) - 1] == path[base_name_start(path) - 1]);
        }
    }
}

/// The base name of `path`.
pub fn base_name_of(path: &str) -> (name: String)
    ensures
        name@ == base_name(path@),
        forall|i: int| 0 <= i < name@.len() ==> name@[i] != '/',
{
    proof {
        lemma_base_name(path@);
    }
    let len = path.unicode_len();
    let mut start: usize = len;
    assert(path@.subrange(0, len as int) =~= path@);
    while start > 0 && path.get_char(start - 1) != '/'
        invariant
            start <= len == path@.len(),
            base_name_start(path@) == base_name_start(path@.subrange(0, start as int)),
        decreases start,
    {
        let ghost head = path@.subrange(0, start as int);
        assert(head.last() == path@[start - 1]);
        assert(head.drop_last() =~= path@.subrange(0, start - 1));
        start -= 1;
    }
    proof {
        let head = path@.subrange(0, start as int);
        if start > 0 {
            assert(head.last() == path@[start - 1]);
        }
        assert(base_name_start(head) == start);
    }
    path.substring_char(start, len).to_owned()
}

/// The transfer of a file: the packets that carry `contents` in chunks of
/// at most `MAX_CHUNK_SIZE` bytes under the transfer id `sequence_id`, each
/// stamped with the base name of `path`.
pub fn build_sequence_from_file(path: &str, contents: &[u8], sequence_id: u64) -> (r: Result<
    Sequence,
    PacketizeError,
>)
    ensures
        match r {
            Ok(sequence) => {
                &&& chunk_count(contents@.len(), MAX_CHUNK_SIZE as nat) <= 0x1_0000_0000
                &&& sequence@ == packetized(
                    base_name(path@),
                    contents@,
                    sequence_id,
                    MAX_CHUNK_SIZE as nat,
                )
                &&& is_complete(sequence@)
                &&& concat_payloads(sequence@) == contents@
                &&& first_filename(sequence@) == base_name(path@)
                &&& forall|i: int|
                    0 <= i < sequence@.len() ==> (#[trigger] sequence@[i]).bytes.len()
                        <= MAX_CHUNK_SIZE
            },
            Err(e) => {
                &&& e == PacketizeError::TooManyChunks
                &&& chunk_count(contents@.len(), MAX_CHUNK_SIZE as nat) > 0x1_0000_0000
            },
        },
{
    let name = base_name_of(path);
    packetize(name.as_str(), contents, sequence_id, MAX_CHUNK_SIZE)
}

/// What sending a transfer does next.
#[derive(Debug)]
pub enum SendStep {
    /// Hand this frame to the transport.
    Transmit(Vec<u8>),
    /// Every packet has been handed to the transport.
    Done,
    /// The next packet fits in no frame: the send is over, and the packets
    /// behind it are not sent.
    Fail(EncodeError),
}

/// What sending `sequence` does next once `sent` of its packets have been
/// handed to the transport: the packets go out in the order held, one frame
/// each, and the send ends at the first packet that fits in no frame.
pub fn next_to_send(sequence: &Sequence, sent: usize) -> (step: SendStep)
    ensures
        match step {
            SendStep::Transmit(frame) => {
                &&& sent < sequence@.len()
                &&& encodable(sequence@[sent as int])
                &&& frame@ == frame_of(sequence@[sent as int])
            },
            SendStep::Done => sent >= sequence@.len(),
            SendStep::Fail(e) => {
                &&& sent < sequence@.len()
                &&& !encodable(sequence@[sent as int])
                &&& e == if encode_utf8(sequence@[sent as int].filename).len()
                    > MAX_FILENAME_LEN {
                    EncodeError::NameTooLong
                } else {
                    EncodeError::PayloadTooLarge
                }
            },
        },
{
    if sent >= sequence.packets.len() {
        return SendStep::Done;
    }
    match encode(&sequence.packets[sent]) {
        Ok(frame) => SendStep::Transmit(frame),
        Err(e) => SendStep::Fail(e),
    }
}

} // verus!
