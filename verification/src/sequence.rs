//! The sequence: the packets of one file transfer, and the file they carry.

use vstd::prelude::*;
use crate::packet::{Packet, PacketView};

verus! {

/// The packets of one file transfer, in the order in which they are held.
#[derive(Debug, Clone, PartialEq, Eq)]
pub struct Sequence {
    pub packets: Vec<Packet>,
}

impl View for Sequence {
    type V = Seq<PacketView>;

    open spec fn view(&self) -> Seq<PacketView> {
        self.packets@.map_values(|p: Packet| p@)
    }
}

/// The payloads of `packets`, one after the other in the order given.
pub open spec fn concat_payloads(packets: Seq<PacketView>) -> Seq<u8>
    decreases packets.len(),
{
    if packets.len() == 0 {
        Seq::empty()
    } else {
        concat_payloads(packets.drop_last()) + packets.last().bytes
    }
}

/// The filename of the first packet that carries a non-empty one, or the
/// empty name where no packet does.
pub open spec fn first_filename(packets: Seq<PacketView>) -> Seq<char>
    decreases packets.len(),
{
    if packets.len() == 0 {
        Seq::empty()
    } else if packets[0].filename.len() > 0 {
        packets[0].filename
    } else {
        first_filename(packets.subrange(1, packets.len() as int))
    }
}

/// A transfer is complete when it holds the indices `0..N-1` once each and
/// in order, all under one transfer id, and exactly its last packet is
/// marked final.
pub open spec fn is_complete(packets: Seq<PacketView>) -> bool {
    &&& packets.len() > 0
    &&& forall|i: int|
        0 <= i < packets.len() ==> {
            &&& (#[trigger] packets[i]).index == i
            &&& packets[i].sequence_id == packets[0].sequence_id
            &&& (packets[i].is_final <==> i == packets.len() - 1)
        }
}

/// Adding a packet at the end adds its payload at the end.
pub proof fn lemma_concat_payloads_push(packets: Seq<PacketView>, p: PacketView)
    ensures
        concat_payloads(packets.push(p)) == concat_payloads(packets) + p.bytes,
{
    assert(packets.push(p).drop_last() =~= packets);
}

/// Where every packet carries the same filename, that is the first
/// filename.
pub proof fn lemma_first_filename_uniform(packets: Seq<PacketView>, filename: Seq<char>)
    requires
        packets.len() > 0,
        forall|i: int| 0 <= i < packets.len() ==> (#[trigger] packets[i]).filename == filename,
    ensures
        first_filename(packets) == filename,
    decreases packets.len(),
{
    if filename.len() == 0 {
        let rest = packets.subrange(1, packets.len() as int);
        if rest.len() > 0 {
            assert forall|i: int| 0 <= i < rest.len() implies (#[trigger] rest[i]).filename
                == filename by {
                assert(rest[i] == packets[i + 1]);
            }
            lemma_first_filename_uniform(rest, filename);
        } else {
            assert(first_filename(rest) =~= filename);
        }
    }
}

impl Sequence {
    /// The bytes of the transferred file: every packet's payload, in order.
    pub fn payload(&self) -> (bytes: Vec<u8>)
        ensures
            bytes@ == concat_payloads(self@),
    {
        let mut bytes: Vec<u8> = Vec::new();
        let mut i: usize = 0;
        while i < self.packets.len()
            invariant
                i <= self.packets.len(),
                bytes@ == concat_payloads(self@.subrange(0, i as int)),
            decreases self.packets.len() - i,
        {
            proof {
                lemma_concat_payloads_push(self@.subrange(0, i as int), self@[i as int]);
                assert(self@.subrange(0, i as int).push(self@[i as int]) =~= self@.subrange(
                    0,
                    i + 1,
                ));
            }
            bytes.extend_from_slice(self.packets[i].bytes.as_slice());
            i += 1;
        }
        proof {
            assert(self@.subrange(0, i as int) =~= self@);
        }
        bytes
    }

    /// The name to store the file under: that of the first packet, in the
    /// order held, whose filename is not empty. Empty where there is none.
    pub fn file_name(&self) -> (name: String)
        ensures
            name@ == first_filename(self@),
    {
        let mut i: usize = 0;
        assert(self@.subrange(0, self@.len() as int) =~= self@);
        while i < self.packets.len()
            invariant
                i <= self.packets.len(),
                first_filename(self@) == first_filename(
                    self@.subrange(i as int, self@.len() as int),
                ),
            decreases self.packets.len() - i,
        {
            let ghost rest = self@.subrange(i as int, self@.len() as int);
            assert(rest[0] == self@[i as int]);
            assert(rest.subrange(1, rest.len() as int) =~= self@.subrange(
                i + 1,
                self@.len() as int,
            ));
            if !self.packets[i].filename.as_str().is_empty() {
                return self.packets[i].filename.clone();
            }
            i += 1;
        }
        String::new()
    }

    /// Whether this is a complete transfer, ready to be stored.
    pub fn is_complete(&self) -> (complete: bool)
        ensures
            complete == is_complete(self@),
    {
        let n = self.packets.len();
        if n == 0 {
            return false;
        }
        let id = self.packets[0].sequence_id;
        let mut i: usize = 0;
        while i < n
            invariant
                n == self.packets.len(),
                n > 0,
                i <= n,
                id == self@[0].sequence_id,
                forall|j: int|
                    0 <= j < i ==> {
                        &&& (#[trigger] self@[j]).index == j
                        &&& self@[j].sequence_id == id
                        &&& (self@[j].is_final <==> j == n - 1)
                    },
            decreases n - i,
        {
            let p = &self.packets[i];
            assert(p@ == self@[i as int]);
            if i > u32::MAX as usize || p.index != i as u32 || p.sequence_id != id || p.is_final
                != (i == n - 1) {
                return false;
            }
            i += 1;
        }
        true
    }
}

} // verus!
