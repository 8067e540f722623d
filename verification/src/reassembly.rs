//! The receive path: packets collected by transfer and index until a
//! transfer is whole, and transfers that stay idle discarded.

use vstd::prelude::*;
use std::collections::BTreeMap;
use std::collections::BTreeSet;
use vstd::std_specs::iter::IteratorSpec;
use crate::packet::{Packet, PacketView};
use crate::sequence::{is_complete, Sequence};

verus! {

broadcast use vstd::std_specs::btree::group_btree_axioms;

/// Whether the packets held for a transfer end at index `f`: every index up
/// to `f` is present, the packet at `f` is marked final, and none before it
/// is.
pub open spec fn ready_at(packets: Map<u32, PacketView>, f: u32) -> bool {
    &&& forall|j: u32| j <= f ==> #[trigger] packets.contains_key(j)
    &&& packets[f].is_final
    &&& forall|j: u32| j < f ==> !(#[trigger] packets[j]).is_final
}

/// Whether the packets held for a transfer make up a whole transfer.
pub open spec fn is_ready(packets: Map<u32, PacketView>) -> bool {
    exists|f: u32| ready_at(packets, f)
}

/// The index at which a ready transfer ends.
pub open spec fn ready_index(packets: Map<u32, PacketView>) -> u32 {
    choose|f: u32| ready_at(packets, f)
}

/// The packets at the indices `0..=f`, in index order.
pub open spec fn assembled(packets: Map<u32, PacketView>, f: u32) -> Seq<PacketView> {
    Seq::new((f + 1) as nat, |i: int| packets[i as u32])
}

/// A transfer ends at one index at most.
pub proof fn lemma_ready_at_unique(packets: Map<u32, PacketView>, f: u32, g: u32)
    requires
        ready_at(packets, f),
        ready_at(packets, g),
    ensures
        f == g,
{
    if f < g {
        assert(!packets[f].is_final);
    } else if g < f {
        assert(!packets[g].is_final);
    }
}

/// The packets received so far for one transfer, by index.
struct Transfer {
    packets: BTreeMap<u32, Packet>,
    last_seen: u64,
}

/// The mathematical value of a [`Transfer`].
pub struct TransferView {
    pub packets: Map<u32, PacketView>,
    pub last_seen: u64,
}

impl View for Transfer {
    type V = TransferView;

    closed spec fn view(&self) -> TransferView {
        TransferView {
            packets: self.packets@.map_values(|p: Packet| p@),
            last_seen: self.last_seen,
        }
    }
}

impl Transfer {
    fn new(now: u64) -> (t: Transfer)
        ensures
            t@ == (TransferView { packets: Map::empty(), last_seen: now }),
    {
        let t = Transfer { packets: BTreeMap::new(), last_seen: now };
        assert(t@.packets =~= Map::empty());
        t
    }

    fn insert(&mut self, packet: Packet, now: u64)
        ensures
            final(self)@ == (TransferView {
                packets: old(self)@.packets.insert(packet@.index, packet@),
                last_seen: now,
            }),
    {
        let ghost p = packet@;
        self.packets.insert(packet.index, packet);
        self.last_seen = now;
        assert(self@.packets =~= old(self)@.packets.insert(p.index, p));
    }

    fn ready_index(&self) -> (r: Option<u32>)
        ensures
            match r {
                Some(f) => ready_at(self@.packets, f),
                None => !is_ready(self@.packets),
            },
    {
        let mut k: u32 = 0;
        loop
            invariant
                forall|j: u32| j < k ==> #[trigger] self@.packets.contains_key(j),
                forall|j: u32| j < k ==> !(#[trigger] self@.packets[j]).is_final,
            decreases u32::MAX - k,
        {
            match self.packets.get(&k) {
                None => {
                    assert(!self@.packets.contains_key(k));
                    assert forall|f: u32| !ready_at(self@.packets, f) by {
                        if ready_at(self@.packets, f) {
                            if f < k {
                                assert(!self@.packets[f].is_final);
                            } else {
                                assert(self@.packets.contains_key(k));
                            }
                        }
                    }
                    return None;
                },
                Some(p) => {
                    assert(self@.packets.contains_key(k));
                    assert(self@.packets[k] == p@);
                    if p.is_final {
                        return Some(k);
                    }
                    if k == u32::MAX {
                        assert forall|f: u32| !ready_at(self@.packets, f) by {
                            if ready_at(self@.packets, f) {
                                assert(!self@.packets[f].is_final);
                            }
                        }
                        return None;
                    }
                    k += 1;
                },
            }
        }
    }

    /// Takes the packets at the indices `0..=f` out, in index order.
    fn into_sequence(self, f: u32) -> (sequence: Sequence)
        requires
            forall|j: u32| j <= f ==> #[trigger] self@.packets.contains_key(j),
        ensures
            sequence@ == assembled(self@.packets, f),
    {
        let ghost held = self@.packets;
        let mut packets = self.packets;
        let mut out: Vec<Packet> = Vec::new();
        let end: u64 = f as u64 + 1;
        let mut k: u64 = 0;
        assert forall|j: u32| j <= f implies #[trigger] packets@.contains_key(j) && packets@[j]@
            == held[j] by {
            assert(held.contains_key(j));
        }
        while k < end
            invariant
                end == f + 1,
                k <= end,
                out@.len() == k,
                forall|j: u32| j <= f ==> #[trigger] held.contains_key(j),
                forall|i: int| 0 <= i < k ==> (#[trigger] out@[i])@ == held[i as u32],
                forall|j: u32|
                    k <= j <= f ==> #[trigger] packets@.contains_key(j) && packets@[j]@
                        == held[j],
            decreases end - k,
        {
            let key: u32 = k as u32;
            assert(packets@.contains_key(key));
            match packets.remove(&key) {
                Some(p) => {
                    out.push(p);
                },
                None => {},
            }
            k += 1;
        }
        let sequence = Sequence { packets: out };
        assert(sequence@ =~= assembled(held, f));
        sequence
    }
}

/// The mathematical value of a [`Reassembler`]: the transfers in flight by
/// transfer id, and the ids of the transfers that are closed, delivered or
/// discarded.
pub struct ReassemblerView {
    pub in_flight: Map<u64, TransferView>,
    pub closed: Set<u64>,
}

/// The packets held for the transfer of `p` once `p` has been put in: a
/// packet at an index that is already held replaces the one held.
pub open spec fn held_after(s: ReassemblerView, p: PacketView) -> Map<u32, PacketView> {
    let before = if s.in_flight.contains_key(p.sequence_id) {
        s.in_flight[p.sequence_id].packets
    } else {
        Map::empty()
    };
    before.insert(p.index, p)
}

/// What receiving `p` delivers: nothing for a closed transfer or one that is
/// still short of packets, else the whole transfer in index order.
pub open spec fn delivered(s: ReassemblerView, p: PacketView) -> Option<Seq<PacketView>> {
    let held = held_after(s, p);
    if s.closed.contains(p.sequence_id) || !is_ready(held) {
        None
    } else {
        Some(assembled(held, ready_index(held)))
    }
}

/// The state after receiving `p` at time `now`.
pub open spec fn after_receive(s: ReassemblerView, p: PacketView, now: u64) -> ReassemblerView {
    let held = held_after(s, p);
    if s.closed.contains(p.sequence_id) {
        s
    } else if is_ready(held) {
        ReassemblerView {
            in_flight: s.in_flight.remove(p.sequence_id),
            closed: s.closed.insert(p.sequence_id),
        }
    } else {
        ReassemblerView {
            in_flight: s.in_flight.insert(
                p.sequence_id,
                TransferView { packets: held, last_seen: now },
            ),
            closed: s.closed,
        }
    }
}

/// The packets of a transfer in flight sit at their own index, carry the
/// transfer's id, and do not yet make up a whole transfer.
pub open spec fn transfer_well_formed(id: u64, t: TransferView) -> bool {
    &&& forall|k: u32| #[trigger]
        t.packets.contains_key(k) ==> t.packets[k].index == k && t.packets[k].sequence_id == id
    &&& !is_ready(t.packets)
}

/// No transfer is both in flight and closed, and each transfer in flight is
/// well formed.
pub open spec fn well_formed(s: ReassemblerView) -> bool {
    forall|id: u64| #[trigger]
        s.in_flight.contains_key(id) ==> !s.closed.contains(id) && transfer_well_formed(
            id,
            s.in_flight[id],
        )
}

/// How long, in the host's clock units, a transfer may go without a new
/// packet before it is discarded. The host's clock counts milliseconds, so
/// this is thirty seconds.
pub const IDLE_WINDOW: u64 = 30_000;

/// Whether a transfer has gone without a new packet for longer than the
/// idle window at time `now`.
pub open spec fn is_idle(t: TransferView, now: u64) -> bool {
    now - t.last_seen > IDLE_WINDOW
}

/// The transfers in flight that are idle at time `now`.
pub open spec fn idle_ids(s: ReassemblerView, now: u64) -> Set<u64> {
    Set::new(|id: u64| s.in_flight.contains_key(id) && is_idle(s.in_flight[id], now))
}

/// The state after the idle transfers have been discarded at time `now`:
/// they leave the transfers in flight and are closed.
pub open spec fn after_evict(s: ReassemblerView, now: u64) -> ReassemblerView {
    ReassemblerView {
        in_flight: s.in_flight.remove_keys(idle_ids(s, now)),
        closed: s.closed.union(idle_ids(s, now)),
    }
}

/// The state with nothing in flight and nothing closed.
pub open spec fn empty_state() -> ReassemblerView {
    ReassemblerView { in_flight: Map::empty(), closed: Set::empty() }
}

/// Receiving a packet keeps the state well formed, and what it delivers is a
/// complete transfer: the indices `0..N-1` once each and in order, under one
/// transfer id, with exactly the last packet marked final.
pub proof fn lemma_receive_well_formed(s: ReassemblerView, p: PacketView, now: u64)
    requires
        well_formed(s),
    ensures
        well_formed(after_receive(s, p, now)),
        delivered(s, p) matches Some(sequence) ==> is_complete(sequence),
        delivered(s, p) matches Some(sequence) ==> sequence[0].sequence_id == p.sequence_id,
{
    let id = p.sequence_id;
    let held = held_after(s, p);
    let next = after_receive(s, p, now);
    assert forall|k: u32| #[trigger] held.contains_key(k) implies held[k].index == k
        && held[k].sequence_id == id by {
        if k != p.index {
            assert(s.in_flight.contains_key(id));
            assert(s.in_flight[id].packets.contains_key(k));
        }
    }
    if !s.closed.contains(id) {
        if is_ready(held) {
            let f = ready_index(held);
            let sequence = assembled(held, f);
            assert forall|i: int| 0 <= i < sequence.len() implies {
                &&& (#[trigger] sequence[i]).index == i
                &&& sequence[i].sequence_id == sequence[0].sequence_id
                &&& (sequence[i].is_final <==> i == sequence.len() - 1)
            } by {
                assert(held.contains_key(i as u32));
                assert(held.contains_key(0u32));
                if i < f {
                    assert(!held[i as u32].is_final);
                }
            }
            assert(held.contains_key(0u32));
        } else {
            assert forall|other: u64| #[trigger]
                next.in_flight.contains_key(other) implies !next.closed.contains(other)
                && transfer_well_formed(other, next.in_flight[other]) by {
                if other != id {
                    assert(s.in_flight.contains_key(other));
                }
            }
        }
    }
}

/// Discarding the idle transfers keeps the state well formed.
pub proof fn lemma_evict_well_formed(s: ReassemblerView, now: u64)
    requires
        well_formed(s),
    ensures
        well_formed(after_evict(s, now)),
{
    let next = after_evict(s, now);
    assert forall|id: u64| #[trigger] next.in_flight.contains_key(id) implies !next.closed.contains(
        id,
    ) && transfer_well_formed(id, next.in_flight[id]) by {
        assert(s.in_flight.contains_key(id));
    }
}

/// A packet that is already held changes nothing but the time at which its
/// transfer was last seen, and delivers nothing: duplicates are harmless.
pub proof fn lemma_duplicate_ignored(s: ReassemblerView, p: PacketView, now: u64)
    requires
        well_formed(s),
        s.in_flight.contains_key(p.sequence_id),
        s.in_flight[p.sequence_id].packets.contains_key(p.index),
        s.in_flight[p.sequence_id].packets[p.index] == p,
    ensures
        delivered(s, p) is None,
        after_receive(s, p, now) == (ReassemblerView {
            in_flight: s.in_flight.insert(
                p.sequence_id,
                TransferView { packets: s.in_flight[p.sequence_id].packets, last_seen: now },
            ),
            closed: s.closed,
        }),
{
    assert(held_after(s, p) =~= s.in_flight[p.sequence_id].packets);
}

/// Receiving the same packet twice in a row delivers nothing the second
/// time, and leaves the state that receiving it once at the later time
/// leaves.
pub proof fn lemma_receive_twice(s: ReassemblerView, p: PacketView, first: u64, second: u64)
    ensures
        delivered(after_receive(s, p, first), p) is None,
        after_receive(after_receive(s, p, first), p, second) == after_receive(s, p, second),
{
    let once = after_receive(s, p, first);
    let held = held_after(s, p);
    if !s.closed.contains(p.sequence_id) && !is_ready(held) {
        assert(held_after(once, p) =~= held);
        assert(once.in_flight.insert(
            p.sequence_id,
            TransferView { packets: held, last_seen: second },
        ) =~= s.in_flight.insert(
            p.sequence_id,
            TransferView { packets: held, last_seen: second },
        ));
    }
}

/// A packet touches no transfer but its own.
pub proof fn lemma_receive_leaves_others(s: ReassemblerView, p: PacketView, now: u64, other: u64)
    requires
        other != p.sequence_id,
    ensures
        after_receive(s, p, now).in_flight.contains_key(other) == s.in_flight.contains_key(other),
        s.in_flight.contains_key(other) ==> after_receive(s, p, now).in_flight[other]
            == s.in_flight[other],
        after_receive(s, p, now).closed.contains(other) == s.closed.contains(other),
{
}

/// Collects the packets that arrive, in any order, into whole transfers.
/// The ids of the closed transfers are remembered for as long as the
/// reassembler lives, so that a stray packet never opens one again.
pub struct Reassembler {
    in_flight: BTreeMap<u64, Transfer>,
    closed: BTreeSet<u64>,
}

impl View for Reassembler {
    type V = ReassemblerView;

    closed spec fn view(&self) -> ReassemblerView {
        ReassemblerView {
            in_flight: self.in_flight@.map_values(|t: Transfer| t@),
            closed: self.closed@,
        }
    }
}

impl Reassembler {
    /// The invariant of a reassembler: its state is well formed.
    pub open spec fn wf(&self) -> bool {
        well_formed(self@)
    }

    /// A reassembler that has seen no packet.
    pub fn new() -> (r: Reassembler)
        ensures
            r@ == empty_state(),
            r.wf(),
    {
        let r = Reassembler { in_flight: BTreeMap::new(), closed: BTreeSet::new() };
        assert(r@.in_flight =~= Map::empty());
        r
    }

    /// Whether the transfer `id` is closed: delivered or discarded.
    pub fn is_closed(&self, id: u64) -> (closed: bool)
        ensures
            closed == self@.closed.contains(id),
    {
        self.closed.contains(&id)
    }

    /// Whether packets of the transfer `id` are held.
    pub fn is_in_flight(&self, id: u64) -> (held: bool)
        ensures
            held == self@.in_flight.contains_key(id),
    {
        self.in_flight.contains_key(&id)
    }

    /// Takes one packet in at time `now`, and hands out its transfer where
    /// the packet makes it whole. A packet of a closed transfer is ignored.
    pub fn receive(&mut self, packet: Packet, now: u64) -> (out: Option<Sequence>)
        requires
            old(self).wf(),
        ensures
            final(self).wf(),
            final(self)@ == after_receive(old(self)@, packet@, now),
            match out {
                Some(sequence) => delivered(old(self)@, packet@) == Some(sequence@)
                    && is_complete(sequence@),
                None => delivered(old(self)@, packet@) is None,
            },
    {
        let id = packet.sequence_id;
        let ghost p = packet@;
        let ghost before = self@;
        proof {
            lemma_receive_well_formed(before, p, now);
        }
        if self.closed.contains(&id) {
            return None;
        }
        let mut transfer = match self.in_flight.remove(&id) {
            Some(t) => t,
            None => Transfer::new(now),
        };
        transfer.insert(packet, now);
        assert(transfer@.packets == held_after(before, p));
        match transfer.ready_index() {
            Some(f) => {
                proof {
                    let held = transfer@.packets;
                    lemma_ready_at_unique(held, f, ready_index(held));
                }
                self.closed.insert(id);
                assert(self@.in_flight =~= before.in_flight.remove(id));
                Some(transfer.into_sequence(f))
            },
            None => {
                let ghost t = transfer@;
                self.in_flight.insert(id, transfer);
                assert(self@.in_flight =~= before.in_flight.insert(id, t));
                None
            },
        }
    }

    /// The ids of the transfers in flight that are idle at time `now`.
    fn idle(&self, now: u64) -> (ids: Vec<u64>)
        ensures
            ids@.to_set() == idle_ids(self@, now),
            ids@.no_duplicates(),
    {
        let mut ids: Vec<u64> = Vec::new();
        let ghost keys = self.in_flight.keys().remaining();
        let ghost mut at: Seq<int> = Seq::empty();
        for id in it: self.in_flight.keys()
            invariant
                it.seq() == keys,
                keys.unref().to_set() == self.in_flight@.dom(),
                keys.no_duplicates(),
                ids@.no_duplicates(),
                at.len() == ids@.len(),
                forall|j: int|
                    0 <= j < ids@.len() ==> 0 <= #[trigger] at[j] < it.index() && *keys[at[j]]
                        == ids@[j],
                forall|j: int|
                    0 <= j < ids@.len() ==> idle_ids(self@, now).contains(#[trigger] ids@[j]),
                forall|i: int|
                    0 <= i < it.index() && idle_ids(self@, now).contains(*it.seq()[i])
                        ==> ids@.contains(*it.seq()[i]),
        {
            let ghost found = ids@;
            match self.in_flight.get(id) {
                Some(t) => {
                    if now > t.last_seen && now - t.last_seen > IDLE_WINDOW {
                        ids.push(*id);
                    }
                },
                None => {},
            }
            proof {
                if ids@.len() > found.len() {
                    at = at.push(it.index());
                }
                assert forall|a: int, b: int|
                    0 <= a < ids@.len() && 0 <= b < ids@.len() && a != b implies ids@[a]
                    != ids@[b] by {
                    if a < found.len() && b < found.len() {
                        assert(found[a] != found[b]);
                    } else {
                        assert(keys[at[a]] != keys[at[b]]);
                    }
                }
                assert forall|i: int|
                    0 <= i < it.index() + 1 && idle_ids(self@, now).contains(
                        *it.seq()[i],
                    ) implies ids@.contains(*it.seq()[i]) by {
                    if i < it.index() {
                        let j = choose|j: int| 0 <= j < found.len() && found[j] == *it.seq()[i];
                        assert(ids@[j] == *it.seq()[i]);
                    } else {
                        assert(ids@[ids@.len() - 1] == *id);
                    }
                }
            }
        }
        proof {
            assert forall|id: u64| idle_ids(self@, now).contains(id) implies ids@.to_set().contains(
                id,
            ) by {
                assert(keys.unref().to_set().contains(id));
                let i = choose|i: int| 0 <= i < keys.len() && keys.unref()[i] == id;
                assert(*keys[i] == id);
            }
            assert(ids@.to_set() =~= idle_ids(self@, now));
        }
        ids
    }

    /// Discards every transfer in flight that has gone without a new packet
    /// for longer than the idle window at time `now`, and returns the ids of
    /// the transfers discarded. A discarded transfer is closed: its packets
    /// are dropped, and packets that arrive for it later are ignored.
    pub fn evict_idle(&mut self, now: u64) -> (evicted: Vec<u64>)
        requires
            old(self).wf(),
        ensures
            final(self).wf(),
            final(self)@ == after_evict(old(self)@, now),
            evicted@.to_set() == idle_ids(old(self)@, now),
            evicted@.no_duplicates(),
    {
        let ghost before = self@;
        let ids = self.idle(now);
        let mut i: usize = 0;
        proof {
            assert(ids@.subrange(0, 0).to_set() =~= Set::empty());
            assert(before.in_flight.remove_keys(Set::empty()) =~= before.in_flight);
            assert(before.closed.union(Set::empty()) =~= before.closed);
        }
        while i < ids.len()
            invariant
                i <= ids.len(),
                self@.in_flight == before.in_flight.remove_keys(
                    ids@.subrange(0, i as int).to_set(),
                ),
                self@.closed == before.closed.union(ids@.subrange(0, i as int).to_set()),
            decreases ids.len() - i,
        {
            let id = ids[i];
            let ghost done = ids@.subrange(0, i as int).to_set();
            let ghost prev = self@.in_flight;
            self.in_flight.remove(&id);
            assert(self@.in_flight =~= prev.remove(id));
            self.closed.insert(id);
            proof {
                assert(ids@.subrange(0, i + 1) =~= ids@.subrange(0, i as int).push(id));
                ids@.subrange(0, i as int).lemma_push_to_set_commute(id);
                assert(prev.remove(id) =~= before.in_flight.remove_keys(done.insert(id)));
                assert(self@.closed =~= before.closed.union(done.insert(id)));
            }
            i += 1;
        }
        proof {
            assert(ids@.subrange(0, i as int) =~= ids@);
            lemma_evict_well_formed(before, now);
        }
        ids
    }
}

} // verus!
