//! What a receiver delivers when the packets of a transfer arrive in any
//! order: the same transfer as when they arrive in order.

use vstd::prelude::*;
use vstd::seq_lib::{to_multiset_contains, to_multiset_len};
use crate::packet::PacketView;
use crate::reassembly::{
    after_receive, assembled, delivered, held_after, is_ready, lemma_ready_at_unique, ready_at,
    ready_index, ReassemblerView, TransferView,
};
use crate::client::{
    chunk_count, lemma_packetized_chunks, lemma_packetized_complete, lemma_packetized_payload,
    packetized,
};
use crate::sequence::{concat_payloads, first_filename, is_complete, lemma_first_filename_uniform};

verus! {

/// The state after the packets of `arrivals` have been received one after
/// the other, the `i`-th at time `times[i]`.
pub open spec fn after_all(s: ReassemblerView, arrivals: Seq<PacketView>, times: Seq<u64>)
    -> ReassemblerView
    recommends
        times.len() == arrivals.len(),
    decreases arrivals.len(),
{
    if arrivals.len() == 0 {
        s
    } else {
        after_receive(
            after_all(s, arrivals.drop_last(), times.drop_last()),
            arrivals.last(),
            times.last(),
        )
    }
}

/// The transfers delivered while the packets of `arrivals` are received one
/// after the other, in the order of their delivery.
pub open spec fn deliveries(s: ReassemblerView, arrivals: Seq<PacketView>, times: Seq<u64>) -> Seq<
    Seq<PacketView>,
>
    recommends
        times.len() == arrivals.len(),
    decreases arrivals.len(),
{
    if arrivals.len() == 0 {
        Seq::empty()
    } else {
        let earlier = deliveries(s, arrivals.drop_last(), times.drop_last());
        match delivered(
            after_all(s, arrivals.drop_last(), times.drop_last()),
            arrivals.last(),
        ) {
            Some(sequence) => earlier.push(sequence),
            None => earlier,
        }
    }
}

/// The packets held once `arrivals` have been put in one after the other.
pub open spec fn held_of(arrivals: Seq<PacketView>) -> Map<u32, PacketView>
    decreases arrivals.len(),
{
    if arrivals.len() == 0 {
        Map::empty()
    } else {
        held_of(arrivals.drop_last()).insert(arrivals.last().index, arrivals.last())
    }
}

/// Whether no two packets of `arrivals` share an index.
pub open spec fn distinct_indices(arrivals: Seq<PacketView>) -> bool {
    forall|i: int, j: int|
        0 <= i < j < arrivals.len() ==> (#[trigger] arrivals[i]).index != (
        #[trigger] arrivals[j]).index
}

/// With no index twice, what is held is each packet at its index.
proof fn lemma_held_of(arrivals: Seq<PacketView>)
    requires
        distinct_indices(arrivals),
    ensures
        forall|k: u32| #[trigger]
            held_of(arrivals).contains_key(k) <==> exists|j: int|
                0 <= j < arrivals.len() && (#[trigger] arrivals[j]).index == k,
        forall|j: int|
            0 <= j < arrivals.len() ==> held_of(arrivals)[(#[trigger] arrivals[j]).index]
                == arrivals[j],
    decreases arrivals.len(),
{
    if arrivals.len() > 0 {
        let head = arrivals.drop_last();
        let last = arrivals.last();
        assert forall|i: int, j: int| 0 <= i < j < head.len() implies (#[trigger] head[i]).index
            != (#[trigger] head[j]).index by {
            assert(head[i] == arrivals[i] && head[j] == arrivals[j]);
        }
        lemma_held_of(head);
        assert forall|k: u32| #[trigger]
            held_of(arrivals).contains_key(k) <==> exists|j: int|
                0 <= j < arrivals.len() && (#[trigger] arrivals[j]).index == k by {
            if held_of(arrivals).contains_key(k) {
                if k == last.index {
                    assert(arrivals[arrivals.len() - 1].index == k);
                } else {
                    assert(held_of(head).contains_key(k));
                    let j = choose|j: int| 0 <= j < head.len() && (#[trigger] head[j]).index == k;
                    assert(arrivals[j].index == k);
                }
            }
            if exists|j: int| 0 <= j < arrivals.len() && (#[trigger] arrivals[j]).index == k {
                let j = choose|j: int|
                    0 <= j < arrivals.len() && (#[trigger] arrivals[j]).index == k;
                if j < head.len() {
                    assert(head[j].index == k);
                    assert(held_of(head).contains_key(k));
                }
            }
        }
        assert forall|j: int| 0 <= j < arrivals.len() implies held_of(arrivals)[(
        #[trigger] arrivals[j]).index] == arrivals[j] by {
            if j < head.len() {
                assert(head[j] == arrivals[j]);
                assert(arrivals[j].index != arrivals[arrivals.len() - 1].index);
            }
        }
    }
}

/// What a rearrangement of a complete transfer is: as long as the transfer,
/// each of its packets the transfer's packet at that index, no index twice,
/// and every packet of the transfer among them.
proof fn lemma_rearranged(transfer: Seq<PacketView>, order: Seq<PacketView>)
    requires
        is_complete(transfer),
        order.to_multiset() == transfer.to_multiset(),
    ensures
        rearranges(transfer, order),
{
    to_multiset_len(order);
    to_multiset_len(transfer);
    assert forall|j: int| 0 <= j < order.len() implies (#[trigger] order[j]).index
        < transfer.len() && transfer[order[j].index as int] == order[j] by {
        to_multiset_contains(order, order[j]);
        to_multiset_contains(transfer, order[j]);
        assert(order.contains(order[j]));
        let i = choose|i: int| 0 <= i < transfer.len() && transfer[i] == order[j];
        assert(transfer[i].index == i);
    }
    assert forall|i: int| 0 <= i < transfer.len() implies order.contains(
        #[trigger] transfer[i],
    ) by {
        to_multiset_contains(order, transfer[i]);
        to_multiset_contains(transfer, transfer[i]);
        assert(transfer.contains(transfer[i]));
    }
    assert(transfer.no_duplicates()) by {
        assert forall|a: int, b: int|
            0 <= a < transfer.len() && 0 <= b < transfer.len() && a != b implies transfer[a]
            != transfer[b] by {
            assert(transfer[a].index == a && transfer[b].index == b);
        }
    }
    transfer.lemma_multiset_has_no_duplicates();
    order.lemma_multiset_has_no_duplicates_conv();
    assert forall|i: int, j: int| 0 <= i < j < order.len() implies (#[trigger] order[i]).index
        != (#[trigger] order[j]).index by {
        assert(order[i] != order[j]);
        assert(transfer[order[i].index as int] == order[i]);
        assert(transfer[order[j].index as int] == order[j]);
    }
}

/// Whether `order` holds the packets of the complete transfer `transfer`,
/// each once, in whatever order.
pub open spec fn rearranges(transfer: Seq<PacketView>, order: Seq<PacketView>) -> bool {
    &&& order.len() == transfer.len()
    &&& forall|j: int|
        0 <= j < order.len() ==> (#[trigger] order[j]).index < transfer.len()
            && transfer[order[j].index as int] == order[j]
    &&& distinct_indices(order)
    &&& forall|i: int| 0 <= i < transfer.len() ==> order.contains(#[trigger] transfer[i])
}

/// The first `k` packets of a rearrangement have no index twice.
proof fn lemma_prefix_distinct(order: Seq<PacketView>, k: int)
    requires
        distinct_indices(order),
        0 <= k <= order.len(),
    ensures
        distinct_indices(order.subrange(0, k)),
{
    let prefix = order.subrange(0, k);
    assert forall|i: int, j: int| 0 <= i < j < prefix.len() implies (#[trigger] prefix[i]).index
        != (#[trigger] prefix[j]).index by {
        assert(prefix[i] == order[i] && prefix[j] == order[j]);
    }
}

/// Short of one packet or more, a rearranged transfer is not ready.
proof fn lemma_not_ready(transfer: Seq<PacketView>, order: Seq<PacketView>, k: int)
    requires
        is_complete(transfer),
        rearranges(transfer, order),
        0 <= k < order.len(),
    ensures
        !is_ready(held_of(order.subrange(0, k))),
{
    let prefix = order.subrange(0, k);
    let held = held_of(prefix);
    lemma_prefix_distinct(order, k);
    lemma_held_of(prefix);
    assert forall|f: u32| !ready_at(held, f) by {
        if ready_at(held, f) {
            assert(held.contains_key(f));
            let j = choose|j: int| 0 <= j < prefix.len() && (#[trigger] prefix[j]).index == f;
            assert(prefix[j] == order[j]);
            assert(held[prefix[j].index] == prefix[j]);
            assert(transfer[f as int] == order[j]);
            assert(f == transfer.len() - 1);
            let missing = order[k].index;
            assert(held.contains_key(missing));
            let i = choose|i: int| 0 <= i < prefix.len() && (#[trigger] prefix[i]).index == missing;
            assert(prefix[i] == order[i]);
            assert(order[i].index != order[k].index);
        }
    }
}

/// While packets of a rearranged transfer are still to come, nothing is
/// delivered and the packets that came are held.
proof fn lemma_partial_arrival(
    s: ReassemblerView,
    transfer: Seq<PacketView>,
    order: Seq<PacketView>,
    times: Seq<u64>,
    k: int,
)
    requires
        is_complete(transfer),
        rearranges(transfer, order),
        times.len() == order.len(),
        !s.in_flight.contains_key(transfer[0].sequence_id),
        !s.closed.contains(transfer[0].sequence_id),
        0 <= k < order.len(),
    ensures
        deliveries(s, order.subrange(0, k), times.subrange(0, k)) == Seq::<
            Seq<PacketView>,
        >::empty(),
        after_all(s, order.subrange(0, k), times.subrange(0, k)) == if k == 0 {
            s
        } else {
            ReassemblerView {
                in_flight: s.in_flight.insert(
                    transfer[0].sequence_id,
                    TransferView { packets: held_of(order.subrange(0, k)), last_seen: times[k - 1] },
                ),
                closed: s.closed,
            }
        },
    decreases k,
{
    if k > 0 {
        let id = transfer[0].sequence_id;
        let prefix = order.subrange(0, k);
        let stamps = times.subrange(0, k);
        let p = order[k - 1];
        lemma_partial_arrival(s, transfer, order, times, k - 1);
        assert(prefix.drop_last() =~= order.subrange(0, k - 1));
        assert(stamps.drop_last() =~= times.subrange(0, k - 1));
        assert(prefix.last() == p);
        assert(stamps.last() == times[k - 1]);
        let before = after_all(s, order.subrange(0, k - 1), times.subrange(0, k - 1));
        assert(transfer[p.index as int] == p);
        assert(p.sequence_id == id);
        assert(held_after(before, p) =~= held_of(prefix));
        lemma_not_ready(transfer, order, k);
        let next = after_receive(before, p, times[k - 1]);
        assert(next.in_flight =~= s.in_flight.insert(
            id,
            TransferView { packets: held_of(prefix), last_seen: times[k - 1] },
        ));
    }
}

/// The packets of a complete transfer whose id is new to the receiver,
/// received in any order, deliver one transfer, with the last packet to
/// arrive, and it is the transfer in index order: the same as if they had
/// arrived in order. The transfer is then closed, and the rest of the state
/// is as before.
pub proof fn lemma_any_order_delivers(
    s: ReassemblerView,
    transfer: Seq<PacketView>,
    order: Seq<PacketView>,
    times: Seq<u64>,
)
    requires
        is_complete(transfer),
        order.to_multiset() == transfer.to_multiset(),
        times.len() == order.len(),
        !s.in_flight.contains_key(transfer[0].sequence_id),
        !s.closed.contains(transfer[0].sequence_id),
    ensures
        deliveries(s, order, times) == seq![transfer],
        after_all(s, order, times) == (ReassemblerView {
            in_flight: s.in_flight,
            closed: s.closed.insert(transfer[0].sequence_id),
        }),
{
    lemma_rearranged(transfer, order);
    let n = order.len() as int;
    let id = transfer[0].sequence_id;
    let p = order[n - 1];
    lemma_partial_arrival(s, transfer, order, times, n - 1);
    let before = after_all(s, order.drop_last(), times.drop_last());
    assert(order.drop_last() =~= order.subrange(0, n - 1));
    assert(times.drop_last() =~= times.subrange(0, n - 1));
    assert(transfer[p.index as int] == p);
    assert(p.sequence_id == id);
    let held = held_of(order);
    assert(held_after(before, p) =~= held);
    lemma_held_of(order);
    assert(transfer[n - 1].index == n - 1);
    let last: u32 = (n - 1) as u32;
    assert forall|i: int| 0 <= i < n implies held.contains_key(i as u32) && held[i as u32]
        == #[trigger] transfer[i] by {
        assert(order.contains(transfer[i]));
        let j = choose|j: int| 0 <= j < order.len() && order[j] == transfer[i];
        assert(order[j].index == i);
        assert(held[order[j].index] == order[j]);
    }
    assert(ready_at(held, last)) by {
        assert forall|j: u32| j <= last implies #[trigger] held.contains_key(j) by {
            assert(held[j as int as u32] == transfer[j as int]);
        }
        assert(held[last] == transfer[last as int]);
        assert forall|j: u32| j < last implies !(#[trigger] held[j]).is_final by {
            assert(held[j as int as u32] == transfer[j as int]);
        }
    }
    lemma_ready_at_unique(held, last, ready_index(held));
    assert(assembled(held, last) =~= transfer);
    let next = after_receive(before, p, times.last());
    assert(next.in_flight =~= s.in_flight);
    assert(deliveries(s, order, times) =~= seq![transfer]);
}

/// A file goes through whole: the packets that carry `data`, received in
/// any order by a receiver to which their transfer id is new, deliver one
/// transfer, whose payloads joined in index order are `data` and whose
/// filename is the one the packets were stamped with.
pub proof fn lemma_round_trip(
    s: ReassemblerView,
    filename: Seq<char>,
    data: Seq<u8>,
    id: u64,
    chunk: nat,
    order: Seq<PacketView>,
    times: Seq<u64>,
)
    requires
        chunk > 0,
        chunk_count(data.len(), chunk) <= 0x1_0000_0000,
        order.to_multiset() == packetized(filename, data, id, chunk).to_multiset(),
        times.len() == order.len(),
        !s.in_flight.contains_key(id),
        !s.closed.contains(id),
    ensures
        deliveries(s, order, times) == seq![packetized(filename, data, id, chunk)],
        concat_payloads(deliveries(s, order, times)[0]) == data,
        first_filename(deliveries(s, order, times)[0]) == filename,
{
    let transfer = packetized(filename, data, id, chunk);
    lemma_packetized_complete(filename, data, id, chunk);
    lemma_packetized_payload(filename, data, id, chunk);
    lemma_packetized_chunks(filename, data, id, chunk);
    lemma_first_filename_uniform(transfer, filename);
    lemma_any_order_delivers(s, transfer, order, times);
}

} // verus!
