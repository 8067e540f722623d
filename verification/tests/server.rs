use adrnaln_cli::client::packetize;
use adrnaln_cli::reassembly::IDLE_WINDOW;
use adrnaln_cli::server::{Action, Event, Server};
use adrnaln_cli::wire::encode;

fn frames(name: &str, data: &[u8], id: u64) -> Vec<Vec<u8>> {
    packetize(name, data, id, 4).unwrap().packets.iter().map(|p| encode(p).unwrap()).collect()
}

#[test]
fn frames_in_the_order_two_zero_one_hand_over_the_file() {
    let frames = frames("hello.txt", b"HELLOWORLD", 7);
    let mut server = Server::new();
    server.on_datagram(&frames[2], 0);
    assert_eq!(server.next_action(), Action::Receive);
    server.on_datagram(&frames[0], 1);
    assert_eq!(server.next_action(), Action::Receive);
    assert!(server.take_delivery().is_none());
    server.on_datagram(&frames[1], 2);
    assert_eq!(server.next_action(), Action::Deliver);
    let sequence = server.take_delivery().unwrap();
    assert_eq!(sequence.payload(), b"HELLOWORLD".to_vec());
    assert_eq!(sequence.file_name(), "hello.txt");
    assert_eq!(sequence.packets.len(), 3);
    assert!(sequence.packets[2].is_final);
    assert!(sequence.is_complete());
    assert_eq!(server.next_action(), Action::Receive);
    assert!(server.take_delivery().is_none());
}

#[test]
fn a_malformed_frame_is_dropped_and_harms_no_transfer() {
    let frames = frames("hello.txt", b"HELLOWORLD", 7);
    let mut server = Server::new();
    server.on_datagram(&frames[0], 0);
    server.on_datagram(&frames[1][..10], 0);
    server.on_datagram(&[], 0);
    let mut corrupted = frames[1].clone();
    corrupted[12] = 9;
    server.on_datagram(&corrupted, 0);
    server.on_datagram(&[0xff; 64], 0);
    assert_eq!(server.next_action(), Action::Receive);
    assert!(server.reassembler().is_in_flight(7));
    server.on_datagram(&frames[1], 0);
    server.on_datagram(&frames[2], 0);
    assert_eq!(server.take_delivery().unwrap().payload(), b"HELLOWORLD".to_vec());
}

#[test]
fn a_malformed_frame_discards_no_idle_transfer() {
    let frames = frames("hello.txt", b"HELLOWORLD", 7);
    let mut server = Server::new();
    server.on_datagram(&frames[0], 0);
    server.on_datagram(&[1, 2, 3], 10 * IDLE_WINDOW);
    assert!(server.reassembler().is_in_flight(7));
}

#[test]
fn a_datagram_discards_the_transfers_that_are_idle() {
    let old = frames("old", b"AAAABBBB", 1);
    let new = frames("new", b"CCCC", 2);
    let mut server = Server::new();
    server.on_datagram(&old[0], 0);
    server.on_datagram(&new[0], IDLE_WINDOW + 1);
    assert_eq!(server.take_delivery().unwrap().payload(), b"CCCC".to_vec());
    assert!(server.reassembler().is_closed(1));
    server.on_datagram(&old[1], IDLE_WINDOW + 2);
    assert!(server.take_delivery().is_none());
}

#[test]
fn a_packet_that_comes_too_late_for_its_own_transfer_is_ignored() {
    let frames = frames("f", b"AAAABBBB", 1);
    let mut server = Server::new();
    server.on_datagram(&frames[0], 0);
    server.on_datagram(&frames[1], IDLE_WINDOW + 1);
    assert!(server.take_delivery().is_none());
    assert!(server.reassembler().is_closed(1));
}

#[test]
fn while_a_transfer_waits_to_be_handed_over_nothing_is_received() {
    let first = frames("first", b"AAAA", 1);
    let second = frames("second", b"BBBB", 2);
    let third = frames("third", b"CCCCDDDD", 3);
    let mut server = Server::new();
    server.on_datagram(&third[0], 0);
    server.on_datagram(&first[0], 0);
    assert_eq!(server.next_action(), Action::Deliver);
    server.on_datagram(&second[0], 1);
    server.on_datagram(&third[1], 1);
    server.on_tick(10 * IDLE_WINDOW);
    assert_eq!(server.next_action(), Action::Deliver);
    assert!(!server.reassembler().is_in_flight(2));
    assert!(!server.reassembler().is_closed(2));
    assert!(server.reassembler().is_in_flight(3));
    assert_eq!(server.take_delivery().unwrap().file_name(), "first");
    assert_eq!(server.next_action(), Action::Receive);
    server.on_datagram(&second[0], 2);
    assert_eq!(server.take_delivery().unwrap().file_name(), "second");
    server.on_datagram(&third[1], 3);
    assert_eq!(server.take_delivery().unwrap().payload(), b"CCCCDDDD".to_vec());
}

#[test]
fn after_cancel_nothing_is_handed_over() {
    let frames = frames("hello.txt", b"HELLOWORLD", 7);
    let mut server = Server::new();
    assert!(!server.is_stopped());
    server.on_datagram(&frames[0], 0);
    server.on_datagram(&frames[1], 0);
    server.cancel();
    assert!(server.is_stopped());
    assert_eq!(server.next_action(), Action::Stop);
    server.on_datagram(&frames[2], 0);
    server.on_datagram(&frames[2], 1);
    assert!(server.take_delivery().is_none());
    assert_eq!(server.next_action(), Action::Stop);
    assert!(server.reassembler().is_in_flight(7));
    assert!(!server.reassembler().is_closed(7));
    server.on_tick(10 * IDLE_WINDOW);
    assert!(server.reassembler().is_in_flight(7));
}

#[test]
fn cancel_drops_the_transfer_that_waits_to_be_handed_over() {
    let frames = frames("f", b"AAAA", 1);
    let mut server = Server::new();
    server.on_datagram(&frames[0], 0);
    assert_eq!(server.next_action(), Action::Deliver);
    server.cancel();
    assert_eq!(server.next_action(), Action::Stop);
    assert!(server.take_delivery().is_none());
}

#[test]
fn events_are_answered_with_what_to_do_next() {
    let frames = frames("hello.txt", b"HELLOWORLD", 7);
    let mut server = Server::new();
    assert_eq!(server.handle(Event::Datagram(frames[0].clone(), 0)), Action::Receive);
    assert_eq!(server.handle(Event::Datagram(vec![1, 2, 3], 0)), Action::Receive);
    assert_eq!(server.handle(Event::Tick(5)), Action::Receive);
    assert_eq!(server.handle(Event::Datagram(frames[2].clone(), 6)), Action::Receive);
    assert_eq!(server.handle(Event::Datagram(frames[1].clone(), 7)), Action::Deliver);
    assert_eq!(server.handle(Event::Tick(8)), Action::Deliver);
    assert_eq!(server.take_delivery().unwrap().payload(), b"HELLOWORLD".to_vec());
    assert_eq!(server.handle(Event::Tick(9)), Action::Receive);
    assert_eq!(server.handle(Event::Cancel), Action::Stop);
    assert_eq!(server.handle(Event::Datagram(frames[0].clone(), 10)), Action::Stop);
    assert_eq!(server.handle(Event::Tick(11)), Action::Stop);
    assert_eq!(server.handle(Event::Cancel), Action::Stop);
}

#[test]
fn a_tick_discards_the_idle_transfers() {
    let frames = frames("f", b"AAAABBBB", 3);
    let mut server = Server::new();
    server.on_datagram(&frames[0], 100);
    server.on_tick(100 + IDLE_WINDOW);
    assert!(server.reassembler().is_in_flight(3));
    server.on_tick(101 + IDLE_WINDOW);
    assert!(!server.reassembler().is_in_flight(3));
    assert!(server.reassembler().is_closed(3));
}
