use adrnaln_cli::packet::Packet;
use adrnaln_cli::sequence::Sequence;

fn packet(name: &str, index: u32, bytes: &[u8], is_final: bool) -> Packet {
    Packet { filename: name.to_string(), bytes: bytes.to_vec(), sequence_id: 5, index, is_final }
}

#[test]
fn the_payload_is_the_chunks_in_the_order_held() {
    let sequence = Sequence {
        packets: vec![
            packet("a", 0, b"one ", false),
            packet("a", 1, b"", false),
            packet("a", 2, b"two", true),
        ],
    };
    assert_eq!(sequence.payload(), b"one two".to_vec());
    assert_eq!(sequence.packets[0].get_bytes_len(), 4);
}

#[test]
fn the_payload_of_no_packets_is_empty() {
    let sequence = Sequence { packets: vec![] };
    assert_eq!(sequence.payload(), Vec::<u8>::new());
    assert_eq!(sequence.file_name(), "");
    assert!(!sequence.is_complete());
}

#[test]
fn the_file_name_is_the_first_that_is_not_empty() {
    let sequence = Sequence {
        packets: vec![
            packet("", 0, b"x", false),
            packet("second", 1, b"y", false),
            packet("third", 2, b"z", true),
        ],
    };
    assert_eq!(sequence.file_name(), "second");
}

#[test]
fn the_file_name_is_empty_where_no_packet_has_one() {
    let sequence = Sequence { packets: vec![packet("", 0, b"x", true)] };
    assert_eq!(sequence.file_name(), "");
}

#[test]
fn a_transfer_with_a_gap_is_not_complete() {
    let sequence = Sequence {
        packets: vec![packet("a", 0, b"x", false), packet("a", 2, b"z", true)],
    };
    assert!(!sequence.is_complete());
}

#[test]
fn a_transfer_without_a_final_packet_is_not_complete() {
    let sequence = Sequence {
        packets: vec![packet("a", 0, b"x", false), packet("a", 1, b"y", false)],
    };
    assert!(!sequence.is_complete());
}

#[test]
fn a_transfer_with_an_early_final_packet_is_not_complete() {
    let sequence = Sequence {
        packets: vec![packet("a", 0, b"x", true), packet("a", 1, b"y", true)],
    };
    assert!(!sequence.is_complete());
}

#[test]
fn a_transfer_under_two_ids_is_not_complete() {
    let mut other = packet("a", 1, b"y", true);
    other.sequence_id = 6;
    let sequence = Sequence { packets: vec![packet("a", 0, b"x", false), other] };
    assert!(!sequence.is_complete());
}

#[test]
fn a_transfer_in_index_order_that_ends_in_a_final_packet_is_complete() {
    let sequence = Sequence {
        packets: vec![
            packet("a", 0, b"x", false),
            packet("a", 1, b"y", false),
            packet("a", 2, b"z", true),
        ],
    };
    assert!(sequence.is_complete());
}
