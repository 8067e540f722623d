use adrnaln_cli::client::{
    base_name_of, build_sequence_from_file, next_to_send, packetize, PacketizeError, SendStep,
};
use adrnaln_cli::packet::{Packet, MAX_CHUNK_SIZE};
use adrnaln_cli::sequence::Sequence;
use adrnaln_cli::wire::{decode, EncodeError};

#[test]
fn ten_bytes_in_chunks_of_four_give_three_packets() {
    let sequence = packetize("hello.txt", b"HELLOWORLD", 7, 4).unwrap();
    assert_eq!(sequence.packets.len(), 3);
    let expected = vec![
        Packet {
            filename: "hello.txt".to_string(),
            bytes: b"HELL".to_vec(),
            sequence_id: 7,
            index: 0,
            is_final: false,
        },
        Packet {
            filename: "hello.txt".to_string(),
            bytes: b"OWOR".to_vec(),
            sequence_id: 7,
            index: 1,
            is_final: false,
        },
        Packet {
            filename: "hello.txt".to_string(),
            bytes: b"LD".to_vec(),
            sequence_id: 7,
            index: 2,
            is_final: true,
        },
    ];
    assert_eq!(sequence.packets, expected);
}

#[test]
fn empty_data_gives_one_empty_final_packet() {
    let sequence = packetize("empty", b"", 1, 4).unwrap();
    assert_eq!(sequence.packets.len(), 1);
    assert_eq!(sequence.packets[0].bytes, Vec::<u8>::new());
    assert_eq!(sequence.packets[0].index, 0);
    assert!(sequence.packets[0].is_final);
    assert_eq!(sequence.packets[0].filename, "empty");
    assert!(sequence.is_complete());
    assert_eq!(sequence.payload(), Vec::<u8>::new());
}

#[test]
fn data_of_exactly_one_chunk_gives_one_packet() {
    let sequence = packetize("f", b"ABCD", 1, 4).unwrap();
    assert_eq!(sequence.packets.len(), 1);
    assert_eq!(sequence.packets[0].bytes, b"ABCD".to_vec());
    assert!(sequence.packets[0].is_final);
}

#[test]
fn data_of_whole_chunks_has_no_empty_packet_at_the_end() {
    let sequence = packetize("f", b"ABCDEFGH", 1, 4).unwrap();
    assert_eq!(sequence.packets.len(), 2);
    assert_eq!(sequence.packets[1].bytes, b"EFGH".to_vec());
    assert!(!sequence.packets[0].is_final);
    assert!(sequence.packets[1].is_final);
}

#[test]
fn packetize_then_join_gives_the_data_back() {
    let data: Vec<u8> = (0..20_000u32).map(|i| (i % 251) as u8).collect();
    for chunk_size in [1usize, 2, 3, 7, 64, 4096, MAX_CHUNK_SIZE] {
        let sequence = packetize("blob.bin", &data, 99, chunk_size).unwrap();
        assert_eq!(sequence.payload(), data);
        assert!(sequence.is_complete());
    }
}

#[test]
fn no_packet_carries_more_than_a_chunk() {
    let data = vec![5u8; 3 * MAX_CHUNK_SIZE + 17];
    let sequence = build_sequence_from_file("/tmp/some/blob.bin", &data, 3).unwrap();
    assert_eq!(sequence.packets.len(), 4);
    for packet in &sequence.packets {
        assert!(packet.bytes.len() <= MAX_CHUNK_SIZE);
        assert_eq!(packet.filename, "blob.bin");
        assert_eq!(packet.sequence_id, 3);
    }
    assert_eq!(sequence.packets[3].bytes.len(), 17);
    assert_eq!(sequence.payload(), data);
}

#[test]
fn a_chunk_size_of_zero_is_refused() {
    assert_eq!(packetize("f", b"abc", 1, 0).unwrap_err(), PacketizeError::ChunkSize);
}

#[test]
fn a_chunk_size_over_the_maximum_is_refused() {
    assert_eq!(
        packetize("f", b"abc", 1, MAX_CHUNK_SIZE + 1).unwrap_err(),
        PacketizeError::ChunkSize
    );
    assert!(packetize("f", b"abc", 1, MAX_CHUNK_SIZE).is_ok());
}

#[test]
fn base_name_is_what_follows_the_last_slash() {
    assert_eq!(base_name_of("/var/data/report.pdf"), "report.pdf");
    assert_eq!(base_name_of("report.pdf"), "report.pdf");
    assert_eq!(base_name_of("dir/"), "");
    assert_eq!(base_name_of(""), "");
    assert_eq!(base_name_of("/"), "");
    assert_eq!(base_name_of("a/b/c"), "c");
    assert_eq!(base_name_of("données/été.txt"), "été.txt");
}

#[test]
fn build_sequence_stamps_the_base_name_and_the_id() {
    let sequence = build_sequence_from_file("images/arch.png", b"12345", 4242).unwrap();
    assert_eq!(
        sequence,
        Sequence {
            packets: vec![Packet {
                filename: "arch.png".to_string(),
                bytes: b"12345".to_vec(),
                sequence_id: 4242,
                index: 0,
                is_final: true,
            }],
        }
    );
}

#[test]
fn sending_goes_through_the_packets_in_order() {
    let sequence = packetize("f", b"HELLOWORLD", 7, 4).unwrap();
    let mut sent: usize = 0;
    let mut seen = Vec::new();
    loop {
        match next_to_send(&sequence, sent) {
            SendStep::Transmit(frame) => {
                seen.push(decode(&frame).unwrap());
                sent += 1;
            }
            SendStep::Done => break,
            SendStep::Fail(e) => panic!("unexpected failure: {:?}", e),
        }
    }
    assert_eq!(sent, 3);
    assert_eq!(seen, sequence.packets);
    assert!(matches!(next_to_send(&sequence, 17), SendStep::Done));
}

#[test]
fn sending_stops_at_a_packet_that_fits_in_no_frame() {
    let good = Packet {
        filename: "f".to_string(),
        bytes: vec![1, 2, 3],
        sequence_id: 1,
        index: 0,
        is_final: false,
    };
    let too_large = Packet {
        filename: "f".to_string(),
        bytes: vec![0; MAX_CHUNK_SIZE + 1],
        sequence_id: 1,
        index: 1,
        is_final: true,
    };
    let sequence = Sequence { packets: vec![good, too_large] };
    assert!(matches!(next_to_send(&sequence, 0), SendStep::Transmit(_)));
    assert!(matches!(
        next_to_send(&sequence, 1),
        SendStep::Fail(EncodeError::PayloadTooLarge)
    ));
}
