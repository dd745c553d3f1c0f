use arq::packet::{
    decode_message, segment, total_packets, Packet, PacketState, ReadError, DATA_SIZE,
};

#[test]
fn empty_message_still_has_two_packets() {
    assert_eq!(total_packets(0), 2);
    let first = segment(&[], 0);
    let last = segment(&[], 1);
    assert_eq!(first.number, 0);
    assert_eq!(first.state, PacketState::Begin);
    assert!(first.data.is_empty());
    assert_eq!(last.number, 1);
    assert_eq!(last.state, PacketState::End);
    assert!(last.data.is_empty());
}

#[test]
fn packet_count_rounds_up_with_floor_of_two() {
    assert_eq!(total_packets(1), 2);
    assert_eq!(total_packets(DATA_SIZE), 2);
    assert_eq!(total_packets(2 * DATA_SIZE), 2);
    assert_eq!(total_packets(2 * DATA_SIZE + 1), 3);
    assert_eq!(total_packets(1000), 4);
}

#[test]
fn exactly_one_begin_and_one_end() {
    let bytes = vec![b'A'; 1000];
    let total = total_packets(bytes.len());
    let states: Vec<PacketState> = (0..total).map(|i| segment(&bytes, i).state).collect();
    assert_eq!(states.iter().filter(|s| **s == PacketState::Begin).count(), 1);
    assert_eq!(states.iter().filter(|s| **s == PacketState::End).count(), 1);
    assert_eq!(states[0], PacketState::Begin);
    assert_eq!(states[total - 1], PacketState::End);
    assert_eq!(states[1], PacketState::Ongoing);
}

#[test]
fn payloads_cover_the_message() {
    let bytes: Vec<u8> = (0..1000u32).map(|i| (i % 251) as u8).collect();
    let second = segment(&bytes, 1);
    assert_eq!(second.data, bytes[255..510].to_vec());
    let last = segment(&bytes, 3);
    assert_eq!(last.data.len(), 1000 - 765);
    assert_eq!(last.data, bytes[765..].to_vec());
    let mut joined = Vec::new();
    for i in 0..total_packets(bytes.len()) {
        joined.extend(segment(&bytes, i).data);
    }
    assert_eq!(joined, bytes);
}

#[test]
fn small_message_pads_with_an_empty_last_packet() {
    let bytes = b"test".to_vec();
    assert_eq!(segment(&bytes, 0).data, bytes);
    assert!(segment(&bytes, 1).data.is_empty());
}

#[test]
fn decoding_rejects_invalid_utf8() {
    assert_eq!(decode_message(vec![0xff, 0xfe]).unwrap_err(), ReadError::EncodingError);
    assert_eq!(decode_message("héllo".as_bytes().to_vec()).unwrap(), "héllo");
    assert_eq!(decode_message(Vec::new()).unwrap(), "");
}

#[test]
fn duplicate_keeps_every_field() {
    let p = Packet { number: 7, data: vec![1, 2, 3], state: PacketState::Ongoing };
    let q = p.duplicate();
    assert_eq!(q.number, 7);
    assert_eq!(q.data, vec![1, 2, 3]);
    assert_eq!(q.state, PacketState::Ongoing);
}
