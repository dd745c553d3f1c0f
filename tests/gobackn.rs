use arq::gobackn::{silent_setup_loss, Reader, Sender};
use arq::loss::{LossModel, LOSS_SCALE};
use arq::packet::{segment, Packet, PacketState, ReadError};

const MAX_ROUNDS: usize = 1_000_000;

fn sample_text() -> String {
    (0..200)
        .map(|i| format!("line {i}: the quick brown fox \u{2014} jumps over the lazy dog\n"))
        .collect()
}

fn setup(window_size: u32, message: String) -> String {
    silent_setup_loss(window_size, &message, &LossModel::lossless(), MAX_ROUNDS)
        .unwrap()
        .message
}

fn setup_loss(window_size: u32, message: String, loss: f64) -> String {
    let link = LossModel::new((loss * LOSS_SCALE as f64) as u32);
    silent_setup_loss(window_size, &message, &link, MAX_ROUNDS).unwrap().message
}

#[test]
fn test_gobackn_file() {
    let message_send = sample_text();
    let message_received = setup(3, message_send.clone());
    assert_eq!(message_send, message_received);
    let message_received = setup(1, message_send.clone());
    assert_eq!(message_send, message_received);
}

#[test]
fn test_gobackn_file_loss() {
    let message_send = sample_text();
    let message_received = setup_loss(3, message_send.clone(), 0.0);
    assert_eq!(message_send, message_received);
    let message_received = setup_loss(3, message_send.clone(), 0.25);
    assert_eq!(message_send, message_received);
}

#[test]
fn test_gobackn_small() {
    let message_send = String::from("test");
    let message_received = setup(5, message_send.clone());
    assert_eq!(message_send, message_received);
    let message_send = String::from("");
    let message_received = setup(5, message_send.clone());
    assert_eq!(message_send, message_received);
}

#[test]
fn gobackn_repeated_a_survives_loss() {
    let message = "A".repeat(1000);
    for loss in [0.0, 0.25, 0.5, 0.75] {
        let received = setup_loss(3, message.clone(), loss);
        assert_eq!(received.len(), 1000);
        assert_eq!(received, message);
    }
}

#[test]
fn gobackn_lossless_transfer_sends_each_packet_once() {
    let t = silent_setup_loss(3, &"A".repeat(1000), &LossModel::lossless(), 4).unwrap();
    assert_eq!(t.packets_total, 4);
    assert_eq!(t.packets_send, 4);
    assert_eq!(t.packets_resent, 0);
}

#[test]
fn gobackn_lossy_transfer_counts_retransmissions() {
    let link = LossModel::new(LOSS_SCALE / 2);
    let t = silent_setup_loss(3, &"A".repeat(1000), &link, MAX_ROUNDS).unwrap();
    assert_eq!(t.packets_send, t.packets_total + t.packets_resent);
    assert!(t.packets_total <= t.packets_send);
    if t.packets_resent > 0 {
        assert!(t.packets_total < t.packets_send);
    }
}

#[test]
fn gobackn_gives_up_after_the_round_budget() {
    let link = LossModel::new(LOSS_SCALE);
    let err = silent_setup_loss(3, "hello", &link, 10).unwrap_err();
    assert_eq!(err, arq::packet::TransferError::Send(arq::packet::SendError::TransferTimeout));
}

#[test]
fn gobackn_sender_slides_only_over_contiguous_acks() {
    let message = "A".repeat(1000);
    let mut sender = Sender::new(3);
    sender.send(&message);
    assert_eq!(sender.packets_total(), 4);
    let first = sender.transmit_window();
    let numbers: Vec<u32> = first.iter().map(|p| p.number).collect();
    assert_eq!(numbers, vec![0, 1, 2]);
    assert_eq!(sender.packets_send_total(), 3);
    sender.handle_ack(1);
    sender.end_round();
    assert_eq!(sender.packets_send_ack(), 0);
    let again = sender.transmit_window();
    assert_eq!(again.len(), 3);
    assert_eq!(sender.packets_resent(), 3);
    sender.handle_ack(0);
    sender.handle_ack(1);
    sender.handle_ack(7);
    sender.end_round();
    assert_eq!(sender.packets_send_ack(), 2);
    let last = sender.transmit_window();
    let numbers: Vec<u32> = last.iter().map(|p| p.number).collect();
    assert_eq!(numbers, vec![2, 3]);
    sender.handle_ack(2);
    sender.handle_ack(3);
    sender.end_round();
    assert_eq!(sender.packets_send_ack(), 4);
    assert!(sender.is_done());
}

#[test]
fn gobackn_reader_reacks_duplicates_without_appending() {
    let bytes = b"hello world".to_vec();
    let mut reader = Reader::new();
    assert_eq!(reader.receive(&segment(&bytes, 0)), Ok(Some(0)));
    assert_eq!(reader.receive(&segment(&bytes, 0)), Ok(Some(0)));
    assert_eq!(reader.expected_number(), 1);
    assert!(!reader.is_complete());
    assert_eq!(reader.receive(&segment(&bytes, 1)), Ok(Some(1)));
    assert!(reader.is_complete());
    assert_eq!(reader.receive(&segment(&bytes, 1)), Ok(Some(1)));
    assert_eq!(reader.read().unwrap(), "hello world");
}

#[test]
fn gobackn_reader_drops_out_of_order() {
    let bytes = vec![b'x'; 600];
    let mut reader = Reader::new();
    assert_eq!(reader.receive(&segment(&bytes, 1)), Ok(None));
    assert_eq!(reader.expected_number(), 0);
    assert_eq!(reader.receive(&segment(&bytes, 0)), Ok(Some(0)));
    assert_eq!(reader.receive(&segment(&bytes, 1)), Ok(Some(1)));
    assert!(!reader.is_complete());
    assert_eq!(reader.receive(&segment(&bytes, 2)), Ok(Some(2)));
    assert!(reader.is_complete());
    assert_eq!(reader.read().unwrap(), "x".repeat(600));
}

#[test]
fn gobackn_reader_rejects_misplaced_begin() {
    let mut reader = Reader::new();
    let not_first = Packet { number: 0, data: vec![b'a'], state: PacketState::Ongoing };
    assert_eq!(reader.receive(&not_first), Err(ReadError::ProtocolViolation));
    assert_eq!(reader.expected_number(), 0);
    let first = Packet { number: 0, data: vec![b'a'], state: PacketState::Begin };
    assert_eq!(reader.receive(&first), Ok(Some(0)));
    let second_begin = Packet { number: 1, data: vec![b'b'], state: PacketState::Begin };
    assert_eq!(reader.receive(&second_begin), Err(ReadError::ProtocolViolation));
    assert_eq!(reader.expected_number(), 1);
    let last = Packet { number: 1, data: vec![b'b'], state: PacketState::End };
    assert_eq!(reader.receive(&last), Ok(Some(1)));
    assert_eq!(reader.read().unwrap(), "ab");
}

#[test]
fn gobackn_reader_reports_invalid_text() {
    let mut reader = Reader::new();
    let p = Packet { number: 0, data: vec![0xff], state: PacketState::Begin };
    assert_eq!(reader.receive(&p), Ok(Some(0)));
    let last = Packet { number: 1, data: Vec::new(), state: PacketState::End };
    assert_eq!(reader.receive(&last), Ok(Some(1)));
    assert_eq!(reader.read(), Err(ReadError::EncodingError));
}
