use vstd::prelude::*;
use crate::loss::LossModel;
use crate::packet::{
    append_bytes, copy_bytes, decode_message, is_segment, lemma_run_bounds, lemma_run_full,
    lemma_segments_reassemble, segment, spec_assembled, spec_run, spec_total_packets,
    total_packets, Packet, PacketState, ReadError, SendError, Transfer, TransferError,
};
use vstd::string::StringSliceAdditionalSpecFns;
use vstd::utf8::{decode_utf8, encode_utf8_decode_utf8, encode_utf8_valid_utf8, valid_utf8};

verus! {

/// Go-Back-N sender: transmits the whole window each round and slides past the
/// contiguous run of acknowledged packets at its start.
pub struct Sender {
    window_size: u32,
    base: usize,
    packets_total: usize,
    packets_send_total: usize,
    packets_send_ack: usize,
    packets_resent: usize,
    round_end: usize,
    packets_to_ack: Vec<bool>,
    message: Vec<u8>,
}

impl Sender {
    /// Window size the sender was made with.
    pub closed spec fn spec_window_size(&self) -> nat {
        self.window_size as nat
    }

    /// Oldest packet not yet acknowledged.
    pub closed spec fn spec_base(&self) -> nat {
        self.base as nat
    }

    /// Number of packets of the current message.
    pub closed spec fn spec_packets_total(&self) -> nat {
        self.packets_total as nat
    }

    /// Transmissions so far, retransmissions included.
    pub closed spec fn spec_packets_send_total(&self) -> nat {
        self.packets_send_total as nat
    }

    /// Packets acknowledged so far.
    pub closed spec fn spec_packets_send_ack(&self) -> nat {
        self.packets_send_ack as nat
    }

    /// Transmissions of a packet that had been transmitted before.
    pub closed spec fn spec_packets_resent(&self) -> nat {
        self.packets_resent as nat
    }

    /// End (exclusive) of the round under way: the window transmitted last.
    pub closed spec fn spec_round_end(&self) -> nat {
        self.round_end as nat
    }

    /// Acknowledgment marks of the round, one per packet from `base` on.
    pub closed spec fn spec_marks(&self) -> Seq<bool> {
        self.packets_to_ack@
    }

    /// Bytes of the message being sent.
    pub closed spec fn spec_message(&self) -> Seq<u8> {
        self.message@
    }

    /// What holds of every sender between calls: one mark per slot of the
    /// window, the round within the window and the message, acknowledged
    /// packets exactly those before `base`, and every transmission counted.
    pub open spec fn wf(&self) -> bool {
        &&& self.spec_window_size() >= 1
        &&& self.spec_marks().len() == self.spec_window_size()
        &&& self.spec_packets_total() == spec_total_packets(self.spec_message().len())
        &&& self.spec_packets_total() <= u32::MAX + 1
        &&& self.spec_base() <= self.spec_round_end() <= self.spec_packets_total()
        &&& self.spec_round_end() <= self.spec_base() + self.spec_window_size()
        &&& self.spec_packets_send_ack() == self.spec_base()
        &&& self.spec_packets_send_total() == self.spec_round_end() + self.spec_packets_resent()
    }

    /// A sender with the given window size and no message.
    pub fn new(window_size: u32) -> (s: Self)
        requires
            window_size >= 1,
        ensures
            s.wf(),
            s.spec_window_size() == window_size,
            s.spec_base() == 0,
            s.spec_packets_send_total() == 0,
            s.spec_packets_send_ack() == 0,
            s.spec_packets_resent() == 0,
            s.spec_message() == Seq::<u8>::empty(),
            s.spec_marks() == Seq::new(window_size as nat, |k: int| false),
    {
        let s = Sender {
            window_size,
            base: 0,
            packets_total: total_packets(0),
            packets_send_total: 0,
            packets_send_ack: 0,
            packets_resent: 0,
            round_end: 0,
            packets_to_ack: vec![false; window_size as usize],
            message: Vec::new(),
        };
        assert(s.packets_to_ack@ =~= Seq::new(window_size as nat, |k: int| false));
        s
    }

    /// Starts sending `message`: cuts it into packets and puts the window at
    /// its first packet. The packets come out of `transmit_window`.
    pub fn send(&mut self, message: &str)
        requires
            old(self).wf(),
            spec_total_packets(message.spec_bytes().len()) <= u32::MAX + 1,
        ensures
            final(self).wf(),
            final(self).spec_window_size() == old(self).spec_window_size(),
            final(self).spec_message() == message.spec_bytes(),
            final(self).spec_packets_total() == spec_total_packets(message.spec_bytes().len()),
            final(self).spec_base() == 0,
            final(self).spec_round_end() == 0,
            final(self).spec_packets_send_total() == 0,
            final(self).spec_packets_send_ack() == 0,
            final(self).spec_packets_resent() == 0,
    {
        let bytes = message.as_bytes();
        let copy = copy_bytes(bytes);
        self.packets_total = total_packets(bytes.len());
        self.message = copy;
        self.base = 0;
        self.round_end = 0;
        self.packets_send_total = 0;
        self.packets_send_ack = 0;
        self.packets_resent = 0;
    }

    /// Whether every packet of the message has been acknowledged.
    pub fn is_done(&self) -> (r: bool)
        requires
            self.wf(),
        ensures
            r == (self.spec_packets_send_ack() == self.spec_packets_total()),
            r ==> self.spec_base() == self.spec_packets_total(),
    {
        self.packets_send_ack == self.packets_total
    }

    /// Starts a round: (re)transmits every packet of the window
    /// `[base, min(base + window_size, total))` and clears its marks.
    pub fn transmit_window(&mut self) -> (r: Vec<Packet>)
        requires
            old(self).wf(),
            old(self).spec_packets_send_total() + old(self).spec_window_size() <= usize::MAX,
        ensures
            final(self).wf(),
            final(self).spec_window_size() == old(self).spec_window_size(),
            final(self).spec_message() == old(self).spec_message(),
            final(self).spec_packets_total() == old(self).spec_packets_total(),
            final(self).spec_base() == old(self).spec_base(),
            final(self).spec_packets_send_ack() == old(self).spec_packets_send_ack(),
            final(self).spec_round_end() == if old(self).spec_base()
                + old(self).spec_window_size() <= old(self).spec_packets_total() {
                old(self).spec_base() + old(self).spec_window_size()
            } else {
                old(self).spec_packets_total()
            },
            r@.len() == final(self).spec_round_end() - old(self).spec_base(),
            forall|k: int|
                0 <= k < r@.len() ==> is_segment(
                    #[trigger] r@[k],
                    old(self).spec_message(),
                    (old(self).spec_base() + k) as nat,
                ),
            final(self).spec_packets_send_total() == old(self).spec_packets_send_total()
                + r@.len(),
            final(self).spec_packets_resent() == old(self).spec_packets_resent() + (old(
                self,
            ).spec_round_end() - old(self).spec_base()),
            forall|k: int|
                0 <= k < final(self).spec_marks().len() ==> !(#[trigger] final(self).spec_marks()[k]),
    {
        let end: usize = if (self.base as u64) + (self.window_size as u64)
            <= self.packets_total as u64 {
            self.base + self.window_size as usize
        } else {
            self.packets_total
        };
        let mut packets: Vec<Packet> = Vec::new();
        let mut i: usize = self.base;
        while i < end
            invariant
                old(self).wf(),
                self.packets_to_ack@ == old(self).packets_to_ack@,
                self.base <= i <= end <= self.packets_total,
                end <= self.base + self.window_size,
                self.base == old(self).base,
                self.message@ == old(self).message@,
                self.packets_total == old(self).packets_total,
                self.window_size == old(self).window_size,
                self.packets_send_ack == old(self).packets_send_ack,
                self.round_end == old(self).round_end,
                packets@.len() == i - self.base,
                self.packets_send_total == old(self).packets_send_total + packets@.len(),
                self.packets_resent == old(self).packets_resent + if i < self.round_end {
                    i - self.base
                } else {
                    self.round_end - self.base
                },
                old(self).packets_send_total + self.window_size <= usize::MAX,
                forall|k: int|
                    0 <= k < packets@.len() ==> is_segment(
                        #[trigger] packets@[k],
                        self.message@,
                        (self.base + k) as nat,
                    ),
            decreases end - i,
        {
            let p = segment(self.message.as_slice(), i);
            packets.push(p);
            if i < self.round_end {
                self.packets_resent = self.packets_resent + 1;
            }
            self.packets_send_total = self.packets_send_total + 1;
            i = i + 1;
        }
        self.round_end = end;
        self.packets_to_ack = vec![false; self.window_size as usize];
        packets
    }

    /// Takes an acknowledgment: marks packet `number` if it lies in the round's
    /// window, and ignores it otherwise.
    pub fn handle_ack(&mut self, number: u32)
        requires
            old(self).wf(),
        ensures
            final(self).wf(),
            final(self).spec_window_size() == old(self).spec_window_size(),
            final(self).spec_message() == old(self).spec_message(),
            final(self).spec_packets_total() == old(self).spec_packets_total(),
            final(self).spec_base() == old(self).spec_base(),
            final(self).spec_round_end() == old(self).spec_round_end(),
            final(self).spec_packets_send_total() == old(self).spec_packets_send_total(),
            final(self).spec_packets_send_ack() == old(self).spec_packets_send_ack(),
            final(self).spec_packets_resent() == old(self).spec_packets_resent(),
            final(self).spec_marks() == if old(self).spec_base() <= number
                < old(self).spec_round_end() {
                old(self).spec_marks().update(number - old(self).spec_base(), true)
            } else {
                old(self).spec_marks()
            },
    {
        let n = number as usize;
        if self.base <= n && n < self.round_end {
            self.packets_to_ack.set(n - self.base, true);
        }
    }

    /// Ends a round: slides the window past the run of marked packets at its
    /// start, each of which counts as acknowledged.
    pub fn end_round(&mut self)
        requires
            old(self).wf(),
        ensures
            final(self).wf(),
            final(self).spec_window_size() == old(self).spec_window_size(),
            final(self).spec_message() == old(self).spec_message(),
            final(self).spec_packets_total() == old(self).spec_packets_total(),
            final(self).spec_round_end() == old(self).spec_round_end(),
            final(self).spec_packets_send_total() == old(self).spec_packets_send_total(),
            final(self).spec_packets_resent() == old(self).spec_packets_resent(),
            final(self).spec_marks() == old(self).spec_marks(),
            final(self).spec_base() == old(self).spec_base() + spec_run(
                old(self).spec_marks(),
                0,
                (old(self).spec_round_end() - old(self).spec_base()) as nat,
            ),
            final(self).spec_base() >= old(self).spec_base(),
            final(self).spec_packets_send_ack() == final(self).spec_base(),
            final(self).spec_packets_send_ack() - old(self).spec_packets_send_ack()
                == final(self).spec_base() - old(self).spec_base(),
    {
        let n: usize = self.round_end - self.base;
        let ghost start = self.base;
        proof {
            lemma_run_bounds(self.packets_to_ack@, 0, n as nat);
        }
        let mut k: usize = 0;
        while k < n && self.packets_to_ack[k]
            invariant
                self.wf(),
                k <= n,
                n <= self.packets_to_ack@.len(),
                self.packets_to_ack@ == old(self).packets_to_ack@,
                self.round_end == old(self).round_end,
                self.message@ == old(self).message@,
                self.packets_total == old(self).packets_total,
                self.window_size == old(self).window_size,
                self.packets_send_total == old(self).packets_send_total,
                self.packets_resent == old(self).packets_resent,
                start == old(self).base,
                n == old(self).round_end - start,
                self.base == start + k,
                spec_run(self.packets_to_ack@, k as nat, n as nat) == spec_run(
                    self.packets_to_ack@,
                    0,
                    n as nat,
                ),
            decreases n - k,
        {
            self.base = self.base + 1;
            self.packets_send_ack = self.packets_send_ack + 1;
            k = k + 1;
        }
    }

    /// Transmissions so far, retransmissions included.
    pub fn packets_send_total(&self) -> (r: usize)
        ensures
            r == self.spec_packets_send_total(),
    {
        self.packets_send_total
    }

    /// Packets acknowledged so far.
    pub fn packets_send_ack(&self) -> (r: usize)
        ensures
            r == self.spec_packets_send_ack(),
    {
        self.packets_send_ack
    }

    /// Transmissions of a packet that had been transmitted before.
    pub fn packets_resent(&self) -> (r: usize)
        ensures
            r == self.spec_packets_resent(),
    {
        self.packets_resent
    }

    /// Number of packets of the current message.
    pub fn packets_total(&self) -> (r: usize)
        ensures
            r == self.spec_packets_total(),
    {
        self.packets_total
    }

    /// Once the message is acknowledged, it was transmitted at least once per
    /// packet, and exactly once per packet unless a packet was retransmitted.
    pub proof fn lemma_efficiency(&self)
        requires
            self.wf(),
            self.spec_packets_send_ack() == self.spec_packets_total(),
        ensures
            self.spec_packets_total() <= self.spec_packets_send_total(),
            self.spec_packets_send_total() == self.spec_packets_total()
                + self.spec_packets_resent(),
            self.spec_packets_resent() > 0 <==> self.spec_packets_total()
                < self.spec_packets_send_total(),
    {
    }
}

/// Go-Back-N reader: takes only the next expected packet and acknowledges it;
/// re-acknowledges older ones and drops later ones.
pub struct Reader {
    number: u64,
    finished: bool,
    data: Vec<u8>,
}

impl Reader {
    /// Next sequence number expected.
    pub closed spec fn spec_expected(&self) -> nat {
        self.number as nat
    }

    /// Bytes delivered so far, in order.
    pub closed spec fn spec_data(&self) -> Seq<u8> {
        self.data@
    }

    /// Whether the packet marked `End` has been delivered.
    pub closed spec fn spec_finished(&self) -> bool {
        self.finished
    }

    pub closed spec fn wf(&self) -> bool {
        self.number <= u32::MAX + 1
    }

    /// A reader that expects packet 0.
    pub fn new() -> (r: Self)
        ensures
            r.wf(),
            r.spec_expected() == 0,
            r.spec_data() == Seq::<u8>::empty(),
            !r.spec_finished(),
    {
        Reader { number: 0, finished: false, data: Vec::new() }
    }

    /// Takes one packet and returns the acknowledgment to send back, if any.
    /// An older packet is acknowledged again and changes nothing; a later one,
    /// or any packet past the end of the message, is dropped. The expected
    /// packet fails with `ProtocolViolation` where its position disagrees with
    /// its number (`Begin` exactly for packet 0); otherwise its bytes are
    /// appended and it is acknowledged.
    pub fn receive(&mut self, packet: &Packet) -> (r: Result<Option<u32>, ReadError>)
        requires
            old(self).wf(),
            packet.wf(),
        ensures
            final(self).wf(),
            packet.number < old(self).spec_expected() ==> r == Ok::<Option<u32>, ReadError>(
                Some(packet.number),
            ) && *final(self) == *old(self),
            packet.number >= old(self).spec_expected() && (old(self).spec_finished()
                || packet.number > old(self).spec_expected()) ==> r == Ok::<
                Option<u32>,
                ReadError,
            >(None) && *final(self) == *old(self),
            packet.number == old(self).spec_expected() && !old(self).spec_finished() ==> {
                if (packet.number == 0) != (packet.state == PacketState::Begin) {
                    r == Err::<Option<u32>, ReadError>(ReadError::ProtocolViolation)
                        && *final(self) == *old(self)
                } else {
                    &&& r == Ok::<Option<u32>, ReadError>(Some(packet.number))
                    &&& final(self).spec_expected() == old(self).spec_expected() + 1
                    &&& final(self).spec_data() == old(self).spec_data() + packet.data@
                    &&& final(self).spec_finished() == (packet.state == PacketState::End)
                }
            },
    {
        let number = packet.number as u64;
        if number < self.number {
            return Ok(Some(packet.number));
        }
        if self.finished || number > self.number {
            return Ok(None);
        }
        let is_begin = match packet.state {
            PacketState::Begin => true,
            _ => false,
        };
        if (number == 0) != is_begin {
            return Err(ReadError::ProtocolViolation);
        }
        append_bytes(&mut self.data, packet.data.as_slice());
        self.number = self.number + 1;
        self.finished = match packet.state {
            PacketState::End => true,
            _ => false,
        };
        Ok(Some(packet.number))
    }

    /// Next sequence number expected.
    pub fn expected_number(&self) -> (r: u64)
        ensures
            r == self.spec_expected(),
    {
        self.number
    }

    /// Whether the whole message has been delivered.
    pub fn is_complete(&self) -> (r: bool)
        ensures
            r == self.spec_finished(),
    {
        self.finished
    }

    /// The whole message, once delivered, decoded as text.
    pub fn read(&self) -> (r: Result<String, ReadError>)
        requires
            self.spec_finished(),
        ensures
            r is Ok <==> valid_utf8(self.spec_data()),
            r matches Ok(s) ==> s@ == decode_utf8(self.spec_data()),
            r matches Err(e) ==> e == ReadError::EncodingError,
    {
        decode_message(copy_bytes(self.data.as_slice()))
    }
}

/// Sends `message` from a Go-Back-N sender to a reader, in rounds, over a link
/// that drops each packet and each acknowledgment as `link` decides. A round
/// transmits the window, delivers what the link lets through, returns the
/// acknowledgments and slides the window. Gives up with `TransferTimeout`
/// after `max_rounds` rounds.
///
/// Whatever the link drops, a transfer that completes delivers the message
/// exactly; on a lossless link it completes within one round per packet,
/// with no retransmission.
pub fn silent_setup_loss(window_size: u32, message: &str, link: &LossModel, max_rounds: usize) -> (r:
    Result<Transfer, TransferError>)
    requires
        window_size >= 1,
        link.wf(),
        spec_total_packets(message.spec_bytes().len()) <= u32::MAX + 1,
        spec_total_packets(message.spec_bytes().len()) + window_size <= usize::MAX,
    ensures
        r matches Ok(t) ==> {
            &&& t.message@ == message@
            &&& t.packets_total == spec_total_packets(message.spec_bytes().len())
            &&& t.packets_send == t.packets_total + t.packets_resent
        },
        r matches Err(e) ==> e == TransferError::Send(SendError::TransferTimeout),
        link.spec_loss() == 0 && max_rounds >= spec_total_packets(message.spec_bytes().len())
            ==> (r matches Ok(t) && t.packets_resent == 0),
{
    let ghost msg = message.spec_bytes();
    let ghost total = spec_total_packets(msg.len());
    let ghost lossless = link.spec_loss() == 0;
    let mut sender = Sender::new(window_size);
    sender.send(message);
    let mut reader = Reader::new();
    let mut rounds: usize = 0;
    while !sender.is_done()
        invariant
            sender.wf(),
            reader.wf(),
            link.wf(),
            lossless == (link.spec_loss() == 0),
            msg == message.spec_bytes(),
            sender.spec_window_size() == window_size,
            sender.spec_message() == msg,
            sender.spec_packets_total() == total,
            total == spec_total_packets(msg.len()),
            total <= u32::MAX + 1,
            total + window_size <= usize::MAX,
            reader.spec_expected() <= total,
            reader.spec_data() == spec_assembled(msg, reader.spec_expected()),
            reader.spec_finished() == (reader.spec_expected() == total),
            sender.spec_base() <= reader.spec_expected(),
            rounds <= max_rounds,
            lossless ==> {
                &&& sender.spec_base() == reader.spec_expected()
                &&& sender.spec_round_end() == sender.spec_base()
                &&& sender.spec_packets_resent() == 0
                &&& rounds <= sender.spec_base()
            },
        decreases max_rounds - rounds,
    {
        if rounds >= max_rounds || sender.packets_send_total() > usize::MAX - window_size as usize {
            return Err(TransferError::Send(SendError::TransferTimeout));
        }
        rounds = rounds + 1;
        let packets = sender.transmit_window();
        let ghost b = sender.spec_base();
        let ghost e = sender.spec_round_end();
        let ghost sent = sender.spec_packets_send_total();
        let ghost resent = sender.spec_packets_resent();
        let mut j: usize = 0;
        while j < packets.len()
            invariant
                sender.wf(),
                reader.wf(),
                link.wf(),
                lossless == (link.spec_loss() == 0),
                sender.spec_window_size() == window_size,
                sender.spec_message() == msg,
                sender.spec_packets_total() == total,
                sender.spec_base() == b,
                sender.spec_round_end() == e,
                sender.spec_packets_send_total() == sent,
                sender.spec_packets_resent() == resent,
                sender.spec_marks().len() == window_size,
                packets@.len() == e - b,
                j <= packets@.len(),
                forall|k: int|
                    0 <= k < packets@.len() ==> is_segment(
                        #[trigger] packets@[k],
                        msg,
                        (b + k) as nat,
                    ),
                total == spec_total_packets(msg.len()),
                reader.spec_expected() <= total,
                reader.spec_data() == spec_assembled(msg, reader.spec_expected()),
                reader.spec_finished() == (reader.spec_expected() == total),
                b <= reader.spec_expected(),
                forall|k: int|
                    0 <= k < sender.spec_marks().len() && #[trigger] sender.spec_marks()[k] ==> b
                        + k < reader.spec_expected(),
                lossless ==> {
                    &&& reader.spec_expected() == b + j
                    &&& forall|k: int| 0 <= k < j ==> #[trigger] sender.spec_marks()[k]
                },
            decreases packets@.len() - j,
        {
            if !link.drops() {
                let ghost expected = reader.spec_expected();
                match reader.receive(&packets[j]) {
                    Ok(Some(ack)) => {
                        if !link.drops() {
                            sender.handle_ack(ack);
                        }
                    },
                    Ok(None) => {},
                    Err(e) => {
                        return Err(TransferError::Read(e));
                    },
                }
            }
            j = j + 1;
        }
        proof {
            lemma_run_bounds(sender.spec_marks(), 0, (e - b) as nat);
            let run = spec_run(sender.spec_marks(), 0, (e - b) as nat);
            if run > 0 {
                assert(sender.spec_marks()[run - 1]);
            }
            if lossless {
                lemma_run_full(sender.spec_marks(), 0, (e - b) as nat);
            }
        }
        sender.end_round();
    }
    proof {
        lemma_segments_reassemble(msg);
        encode_utf8_valid_utf8(message@);
        encode_utf8_decode_utf8(message@);
        sender.lemma_efficiency();
    }
    match reader.read() {
        Ok(text) => Ok(
            Transfer {
                message: text,
                packets_total: sender.packets_total(),
                packets_send: sender.packets_send_total(),
                packets_resent: sender.packets_resent(),
            },
        ),
        Err(e) => Err(TransferError::Read(e)),
    }
}

} // verus!
