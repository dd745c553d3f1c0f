use vstd::prelude::*;
use vstd::utf8::*;

verus! {

/// Largest payload, in bytes, that one packet carries.
pub const DATA_SIZE: usize = 255;

/// Where a packet stands in its message.
#[derive(Debug, Clone, Copy, PartialEq, Eq, Structural)]
pub enum PacketState {
    Begin,
    Ongoing,
    End,
}

/// One segment of a message: its sequence number, its payload and its position.
#[derive(Debug)]
pub struct Packet {
    pub number: u32,
    pub data: Vec<u8>,
    pub state: PacketState,
}

/// Why reading a message failed.
#[derive(Debug, Clone, Copy, PartialEq, Eq, Structural)]
pub enum ReadError {
    /// Nothing completed the message within the time allowed.
    ReadTimeout,
    /// A packet's position disagrees with its sequence number.
    ProtocolViolation,
    /// The assembled bytes are not valid UTF-8.
    EncodingError,
    /// The peer went away.
    ChannelClosed,
}

/// Why sending a message failed.
#[derive(Debug, Clone, Copy, PartialEq, Eq, Structural)]
pub enum SendError {
    /// The message was not acknowledged within the time allowed.
    TransferTimeout,
    /// The packet channel was closed.
    SendChannelClosed,
    /// The acknowledgment channel was closed.
    AckChannelClosed,
}

/// Why a whole transfer failed.
#[derive(Debug, Clone, Copy, PartialEq, Eq, Structural)]
pub enum TransferError {
    Send(SendError),
    Read(ReadError),
}

/// Outcome of a whole transfer: the message as read, and what sending it took.
#[derive(Debug)]
pub struct Transfer {
    /// The message the reader assembled.
    pub message: String,
    /// Packets the message was cut into.
    pub packets_total: usize,
    /// Transmissions, retransmissions included.
    pub packets_send: usize,
    /// Transmissions of a packet that had been transmitted before.
    pub packets_resent: usize,
}

/// Number of packets a message of `len` bytes is cut into: one per started
/// block of `DATA_SIZE` bytes, and never fewer than two.
pub open spec fn spec_total_packets(len: nat) -> nat {
    let n = (len + DATA_SIZE - 1) / (DATA_SIZE as int);
    if n < 2 {
        2
    } else {
        n as nat
    }
}

/// Position of packet `number` in a message of `total` packets.
pub open spec fn spec_position(number: nat, total: nat) -> PacketState {
    if number == 0 {
        PacketState::Begin
    } else if number + 1 == total {
        PacketState::End
    } else {
        PacketState::Ongoing
    }
}

/// Payload of packet `number`: bytes `[number * DATA_SIZE, (number + 1) * DATA_SIZE)`
/// of the message, cut at its end, and empty past it.
pub open spec fn spec_payload(msg: Seq<u8>, number: nat) -> Seq<u8> {
    let start = number * DATA_SIZE;
    if start >= msg.len() {
        Seq::empty()
    } else if start + DATA_SIZE <= msg.len() {
        msg.subrange(start as int, start + DATA_SIZE)
    } else {
        msg.subrange(start as int, msg.len() as int)
    }
}

/// `p` is packet `number` of the message `msg`.
pub open spec fn is_segment(p: Packet, msg: Seq<u8>, number: nat) -> bool {
    &&& p.number == number
    &&& p.data@ == spec_payload(msg, number)
    &&& p.state == spec_position(number, spec_total_packets(msg.len()))
}

/// `a` and `b` carry the same number, payload and position.
pub open spec fn same_packet(a: Packet, b: Packet) -> bool {
    &&& a.number == b.number
    &&& a.data@ == b.data@
    &&& a.state == b.state
}

impl Packet {
    /// A packet is valid when its payload fits in `DATA_SIZE` bytes.
    pub open spec fn wf(&self) -> bool {
        self.data@.len() <= DATA_SIZE
    }

    /// A copy of this packet.
    pub fn duplicate(&self) -> (r: Packet)
        ensures
            same_packet(r, *self),
    {
        Packet { number: self.number, data: copy_bytes(self.data.as_slice()), state: self.state }
    }
}

/// Payloads of the first `k` packets of `msg`, joined in order.
pub open spec fn spec_assembled(msg: Seq<u8>, k: nat) -> Seq<u8>
    decreases k,
{
    if k == 0 {
        Seq::empty()
    } else {
        spec_assembled(msg, (k - 1) as nat) + spec_payload(msg, (k - 1) as nat)
    }
}

/// Bytes of the first `k` packets: the message up to `k * DATA_SIZE`.
pub open spec fn spec_prefix(msg: Seq<u8>, k: nat) -> Seq<u8> {
    if k * DATA_SIZE >= msg.len() {
        msg
    } else {
        msg.subrange(0, (k * DATA_SIZE) as int)
    }
}

/// The payloads of the first `k` packets, joined in order, are the message up
/// to the end of packet `k - 1`.
pub proof fn lemma_assembled_prefix(msg: Seq<u8>, k: nat)
    ensures
        spec_assembled(msg, k) == spec_prefix(msg, k),
    decreases k,
{
    if k > 0 {
        let j = (k - 1) as nat;
        lemma_assembled_prefix(msg, j);
        assert(j * DATA_SIZE + DATA_SIZE == k * DATA_SIZE) by (nonlinear_arith)
            requires
                k == j + 1,
        ;
        assert(spec_assembled(msg, k) =~= spec_prefix(msg, k));
    }
}

/// Every message is cut into at least two packets; exactly one of them, the
/// first, is marked `Begin`, and exactly one, the last, is marked `End`.
pub proof fn lemma_segmentation_floor(msg: Seq<u8>)
    ensures
        spec_total_packets(msg.len()) >= 2,
        forall|i: nat|
            i < spec_total_packets(msg.len()) ==> (#[trigger] spec_position(
                i,
                spec_total_packets(msg.len()),
            ) == PacketState::Begin <==> i == 0),
        forall|i: nat|
            i < spec_total_packets(msg.len()) ==> (#[trigger] spec_position(
                i,
                spec_total_packets(msg.len()),
            ) == PacketState::End <==> i + 1 == spec_total_packets(msg.len())),
{
}

/// Joining the payloads of all the packets of a message, in order, gives the
/// message back.
pub proof fn lemma_segments_reassemble(msg: Seq<u8>)
    ensures
        spec_assembled(msg, spec_total_packets(msg.len())) == msg,
{
    let total = spec_total_packets(msg.len());
    lemma_assembled_prefix(msg, total);
    let n = (msg.len() + DATA_SIZE - 1) / (DATA_SIZE as int);
    assert(n * DATA_SIZE >= msg.len()) by (nonlinear_arith)
        requires
            n == (msg.len() + DATA_SIZE - 1) / (DATA_SIZE as int),
    ;
    assert(total * DATA_SIZE >= n * DATA_SIZE) by (nonlinear_arith)
        requires
            total >= n,
    ;
}

/// Number of packets for a message of `len` bytes.
pub fn total_packets(len: usize) -> (r: usize)
    ensures
        r == spec_total_packets(len as nat),
{
    let n: usize = len / DATA_SIZE + if len % DATA_SIZE == 0 {
        0
    } else {
        1
    };
    assert(n == (len + DATA_SIZE - 1) / (DATA_SIZE as int));
    if n < 2 {
        2
    } else {
        n
    }
}

/// Builds packet `number` of the message whose bytes are `bytes`.
pub fn segment(bytes: &[u8], number: usize) -> (p: Packet)
    requires
        number < spec_total_packets(bytes@.len()),
        number <= u32::MAX,
    ensures
        is_segment(p, bytes@, number as nat),
        p.wf(),
{
    let total = total_packets(bytes.len());
    let mut data: Vec<u8> = Vec::new();
    if number <= bytes.len() / DATA_SIZE {
        assert(number * DATA_SIZE <= bytes@.len()) by (nonlinear_arith)
            requires
                number <= bytes@.len() as int / (DATA_SIZE as int),
        ;
        let start: usize = number * DATA_SIZE;
        let end: usize = if bytes.len() - start < DATA_SIZE {
            bytes.len()
        } else {
            start + DATA_SIZE
        };
        let mut i: usize = start;
        while i < end
            invariant
                start <= i <= end <= bytes@.len(),
                data@ == bytes@.subrange(start as int, i as int),
            decreases end - i,
        {
            data.push(bytes[i]);
            i = i + 1;
            assert(data@ =~= bytes@.subrange(start as int, i as int));
        }
        assert(data@ =~= spec_payload(bytes@, number as nat));
    } else {
        assert(number * DATA_SIZE >= bytes@.len()) by (nonlinear_arith)
            requires
                number > bytes@.len() as int / (DATA_SIZE as int),
        ;
        assert(data@ =~= spec_payload(bytes@, number as nat));
    }
    let state = if number == 0 {
        PacketState::Begin
    } else if number + 1 == total {
        PacketState::End
    } else {
        PacketState::Ongoing
    };
    Packet { number: number as u32, data, state }
}

/// Appends `bytes` to the end of `data`.
pub fn append_bytes(data: &mut Vec<u8>, bytes: &[u8])
    ensures
        final(data)@ == old(data)@ + bytes@,
{
    let mut i: usize = 0;
    while i < bytes.len()
        invariant
            i <= bytes@.len(),
            data@ == old(data)@ + bytes@.subrange(0, i as int),
        decreases bytes@.len() - i,
    {
        data.push(bytes[i]);
        i = i + 1;
        assert(data@ =~= old(data)@ + bytes@.subrange(0, i as int));
    }
    assert(bytes@.subrange(0, i as int) =~= bytes@);
}

/// A vector holding `bytes`.
pub fn copy_bytes(bytes: &[u8]) -> (r: Vec<u8>)
    ensures
        r@ == bytes@,
{
    let mut r: Vec<u8> = Vec::new();
    append_bytes(&mut r, bytes);
    assert(r@ =~= bytes@);
    r
}

/// Relies on `String::from_utf8`: it succeeds exactly on valid UTF-8, and the
/// string it returns holds those bytes.
#[verifier::external_body]
fn string_from_utf8(bytes: Vec<u8>) -> (r: Option<String>)
    ensures
        r is Some <==> valid_utf8(bytes@),
        r matches Some(s) ==> encode_utf8(s@) == bytes@,
{
    String::from_utf8(bytes).ok()
}

/// Decodes assembled bytes as text.
pub fn decode_message(bytes: Vec<u8>) -> (r: Result<String, ReadError>)
    ensures
        r is Ok <==> valid_utf8(bytes@),
        r matches Ok(s) ==> s@ == decode_utf8(bytes@),
        r matches Err(e) ==> e == ReadError::EncodingError,
{
    match string_from_utf8(bytes) {
        Some(s) => {
            proof {
                encode_utf8_decode_utf8(s@);
            }
            Ok(s)
        },
        None => Err(ReadError::EncodingError),
    }
}

/// Length of the run of `true` flags that starts at index `i`, counted up to `n`.
pub open spec fn spec_run(flags: Seq<bool>, i: nat, n: nat) -> nat
    decreases n - i,
{
    if i < n && i < flags.len() && flags[i as int] {
        spec_run(flags, i + 1, n)
    } else {
        i
    }
}

/// The run starting at `i` stays within `[i, n]`, and every flag in it is set.
pub proof fn lemma_run_bounds(flags: Seq<bool>, i: nat, n: nat)
    requires
        i <= n,
        n <= flags.len(),
    ensures
        i <= spec_run(flags, i, n) <= n,
        forall|j: int| i <= j < spec_run(flags, i, n) ==> flags[j],
        spec_run(flags, i, n) < n ==> !flags[spec_run(flags, i, n) as int],
    decreases n - i,
{
    if i < n && flags[i as int] {
        lemma_run_bounds(flags, i + 1, n);
    }
}

/// A run over flags that are all set reaches `n`.
pub proof fn lemma_run_full(flags: Seq<bool>, i: nat, n: nat)
    requires
        i <= n <= flags.len(),
        forall|j: int| i <= j < n ==> flags[j],
    ensures
        spec_run(flags, i, n) == n,
    decreases n - i,
{
    if i < n {
        lemma_run_full(flags, i + 1, n);
    }
}

} // verus!
