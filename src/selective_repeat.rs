use vstd::prelude::*;
use crate::loss::LossModel;
use crate::packet::{
    append_bytes, copy_bytes,
    decode_message, is_segment, lemma_run_bounds, lemma_segments_reassemble, same_packet,
    segment, spec_assembled, spec_run,
    spec_total_packets, total_packets, Packet, PacketState, ReadError, SendError, Transfer,
    TransferError,
};
use std::collections::BTreeMap;
use vstd::string::StringSliceAdditionalSpecFns;
use vstd::utf8::{decode_utf8, encode_utf8_decode_utf8, encode_utf8_valid_utf8, valid_utf8};

verus! {

/// Number of elements of `s` that satisfy `f`.
pub open spec fn spec_count<T>(s: Seq<T>, f: spec_fn(T) -> bool) -> nat
    decreases s.len(),
{
    if s.len() == 0 {
        0
    } else {
        (if f(s[0]) {
            1nat
        } else {
            0nat
        }) + spec_count(s.subrange(1, s.len() as int), f)
    }
}

/// Number of acknowledged slots.
pub open spec fn count_acked(acked: Seq<bool>) -> nat {
    spec_count(acked, |b: bool| b)
}

/// Number of slots transmitted at least once.
pub open spec fn count_sent(last_sent: Seq<Option<u64>>) -> nat {
    spec_count(last_sent, |o: Option<u64>| o is Some)
}

proof fn lemma_count_le<T>(s: Seq<T>, f: spec_fn(T) -> bool)
    ensures
        spec_count(s, f) <= s.len(),
    decreases s.len(),
{
    if s.len() > 0 {
        lemma_count_le(s.subrange(1, s.len() as int), f);
    }
}

proof fn lemma_count_update<T>(s: Seq<T>, f: spec_fn(T) -> bool, i: int, v: T)
    requires
        0 <= i < s.len(),
    ensures
        spec_count(s.update(i, v), f) + (if f(s[i]) {
            1nat
        } else {
            0nat
        }) == spec_count(s, f) + (if f(v) {
            1nat
        } else {
            0nat
        }),
    decreases s.len(),
{
    let t = s.update(i, v);
    if i == 0 {
        assert(t.subrange(1, t.len() as int) =~= s.subrange(1, s.len() as int));
    } else {
        let rest = s.subrange(1, s.len() as int);
        lemma_count_update(rest, f, i - 1, v);
        assert(t.subrange(1, t.len() as int) =~= rest.update(i - 1, v));
    }
}

proof fn lemma_count_push<T>(s: Seq<T>, f: spec_fn(T) -> bool, v: T)
    ensures
        spec_count(s.push(v), f) == spec_count(s, f) + (if f(v) {
            1nat
        } else {
            0nat
        }),
    decreases s.len(),
{
    let t = s.push(v);
    if s.len() == 0 {
        assert(t.subrange(1, t.len() as int) =~= Seq::<T>::empty());
        assert(spec_count(Seq::<T>::empty(), f) == 0);
        assert(t[0] == v);
    } else {
        let rest = s.subrange(1, s.len() as int);
        lemma_count_push(rest, f, v);
        assert(t.subrange(1, t.len() as int) =~= rest.push(v));
        assert(t[0] == s[0]);
    }
}

proof fn lemma_count_drop<T>(s: Seq<T>, f: spec_fn(T) -> bool, n: int)
    requires
        0 <= n <= s.len(),
        forall|j: int| 0 <= j < n ==> f(#[trigger] s[j]),
    ensures
        spec_count(s.subrange(n, s.len() as int), f) + n == spec_count(s, f),
    decreases n,
{
    if n == 0 {
        assert(s.subrange(0, s.len() as int) =~= s);
    } else {
        let rest = s.subrange(1, s.len() as int);
        assert forall|j: int| 0 <= j < n - 1 implies f(#[trigger] rest[j]) by {
            assert(rest[j] == s[j + 1]);
        }
        lemma_count_drop(rest, f, n - 1);
        assert(rest.subrange(n - 1, rest.len() as int) =~= s.subrange(n, s.len() as int));
    }
}

proof fn lemma_acked_le_sent(acked: Seq<bool>, last_sent: Seq<Option<u64>>)
    requires
        acked.len() == last_sent.len(),
        forall|k: int| 0 <= k < acked.len() && #[trigger] acked[k] ==> last_sent[k] is Some,
    ensures
        count_acked(acked) <= count_sent(last_sent),
    decreases acked.len(),
{
    if acked.len() > 0 {
        let a = acked.subrange(1, acked.len() as int);
        let l = last_sent.subrange(1, last_sent.len() as int);
        assert forall|k: int| 0 <= k < a.len() && #[trigger] a[k] implies l[k] is Some by {
            assert(a[k] == acked[k + 1]);
        }
        lemma_acked_le_sent(a, l);
    }
}

proof fn lemma_count_none<T>(s: Seq<T>, f: spec_fn(T) -> bool)
    requires
        forall|k: int| 0 <= k < s.len() ==> !f(#[trigger] s[k]),
    ensures
        spec_count(s, f) == 0,
    decreases s.len(),
{
    if s.len() > 0 {
        let rest = s.subrange(1, s.len() as int);
        assert forall|k: int| 0 <= k < rest.len() implies !f(#[trigger] rest[k]) by {
            assert(rest[k] == s[k + 1]);
        }
        lemma_count_none(rest, f);
    }
}

proof fn lemma_count_all<T>(s: Seq<T>, f: spec_fn(T) -> bool)
    requires
        forall|k: int| 0 <= k < s.len() ==> f(#[trigger] s[k]),
    ensures
        spec_count(s, f) == s.len(),
{
    lemma_count_drop(s, f, s.len() as int);
    lemma_count_none(s.subrange(s.len() as int, s.len() as int), f);
}

proof fn lemma_due_all(
    acked: Seq<bool>,
    last_sent: Seq<Option<u64>>,
    now: u64,
    timeout: u64,
    n: nat,
)
    requires
        n <= acked.len(),
        n <= last_sent.len(),
        forall|k: int| 0 <= k < n ==> is_due(#[trigger] acked[k], last_sent[k], now, timeout),
    ensures
        spec_due_indices(acked, last_sent, now, timeout, n).len() == n,
        forall|j: int|
            0 <= j < n ==> #[trigger] spec_due_indices(acked, last_sent, now, timeout, n)[j] == j,
    decreases n,
{
    if n > 0 {
        lemma_due_all(acked, last_sent, now, timeout, (n - 1) as nat);
        assert(is_due(acked[n - 1], last_sent[n - 1], now, timeout));
    }
}

/// A slot is due for (re)transmission when it is not acknowledged and was
/// never transmitted, or was last transmitted more than `timeout` before `now`.
pub open spec fn is_due(acked: bool, last_sent: Option<u64>, now: u64, timeout: u64) -> bool {
    !acked && match last_sent {
        None => true,
        Some(t) => now >= t && now - t > timeout,
    }
}

/// Indices, in order, of the first `n` slots that are due at `now`.
pub open spec fn spec_due_indices(
    acked: Seq<bool>,
    last_sent: Seq<Option<u64>>,
    now: u64,
    timeout: u64,
    n: nat,
) -> Seq<int>
    decreases n,
{
    if n == 0 {
        Seq::empty()
    } else {
        let prev = spec_due_indices(acked, last_sent, now, timeout, (n - 1) as nat);
        if is_due(acked[n - 1], last_sent[n - 1], now, timeout) {
            prev.push(n - 1)
        } else {
            prev
        }
    }
}

/// Selective-Repeat sender: keeps a window of packets, each with its own
/// acknowledgment flag and transmission time, and retransmits only those whose
/// acknowledgment is overdue.
pub struct Sender {
    window_size: u32,
    timeout: u64,
    base: usize,
    packets_total: usize,
    packets_send: usize,
    packets_ack: usize,
    packets_resent: usize,
    window_packets: Vec<Packet>,
    acked: Vec<bool>,
    last_sent: Vec<Option<u64>>,
    message: Vec<u8>,
}

impl Sender {
    /// Window size the sender was made with.
    pub closed spec fn spec_window_size(&self) -> nat {
        self.window_size as nat
    }

    /// Time after which an unacknowledged packet is transmitted again.
    pub closed spec fn spec_timeout(&self) -> u64 {
        self.timeout
    }

    /// Oldest packet not yet acknowledged.
    pub closed spec fn spec_base(&self) -> nat {
        self.base as nat
    }

    /// Number of packets of the current message.
    pub closed spec fn spec_packets_total(&self) -> nat {
        self.packets_total as nat
    }

    /// Transmissions so far, retransmissions included.
    pub closed spec fn spec_packets_send(&self) -> nat {
        self.packets_send as nat
    }

    /// Packets acknowledged so far.
    pub closed spec fn spec_packets_ack(&self) -> nat {
        self.packets_ack as nat
    }

    /// Transmissions of a packet that had been transmitted before.
    pub closed spec fn spec_packets_resent(&self) -> nat {
        self.packets_resent as nat
    }

    /// Packets of the window, from `base` on.
    pub closed spec fn spec_window(&self) -> Seq<Packet> {
        self.window_packets@
    }

    /// Acknowledgment flag of each packet of the window.
    pub closed spec fn spec_acked(&self) -> Seq<bool> {
        self.acked@
    }

    /// Time of the last transmission of each packet of the window.
    pub closed spec fn spec_last_sent(&self) -> Seq<Option<u64>> {
        self.last_sent@
    }

    /// Bytes of the message being sent.
    pub closed spec fn spec_message(&self) -> Seq<u8> {
        self.message@
    }

    /// End (exclusive) of the window: `min(base + window_size, total)`.
    pub open spec fn spec_window_end(&self) -> nat {
        if self.spec_base() + self.spec_window_size() <= self.spec_packets_total() {
            self.spec_base() + self.spec_window_size()
        } else {
            self.spec_packets_total()
        }
    }

    /// What holds of every sender between calls: the window holds the packets
    /// that follow `base`, in order, with one flag and one time per packet;
    /// the packet at `base` is not acknowledged; and the counters agree with
    /// the flags.
    pub open spec fn wf(&self) -> bool {
        &&& self.inv()
        &&& self.spec_window_size() >= 1
        &&& self.spec_packets_total() == spec_total_packets(self.spec_message().len())
        &&& self.spec_acked().len() == self.spec_window().len()
        &&& self.spec_last_sent().len() == self.spec_window().len()
        &&& self.spec_window().len() <= self.spec_window_size()
        &&& self.spec_base() + self.spec_window().len() <= self.spec_packets_total()
        &&& forall|k: int|
            0 <= k < self.spec_window().len() ==> is_segment(
                #[trigger] self.spec_window()[k],
                self.spec_message(),
                (self.spec_base() + k) as nat,
            )
        &&& forall|k: int|
            0 <= k < self.spec_acked().len() && #[trigger] self.spec_acked()[k]
                ==> self.spec_last_sent()[k] is Some
        &&& self.spec_window().len() > 0 ==> !self.spec_acked()[0]
        &&& self.spec_packets_ack() == self.spec_base() + count_acked(self.spec_acked())
        &&& self.spec_packets_ack() <= self.spec_packets_total()
        &&& self.spec_packets_send() == self.spec_base() + count_sent(self.spec_last_sent())
            + self.spec_packets_resent()
    }

    pub closed spec fn inv(&self) -> bool {
        &&& self.window_size >= 1
        &&& self.packets_total == spec_total_packets(self.message@.len())
        &&& self.packets_total <= u32::MAX + 1
        &&& self.window_packets@.len() == self.acked@.len()
        &&& self.window_packets@.len() == self.last_sent@.len()
        &&& self.window_packets@.len() <= self.window_size
        &&& self.base + self.window_packets@.len() <= self.packets_total
        &&& forall|k: int|
            0 <= k < self.window_packets@.len() ==> is_segment(
                #[trigger] self.window_packets@[k],
                self.message@,
                (self.base + k) as nat,
            )
        &&& forall|k: int|
            0 <= k < self.acked@.len() && #[trigger] self.acked@[k] ==> self.last_sent@[k] is Some
        &&& self.acked@.len() > 0 ==> !self.acked@[0]
        &&& self.packets_ack == self.base + count_acked(self.acked@)
        &&& self.packets_send == self.base + count_sent(self.last_sent@) + self.packets_resent
    }

    proof fn lemma_wf(&self)
        requires
            self.inv(),
        ensures
            self.wf(),
    {
        lemma_count_le(self.acked@, |b: bool| b);
    }

    /// A sender with the given window size and retransmission timeout, and no
    /// message.
    pub fn new(window_size: u32, timeout: u64) -> (s: Self)
        requires
            window_size >= 1,
        ensures
            s.wf(),
            s.spec_window_size() == window_size,
            s.spec_timeout() == timeout,
            s.spec_base() == 0,
            s.spec_packets_send() == 0,
            s.spec_packets_ack() == 0,
            s.spec_packets_resent() == 0,
            s.spec_window().len() == 0,
            s.spec_message() == Seq::<u8>::empty(),
    {
        let s = Sender {
            window_size,
            timeout,
            base: 0,
            packets_total: total_packets(0),
            packets_send: 0,
            packets_ack: 0,
            packets_resent: 0,
            window_packets: Vec::new(),
            acked: Vec::new(),
            last_sent: Vec::new(),
            message: Vec::new(),
        };
        proof {
            assert(count_acked(s.acked@) == 0);
            assert(count_sent(s.last_sent@) == 0);
            s.lemma_wf();
        }
        s
    }

    /// Starts sending `message`: cuts it into packets, empties the window and
    /// puts it at the first packet. The packets come out of `transmit`.
    pub fn send(&mut self, message: &str)
        requires
            old(self).wf(),
            spec_total_packets(message.spec_bytes().len()) <= u32::MAX + 1,
        ensures
            final(self).wf(),
            final(self).spec_window_size() == old(self).spec_window_size(),
            final(self).spec_timeout() == old(self).spec_timeout(),
            final(self).spec_message() == message.spec_bytes(),
            final(self).spec_packets_total() == spec_total_packets(message.spec_bytes().len()),
            final(self).spec_base() == 0,
            final(self).spec_window().len() == 0,
            final(self).spec_packets_send() == 0,
            final(self).spec_packets_ack() == 0,
            final(self).spec_packets_resent() == 0,
    {
        let bytes = message.as_bytes();
        let copy = copy_bytes(bytes);
        self.reset(copy);
    }

    fn reset(&mut self, message: Vec<u8>)
        requires
            old(self).wf(),
            spec_total_packets(message@.len()) <= u32::MAX + 1,
        ensures
            final(self).wf(),
            final(self).window_size == old(self).window_size,
            final(self).timeout == old(self).timeout,
            final(self).message@ == message@,
            final(self).base == 0,
            final(self).window_packets@.len() == 0,
            final(self).packets_send == 0,
            final(self).packets_ack == 0,
            final(self).packets_resent == 0,
    {
        self.packets_total = total_packets(message.len());
        self.message = message;
        self.base = 0;
        self.packets_send = 0;
        self.packets_ack = 0;
        self.packets_resent = 0;
        self.window_packets = Vec::new();
        self.acked = Vec::new();
        self.last_sent = Vec::new();
        assert(count_acked(self.acked@) == 0);
        assert(count_sent(self.last_sent@) == 0);
        proof {
            self.lemma_wf();
        }
    }

    /// End (exclusive) of the window.
    pub fn window_end(&self) -> (r: usize)
        requires
            self.wf(),
        ensures
            r == self.spec_window_end(),
    {
        if (self.base as u64) + (self.window_size as u64) <= self.packets_total as u64 {
            self.base + self.window_size as usize
        } else {
            self.packets_total
        }
    }

    /// Whether every packet of the message has been acknowledged.
    pub fn is_done(&self) -> (r: bool)
        requires
            self.wf(),
        ensures
            r == (self.spec_packets_ack() == self.spec_packets_total()),
            r ==> self.spec_base() == self.spec_packets_total() && self.spec_window().len() == 0,
    {
        proof {
            if self.acked@.len() > 0 {
                lemma_count_le(self.acked@.subrange(1, self.acked@.len() as int), |b: bool| b);
            }
        }
        self.packets_ack == self.packets_total
    }

    /// Extends the window with the packets that follow it, up to its end;
    /// they start unacknowledged and never transmitted.
    pub fn prepare_packets(&mut self)
        requires
            old(self).wf(),
        ensures
            final(self).wf(),
            final(self).spec_window_size() == old(self).spec_window_size(),
            final(self).spec_timeout() == old(self).spec_timeout(),
            final(self).spec_message() == old(self).spec_message(),
            final(self).spec_packets_total() == old(self).spec_packets_total(),
            final(self).spec_base() == old(self).spec_base(),
            final(self).spec_packets_send() == old(self).spec_packets_send(),
            final(self).spec_packets_ack() == old(self).spec_packets_ack(),
            final(self).spec_packets_resent() == old(self).spec_packets_resent(),
            final(self).spec_window().len() == old(self).spec_window_end() - old(
                self,
            ).spec_base(),
            final(self).spec_window().subrange(0, old(self).spec_window().len() as int) == old(
                self,
            ).spec_window(),
            final(self).spec_acked() == old(self).spec_acked() + Seq::new(
                (final(self).spec_window().len() - old(self).spec_window().len()) as nat,
                |k: int| false,
            ),
            final(self).spec_last_sent() == old(self).spec_last_sent() + Seq::new(
                (final(self).spec_window().len() - old(self).spec_window().len()) as nat,
                |k: int| None::<u64>,
            ),
            forall|k: int|
                old(self).spec_window().len() <= k < final(self).spec_window().len() ==> is_segment(
                    #[trigger] final(self).spec_window()[k],
                    final(self).spec_message(),
                    (final(self).spec_base() + k) as nat,
                ),
    {
        let end = self.window_end();
        let ghost old_len = self.window_packets@.len();
        while self.base + self.window_packets.len() < end
            invariant
                self.inv(),
                end == old(self).spec_window_end(),
                self.window_size == old(self).window_size,
                self.timeout == old(self).timeout,
                self.message@ == old(self).message@,
                self.packets_total == old(self).packets_total,
                self.base == old(self).base,
                self.packets_send == old(self).packets_send,
                self.packets_ack == old(self).packets_ack,
                self.packets_resent == old(self).packets_resent,
                old_len == old(self).window_packets@.len(),
                old_len <= self.window_packets@.len(),
                self.base + self.window_packets@.len() <= end,
                self.window_packets@.subrange(0, old_len as int) == old(self).window_packets@,
                self.acked@ == old(self).acked@ + Seq::new(
                    (self.window_packets@.len() - old_len) as nat,
                    |k: int| false,
                ),
                self.last_sent@ == old(self).last_sent@ + Seq::new(
                    (self.window_packets@.len() - old_len) as nat,
                    |k: int| None::<u64>,
                ),
            decreases end - self.base - self.window_packets@.len(),
        {
            let number = self.base + self.window_packets.len();
            let p = segment(self.message.as_slice(), number);
            let ghost w = self.window_packets@;
            let ghost a = self.acked@;
            let ghost l = self.last_sent@;
            self.window_packets.push(p);
            self.acked.push(false);
            self.last_sent.push(None);
            proof {
                lemma_count_push(a, |b: bool| b, false);
                lemma_count_push(l, |o: Option<u64>| o is Some, None);
                assert(self.window_packets@.subrange(0, old_len as int) =~= w.subrange(
                    0,
                    old_len as int,
                ));
                assert(self.acked@ =~= old(self).acked@ + Seq::new(
                    (self.window_packets@.len() - old_len) as nat,
                    |k: int| false,
                ));
                assert(self.last_sent@ =~= old(self).last_sent@ + Seq::new(
                    (self.window_packets@.len() - old_len) as nat,
                    |k: int| None::<u64>,
                ));
                assert forall|k: int|
                    0 <= k < self.window_packets@.len() implies is_segment(
                    #[trigger] self.window_packets@[k],
                    self.message@,
                    (self.base + k) as nat,
                ) by {
                    if k < w.len() {
                        assert(self.window_packets@[k] == w[k]);
                    }
                }
                assert forall|k: int|
                    0 <= k < self.acked@.len() && #[trigger] self.acked@[k] implies self.last_sent@[k] is Some by {
                    assert(k < a.len());
                    assert(self.acked@[k] == a[k]);
                }
            }
        }
        proof {
            self.lemma_wf();
        }
    }

    /// (Re)transmits every packet of the window that is due at `now`, in
    /// order, and records `now` as its last transmission.
    pub fn transmit(&mut self, now: u64) -> (r: Vec<Packet>)
        requires
            old(self).wf(),
            old(self).spec_packets_send() + old(self).spec_window().len() <= usize::MAX,
        ensures
            final(self).wf(),
            final(self).spec_window_size() == old(self).spec_window_size(),
            final(self).spec_timeout() == old(self).spec_timeout(),
            final(self).spec_message() == old(self).spec_message(),
            final(self).spec_packets_total() == old(self).spec_packets_total(),
            final(self).spec_base() == old(self).spec_base(),
            final(self).spec_packets_ack() == old(self).spec_packets_ack(),
            final(self).spec_window() == old(self).spec_window(),
            final(self).spec_acked() == old(self).spec_acked(),
            ({
                let idx = spec_due_indices(
                    old(self).spec_acked(),
                    old(self).spec_last_sent(),
                    now,
                    old(self).spec_timeout(),
                    old(self).spec_window().len(),
                );
                &&& r@.len() == idx.len()
                &&& forall|j: int|
                    0 <= j < idx.len() ==> same_packet(
                        #[trigger] r@[j],
                        old(self).spec_window()[idx[j]],
                    )
                &&& final(self).spec_packets_send() == old(self).spec_packets_send() + idx.len()
            }),
            forall|j: int|
                0 <= j < r@.len() ==> {
                    &&& is_segment(#[trigger] r@[j], old(self).spec_message(), r@[j].number as nat)
                    &&& old(self).spec_base() <= r@[j].number < old(self).spec_base() + old(
                        self,
                    ).spec_window().len()
                },
            final(self).spec_last_sent() == Seq::new(
                old(self).spec_last_sent().len(),
                |k: int|
                    if is_due(
                        old(self).spec_acked()[k],
                        old(self).spec_last_sent()[k],
                        now,
                        old(self).spec_timeout(),
                    ) {
                        Some(now)
                    } else {
                        old(self).spec_last_sent()[k]
                    },
            ),
            final(self).spec_packets_resent() + count_sent(final(self).spec_last_sent())
                == old(self).spec_packets_resent() + count_sent(old(self).spec_last_sent())
                + (final(self).spec_packets_send() - old(self).spec_packets_send()),
    {
        let mut packets: Vec<Packet> = Vec::new();
        let mut k: usize = 0;
        let ghost old_last = self.last_sent@;
        while k < self.window_packets.len()
            invariant
                self.inv(),
                self.window_size == old(self).window_size,
                self.timeout == old(self).timeout,
                self.message@ == old(self).message@,
                self.packets_total == old(self).packets_total,
                self.base == old(self).base,
                self.packets_ack == old(self).packets_ack,
                self.window_packets@ == old(self).window_packets@,
                self.acked@ == old(self).acked@,
                old_last == old(self).last_sent@,
                k <= self.window_packets@.len(),
                old(self).packets_send + self.window_packets@.len() <= usize::MAX,
                packets@.len() == spec_due_indices(
                    self.acked@,
                    old_last,
                    now,
                    self.timeout,
                    k as nat,
                ).len(),
                packets@.len() <= k,
                forall|j: int|
                    0 <= j < packets@.len() ==> same_packet(
                        #[trigger] packets@[j],
                        self.window_packets@[spec_due_indices(
                            self.acked@,
                            old_last,
                            now,
                            self.timeout,
                            k as nat,
                        )[j]],
                    ),
                forall|j: int|
                    0 <= j < spec_due_indices(
                        self.acked@,
                        old_last,
                        now,
                        self.timeout,
                        k as nat,
                    ).len() ==> 0 <= #[trigger] spec_due_indices(
                        self.acked@,
                        old_last,
                        now,
                        self.timeout,
                        k as nat,
                    )[j] < k,
                self.packets_send == old(self).packets_send + packets@.len(),
                self.last_sent@.len() == old_last.len(),
                forall|j: int|
                    0 <= j < old_last.len() ==> #[trigger] self.last_sent@[j] == if j < k
                        && is_due(self.acked@[j], old_last[j], now, self.timeout) {
                        Some(now)
                    } else {
                        old_last[j]
                    },
                self.packets_resent + count_sent(self.last_sent@) == old(self).packets_resent
                    + count_sent(old_last) + packets@.len(),
            decreases self.window_packets@.len() - k,
        {
            let ghost idx = spec_due_indices(self.acked@, old_last, now, self.timeout, k as nat);
            let acked = self.acked[k];
            let last = self.last_sent[k];
            let due = !acked && match last {
                None => true,
                Some(t) => now >= t && now - t > self.timeout,
            };
            if due {
                packets.push(self.window_packets[k].duplicate());
                let ghost l = self.last_sent@;
                proof {
                    lemma_count_update(l, |o: Option<u64>| o is Some, k as int, Some(now));
                }
                match last {
                    Some(_) => {
                        self.packets_resent = self.packets_resent + 1;
                    },
                    None => {},
                }
                self.last_sent.set(k, Some(now));
                self.packets_send = self.packets_send + 1;
            }
            k = k + 1;
            proof {
                let idx2 = spec_due_indices(self.acked@, old_last, now, self.timeout, k as nat);
                assert(idx2 == if due {
                    idx.push((k - 1) as int)
                } else {
                    idx
                });
                assert forall|j: int| 0 <= j < packets@.len() implies same_packet(
                    #[trigger] packets@[j],
                    self.window_packets@[idx2[j]],
                ) by {
                    if j < idx.len() {
                        assert(idx2[j] == idx[j]);
                    }
                }
            }
        }
        proof {
            let idx = spec_due_indices(self.acked@, old_last, now, self.timeout, k as nat);
            assert forall|j: int| 0 <= j < packets@.len() implies {
                &&& is_segment(#[trigger] packets@[j], self.message@, packets@[j].number as nat)
                &&& self.base <= packets@[j].number < self.base + self.window_packets@.len()
            } by {
                assert(0 <= idx[j] < k);
                assert(is_segment(self.window_packets@[idx[j]], self.message@, (self.base + idx[j]) as nat));
            }
            assert(self.last_sent@ =~= Seq::new(
                old_last.len(),
                |k: int|
                    if is_due(self.acked@[k], old_last[k], now, self.timeout) {
                        Some(now)
                    } else {
                        old_last[k]
                    },
            ));
            self.lemma_wf();
        }
        packets
    }

    /// Takes an acknowledgment. One for a packet of the window that was
    /// transmitted and is not yet acknowledged marks it; any other is ignored.
    /// The window then slides past the acknowledged packets at its start.
    pub fn handle_ack(&mut self, number: u32)
        requires
            old(self).wf(),
        ensures
            final(self).wf(),
            final(self).spec_window_size() == old(self).spec_window_size(),
            final(self).spec_timeout() == old(self).spec_timeout(),
            final(self).spec_message() == old(self).spec_message(),
            final(self).spec_packets_total() == old(self).spec_packets_total(),
            final(self).spec_packets_send() == old(self).spec_packets_send(),
            final(self).spec_packets_resent() == old(self).spec_packets_resent(),
            ({
                let len = old(self).spec_window().len();
                let i = number - old(self).spec_base();
                let fresh = old(self).spec_base() <= number < old(self).spec_base() + len
                    && !old(self).spec_acked()[i] && old(self).spec_last_sent()[i] is Some;
                let marked = if fresh {
                    old(self).spec_acked().update(i, true)
                } else {
                    old(self).spec_acked()
                };
                let n = spec_run(marked, 0, len);
                &&& final(self).spec_packets_ack() == old(self).spec_packets_ack() + if fresh {
                    1nat
                } else {
                    0nat
                }
                &&& final(self).spec_base() == old(self).spec_base() + n
                &&& final(self).spec_window() == old(self).spec_window().subrange(
                    n as int,
                    len as int,
                )
                &&& final(self).spec_acked() == marked.subrange(n as int, len as int)
                &&& final(self).spec_last_sent() == old(self).spec_last_sent().subrange(
                    n as int,
                    len as int,
                )
                &&& !fresh ==> {
                    &&& final(self).spec_base() == old(self).spec_base()
                    &&& final(self).spec_packets_ack() == old(self).spec_packets_ack()
                    &&& final(self).spec_window() == old(self).spec_window()
                    &&& final(self).spec_acked() == old(self).spec_acked()
                    &&& final(self).spec_last_sent() == old(self).spec_last_sent()
                }
            }),
            final(self).spec_base() >= old(self).spec_base(),
            final(self).spec_acked().len() == final(self).spec_window().len(),
            final(self).spec_last_sent().len() == final(self).spec_window().len(),
            final(self).spec_window().len() > 0 ==> !final(self).spec_acked()[0],
            final(self).spec_packets_ack() <= final(self).spec_packets_total(),
    {
        let len = self.window_packets.len();
        let ghost l0 = self.last_sent@;
        let ghost a0 = self.acked@;
        let ghost w0 = self.window_packets@;
        let n = number as usize;
        proof {
            lemma_count_le(a0, |b: bool| b);
        }
        if self.base <= n && n < self.base + len {
            let i = n - self.base;
            if !self.acked[i] && self.last_sent[i].is_some() {
                proof {
                    lemma_count_update(a0, |b: bool| b, i as int, true);
                    lemma_count_le(a0.update(i as int, true), |b: bool| b);
                }
                self.acked.set(i, true);
                self.packets_ack = self.packets_ack + 1;
            }
        }
        let ghost marked = self.acked@;
        let ghost base0 = self.base;
        let ghost ack0 = self.packets_ack;
        proof {
            lemma_run_bounds(marked, 0, len as nat);
            lemma_count_drop(marked, |b: bool| b, spec_run(marked, 0, len as nat) as int);
            assert forall|j: int| 0 <= j < spec_run(marked, 0, len as nat) implies (|o: Option<
                u64,
            >| o is Some)(#[trigger] l0[j]) by {
                assert(marked[j]);
            }
            lemma_count_drop(l0, |o: Option<u64>| o is Some, spec_run(marked, 0, len as nat) as int);
        }
        let mut k: usize = 0;
        while self.acked.len() > 0 && self.acked[0]
            invariant
                k <= len,
                len == w0.len(),
                len == marked.len(),
                len == l0.len(),
                self.window_size == old(self).window_size,
                self.timeout == old(self).timeout,
                self.message@ == old(self).message@,
                self.packets_total == old(self).packets_total,
                self.packets_send == old(self).packets_send,
                self.packets_resent == old(self).packets_resent,
                self.base == base0 + k,
                base0 + len <= self.packets_total,
                self.packets_ack == ack0,
                self.window_packets@ == w0.subrange(k as int, len as int),
                self.acked@ == marked.subrange(k as int, len as int),
                self.last_sent@ == l0.subrange(k as int, len as int),
                spec_run(marked, k as nat, len as nat) == spec_run(marked, 0, len as nat),
            decreases len - k,
        {
            self.window_packets.remove(0);
            self.acked.remove(0);
            self.last_sent.remove(0);
            self.base = self.base + 1;
            k = k + 1;
            assert(self.window_packets@ =~= w0.subrange(k as int, len as int));
            assert(self.acked@ =~= marked.subrange(k as int, len as int));
            assert(self.last_sent@ =~= l0.subrange(k as int, len as int));
        }
        proof {
            assert(k == spec_run(marked, 0, len as nat));
            if k == 0 {
                assert(w0.subrange(0, len as int) =~= w0);
                assert(marked.subrange(0, len as int) =~= marked);
                assert(l0.subrange(0, len as int) =~= l0);
            }
            assert forall|j: int|
                0 <= j < self.window_packets@.len() implies is_segment(
                #[trigger] self.window_packets@[j],
                self.message@,
                (self.base + j) as nat,
            ) by {
                assert(self.window_packets@[j] == w0[j + k]);
            }
            assert forall|j: int|
                0 <= j < self.acked@.len() && #[trigger] self.acked@[j] implies self.last_sent@[j] is Some by {
                assert(self.acked@[j] == marked[j + k]);
                assert(self.last_sent@[j] == l0[j + k]);
            }
            self.lemma_wf();
        }
    }

    /// Transmissions so far, retransmissions included.
    pub fn packets_send(&self) -> (r: usize)
        ensures
            r == self.spec_packets_send(),
    {
        self.packets_send
    }

    /// Packets acknowledged so far.
    pub fn packets_ack(&self) -> (r: usize)
        ensures
            r == self.spec_packets_ack(),
    {
        self.packets_ack
    }

    /// Transmissions of a packet that had been transmitted before.
    pub fn packets_resent(&self) -> (r: usize)
        ensures
            r == self.spec_packets_resent(),
    {
        self.packets_resent
    }

    /// Number of packets of the current message.
    pub fn packets_total(&self) -> (r: usize)
        ensures
            r == self.spec_packets_total(),
    {
        self.packets_total
    }

    /// Oldest packet not yet acknowledged.
    pub fn base(&self) -> (r: usize)
        ensures
            r == self.spec_base(),
    {
        self.base
    }

    /// Once the message is acknowledged, it was transmitted at least once per
    /// packet, and exactly once per packet unless a packet was retransmitted.
    pub proof fn lemma_efficiency(&self)
        requires
            self.wf(),
            self.spec_packets_ack() == self.spec_packets_total(),
        ensures
            self.spec_packets_total() <= self.spec_packets_send(),
            self.spec_packets_send() == self.spec_packets_total() + self.spec_packets_resent(),
            self.spec_packets_resent() > 0 <==> self.spec_packets_total()
                < self.spec_packets_send(),
    {
        lemma_acked_le_sent(self.acked@, self.last_sent@);
        lemma_count_le(self.last_sent@, |o: Option<u64>| o is Some);
    }
}

/// Number of consecutive keys present in `buf` from `e` on.
pub open spec fn spec_drain_len(buf: Map<u32, Packet>, e: nat) -> nat
    decreases u32::MAX + 1 - e,
{
    if e <= u32::MAX && buf.contains_key(e as u32) {
        1 + spec_drain_len(buf, e + 1)
    } else {
        0
    }
}

/// Payloads of the packets `buf` holds at keys `[e, e + n)`, joined in order.
pub open spec fn spec_drain_bytes(buf: Map<u32, Packet>, e: nat, n: nat) -> Seq<u8>
    decreases n,
{
    if n == 0 {
        Seq::empty()
    } else {
        spec_drain_bytes(buf, e, (n - 1) as nat) + buf[(e + n - 1) as u32].data@
    }
}

/// Whether one of the packets `buf` holds at keys `[e, e + n)` is marked `End`.
pub open spec fn spec_drain_ends(buf: Map<u32, Packet>, e: nat, n: nat) -> bool
    decreases n,
{
    n > 0 && (spec_drain_ends(buf, e, (n - 1) as nat) || buf[(e + n - 1) as u32].state
        == PacketState::End)
}

/// Keys `[e, e + n)`.
pub open spec fn spec_key_range(e: nat, n: nat) -> Set<u32> {
    Set::new(|k: u32| e <= k < e + n)
}

/// Selective-Repeat reader: acknowledges every packet of its window, buffers
/// those that come early, and delivers in order.
pub struct Reader {
    expected_number: u64,
    window_size: u32,
    buffer: BTreeMap<u32, Packet>,
    data: Vec<u8>,
    finished: bool,
}

impl Reader {
    /// Next sequence number to deliver.
    pub closed spec fn spec_expected(&self) -> nat {
        self.expected_number as nat
    }

    /// Number of sequence numbers, from the expected one on, that are accepted.
    pub closed spec fn spec_window_size(&self) -> nat {
        self.window_size as nat
    }

    /// Packets received early, by sequence number.
    pub closed spec fn spec_buffer(&self) -> Map<u32, Packet> {
        self.buffer@
    }

    /// Bytes delivered so far, in order.
    pub closed spec fn spec_data(&self) -> Seq<u8> {
        self.data@
    }

    /// Whether the packet marked `End` has been delivered.
    pub closed spec fn spec_finished(&self) -> bool {
        self.finished
    }

    pub closed spec fn wf(&self) -> bool {
        &&& self.expected_number <= u32::MAX + 1
        &&& self.expected_number <= u32::MAX ==> !self.buffer@.contains_key(
            self.expected_number as u32,
        )
    }

    /// A reader with the given window size that expects packet 0.
    pub fn new(window_size: u32) -> (r: Self)
        ensures
            r.wf(),
            r.spec_expected() == 0,
            r.spec_window_size() == window_size,
            r.spec_buffer() == Map::<u32, Packet>::empty(),
            r.spec_data() == Seq::<u8>::empty(),
            !r.spec_finished(),
    {
        Reader {
            expected_number: 0,
            window_size,
            buffer: BTreeMap::new(),
            data: Vec::new(),
            finished: false,
        }
    }

    /// End (exclusive) of the receive window.
    pub fn window_end(&self) -> (r: u64)
        requires
            self.wf(),
        ensures
            r == self.spec_expected() + self.spec_window_size(),
    {
        self.expected_number + self.window_size as u64
    }

    fn has_next(&self) -> (r: bool)
        ensures
            r == (self.expected_number <= u32::MAX && self.buffer@.contains_key(
                self.expected_number as u32,
            )),
    {
        broadcast use vstd::std_specs::btree::group_btree_axioms;

        self.expected_number <= u32::MAX as u64 && self.buffer.contains_key(
            &(self.expected_number as u32),
        )
    }

    /// Takes one packet and returns the acknowledgment to send back, if any.
    /// An older packet is acknowledged again and changes nothing; one at or
    /// past the end of the window is dropped unacknowledged. A packet of the
    /// window is acknowledged; if it is not yet buffered it fails with
    /// `ProtocolViolation` where its position disagrees with its number
    /// (`Begin` exactly for packet 0), and is buffered otherwise. Then the
    /// buffered run from the expected number on is delivered in order.
    pub fn receive(&mut self, packet: Packet) -> (r: Result<Option<u32>, ReadError>)
        requires
            old(self).wf(),
            packet.wf(),
        ensures
            final(self).wf(),
            final(self).spec_window_size() == old(self).spec_window_size(),
            packet.number < old(self).spec_expected() ==> r == Ok::<Option<u32>, ReadError>(
                Some(packet.number),
            ) && *final(self) == *old(self),
            old(self).spec_expected() <= packet.number < old(self).spec_expected() + old(
                self,
            ).spec_window_size() && old(self).spec_buffer().contains_key(packet.number) ==> {
                &&& r == Ok::<Option<u32>, ReadError>(Some(packet.number))
                &&& final(self).spec_expected() == old(self).spec_expected()
                &&& final(self).spec_data() == old(self).spec_data()
                &&& final(self).spec_buffer() == old(self).spec_buffer()
                &&& final(self).spec_finished() == old(self).spec_finished()
            },
            packet.number >= old(self).spec_expected() + old(self).spec_window_size() ==> r
                == Ok::<Option<u32>, ReadError>(None) && *final(self) == *old(self),
            old(self).spec_expected() <= packet.number < old(self).spec_expected() + old(
                self,
            ).spec_window_size() ==> {
                let known = old(self).spec_buffer().contains_key(packet.number);
                if !known && (packet.number == 0) != (packet.state == PacketState::Begin) {
                    r == Err::<Option<u32>, ReadError>(ReadError::ProtocolViolation)
                        && *final(self) == *old(self)
                } else {
                    let buf = if known {
                        old(self).spec_buffer()
                    } else {
                        old(self).spec_buffer().insert(packet.number, packet)
                    };
                    let e = old(self).spec_expected();
                    let n = spec_drain_len(buf, e);
                    &&& r == Ok::<Option<u32>, ReadError>(Some(packet.number))
                    &&& final(self).spec_expected() == e + n
                    &&& final(self).spec_data() == old(self).spec_data() + spec_drain_bytes(
                        buf,
                        e,
                        n,
                    )
                    &&& final(self).spec_buffer() == buf.remove_keys(spec_key_range(e, n))
                    &&& final(self).spec_finished() == (old(self).spec_finished()
                        || spec_drain_ends(buf, e, n))
                }
            },
    {
        broadcast use vstd::std_specs::btree::group_btree_axioms;

        let number = packet.number;
        if (number as u64) < self.expected_number {
            return Ok(Some(number));
        }
        if number as u64 >= self.window_end() {
            return Ok(None);
        }
        if !self.buffer.contains_key(&number) {
            let is_begin = match packet.state {
                PacketState::Begin => true,
                _ => false,
            };
            if (number == 0) != is_begin {
                return Err(ReadError::ProtocolViolation);
            }
            self.buffer.insert(number, packet);
        }
        let ghost buf = self.buffer@;
        let ghost e0 = self.expected_number as nat;
        proof {
            if old(self).buffer@.contains_key(number) {
                assert(buf == old(self).buffer@);
                assert(spec_drain_len(buf, e0) == 0);
                assert(spec_drain_bytes(buf, e0, 0) =~= Seq::<u8>::empty());
                assert(buf.remove_keys(spec_key_range(e0, 0)) =~= buf);
            }
        }
        let ghost d0 = self.data@;
        let ghost f0 = self.finished;
        proof {
            assert(buf.remove_keys(spec_key_range(e0, 0)) =~= buf);
        }
        while self.has_next()
            invariant
                self.expected_number <= u32::MAX + 1,
                self.window_size == old(self).window_size,
                e0 <= self.expected_number,
                self.buffer@ == buf.remove_keys(spec_key_range(e0, (self.expected_number - e0) as nat)),
                self.data@ == d0 + spec_drain_bytes(buf, e0, (self.expected_number - e0) as nat),
                self.finished == (f0 || spec_drain_ends(buf, e0, (self.expected_number - e0) as nat)),
                spec_drain_len(buf, e0) == (self.expected_number - e0) + spec_drain_len(
                    buf,
                    self.expected_number as nat,
                ),
            decreases u32::MAX + 1 - self.expected_number,
        {
            let key = self.expected_number as u32;
            let ghost k = (self.expected_number - e0) as nat;
            let removed = self.buffer.remove(&key);
            match removed {
                Some(p) => {
                    assert(p == buf[key]);
                    append_bytes(&mut self.data, p.data.as_slice());
                    match p.state {
                        PacketState::End => {
                            self.finished = true;
                        },
                        _ => {},
                    }
                    self.expected_number = self.expected_number + 1;
                    proof {
                        assert(self.data@ =~= d0 + spec_drain_bytes(buf, e0, k + 1));
                        assert(self.buffer@ =~= buf.remove_keys(spec_key_range(e0, k + 1)));
                    }
                },
                None => {},
            }
        }
        Ok(Some(number))
    }

    /// Whether the whole message has been delivered.
    pub fn is_complete(&self) -> (r: bool)
        ensures
            r == self.spec_finished(),
    {
        self.finished
    }

    /// Next sequence number to deliver.
    pub fn expected_number(&self) -> (r: u64)
        ensures
            r == self.spec_expected(),
    {
        self.expected_number
    }

    /// The whole message, once delivered, decoded as text.
    pub fn read(&self) -> (r: Result<String, ReadError>)
        requires
            self.spec_finished(),
        ensures
            r is Ok <==> valid_utf8(self.spec_data()),
            r matches Ok(s) ==> s@ == decode_utf8(self.spec_data()),
            r matches Err(e) ==> e == ReadError::EncodingError,
    {
        decode_message(copy_bytes(self.data.as_slice()))
    }
}

/// `buf` holds, at each of its keys, that packet of `msg`.
pub open spec fn holds_segments(buf: Map<u32, Packet>, msg: Seq<u8>) -> bool {
    forall|k: u32| #[trigger] buf.contains_key(k) ==> is_segment(buf[k], msg, k as nat)
}

proof fn lemma_drain_len_facts(buf: Map<u32, Packet>, e: nat, total: nat)
    requires
        e <= total <= u32::MAX + 1,
        forall|k: u32| #[trigger] buf.contains_key(k) ==> k < total,
    ensures
        e + spec_drain_len(buf, e) <= total,
        forall|j: nat|
            j < spec_drain_len(buf, e) ==> #[trigger] buf.contains_key((e + j) as u32),
        e + spec_drain_len(buf, e) <= u32::MAX ==> !buf.contains_key(
            (e + spec_drain_len(buf, e)) as u32,
        ),
    decreases u32::MAX + 1 - e,
{
    if e <= u32::MAX && buf.contains_key(e as u32) {
        lemma_drain_len_facts(buf, e + 1, total);
        assert forall|j: nat| j < spec_drain_len(buf, e) implies #[trigger] buf.contains_key(
            (e + j) as u32,
        ) by {
            if j > 0 {
                let i = (j - 1) as nat;
                assert(buf.contains_key(((e + 1) + i) as u32));
            }
        }
    }
}

proof fn lemma_drain_bytes(buf: Map<u32, Packet>, msg: Seq<u8>, e: nat, m: nat)
    requires
        forall|j: nat| j < m ==> #[trigger] buf.contains_key((e + j) as u32),
        holds_segments(buf, msg),
        e + m <= u32::MAX + 1,
    ensures
        spec_assembled(msg, e) + spec_drain_bytes(buf, e, m) == spec_assembled(msg, e + m),
    decreases m,
{
    if m > 0 {
        lemma_drain_bytes(buf, msg, e, (m - 1) as nat);
        let k = (e + m - 1) as u32;
        assert(buf.contains_key((e + (m - 1) as nat) as u32));
        assert(is_segment(buf[k], msg, k as nat));
        assert(spec_assembled(msg, e) + spec_drain_bytes(buf, e, m) =~= spec_assembled(
            msg,
            e + m,
        ));
    } else {
        assert(spec_assembled(msg, e) + spec_drain_bytes(buf, e, m) =~= spec_assembled(msg, e));
    }
}

proof fn lemma_drain_ends(buf: Map<u32, Packet>, msg: Seq<u8>, e: nat, m: nat, total: nat)
    requires
        forall|j: nat| j < m ==> #[trigger] buf.contains_key((e + j) as u32),
        holds_segments(buf, msg),
        total == spec_total_packets(msg.len()),
        e + m <= total <= u32::MAX + 1,
    ensures
        spec_drain_ends(buf, e, m) == (m > 0 && e + m == total),
    decreases m,
{
    if m > 0 {
        lemma_drain_ends(buf, msg, e, (m - 1) as nat, total);
        let k = (e + m - 1) as u32;
        assert(buf.contains_key((e + (m - 1) as nat) as u32));
        assert(is_segment(buf[k], msg, k as nat));
    }
}

/// What a sender and a reader that carry `msg` between them keep true of each
/// other: the reader holds the message up to its expected number and only
/// true packets beyond it, and every packet the sender counts as
/// acknowledged has reached the reader.
spec fn linked(sender: Sender, reader: Reader, msg: Seq<u8>, total: nat, window_size: u32) -> bool {
    &&& sender.wf()
    &&& reader.wf()
    &&& total == spec_total_packets(msg.len())
    &&& total <= u32::MAX + 1
    &&& total + window_size <= usize::MAX
    &&& sender.spec_window_size() == window_size
    &&& sender.spec_timeout() == 0
    &&& sender.spec_message() == msg
    &&& sender.spec_packets_total() == total
    &&& reader.spec_window_size() == window_size
    &&& reader.spec_expected() <= total
    &&& reader.spec_data() == spec_assembled(msg, reader.spec_expected())
    &&& reader.spec_finished() == (reader.spec_expected() == total)
    &&& holds_segments(reader.spec_buffer(), msg)
    &&& forall|k: u32|
        #[trigger] reader.spec_buffer().contains_key(k) ==> reader.spec_expected() < k < total
    &&& sender.spec_base() <= reader.spec_expected()
    &&& forall|i: int|
        0 <= i < sender.spec_acked().len() && #[trigger] sender.spec_acked()[i] ==> (
        sender.spec_base() + i < reader.spec_expected() || reader.spec_buffer().contains_key(
            (sender.spec_base() + i) as u32,
        ))
}

/// On a lossless link, before delivering packet `n`: both ends stand at `n`,
/// nothing is buffered, and the window holds transmitted, unacknowledged
/// packets only.
spec fn in_step(sender: Sender, reader: Reader, n: nat) -> bool {
    &&& reader.spec_expected() == n
    &&& sender.spec_base() == n
    &&& reader.spec_buffer() == Map::<u32, Packet>::empty()
    &&& forall|i: int|
        0 <= i < sender.spec_window().len() ==> !#[trigger] sender.spec_acked()[i]
            && sender.spec_last_sent()[i] is Some
}

/// Passes packet `p` through the link to the reader, and its acknowledgment,
/// if any, back through the link to the sender.
#[verifier::rlimit(100)]
fn deliver(
    sender: &mut Sender,
    reader: &mut Reader,
    link: &LossModel,
    p: Packet,
    msg: Ghost<Seq<u8>>,
    total: Ghost<nat>,
    window_size: Ghost<u32>,
) -> (res: Result<(), ReadError>)
    requires
        linked(*old(sender), *old(reader), msg@, total@, window_size@),
        link.wf(),
        is_segment(p, msg@, p.number as nat),
        p.number < total@,
    ensures
        res is Ok,
        linked(*final(sender), *final(reader), msg@, total@, window_size@),
        final(sender).spec_packets_resent() == old(sender).spec_packets_resent(),
        link.spec_loss() == 0 && in_step(*old(sender), *old(reader), p.number as nat)
            && old(sender).spec_window().len() >= 1 ==> {
            &&& in_step(*final(sender), *final(reader), (p.number + 1) as nat)
            &&& final(sender).spec_window().len() == old(sender).spec_window().len() - 1
        },
{
    let ghost msg = msg@;
    let ghost total = total@;
    let ghost e = reader.spec_expected();
    let ghost buf0 = reader.spec_buffer();
    let ghost in_window = e <= p.number < e + reader.spec_window_size();
    let ghost known = buf0.contains_key(p.number);
    let ghost buf = if known || !in_window {
        buf0
    } else {
        buf0.insert(p.number, p)
    };
    let ghost lossless = link.spec_loss() == 0 && in_step(*sender, *reader, p.number as nat)
        && sender.spec_window().len() >= 1;
    proof {
        assert forall|k: u32| #[trigger] buf.contains_key(k) implies e <= k < total && is_segment(
            buf[k],
            msg,
            k as nat,
        ) by {
            if k != p.number || known || !in_window {
                assert(buf0.contains_key(k));
            }
        }
        lemma_drain_len_facts(buf, e, total);
        lemma_drain_bytes(buf, msg, e, spec_drain_len(buf, e));
        lemma_drain_ends(buf, msg, e, spec_drain_len(buf, e), total);
        if lossless {
            assert(buf =~= Map::<u32, Packet>::empty().insert(p.number, p));
            if e + 1 <= u32::MAX {
                assert(!buf.contains_key((e + 1) as u32));
            }
            assert(spec_drain_len(buf, e + 1) == 0);
            assert(spec_drain_len(buf, e) == 1);
            assert(buf.remove_keys(spec_key_range(e, 1)) =~= Map::<u32, Packet>::empty());
        }
    }
    if link.drops() {
        return Ok(());
    }
    let number = p.number;
    match reader.receive(p) {
        Ok(Some(ack)) => {
            proof {
                let e2 = reader.spec_expected();
                assert forall|k: u32| #[trigger] reader.spec_buffer().contains_key(k) implies e2 < k
                    < total by {
                    assert(buf.contains_key(k));
                }
                assert forall|i: int|
                    0 <= i < sender.spec_acked().len() && #[trigger] sender.spec_acked()[i] implies (
                    sender.spec_base() + i < e2 || reader.spec_buffer().contains_key(
                        (sender.spec_base() + i) as u32,
                    )) by {
                    let x = (sender.spec_base() + i) as u32;
                    if !(sender.spec_base() + i < e) {
                        assert(buf0.contains_key(x));
                        assert(buf.contains_key(x));
                    }
                }
                if !(ack < e) {
                    assert(buf.contains_key(ack));
                }
                assert(ack < e2 || reader.spec_buffer().contains_key(ack));
            }
            if link.drops() {
                return Ok(());
            }
            let ghost sb = sender.spec_base();
            let ghost acked1 = sender.spec_acked();
            let ghost len1 = sender.spec_window().len();
            let ghost last1 = sender.spec_last_sent();
            sender.handle_ack(ack);
            proof {
                let e2 = reader.spec_expected();
                let i0 = ack - sb;
                let fresh = sb <= ack < sb + len1 && !acked1[i0] && last1[i0] is Some;
                let marked = if fresh {
                    acked1.update(i0, true)
                } else {
                    acked1
                };
                let run = spec_run(marked, 0, len1);
                lemma_run_bounds(marked, 0, len1);
                assert forall|k: int| 0 <= k < len1 && #[trigger] marked[k] implies (sb + k < e2
                    || reader.spec_buffer().contains_key((sb + k) as u32)) by {
                    if !(fresh && k == i0) {
                        assert(acked1[k]);
                    }
                }
                if sb + run > e2 {
                    let k0 = e2 - sb;
                    assert(marked[k0]);
                    assert(!reader.spec_buffer().contains_key(e2 as u32));
                }
                assert forall|i: int|
                    0 <= i < sender.spec_acked().len() && #[trigger] sender.spec_acked()[i] implies (
                    sender.spec_base() + i < e2 || reader.spec_buffer().contains_key(
                        (sender.spec_base() + i) as u32,
                    )) by {
                    assert(sender.spec_acked()[i] == marked[i + run]);
                }
                if lossless {
                    assert(fresh);
                    assert(marked[0]);
                    if len1 > 1 {
                        assert(!marked[1]);
                        assert(spec_run(marked, 1, len1) == 1);
                    }
                    assert(run == 1);
                    assert forall|i: int| 0 <= i < sender.spec_window().len() implies !#[trigger] sender.spec_acked()[i]
                        && sender.spec_last_sent()[i] is Some by {
                        assert(sender.spec_acked()[i] == marked[i + 1]);
                        assert(sender.spec_last_sent()[i] == last1[i + 1]);
                    }
                    assert(in_step(*sender, *reader, (e + 1) as nat));
                    assert(e == number);
                }
            }
        },
        Ok(None) => {},
        Err(e) => {
            return Err(e);
        },
    }
    Ok(())
}

/// Sends `message` from a Selective-Repeat sender to a reader, tick by tick,
/// over a link that drops each packet and each acknowledgment as `link`
/// decides. A tick extends the window, transmits the packets that are due,
/// delivers what the link lets through and returns the acknowledgments; a
/// packet whose acknowledgment did not come back is due again at the next
/// tick. Gives up with `TransferTimeout` after `max_ticks` ticks.
///
/// Whatever the link drops, a transfer that completes delivers the message
/// exactly; on a lossless link it completes within one tick per packet, with
/// no retransmission.
pub fn silent_setup_loss(window_size: u32, message: &str, link: &LossModel, max_ticks: u64) -> (r:
    Result<Transfer, TransferError>)
    requires
        window_size >= 1,
        link.wf(),
        spec_total_packets(message.spec_bytes().len()) <= u32::MAX + 1,
        spec_total_packets(message.spec_bytes().len()) + window_size <= usize::MAX,
    ensures
        r matches Ok(t) ==> {
            &&& t.message@ == message@
            &&& t.packets_total == spec_total_packets(message.spec_bytes().len())
            &&& t.packets_send == t.packets_total + t.packets_resent
        },
        r matches Err(e) ==> e == TransferError::Send(SendError::TransferTimeout),
        link.spec_loss() == 0 && max_ticks >= spec_total_packets(message.spec_bytes().len())
            ==> (r matches Ok(t) && t.packets_resent == 0),
{
    let ghost msg = message.spec_bytes();
    let ghost total = spec_total_packets(msg.len());
    let ghost lossless = link.spec_loss() == 0;
    let mut sender = Sender::new(window_size, 0);
    sender.send(message);
    let mut reader = Reader::new(window_size);
    let mut tick: u64 = 0;
    while !sender.is_done()
        invariant
            linked(sender, reader, msg, total, window_size),
            link.wf(),
            lossless == (link.spec_loss() == 0),
            msg == message.spec_bytes(),
            tick <= max_ticks,
            lossless ==> {
                &&& sender.spec_base() == reader.spec_expected()
                &&& sender.spec_window().len() == 0
                &&& reader.spec_buffer() == Map::<u32, Packet>::empty()
                &&& sender.spec_packets_resent() == 0
                &&& tick <= sender.spec_base()
            },
        decreases max_ticks - tick,
    {
        proof {
            if lossless {
                assert(count_acked(sender.spec_acked()) == 0);
                assert(count_sent(sender.spec_last_sent()) == 0);
            }
        }
        if tick >= max_ticks || sender.packets_send() > usize::MAX - window_size as usize {
            return Err(TransferError::Send(SendError::TransferTimeout));
        }
        sender.prepare_packets();
        let ghost b0 = sender.spec_base();
        let ghost len0 = sender.spec_window().len();
        proof {
            if lossless {
                assert forall|k: int| 0 <= k < len0 implies is_due(
                    #[trigger] sender.spec_acked()[k],
                    sender.spec_last_sent()[k],
                    tick,
                    0,
                ) by {
                    assert(sender.spec_acked()[k] == Seq::new(len0, |i: int| false)[k]);
                    assert(sender.spec_last_sent()[k] == Seq::new(len0, |i: int| None::<u64>)[k]);
                }
                lemma_due_all(sender.spec_acked(), sender.spec_last_sent(), tick, 0, len0);
                lemma_count_none(sender.spec_last_sent(), |o: Option<u64>| o is Some);
            }
        }
        let ghost w0 = sender.spec_window();
        let packets = sender.transmit(tick);
        proof {
            if lossless {
                lemma_count_all(sender.spec_last_sent(), |o: Option<u64>| o is Some);
                assert forall|k: int| 0 <= k < len0 implies #[trigger] packets@[k].number == b0 + k by {
                    assert(is_segment(w0[k], msg, (b0 + k) as nat));
                }
            }
        }
        tick = tick + 1;
        let mut j: usize = 0;
        while j < packets.len()
            invariant
                linked(sender, reader, msg, total, window_size),
                link.wf(),
                lossless == (link.spec_loss() == 0),
                msg == message.spec_bytes(),
                tick <= max_ticks,
                j <= packets@.len(),
                forall|k: int|
                    0 <= k < packets@.len() ==> is_segment(
                        #[trigger] packets@[k],
                        msg,
                        packets@[k].number as nat,
                    ) && packets@[k].number < total,
                lossless ==> {
                    &&& packets@.len() == len0
                    &&& len0 >= 1
                    &&& forall|k: int| 0 <= k < len0 ==> #[trigger] packets@[k].number == b0 + k
                    &&& in_step(sender, reader, (b0 + j) as nat)
                    &&& sender.spec_window().len() == len0 - j
                    &&& sender.spec_packets_resent() == 0
                    &&& tick <= b0 + 1
                },
            decreases packets@.len() - j,
        {
            let p = packets[j].duplicate();
            match deliver(&mut sender, &mut reader, link, p, Ghost(msg), Ghost(total), Ghost(window_size)) {
                Ok(()) => {},
                Err(e) => {
                    return Err(TransferError::Read(e));
                },
            }
            j = j + 1;
        }
    }
    proof {
        if sender.spec_window().len() > 0 {
            lemma_count_le(
                sender.spec_acked().subrange(1, sender.spec_acked().len() as int),
                |b: bool| b,
            );
        }
        lemma_count_le(sender.spec_acked(), |b: bool| b);
        lemma_segments_reassemble(msg);
        encode_utf8_valid_utf8(message@);
        encode_utf8_decode_utf8(message@);
        sender.lemma_efficiency();
    }
    match reader.read() {
        Ok(text) => Ok(
            Transfer {
                message: text,
                packets_total: sender.packets_total(),
                packets_send: sender.packets_send(),
                packets_resent: sender.packets_resent(),
            },
        ),
        Err(e) => Err(TransferError::Read(e)),
    }
}

/// Sends `message` over a lossless link. The transfer always completes and
/// delivers the message exactly, transmitting each packet once.
pub fn setup(window_size: u32, message: &str) -> (r: Result<Transfer, TransferError>)
    requires
        window_size >= 1,
        spec_total_packets(message.spec_bytes().len()) <= u32::MAX + 1,
        spec_total_packets(message.spec_bytes().len()) + window_size <= usize::MAX,
    ensures
        r matches Ok(t) && t.message@ == message@ && t.packets_total == spec_total_packets(
            message.spec_bytes().len(),
        ) && t.packets_send == t.packets_total,
{
    let ticks = total_packets(message.as_bytes().len()) as u64;
    silent_setup_loss(window_size, message, &LossModel::lossless(), ticks)
}

} // verus!
