//! Unreliable send and receive channels.
//!
//! The send half batches small messages into packets and splits oversized
//! messages into slices; the receive half reassembles slices and delivers
//! messages in packet order. Both halves enforce a per-channel memory
//! ceiling: a message (or slice reservation) that would push usage past
//! `max_memory_usage_bytes` is dropped silently.

use vstd::prelude::*;
use crate::byte_buf::{bytes_view, bytes_len, bytes_slice, bytes_as_slice, bytes_clone};
use crate::channel::{Packet, PacketView, ChannelError, SLICE_SIZE};
use crate::slice_constructor::{Slice, SliceConstructor, assembled, slice_len_ok};

verus! {

/// Sum of the lengths of the queued messages.
pub open spec fn total_len(q: Seq<Seq<u8>>) -> int
    decreases q.len(),
{
    if q.len() == 0 {
        0
    } else {
        total_len(q.drop_last()) + q.last().len()
    }
}

pub proof fn lemma_total_len_concat(a: Seq<Seq<u8>>, b: Seq<Seq<u8>>)
    ensures
        total_len(a + b) == total_len(a) + total_len(b),
    decreases b.len(),
{
    if b.len() == 0 {
        assert(a + b =~= a);
    } else {
        assert((a + b).drop_last() =~= a + b.drop_last());
        lemma_total_len_concat(a, b.drop_last());
    }
}

pub proof fn lemma_total_len_nonneg(q: Seq<Seq<u8>>)
    ensures
        total_len(q) >= 0,
    decreases q.len(),
{
    if q.len() > 0 {
        lemma_total_len_nonneg(q.drop_last());
    }
}

pub proof fn lemma_total_len_push(q: Seq<Seq<u8>>, m: Seq<u8>)
    ensures
        total_len(q.push(m)) == total_len(q) + m.len(),
{
    assert(q.push(m).drop_last() =~= q);
}

pub proof fn lemma_total_len_drop_first(q: Seq<Seq<u8>>)
    requires
        q.len() > 0,
    ensures
        total_len(q.drop_first()) == total_len(q) - q[0].len(),
{
    assert(q =~= seq![q[0]] + q.drop_first());
    lemma_total_len_concat(seq![q[0]], q.drop_first());
    assert(total_len(seq![q[0]]) == q[0].len()) by {
        assert(seq![q[0]].drop_last() =~= Seq::<Seq<u8>>::empty());
        assert(total_len(Seq::<Seq<u8>>::empty()) == 0);
        assert(seq![q[0]].last() == q[0]);
    }
}

/// How many queued messages are larger than one slice (each consumes one
/// sliced-message id when drained).
pub open spec fn count_large(q: Seq<Seq<u8>>) -> int
    decreases q.len(),
{
    if q.len() == 0 {
        0
    } else {
        count_large(q.drop_last()) + (if q.last().len() > SLICE_SIZE {
            1int
        } else {
            0int
        })
    }
}

pub proof fn lemma_count_large_concat(a: Seq<Seq<u8>>, b: Seq<Seq<u8>>)
    ensures
        count_large(a + b) == count_large(a) + count_large(b),
    decreases b.len(),
{
    if b.len() == 0 {
        assert(a + b =~= a);
    } else {
        assert((a + b).drop_last() =~= a + b.drop_last());
        lemma_count_large_concat(a, b.drop_last());
    }
}

pub proof fn lemma_count_large_nonneg(q: Seq<Seq<u8>>)
    ensures
        count_large(q) >= 0,
    decreases q.len(),
{
    if q.len() > 0 {
        lemma_count_large_nonneg(q.drop_last());
    }
}

/// Number of slices a message of `len` octets splits into: `⌈len / SLICE_SIZE⌉`.
pub open spec fn num_slices_of(len: int) -> int {
    len / (SLICE_SIZE as int) + if len % (SLICE_SIZE as int) == 0 {
        0int
    } else {
        1int
    }
}

/// Octets `j * SLICE_SIZE ..` of the message, one slice's worth at most.
pub open spec fn chunk(m: Seq<u8>, j: int) -> Seq<u8> {
    m.subrange(
        j * SLICE_SIZE,
        if (j + 1) * SLICE_SIZE <= m.len() {
            (j + 1) * SLICE_SIZE
        } else {
            m.len() as int
        },
    )
}

/// The slice packets `j .. n` of one oversized message, in index order.
pub open spec fn slice_packets(m: Seq<u8>, ch: u8, id: u64, j: int, n: int) -> Seq<PacketView>
    decreases n - j,
{
    if j >= n {
        Seq::empty()
    } else {
        seq![
            PacketView::Sliced {
                channel_id: ch,
                message_id: id,
                slice_index: j,
                num_slices: n,
                payload: chunk(m, j),
            },
        ] + slice_packets(m, ch, id, j + 1, n)
    }
}

/// The packets a drain of the queue emits: oversized messages become slice
/// packets under consecutive message ids; small messages are packed greedily
/// into batches of at most `SLICE_SIZE` payload octets, in queue order; a
/// trailing non-empty batch is flushed.
pub open spec fn packetize(q: Seq<Seq<u8>>, ch: u8, id: int, pending: Seq<Seq<u8>>) -> Seq<
    PacketView,
>
    decreases q.len(),
{
    if q.len() == 0 {
        if pending.len() > 0 {
            seq![PacketView::Small { channel_id: ch, messages: pending }]
        } else {
            Seq::empty()
        }
    } else {
        let m = q[0];
        let rest = q.drop_first();
        if m.len() > SLICE_SIZE {
            slice_packets(m, ch, id as u64, 0, num_slices_of(m.len() as int)) + packetize(
                rest,
                ch,
                id + 1,
                pending,
            )
        } else if total_len(pending) + m.len() > SLICE_SIZE {
            seq![PacketView::Small { channel_id: ch, messages: pending }] + packetize(
                rest,
                ch,
                id,
                seq![m],
            )
        } else {
            packetize(rest, ch, id, pending.push(m))
        }
    }
}

/// Send half of an unreliable channel.
pub struct SendChannelUnreliable {
    channel_id: u8,
    unreliable_messages: Vec<bytes::Bytes>,
    sliced_message_id: u64,
    max_memory_usage_bytes: usize,
    memory_usage_bytes: usize,
}

impl SendChannelUnreliable {
    /// The queued messages, oldest first.
    pub closed spec fn queue(self) -> Seq<Seq<u8>> {
        self.unreliable_messages@.map_values(|b: bytes::Bytes| bytes_view(b))
    }

    pub closed spec fn channel_id_spec(self) -> u8 {
        self.channel_id
    }

    pub closed spec fn sliced_message_id_spec(self) -> u64 {
        self.sliced_message_id
    }

    pub closed spec fn max_memory_spec(self) -> int {
        self.max_memory_usage_bytes as int
    }

    pub closed spec fn memory_usage_spec(self) -> int {
        self.memory_usage_bytes as int
    }

    /// The queued octets are exactly what the memory accounting says, and
    /// stay at or under the ceiling.
    pub open spec fn wf(self) -> bool {
        &&& self.memory_usage_spec() == total_len(self.queue())
        &&& self.memory_usage_spec() <= self.max_memory_spec()
    }

    pub fn new(channel_id: u8, max_memory_usage_bytes: usize) -> (r: Self)
        ensures
            r.wf(),
            r.channel_id_spec() == channel_id,
            r.max_memory_spec() == max_memory_usage_bytes,
            r.queue() == Seq::<Seq<u8>>::empty(),
            r.sliced_message_id_spec() == 0,
            r.memory_usage_spec() == 0,
    {
        let r = SendChannelUnreliable {
            channel_id,
            unreliable_messages: Vec::new(),
            sliced_message_id: 0,
            max_memory_usage_bytes,
            memory_usage_bytes: 0,
        };
        proof {
            assert(r.queue() =~= Seq::<Seq<u8>>::empty());
        }
        r
    }

    /// Queue a message. A message that would push memory usage past the
    /// ceiling is dropped silently; no error surfaces.
    pub fn send_message(&mut self, message: bytes::Bytes)
        requires
            old(self).wf(),
        ensures
            final(self).wf(),
            final(self).channel_id_spec() == old(self).channel_id_spec(),
            final(self).max_memory_spec() == old(self).max_memory_spec(),
            final(self).sliced_message_id_spec() == old(self).sliced_message_id_spec(),
            old(self).memory_usage_spec() + bytes_view(message).len() > old(self).max_memory_spec()
                ==> *final(self) == *old(self),
            old(self).memory_usage_spec() + bytes_view(message).len() <= old(self).max_memory_spec()
                ==> {
                &&& final(self).queue() == old(self).queue().push(bytes_view(message))
                &&& final(self).memory_usage_spec() == old(self).memory_usage_spec() + bytes_view(
                    message,
                ).len()
            },
    {
        let len: usize = bytes_len(&message);
        if self.max_memory_usage_bytes - self.memory_usage_bytes < len {
            return ;
        }
        proof {
            lemma_total_len_push(self.queue(), bytes_view(message));
        }
        self.memory_usage_bytes += len;
        self.unreliable_messages.push(message);
        proof {
            assert(self.queue() =~= old(self).queue().push(bytes_view(message)));
        }
    }

    /// Drain the queue into packets: slices for oversized messages, greedy
    /// batches for small ones. Clears the memory accounting.
    pub fn get_messages_to_send(&mut self) -> (r: Vec<Packet>)
        requires
            old(self).wf(),
            old(self).sliced_message_id_spec() + count_large(old(self).queue()) <= u64::MAX,
        ensures
            final(self).wf(),
            final(self).channel_id_spec() == old(self).channel_id_spec(),
            final(self).max_memory_spec() == old(self).max_memory_spec(),
            final(self).queue() == Seq::<Seq<u8>>::empty(),
            final(self).memory_usage_spec() == 0,
            final(self).sliced_message_id_spec() == old(self).sliced_message_id_spec()
                + count_large(old(self).queue()),
            r@.map_values(|p: Packet| p@) == packetize(
                old(self).queue(),
                old(self).channel_id_spec(),
                old(self).sliced_message_id_spec() as int,
                Seq::<Seq<u8>>::empty(),
            ),
    {
        let ghost q0 = old(self).queue();
        let ghost id0 = old(self).sliced_message_id_spec() as int;
        let ch = self.channel_id;
        let mut packets: Vec<Packet> = Vec::new();
        let mut small_messages: Vec<bytes::Bytes> = Vec::new();
        let mut small_messages_bytes: usize = 0;
        let mut i: usize = 0;
        let n_msgs = self.unreliable_messages.len();

        proof {
            lemma_count_large_nonneg(q0);
            assert(q0.skip(0) =~= q0);
            assert(q0.take(0) =~= Seq::<Seq<u8>>::empty());
            assert(small_messages@.map_values(|b: bytes::Bytes| bytes_view(b)) =~= Seq::<
                Seq<u8>,
            >::empty());
        }

        while i < n_msgs
            invariant
                old(self).wf(),
                i <= n_msgs,
                n_msgs == self.unreliable_messages.len(),
                self.channel_id == old(self).channel_id,
                self.max_memory_usage_bytes == old(self).max_memory_usage_bytes,
                self.memory_usage_bytes == old(self).memory_usage_bytes,
                q0 == self.queue(),
                ch == self.channel_id,
                id0 == old(self).sliced_message_id_spec() as int,
                id0 + count_large(q0) <= u64::MAX,
                self.sliced_message_id as int == id0 + count_large(q0.take(i as int)),
                total_len(small_messages@.map_values(|b: bytes::Bytes| bytes_view(b)))
                    == small_messages_bytes,
                small_messages_bytes <= SLICE_SIZE,
                packetize(q0, ch, id0, Seq::<Seq<u8>>::empty()) == packets@.map_values(
                    |p: Packet| p@,
                ) + packetize(
                    q0.skip(i as int),
                    ch,
                    self.sliced_message_id as int,
                    small_messages@.map_values(|b: bytes::Bytes| bytes_view(b)),
                ),
            decreases n_msgs - i,
        {
            let ghost pending = small_messages@.map_values(|b: bytes::Bytes| bytes_view(b));
            let ghost rest = q0.skip(i as int);
            proof {
                assert(rest[0] == q0[i as int]);
                assert(rest.drop_first() =~= q0.skip(i as int + 1));
                assert(q0.take(i as int + 1) =~= q0.take(i as int).push(q0[i as int]));
                lemma_count_large_concat(q0.take(i as int), seq![q0[i as int]]);
                assert(q0.take(i as int) + seq![q0[i as int]] =~= q0.take(i as int + 1));
                assert(count_large(seq![q0[i as int]]) == (if q0[i as int].len() > SLICE_SIZE {
                    1int
                } else {
                    0int
                })) by {
                    assert(seq![q0[i as int]].drop_last() =~= Seq::<Seq<u8>>::empty());
                    assert(count_large(Seq::<Seq<u8>>::empty()) == 0);
                    assert(seq![q0[i as int]].last() == q0[i as int]);
                }
                assert(q0.take(i as int + 1) + q0.skip(i as int + 1) =~= q0);
                lemma_count_large_concat(q0.take(i as int + 1), q0.skip(i as int + 1));
                lemma_count_large_nonneg(q0.skip(i as int + 1));
            }
            let message = bytes_clone(&self.unreliable_messages[i]);
            let len: usize = bytes_len(&message);
            if len > SLICE_SIZE {
                let num_slices: usize = len / SLICE_SIZE + (if len % SLICE_SIZE == 0 {
                    0
                } else {
                    1
                });
                proof {
                    lemma_num_slices_bounds(len as int);
                }
                let mut j: usize = 0;
                while j < num_slices
                    invariant
                        bytes_view(message).len() == len,
                        SLICE_SIZE < len,
                        num_slices == num_slices_of(len as int),
                        1 <= num_slices,
                        (num_slices - 1) * SLICE_SIZE < len <= num_slices * SLICE_SIZE,
                        j <= num_slices,
                        ch == self.channel_id,
                        self.channel_id == old(self).channel_id,
                        self.max_memory_usage_bytes == old(self).max_memory_usage_bytes,
                        self.memory_usage_bytes == old(self).memory_usage_bytes,
                        q0 == self.queue(),
                        self.sliced_message_id as int == id0 + count_large(q0.take(i as int)),
                        packetize(q0, ch, id0, Seq::<Seq<u8>>::empty()) == packets@.map_values(
                            |p: Packet| p@,
                        ) + slice_packets(
                            bytes_view(message),
                            ch,
                            self.sliced_message_id,
                            j as int,
                            num_slices as int,
                        ) + packetize(
                            q0.skip(i as int + 1),
                            ch,
                            self.sliced_message_id as int + 1,
                            small_messages@.map_values(|b: bytes::Bytes| bytes_view(b)),
                        ),
                    decreases num_slices - j,
                {
                    proof {
                        lemma_mul_slice_le(j as int, num_slices as int - 1);
                        lemma_mul_slice_le(j as int + 1, num_slices as int);
                    }
                    let start: usize = j * SLICE_SIZE;
                    let end: usize = if j == num_slices - 1 {
                        len
                    } else {
                        (j + 1) * SLICE_SIZE
                    };
                    let payload = bytes_slice(&message, start, end);
                    let slice = Slice {
                        message_id: self.sliced_message_id,
                        slice_index: j,
                        num_slices,
                        payload,
                    };
                    let ghost packets_pre = packets@;
                    packets.push(Packet::UnreliableSlice { channel_id: ch, slice });
                    proof {
                        assert(packets@.map_values(|p: Packet| p@) =~= packets_pre.map_values(
                            |p: Packet| p@,
                        ).push(
                            PacketView::Sliced {
                                channel_id: ch,
                                message_id: self.sliced_message_id,
                                slice_index: j as int,
                                num_slices: num_slices as int,
                                payload: chunk(bytes_view(message), j as int),
                            },
                        ));
                        assert(packets_pre.map_values(|p: Packet| p@).push(
                            PacketView::Sliced {
                                channel_id: ch,
                                message_id: self.sliced_message_id,
                                slice_index: j as int,
                                num_slices: num_slices as int,
                                payload: chunk(bytes_view(message), j as int),
                            },
                        ) + slice_packets(
                            bytes_view(message),
                            ch,
                            self.sliced_message_id,
                            j as int + 1,
                            num_slices as int,
                        ) =~= packets_pre.map_values(|p: Packet| p@) + slice_packets(
                            bytes_view(message),
                            ch,
                            self.sliced_message_id,
                            j as int,
                            num_slices as int,
                        ));
                    }
                    j += 1;
                }
                proof {
                    assert(slice_packets(
                        bytes_view(message),
                        ch,
                        self.sliced_message_id,
                        num_slices as int,
                        num_slices as int,
                    ) =~= Seq::<PacketView>::empty());
                }
                self.sliced_message_id += 1;
            } else {
                if small_messages_bytes + len > SLICE_SIZE {
                    let batch = small_messages;
                    small_messages = Vec::new();
                    let ghost packets_pre = packets@;
                    packets.push(Packet::SmallUnreliable { channel_id: ch, messages: batch });
                    small_messages_bytes = 0;
                    proof {
                        assert(packets@.map_values(|p: Packet| p@) =~= packets_pre.map_values(
                            |p: Packet| p@,
                        ).push(PacketView::Small { channel_id: ch, messages: pending }));
                        assert(small_messages@.map_values(|b: bytes::Bytes| bytes_view(b)) =~= Seq::<
                            Seq<u8>,
                        >::empty());
                    }
                }
                small_messages_bytes += len;
                let ghost pending2 = small_messages@.map_values(|b: bytes::Bytes| bytes_view(b));
                small_messages.push(message);
                proof {
                    assert(small_messages@.map_values(|b: bytes::Bytes| bytes_view(b))
                        =~= pending2.push(bytes_view(message)));
                    lemma_total_len_push(pending2, bytes_view(message));
                }
            }
            i += 1;
        }

        if small_messages.len() > 0 {
            let ghost pending = small_messages@.map_values(|b: bytes::Bytes| bytes_view(b));
            let batch = small_messages;
            small_messages = Vec::new();
            let ghost packets_pre = packets@;
            packets.push(Packet::SmallUnreliable { channel_id: ch, messages: batch });
            proof {
                assert(packets@.map_values(|p: Packet| p@) =~= packets_pre.map_values(
                    |p: Packet| p@,
                ).push(PacketView::Small { channel_id: ch, messages: pending }));
                assert(q0.skip(n_msgs as int) =~= Seq::<Seq<u8>>::empty());
            }
        } else {
            proof {
                assert(small_messages@.map_values(|b: bytes::Bytes| bytes_view(b)).len() == 0);
                assert(q0.skip(n_msgs as int) =~= Seq::<Seq<u8>>::empty());
            }
        }
        self.unreliable_messages.clear();
        self.memory_usage_bytes = 0;
        proof {
            assert(q0.take(n_msgs as int) =~= q0);
            assert(self.queue() =~= Seq::<Seq<u8>>::empty());
        }
        packets
    }
}

/// `⌈len / SLICE_SIZE⌉` slices cover `len` octets and not one slice more.
proof fn lemma_num_slices_bounds(len: int)
    requires
        len > SLICE_SIZE,
    ensures
        2 <= num_slices_of(len),
        (num_slices_of(len) - 1) * SLICE_SIZE < len <= num_slices_of(len) * SLICE_SIZE,
{
    let ss = SLICE_SIZE as int;
    vstd::arithmetic::div_mod::lemma_fundamental_div_mod(len, ss);
    vstd::arithmetic::div_mod::lemma_mod_bound(len, ss);
    let d = len / ss;
    let m = len % ss;
    assert(len == ss * d + m);
    if m == 0 {
        assert(num_slices_of(len) == d);
        assert((d - 1) * ss < ss * d) by (nonlinear_arith)
            requires
                ss > 0,
        ;
        assert(d * ss == ss * d) by (nonlinear_arith);
    } else {
        assert(num_slices_of(len) == d + 1);
        assert(d * ss == ss * d) by (nonlinear_arith);
        assert((d + 1) * ss == ss * d + ss) by (nonlinear_arith);
    }
    assert(d >= 1) by (nonlinear_arith)
        requires
            ss * d + m > ss,
            0 <= m < ss,
            ss > 0,
    ;
}

/// Multiplying both sides of `a <= b` by the slice size keeps the order.
proof fn lemma_mul_slice_le(a: int, b: int)
    requires
        a <= b,
    ensures
        a * SLICE_SIZE <= b * SLICE_SIZE,
{
    assert(a * SLICE_SIZE <= b * SLICE_SIZE) by (nonlinear_arith)
        requires
            a <= b,
    ;
}

/// One in-flight reassembly, with the time a fragment of it last arrived.
pub struct Reassembly {
    pub constructor: SliceConstructor,
    pub last_received_millis: Option<u64>,
}

/// The message id a reassembly is for.
pub open spec fn rid(e: Reassembly) -> u64 {
    e.constructor.message_id_spec()
}

/// Octets reserved by the in-flight reassemblies: each holds a whole
/// `num_slices * SLICE_SIZE` buffer.
pub open spec fn reserved(s: Seq<Reassembly>) -> int
    decreases s.len(),
{
    if s.len() == 0 {
        0
    } else {
        reserved(s.drop_last()) + s.last().constructor.num_slices_spec() * SLICE_SIZE
    }
}

pub proof fn lemma_reserved_concat(a: Seq<Reassembly>, b: Seq<Reassembly>)
    ensures
        reserved(a + b) == reserved(a) + reserved(b),
    decreases b.len(),
{
    if b.len() == 0 {
        assert(a + b =~= a);
    } else {
        assert((a + b).drop_last() =~= a + b.drop_last());
        lemma_reserved_concat(a, b.drop_last());
    }
}

pub proof fn lemma_reserved_nonneg(s: Seq<Reassembly>)
    ensures
        reserved(s) >= 0,
    decreases s.len(),
{
    if s.len() > 0 {
        lemma_reserved_nonneg(s.drop_last());
        s.last().constructor.lemma_spec_bounds();
        let n = s.last().constructor.num_slices_spec();
        assert(n * SLICE_SIZE >= 0) by (nonlinear_arith)
            requires
                n >= 0,
        ;
    }
}

pub proof fn lemma_reserved_singleton(e: Reassembly)
    ensures
        reserved(seq![e]) == e.constructor.num_slices_spec() * SLICE_SIZE,
{
    assert(seq![e].drop_last() =~= Seq::<Reassembly>::empty());
    assert(reserved(Seq::<Reassembly>::empty()) == 0);
    assert(seq![e].last() == e);
}

/// Removing entry `k` releases exactly its reservation.
pub proof fn lemma_reserved_remove(s: Seq<Reassembly>, k: int)
    requires
        0 <= k < s.len(),
    ensures
        reserved(s) == reserved(s.remove(k)) + s[k].constructor.num_slices_spec() * SLICE_SIZE,
{
    assert(s =~= s.take(k) + seq![s[k]] + s.skip(k + 1));
    assert(s.remove(k) =~= s.take(k) + s.skip(k + 1));
    lemma_reserved_concat(s.take(k) + seq![s[k]], s.skip(k + 1));
    lemma_reserved_concat(s.take(k), seq![s[k]]);
    lemma_reserved_concat(s.take(k), s.skip(k + 1));
    lemma_reserved_singleton(s[k]);
}

/// Replacing entry `k` swaps its reservation for the new one.
pub proof fn lemma_reserved_update(s: Seq<Reassembly>, k: int, e: Reassembly)
    requires
        0 <= k < s.len(),
    ensures
        reserved(s.update(k, e)) == reserved(s) - s[k].constructor.num_slices_spec() * SLICE_SIZE
            + e.constructor.num_slices_spec() * SLICE_SIZE,
{
    assert(s =~= s.take(k) + seq![s[k]] + s.skip(k + 1));
    assert(s.update(k, e) =~= s.take(k) + seq![e] + s.skip(k + 1));
    lemma_reserved_concat(s.take(k) + seq![s[k]], s.skip(k + 1));
    lemma_reserved_concat(s.take(k), seq![s[k]]);
    lemma_reserved_concat(s.take(k) + seq![e], s.skip(k + 1));
    lemma_reserved_concat(s.take(k), seq![e]);
    lemma_reserved_singleton(s[k]);
    lemma_reserved_singleton(e);
}

pub proof fn lemma_reserved_push(s: Seq<Reassembly>, e: Reassembly)
    ensures
        reserved(s.push(e)) == reserved(s) + e.constructor.num_slices_spec() * SLICE_SIZE,
{
    assert(s.push(e).drop_last() =~= s);
}

/// Index of the reassembly for `id`, or -1 when none exists.
pub open spec fn index_of(s: Seq<Reassembly>, id: u64) -> int
    decreases s.len(),
{
    if s.len() == 0 {
        -1
    } else if rid(s[0]) == id {
        0
    } else {
        let r = index_of(s.drop_first(), id);
        if r == -1 {
            -1
        } else {
            r + 1
        }
    }
}

pub proof fn lemma_index_of_none(s: Seq<Reassembly>, id: u64)
    requires
        forall|j: int| 0 <= j < s.len() ==> rid(#[trigger] s[j]) != id,
    ensures
        index_of(s, id) == -1,
    decreases s.len(),
{
    if s.len() > 0 {
        assert(forall|j: int|
            0 <= j < s.drop_first().len() ==> rid(#[trigger] s.drop_first()[j]) != id);
        lemma_index_of_none(s.drop_first(), id);
    }
}

pub proof fn lemma_index_of_first(s: Seq<Reassembly>, id: u64, k: int)
    requires
        0 <= k < s.len(),
        rid(s[k]) == id,
        forall|j: int| 0 <= j < k ==> rid(#[trigger] s[j]) != id,
    ensures
        index_of(s, id) == k,
    decreases s.len(),
{
    if k == 0 {
    } else {
        assert(forall|j: int|
            0 <= j < k - 1 ==> rid(#[trigger] s.drop_first()[j]) != id);
        assert(s.drop_first()[k - 1] == s[k]);
        lemma_index_of_first(s.drop_first(), id, k - 1);
    }
}

/// Receive half of an unreliable channel.
pub struct ReceiveChannelUnreliable {
    channel_id: u8,
    messages: Vec<bytes::Bytes>,
    reassemblies: Vec<Reassembly>,
    max_memory_usage_bytes: usize,
    memory_usage_bytes: usize,
    error: Option<ChannelError>,
}

impl ReceiveChannelUnreliable {
    /// The messages ready for delivery, oldest first.
    pub closed spec fn messages_view(self) -> Seq<Seq<u8>> {
        self.messages@.map_values(|b: bytes::Bytes| bytes_view(b))
    }

    /// The in-flight reassemblies, in creation order.
    pub closed spec fn reassemblies_spec(self) -> Seq<Reassembly> {
        self.reassemblies@
    }

    pub closed spec fn channel_id_spec(self) -> u8 {
        self.channel_id
    }

    pub closed spec fn max_memory_spec(self) -> int {
        self.max_memory_usage_bytes as int
    }

    pub closed spec fn memory_usage_spec(self) -> int {
        self.memory_usage_bytes as int
    }

    pub closed spec fn error_spec(self) -> Option<ChannelError> {
        self.error
    }

    /// The memory accounting covers exactly the queued octets plus the
    /// reassembly reservations, stays at or under the ceiling, and no two
    /// reassemblies serve the same message id.
    pub open spec fn wf(self) -> bool {
        &&& self.memory_usage_spec() == total_len(self.messages_view()) + reserved(
            self.reassemblies_spec(),
        )
        &&& self.memory_usage_spec() <= self.max_memory_spec()
        &&& forall|i: int|
            0 <= i < self.reassemblies_spec().len() ==> (#[trigger] self.reassemblies_spec()[i]).constructor.wf()
        &&& forall|i: int, j: int|
            0 <= i < j < self.reassemblies_spec().len() ==> rid(self.reassemblies_spec()[i]) != rid(
                self.reassemblies_spec()[j],
            )
    }

    pub fn new(channel_id: u8, max_memory_usage_bytes: usize) -> (r: Self)
        ensures
            r.wf(),
            r.channel_id_spec() == channel_id,
            r.max_memory_spec() == max_memory_usage_bytes,
            r.messages_view() == Seq::<Seq<u8>>::empty(),
            r.reassemblies_spec() == Seq::<Reassembly>::empty(),
            r.memory_usage_spec() == 0,
            r.error_spec() is None,
    {
        let r = ReceiveChannelUnreliable {
            channel_id,
            messages: Vec::new(),
            reassemblies: Vec::new(),
            max_memory_usage_bytes,
            memory_usage_bytes: 0,
            error: None,
        };
        proof {
            assert(r.messages_view() =~= Seq::<Seq<u8>>::empty());
        }
        r
    }

    /// Latched reassembly error, if any.
    pub fn error(&self) -> (r: Option<ChannelError>)
        ensures
            r == self.error_spec(),
    {
        self.error
    }

    /// Enqueue a whole message. One that would push memory usage past the
    /// ceiling is dropped silently.
    pub fn process_message(&mut self, message: bytes::Bytes)
        requires
            old(self).wf(),
        ensures
            final(self).wf(),
            final(self).channel_id_spec() == old(self).channel_id_spec(),
            final(self).max_memory_spec() == old(self).max_memory_spec(),
            final(self).error_spec() == old(self).error_spec(),
            final(self).reassemblies_spec() == old(self).reassemblies_spec(),
            old(self).memory_usage_spec() + bytes_view(message).len() > old(self).max_memory_spec()
                ==> *final(self) == *old(self),
            old(self).memory_usage_spec() + bytes_view(message).len() <= old(self).max_memory_spec()
                ==> {
                &&& final(self).messages_view() == old(self).messages_view().push(
                    bytes_view(message),
                )
                &&& final(self).memory_usage_spec() == old(self).memory_usage_spec() + bytes_view(
                    message,
                ).len()
            },
    {
        let len: usize = bytes_len(&message);
        if self.max_memory_usage_bytes - self.memory_usage_bytes < len {
            return ;
        }
        proof {
            lemma_total_len_push(self.messages_view(), bytes_view(message));
        }
        self.memory_usage_bytes += len;
        self.messages.push(message);
        proof {
            assert(self.messages_view() =~= old(self).messages_view().push(bytes_view(message)));
        }
    }

    /// Find the reassembly serving `message_id`, if one exists.
    fn find_reassembly(&self, message_id: u64) -> (r: Option<usize>)
        ensures
            match r {
                None => index_of(self.reassemblies_spec(), message_id) == -1,
                Some(k) => index_of(self.reassemblies_spec(), message_id) == k && k
                    < self.reassemblies_spec().len() && rid(self.reassemblies_spec()[k as int])
                    == message_id,
            },
    {
        let mut i: usize = 0;
        let n = self.reassemblies.len();
        while i < n
            invariant
                i <= n,
                n == self.reassemblies@.len(),
                forall|j: int| 0 <= j < i ==> rid(#[trigger] self.reassemblies@[j]) != message_id,
            decreases n - i,
        {
            if self.reassemblies[i].constructor.message_id() == message_id {
                proof {
                    lemma_index_of_first(self.reassemblies@, message_id, i as int);
                }
                return Some(i);
            }
            i += 1;
        }
        proof {
            lemma_index_of_none(self.reassemblies@, message_id);
        }
        None
    }

    /// Feed one slice packet. On the first slice of a new message the whole
    /// `num_slices * SLICE_SIZE` buffer is reserved against the ceiling; a
    /// reservation that does not fit drops the slice silently and creates no
    /// state. A malformed slice latches an error on the channel. When the
    /// last fragment arrives the reservation is swapped for the message's
    /// actual length and the message is enqueued.
    pub fn process_slice(&mut self, slice: Slice, current_time_millis: u64)
        requires
            old(self).wf(),
        ensures
            final(self).wf(),
            final(self).channel_id_spec() == old(self).channel_id_spec(),
            final(self).max_memory_spec() == old(self).max_memory_spec(),
            ({
                let k0 = index_of(old(self).reassemblies_spec(), slice.message_id);
                let pv = bytes_view(slice.payload);
                let n = slice.num_slices as int;
                if k0 == -1 {
                    if old(self).memory_usage_spec() + n * SLICE_SIZE > old(self).max_memory_spec() {
                        *final(self) == *old(self)
                    } else if slice.slice_index as int >= n || !slice_len_ok(
                        slice.slice_index as int,
                        n,
                        pv.len() as int,
                    ) {
                        // entry created, feed rejected, error latched
                        &&& final(self).messages_view() == old(self).messages_view()
                        &&& final(self).memory_usage_spec() == old(self).memory_usage_spec() + n
                            * SLICE_SIZE
                        &&& final(self).reassemblies_spec().len() == old(
                            self,
                        ).reassemblies_spec().len() + 1
                        &&& final(self).error_spec() is Some
                    } else if n == 1 {
                        // a single-slice message completes at once
                        &&& final(self).reassemblies_spec() == old(self).reassemblies_spec()
                        &&& final(self).messages_view() == old(self).messages_view().push(pv)
                        &&& final(self).memory_usage_spec() == old(self).memory_usage_spec()
                            + pv.len()
                        &&& final(self).error_spec() == old(self).error_spec()
                    } else {
                        // new reassembly holding just this fragment
                        &&& final(self).messages_view() == old(self).messages_view()
                        &&& final(self).memory_usage_spec() == old(self).memory_usage_spec() + n
                            * SLICE_SIZE
                        &&& final(self).reassemblies_spec().len() == old(
                            self,
                        ).reassemblies_spec().len() + 1
                        &&& ({
                            let e = final(self).reassemblies_spec().last();
                            &&& e.constructor.message_id_spec() == slice.message_id
                            &&& e.constructor.num_slices_spec() == n
                            &&& e.constructor.payloads_spec() == Map::<int, Seq<u8>>::empty().insert(
                                slice.slice_index as int,
                                pv,
                            )
                            &&& e.constructor.num_received_spec() == 1
                            &&& e.last_received_millis == Some(current_time_millis)
                        })
                        &&& final(self).error_spec() == old(self).error_spec()
                    }
                } else {
                    let c0 = old(self).reassemblies_spec()[k0].constructor;
                    let n0 = c0.num_slices_spec();
                    if slice.slice_index as int >= n0 || !slice_len_ok(
                        slice.slice_index as int,
                        n0,
                        pv.len() as int,
                    ) {
                        &&& final(self).messages_view() == old(self).messages_view()
                        &&& final(self).memory_usage_spec() == old(self).memory_usage_spec()
                        &&& final(self).reassemblies_spec() == old(self).reassemblies_spec()
                        &&& final(self).error_spec() is Some
                    } else if c0.received_spec()[slice.slice_index as int] {
                        // duplicate fragment: only the timestamp moves
                        &&& final(self).messages_view() == old(self).messages_view()
                        &&& final(self).memory_usage_spec() == old(self).memory_usage_spec()
                        &&& final(self).reassemblies_spec() == old(self).reassemblies_spec().update(
                            k0,
                            Reassembly {
                                constructor: c0,
                                last_received_millis: Some(current_time_millis),
                            },
                        )
                        &&& final(self).error_spec() == old(self).error_spec()
                    } else if c0.num_received_spec() + 1 == n0 {
                        // completion: reservation swapped for the message
                        &&& final(self).reassemblies_spec() == old(self).reassemblies_spec().remove(
                            k0,
                        )
                        &&& final(self).messages_view() == old(self).messages_view().push(
                            assembled(
                                c0.payloads_spec().insert(slice.slice_index as int, pv),
                                n0,
                            ),
                        )
                        &&& final(self).memory_usage_spec() == old(self).memory_usage_spec() - n0
                            * SLICE_SIZE + assembled(
                            c0.payloads_spec().insert(slice.slice_index as int, pv),
                            n0,
                        ).len()
                        &&& final(self).error_spec() == old(self).error_spec()
                    } else {
                        &&& final(self).messages_view() == old(self).messages_view()
                        &&& final(self).memory_usage_spec() == old(self).memory_usage_spec()
                        &&& final(self).reassemblies_spec().len() == old(
                            self,
                        ).reassemblies_spec().len()
                        &&& ({
                            let e = final(self).reassemblies_spec()[k0];
                            &&& final(self).reassemblies_spec() == old(
                                self,
                            ).reassemblies_spec().update(k0, e)
                            &&& e.constructor.message_id_spec() == slice.message_id
                            &&& e.constructor.num_slices_spec() == n0
                            &&& e.constructor.payloads_spec() == c0.payloads_spec().insert(
                                slice.slice_index as int,
                                pv,
                            )
                            &&& e.constructor.num_received_spec() == c0.num_received_spec() + 1
                            &&& e.last_received_millis == Some(current_time_millis)
                        })
                        &&& final(self).error_spec() == old(self).error_spec()
                    }
                }
            }),
    {
        let payload = bytes_as_slice(&slice.payload);
        let found = self.find_reassembly(slice.message_id);
        let k: usize;
        match found {
            None => {
                proof {
                    lemma_reserved_nonneg(self.reassemblies_spec());
                    lemma_total_len_nonneg(self.messages_view());
                    lemma_fits_check(
                        slice.num_slices as int,
                        self.max_memory_usage_bytes - self.memory_usage_bytes,
                    );
                }
                let available: usize = self.max_memory_usage_bytes - self.memory_usage_bytes;
                if slice.num_slices > available / SLICE_SIZE {
                    return ;
                }
                let fresh = SliceConstructor::new(slice.message_id, slice.num_slices);
                proof {
                    lemma_reserved_push(
                        self.reassemblies_spec(),
                        Reassembly { constructor: fresh, last_received_millis: None },
                    );
                    assert forall|j: int|
                        0 <= j < self.reassemblies@.len() implies rid(
                        #[trigger] self.reassemblies@[j],
                    ) != slice.message_id by {
                        if rid(self.reassemblies@[j]) == slice.message_id {
                            lemma_index_of_first_exists(self.reassemblies@, slice.message_id, j);
                        }
                    }
                }
                self.memory_usage_bytes += slice.num_slices * SLICE_SIZE;
                self.reassemblies.push(
                    Reassembly { constructor: fresh, last_received_millis: None },
                );
                k = self.reassemblies.len() - 1;
                proof {
                    assert forall|i: int, j: int|
                        0 <= i < j < self.reassemblies@.len() implies rid(self.reassemblies@[i])
                        != rid(self.reassemblies@[j]) by {
                        if j < self.reassemblies@.len() - 1 {
                            assert(self.reassemblies@[i] == old(self).reassemblies@[i]);
                            assert(self.reassemblies@[j] == old(self).reassemblies@[j]);
                        }
                    }
                }
            },
            Some(k0) => {
                k = k0;
            },
        }

        proof {
            lemma_reserved_remove(self.reassemblies_spec(), k as int);
            lemma_reserved_nonneg(self.reassemblies_spec().remove(k as int));
            lemma_total_len_nonneg(self.messages_view());
        }
        let ghost reas_pre = self.reassemblies@;
        let mut entry = self.reassemblies.remove(k);
        let result = entry.constructor.process_slice(slice.slice_index, payload);
        match result {
            Err(e) => {
                self.error = Some(e);
                self.reassemblies.insert(k, entry);
                proof {
                    lemma_reserved_update_roundtrip(
                        reas_pre,
                        self.reassemblies_spec(),
                        k as int,
                        entry,
                    );
                    assert(self.reassemblies@ =~= reas_pre.update(k as int, entry));
                    assert(rid(entry) == rid(reas_pre[k as int]));
                    assert forall|i: int, j: int|
                        0 <= i < j < self.reassemblies@.len() implies rid(self.reassemblies@[i])
                        != rid(self.reassemblies@[j]) by {
                        assert(rid(self.reassemblies@[i]) == rid(reas_pre[i]));
                        assert(rid(self.reassemblies@[j]) == rid(reas_pre[j]));
                    }
                    if index_of(old(self).reassemblies@, slice.message_id) >= 0 {
                        assert(self.reassemblies@ =~= old(self).reassemblies@);
                    }
                }
            },
            Ok(Some(message)) => {
                let n = entry.constructor.num_slices();
                self.memory_usage_bytes -= n * SLICE_SIZE;
                let mlen: usize = bytes_len(&message);
                self.memory_usage_bytes += mlen;
                proof {
                    lemma_total_len_push(self.messages_view(), bytes_view(message));
                }
                self.messages.push(message);
                proof {
                    assert(self.messages_view() =~= old(self).messages_view().push(
                        bytes_view(message),
                    ));
                    if entry.constructor.num_slices_spec() == 1 {
                        assert(assembled(entry.constructor.payloads_spec(), 0) == Seq::<
                            u8,
                        >::empty());
                        assert(assembled(entry.constructor.payloads_spec(), 1)
                            =~= entry.constructor.payloads_spec()[0]);
                    }
                    assert(self.reassemblies@ == reas_pre.remove(k as int));
                    assert forall|i: int|
                        0 <= i < self.reassemblies@.len() implies self.reassemblies@[i] == (
                    if i < k as int {
                        reas_pre[i]
                    } else {
                        reas_pre[i + 1]
                    }) by {
                        assert(reas_pre.remove(k as int) =~= reas_pre.take(k as int)
                            + reas_pre.skip(k as int + 1));
                    }
                    assert forall|i: int, j: int|
                        0 <= i < j < self.reassemblies@.len() implies rid(self.reassemblies@[i])
                        != rid(self.reassemblies@[j]) by {}
                    if index_of(old(self).reassemblies@, slice.message_id) == -1 {
                        assert(reas_pre =~= old(self).reassemblies@.push(reas_pre[k as int]));
                        assert(self.reassemblies@ =~= old(self).reassemblies@);
                    }
                }
            },
            Ok(None) => {
                entry.last_received_millis = Some(current_time_millis);
                self.reassemblies.insert(k, entry);
                proof {
                    lemma_reserved_update_roundtrip(
                        reas_pre,
                        self.reassemblies_spec(),
                        k as int,
                        entry,
                    );
                    assert(self.reassemblies@ =~= reas_pre.update(k as int, entry));
                    assert(rid(entry) == rid(reas_pre[k as int]));
                    assert forall|i: int, j: int|
                        0 <= i < j < self.reassemblies@.len() implies rid(self.reassemblies@[i])
                        != rid(self.reassemblies@[j]) by {
                        assert(rid(self.reassemblies@[i]) == rid(reas_pre[i]));
                        assert(rid(self.reassemblies@[j]) == rid(reas_pre[j]));
                    }
                }
            },
        }
    }

    /// Pop the oldest delivered message and release its memory.
    pub fn receive_message(&mut self) -> (r: Option<bytes::Bytes>)
        requires
            old(self).wf(),
        ensures
            final(self).wf(),
            final(self).channel_id_spec() == old(self).channel_id_spec(),
            final(self).max_memory_spec() == old(self).max_memory_spec(),
            final(self).error_spec() == old(self).error_spec(),
            final(self).reassemblies_spec() == old(self).reassemblies_spec(),
            old(self).messages_view().len() == 0 ==> r is None && *final(self) == *old(self),
            old(self).messages_view().len() > 0 ==> {
                &&& r is Some
                &&& bytes_view(r.unwrap()) == old(self).messages_view()[0]
                &&& final(self).messages_view() == old(self).messages_view().drop_first()
                &&& final(self).memory_usage_spec() == old(self).memory_usage_spec() - bytes_view(
                    r.unwrap(),
                ).len()
            },
    {
        if self.messages.len() == 0 {
            return None;
        }
        proof {
            lemma_total_len_drop_first(self.messages_view());
            lemma_total_len_nonneg(self.messages_view().drop_first());
            lemma_reserved_nonneg(self.reassemblies_spec());
        }
        let message = self.messages.remove(0);
        let len: usize = bytes_len(&message);
        self.memory_usage_bytes -= len;
        proof {
            assert(self.messages_view() =~= old(self).messages_view().drop_first());
        }
        Some(message)
    }
}

/// `n` slices fit in `avail` octets of headroom iff `n <= avail / SLICE_SIZE`.
proof fn lemma_fits_check(n: int, avail: int)
    requires
        n >= 0,
        avail >= 0,
    ensures
        n > avail / (SLICE_SIZE as int) <==> n * SLICE_SIZE > avail,
{
    let ss = SLICE_SIZE as int;
    vstd::arithmetic::div_mod::lemma_fundamental_div_mod(avail, ss);
    vstd::arithmetic::div_mod::lemma_mod_bound(avail, ss);
    let d = avail / ss;
    let m = avail % ss;
    if n > d {
        assert(n * ss >= (d + 1) * ss) by (nonlinear_arith)
            requires
                n >= d + 1,
                ss > 0,
        ;
        assert((d + 1) * ss == ss * d + ss) by (nonlinear_arith);
    } else {
        assert(n * ss <= d * ss) by (nonlinear_arith)
            requires
                n <= d,
                ss > 0,
        ;
        assert(d * ss == ss * d) by (nonlinear_arith);
    }
}

/// If some entry serves `id`, `index_of` finds one.
proof fn lemma_index_of_first_exists(s: Seq<Reassembly>, id: u64, j: int)
    requires
        0 <= j < s.len(),
        rid(s[j]) == id,
    ensures
        index_of(s, id) >= 0,
    decreases s.len(),
{
    if rid(s[0]) == id {
    } else {
        assert(s.drop_first()[j - 1] == s[j]);
        lemma_index_of_first_exists(s.drop_first(), id, j - 1);
    }
}

/// Removing entry `k` and reinserting a replacement there is an update.
proof fn lemma_reserved_update_roundtrip(
    s0: Seq<Reassembly>,
    s1: Seq<Reassembly>,
    k: int,
    e: Reassembly,
)
    requires
        0 <= k < s0.len(),
        s1 == s0.remove(k).insert(k, e),
    ensures
        s1 == s0.update(k, e),
        reserved(s1) == reserved(s0) - s0[k].constructor.num_slices_spec() * SLICE_SIZE
            + e.constructor.num_slices_spec() * SLICE_SIZE,
{
    assert(s0.remove(k).insert(k, e) =~= s0.update(k, e));
    lemma_reserved_update(s0, k, e);
}

/// Law: at all times, the octets a receive channel holds — queued messages
/// plus reassembly reservations, and in particular the queued messages
/// alone — stay at or under its memory ceiling.
pub proof fn lemma_receive_channel_memory_cap(c: ReceiveChannelUnreliable)
    requires
        c.wf(),
    ensures
        total_len(c.messages_view()) + reserved(c.reassemblies_spec()) <= c.max_memory_spec(),
        total_len(c.messages_view()) <= c.max_memory_spec(),
{
    lemma_reserved_nonneg(c.reassemblies_spec());
    lemma_total_len_nonneg(c.messages_view());
}

/// Law: a message within one slice's budget drains as exactly one batch
/// holding exactly that message, so feeding the batch to a receive channel
/// with room enqueues it once and `receive_message` yields it once.
pub proof fn lemma_small_message_round_trip(m: Seq<u8>, ch: u8, id: int)
    requires
        0 < m.len() <= SLICE_SIZE,
    ensures
        packetize(seq![m], ch, id, Seq::<Seq<u8>>::empty()) == seq![
            PacketView::Small { channel_id: ch, messages: seq![m] },
        ],
{
    let q = seq![m];
    assert(q.drop_first() =~= Seq::<Seq<u8>>::empty());
    assert(total_len(Seq::<Seq<u8>>::empty()) == 0);
    assert(Seq::<Seq<u8>>::empty().push(m) =~= seq![m]);
    assert(packetize(Seq::<Seq<u8>>::empty(), ch, id, seq![m]) =~= seq![
        PacketView::Small { channel_id: ch, messages: seq![m] },
    ]);
    assert(packetize(q, ch, id, Seq::<Seq<u8>>::empty()) =~= seq![
        PacketView::Small { channel_id: ch, messages: seq![m] },
    ]);
}

/// The first `k` fragments of an oversized message concatenate to its
/// matching prefix.
proof fn lemma_chunks_prefix(m: Seq<u8>, p: Map<int, Seq<u8>>, k: int)
    requires
        m.len() > SLICE_SIZE,
        0 <= k <= num_slices_of(m.len() as int),
        forall|i: int|
            0 <= i < num_slices_of(m.len() as int) ==> #[trigger] p.contains_key(i) && p[i]
                == chunk(m, i),
    ensures
        assembled(p, k) == m.take(
            if k < num_slices_of(m.len() as int) {
                k * SLICE_SIZE
            } else {
                m.len() as int
            },
        ),
    decreases k,
{
    let n = num_slices_of(m.len() as int);
    lemma_num_slices_bounds(m.len() as int);
    if k == 0 {
        assert(assembled(p, 0) =~= m.take(0));
    } else {
        lemma_chunks_prefix(m, p, k - 1);
        lemma_mul_slice_le(k - 1, n - 1);
        assert(0 <= k - 1 < num_slices_of(m.len() as int));
        assert(p.contains_key(k - 1));
        assert(p[k - 1] == chunk(m, k - 1));
        if k < n {
            lemma_mul_slice_le(k, n - 1);
            assert(assembled(p, k) =~= m.take(k * SLICE_SIZE));
        } else {
            assert(assembled(p, k) =~= m.take(m.len() as int));
        }
    }
}

/// Law: reassembling every fragment an oversized message was split into, in
/// index order, yields the message itself.
pub proof fn lemma_sliced_round_trip(m: Seq<u8>, p: Map<int, Seq<u8>>)
    requires
        m.len() > SLICE_SIZE,
        forall|i: int|
            0 <= i < num_slices_of(m.len() as int) ==> #[trigger] p.contains_key(i) && p[i]
                == chunk(m, i),
    ensures
        assembled(p, num_slices_of(m.len() as int)) == m,
{
    lemma_chunks_prefix(m, p, num_slices_of(m.len() as int));
    assert(m.take(m.len() as int) =~= m);
}

/// Each emitted slice packet of one oversized message carries its index,
/// the slice count, and exactly the matching chunk of the message.
proof fn lemma_slice_packets_index(m: Seq<u8>, ch: u8, id: u64, j: int, n: int)
    requires
        0 <= j <= n,
    ensures
        slice_packets(m, ch, id, j, n).len() == n - j,
        forall|w: int|
            0 <= w < n - j ==> #[trigger] slice_packets(m, ch, id, j, n)[w] == (
            PacketView::Sliced {
                channel_id: ch,
                message_id: id,
                slice_index: j + w,
                num_slices: n,
                payload: chunk(m, j + w),
            }),
    decreases n - j,
{
    if j < n {
        lemma_slice_packets_index(m, ch, id, j + 1, n);
    }
}

/// Law: draining a queue holding one oversized message emits exactly its
/// `⌈len / SLICE_SIZE⌉` slice packets, in index order, each carrying the
/// matching chunk; `lemma_sliced_round_trip` states that those chunks
/// reassemble to the message.
pub proof fn lemma_oversized_message_packets(m: Seq<u8>, ch: u8, id: int)
    requires
        m.len() > SLICE_SIZE,
    ensures
        packetize(seq![m], ch, id, Seq::<Seq<u8>>::empty()).len() == num_slices_of(m.len() as int),
        forall|w: int|
            0 <= w < num_slices_of(m.len() as int) ==> #[trigger] packetize(
                seq![m],
                ch,
                id,
                Seq::<Seq<u8>>::empty(),
            )[w] == (PacketView::Sliced {
                channel_id: ch,
                message_id: id as u64,
                slice_index: w,
                num_slices: num_slices_of(m.len() as int),
                payload: chunk(m, w),
            }),
{
    let n = num_slices_of(m.len() as int);
    lemma_num_slices_bounds(m.len() as int);
    lemma_slice_packets_index(m, ch, id as u64, 0, n);
    assert(seq![m].drop_first() =~= Seq::<Seq<u8>>::empty());
    assert(packetize(Seq::<Seq<u8>>::empty(), ch, id + 1, Seq::<Seq<u8>>::empty()) =~= Seq::<
        PacketView,
    >::empty());
    assert(packetize(seq![m], ch, id, Seq::<Seq<u8>>::empty()) =~= slice_packets(
        m,
        ch,
        id as u64,
        0,
        n,
    ));
}

} // verus!
