//! Reassembly of one large message from fixed-size fragments.
//!
//! A message larger than `SLICE_SIZE` travels as `num_slices` fragments, all
//! of exactly `SLICE_SIZE` octets except the final one, which may be shorter.
//! The constructor allocates `num_slices * SLICE_SIZE` octets once, copies
//! each fragment in by index, and, when all fragments have arrived, returns
//! their concatenation in index order with the final fragment's actual length
//! preserved.

use vstd::prelude::*;
use vstd::pervasive::VecAdditionalExecFns;
use crate::byte_buf::{bytes_view, bytes_from_vec};
use crate::channel::{ChannelError, SLICE_SIZE};

verus! {

/// One fragment of a sliced message.
#[derive(Debug)]
pub struct Slice {
    pub message_id: u64,
    pub slice_index: usize,
    pub num_slices: usize,
    pub payload: bytes::Bytes,
}

/// How many entries of a boolean sequence are set.
pub closed spec fn count_true(s: Seq<bool>) -> int
    decreases s.len(),
{
    if s.len() == 0 {
        0
    } else {
        count_true(s.drop_last()) + (if s.last() {
            1int
        } else {
            0int
        })
    }
}

pub proof fn lemma_count_true_bounds(s: Seq<bool>)
    ensures
        0 <= count_true(s) <= s.len(),
        count_true(s) == s.len() ==> forall|i: int| 0 <= i < s.len() ==> s[i],
    decreases s.len(),
{
    if s.len() > 0 {
        lemma_count_true_bounds(s.drop_last());
        if count_true(s) == s.len() {
            assert forall|i: int| 0 <= i < s.len() implies s[i] by {
                if i < s.len() - 1 {
                    assert(s.drop_last()[i] == s[i]);
                }
            }
        }
    }
}

pub proof fn lemma_count_true_update(s: Seq<bool>, i: int)
    requires
        0 <= i < s.len(),
        !s[i],
    ensures
        count_true(s.update(i, true)) == count_true(s) + 1,
    decreases s.len(),
{
    let t = s.update(i, true);
    if i == s.len() - 1 {
        assert(t.drop_last() =~= s.drop_last());
    } else {
        assert(t.drop_last() =~= s.drop_last().update(i, true));
        lemma_count_true_update(s.drop_last(), i);
    }
}

/// Whether a fragment at `index` of `num_slices` may carry `len` octets.
pub open spec fn slice_len_ok(index: int, num_slices: int, len: int) -> bool {
    &&& len <= SLICE_SIZE
    &&& index < num_slices - 1 ==> len == SLICE_SIZE
}

/// The concatenation, in index order, of the first `k` recorded fragments.
pub open spec fn assembled(p: Map<int, Seq<u8>>, k: int) -> Seq<u8>
    decreases k,
{
    if k <= 0 {
        Seq::empty()
    } else {
        assembled(p, k - 1) + p[k - 1]
    }
}

/// Reassembly state of one in-flight sliced message.
pub struct SliceConstructor {
    message_id: u64,
    num_slices: usize,
    buffer: Vec<u8>,
    received: Vec<bool>,
    num_received: usize,
    last_len: usize,
    payloads: Ghost<Map<int, Seq<u8>>>,
}

impl SliceConstructor {
    pub closed spec fn message_id_spec(self) -> u64 {
        self.message_id
    }

    pub closed spec fn num_slices_spec(self) -> int {
        self.num_slices as int
    }

    pub closed spec fn received_spec(self) -> Seq<bool> {
        self.received@
    }

    pub closed spec fn num_received_spec(self) -> int {
        self.num_received as int
    }

    /// The fragments accepted so far, by index.
    pub closed spec fn payloads_spec(self) -> Map<int, Seq<u8>> {
        self.payloads@
    }

    pub closed spec fn buffer_spec(self) -> Seq<u8> {
        self.buffer@
    }

    pub closed spec fn last_len_spec(self) -> int {
        self.last_len as int
    }

    /// Well-formedness: the buffer holds every accepted fragment at its
    /// offset, and the count of accepted fragments is maintained.
    pub open spec fn wf(self) -> bool {
        let n = self.num_slices_spec();
        &&& 0 <= n
        &&& n * SLICE_SIZE <= usize::MAX
        &&& self.buffer_spec().len() == n * SLICE_SIZE
        &&& self.received_spec().len() == n
        &&& self.num_received_spec() == count_true(self.received_spec())
        &&& forall|i: int|
            0 <= i < n && #[trigger] self.received_spec()[i] ==> {
                &&& self.payloads_spec().contains_key(i)
                &&& slice_len_ok(i, n, self.payloads_spec()[i].len() as int)
                &&& self.buffer_spec().subrange(
                    i * SLICE_SIZE,
                    i * SLICE_SIZE + self.payloads_spec()[i].len(),
                ) == self.payloads_spec()[i]
            }
        &&& n >= 1 && self.received_spec()[n - 1] ==> self.last_len_spec()
            == self.payloads_spec()[n - 1].len()
    }

    /// The counters a constructor keeps are machine integers.
    pub proof fn lemma_spec_bounds(self)
        ensures
            self.num_slices_spec() >= 0,
            self.num_received_spec() >= 0,
            self.last_len_spec() >= 0,
    {
    }

    pub fn num_slices(&self) -> (r: usize)
        ensures
            r == self.num_slices_spec(),
    {
        self.num_slices
    }

    pub fn message_id(&self) -> (r: u64)
        ensures
            r == self.message_id_spec(),
    {
        self.message_id
    }

    pub fn new(message_id: u64, num_slices: usize) -> (r: Self)
        requires
            num_slices * SLICE_SIZE <= usize::MAX,
        ensures
            r.wf(),
            r.message_id_spec() == message_id,
            r.num_slices_spec() == num_slices,
            r.num_received_spec() == 0,
            r.received_spec() == Seq::new(num_slices as nat, |i: int| false),
            r.payloads_spec() == Map::<int, Seq<u8>>::empty(),
    {
        let r = SliceConstructor {
            message_id,
            num_slices,
            buffer: vec![0u8; num_slices * SLICE_SIZE],
            received: vec![false; num_slices],
            num_received: 0,
            last_len: 0,
            payloads: Ghost(Map::empty()),
        };
        proof {
            lemma_count_true_all_false(r.received@);
            assert(r.received@ =~= Seq::new(num_slices as nat, |i: int| false));
        }
        r
    }

    /// Feed one fragment. Fragments with an index out of range or a wrong
    /// length are rejected; a duplicate index is silently ignored. When the
    /// final missing fragment arrives, the whole message is returned: the
    /// concatenation of all fragments in index order.
    pub fn process_slice(&mut self, slice_index: usize, payload: &[u8]) -> (r: Result<
        Option<bytes::Bytes>,
        ChannelError,
    >)
        requires
            old(self).wf(),
        ensures
            final(self).wf(),
            final(self).message_id_spec() == old(self).message_id_spec(),
            final(self).num_slices_spec() == old(self).num_slices_spec(),
            slice_index >= old(self).num_slices_spec() ==> r == Result::<
                Option<bytes::Bytes>,
                ChannelError,
            >::Err(ChannelError::InvalidSliceIndex) && *final(self) == *old(self),
            slice_index < old(self).num_slices_spec() && !slice_len_ok(
                slice_index as int,
                old(self).num_slices_spec(),
                payload@.len() as int,
            ) ==> r == Result::<Option<bytes::Bytes>, ChannelError>::Err(
                ChannelError::InvalidSliceLength,
            ) && *final(self) == *old(self),
            slice_index < old(self).num_slices_spec() && slice_len_ok(
                slice_index as int,
                old(self).num_slices_spec(),
                payload@.len() as int,
            ) && old(self).received_spec()[slice_index as int] ==> r == Result::<
                Option<bytes::Bytes>,
                ChannelError,
            >::Ok(None) && *final(self) == *old(self),
            slice_index < old(self).num_slices_spec() && slice_len_ok(
                slice_index as int,
                old(self).num_slices_spec(),
                payload@.len() as int,
            ) && !old(self).received_spec()[slice_index as int] ==> {
                &&& final(self).payloads_spec() == old(self).payloads_spec().insert(
                    slice_index as int,
                    payload@,
                )
                &&& final(self).received_spec() == old(self).received_spec().update(
                    slice_index as int,
                    true,
                )
                &&& final(self).num_received_spec() == old(self).num_received_spec() + 1
                &&& if final(self).num_received_spec() == final(self).num_slices_spec() {
                    &&& r is Ok
                    &&& r.unwrap() is Some
                    &&& bytes_view(r.unwrap().unwrap()) == assembled(
                        final(self).payloads_spec(),
                        final(self).num_slices_spec(),
                    )
                    &&& bytes_view(r.unwrap().unwrap()).len() <= final(self).num_slices_spec()
                        * SLICE_SIZE
                } else {
                    r == Result::<Option<bytes::Bytes>, ChannelError>::Ok(None)
                }
            },
    {
        let n = self.num_slices;
        if slice_index >= n {
            return Err(ChannelError::InvalidSliceIndex);
        }
        let is_last = slice_index == n - 1;
        if payload.len() > SLICE_SIZE || (!is_last && payload.len() != SLICE_SIZE) {
            return Err(ChannelError::InvalidSliceLength);
        }
        if self.received[slice_index] {
            return Ok(None);
        }

        let start = slice_index * SLICE_SIZE;
        proof {
            lemma_slice_offsets(slice_index as int, n as int, payload@.len() as int);
        }
        let mut i: usize = 0;
        while i < payload.len()
            invariant
                i <= payload@.len(),
                payload@.len() <= SLICE_SIZE,
                start == slice_index * SLICE_SIZE,
                start + payload@.len() <= self.buffer@.len(),
                self.buffer@.len() <= usize::MAX,
                self.buffer@.len() == old(self).buffer@.len(),
                forall|j: int|
                    0 <= j < self.buffer@.len() && !(start <= j < start + i)
                        ==> self.buffer@[j] == old(self).buffer@[j],
                forall|j: int| 0 <= j < i ==> self.buffer@[start + j] == payload@[j],
                self.received == old(self).received,
                self.num_received == old(self).num_received,
                self.message_id == old(self).message_id,
                self.num_slices == old(self).num_slices,
                self.last_len == old(self).last_len,
                self.payloads == old(self).payloads,
            decreases payload@.len() - i,
        {
            let b = *vstd::slice::slice_index_get(payload, i);
            self.buffer.set(start + i, b);
            i += 1;
        }

        proof {
            lemma_count_true_bounds(old(self).received@);
            if old(self).num_received as int == old(self).received@.len() {
                assert(old(self).received@[slice_index as int]);
            }
        }
        self.received.set(slice_index, true);
        self.num_received += 1;
        if is_last {
            self.last_len = payload.len();
        }
        proof {
            lemma_count_true_update(old(self).received@, slice_index as int);
            self.payloads@ = old(self).payloads@.insert(slice_index as int, payload@);
            assert(self.buffer@.subrange(start as int, start + payload@.len()) =~= payload@);
            assert forall|k: int|
                0 <= k < self.num_slices as int && #[trigger] self.received@[k] implies {
                &&& self.payloads@.contains_key(k)
                &&& slice_len_ok(k, self.num_slices as int, self.payloads@[k].len() as int)
                &&& self.buffer@.subrange(k * SLICE_SIZE, k * SLICE_SIZE + self.payloads@[k].len())
                    == self.payloads@[k]
            } by {
                if k != slice_index as int {
                    assert(old(self).received@[k]);
                    assert(old(self).payloads@.contains_key(k));
                    assert(self.payloads@[k] == old(self).payloads@[k]);
                    lemma_slice_offsets(k, self.num_slices as int, self.payloads@[k].len() as int);
                    if k < slice_index as int {
                        lemma_mul_slice_size_le(k + 1, slice_index as int);
                    } else {
                        lemma_mul_slice_size_le(slice_index as int + 1, k);
                    }
                    assert(self.buffer@.subrange(
                        k * SLICE_SIZE,
                        k * SLICE_SIZE + self.payloads@[k].len(),
                    ) =~= old(self).buffer@.subrange(
                        k * SLICE_SIZE,
                        k * SLICE_SIZE + self.payloads@[k].len(),
                    ));
                }
            }
        }

        if self.num_received == n {
            proof {
                lemma_count_true_bounds(self.received@);
                lemma_slice_offsets(n as int - 1, n as int, self.last_len as int);
            }
            let message_len = (n - 1) * SLICE_SIZE + self.last_len;
            let mut v = vstd::slice::slice_to_vec(self.buffer.as_slice());
            v.truncate(message_len);
            proof {
                assert(count_true(self.received@) == self.received@.len());
                assert forall|i: int| 0 <= i < n as int implies #[trigger] self.payloads@.contains_key(
                    i,
                ) by {
                    assert(self.received@[i]);
                }
                assert forall|i: int| 0 <= i < n as int implies slice_len_ok(
                    i,
                    n as int,
                    #[trigger] self.payloads@[i].len() as int,
                ) by {
                    assert(self.received@[i]);
                }
                assert forall|i: int|
                    0 <= i < n as int implies self.buffer@.subrange(
                    i * SLICE_SIZE,
                    i * SLICE_SIZE + #[trigger] self.payloads@[i].len(),
                ) == self.payloads@[i] by {
                    assert(self.received@[i]);
                }
                lemma_assembled_matches_buffer(
                    self.buffer@,
                    self.payloads@,
                    n as int,
                    n as int,
                );
                assert(self.received@[n - 1]);
            }
            Ok(Some(bytes_from_vec(v)))
        } else {
            Ok(None)
        }
    }
}

/// A sequence of `false` has no entry set.
proof fn lemma_count_true_all_false(s: Seq<bool>)
    requires
        forall|i: int| 0 <= i < s.len() ==> !s[i],
    ensures
        count_true(s) == 0,
    decreases s.len(),
{
    if s.len() > 0 {
        lemma_count_true_all_false(s.drop_last());
    }
}

/// Multiplying both sides of `a <= b` by the slice size keeps the order.
proof fn lemma_mul_slice_size_le(a: int, b: int)
    requires
        a <= b,
    ensures
        a * SLICE_SIZE <= b * SLICE_SIZE,
{
    assert(a * SLICE_SIZE <= b * SLICE_SIZE) by (nonlinear_arith)
        requires
            a <= b,
    ;
}

/// Offsets of distinct fragments stay inside the buffer and do not overlap.
proof fn lemma_slice_offsets(i: int, n: int, len: int)
    requires
        0 <= i < n,
        len <= SLICE_SIZE,
    ensures
        i * SLICE_SIZE + len <= n * SLICE_SIZE,
        i * SLICE_SIZE + len <= (i + 1) * SLICE_SIZE,
{
    assert(i * SLICE_SIZE + len <= (i + 1) * SLICE_SIZE) by (nonlinear_arith)
        requires
            len <= SLICE_SIZE,
    ;
    assert((i + 1) * SLICE_SIZE <= n * SLICE_SIZE) by (nonlinear_arith)
        requires
            i < n,
    ;
}

/// When every fragment sits in the buffer at its offset, the concatenation of
/// the first `k` fragments is the matching prefix of the buffer.
proof fn lemma_assembled_matches_buffer(buf: Seq<u8>, p: Map<int, Seq<u8>>, n: int, k: int)
    requires
        1 <= n,
        0 <= k <= n,
        buf.len() == n * SLICE_SIZE,
        forall|i: int| 0 <= i < n ==> #[trigger] p.contains_key(i),
        forall|i: int| 0 <= i < n ==> slice_len_ok(i, n, #[trigger] p[i].len() as int),
        forall|i: int|
            0 <= i < n ==> buf.subrange(i * SLICE_SIZE, i * SLICE_SIZE + #[trigger] p[i].len())
                == p[i],
    ensures
        assembled(p, k) == buf.subrange(
            0,
            if k < n {
                k * SLICE_SIZE
            } else {
                (n - 1) * SLICE_SIZE + p[n - 1].len()
            },
        ),
    decreases k,
{
    if k == 0 {
        assert(assembled(p, 0) =~= buf.subrange(0, 0));
    } else {
        lemma_assembled_matches_buffer(buf, p, n, k - 1);
        lemma_slice_offsets(k - 1, n, p[k - 1].len() as int);
        let hi = (k - 1) * SLICE_SIZE + p[k - 1].len();
        assert(assembled(p, k) =~= buf.subrange(0, hi));
    }
}

} // verus!
