//! The nibble sequence container and its packed-buffer representation.

use vstd::prelude::*;
use vstd::std_specs::cmp::PartialEqSpec;
use vstd::string::StringExecFns;

verus! {

/// A sequence of 4-bit values, stored two per byte.
///
/// Values at even indices sit in the upper four bits of their byte, values at
/// odd indices in the lower four bits. When the length is odd, the lower four
/// bits of the final byte are kept at zero, so that a later append or join
/// never reads stale bits out of a partially used byte.
pub struct NibbleVec {
    length: usize,
    data: Vec<u8>,
}

/// The nibble at logical position `i` of a packed byte buffer.
pub open spec fn nib_at(bytes: Seq<u8>, i: int) -> u8 {
    if i % 2 == 0 {
        bytes[i / 2] >> 4u8
    } else {
        bytes[i / 2] & 0x0fu8
    }
}

/// The `len` nibbles that a packed byte buffer holds.
pub open spec fn unpack(bytes: Seq<u8>, len: nat) -> Seq<u8> {
    Seq::new(len, |i: int| nib_at(bytes, i))
}

/// The canonical packed buffer for a sequence of nibble values: two per byte,
/// the earlier value in the upper four bits, and an odd tail padded with a
/// zero lower half.
pub open spec fn pack(nibs: Seq<u8>) -> Seq<u8> {
    Seq::new((nibs.len() + 1) / 2, |j: int|
        if 2 * j + 1 < nibs.len() {
            ((nibs[2 * j] & 0x0fu8) << 4u8) | (nibs[2 * j + 1] & 0x0fu8)
        } else {
            (nibs[2 * j] & 0x0fu8) << 4u8
        })
}

/// One byte of an overlap copy: the lower half of `bytes[p]` becomes the new
/// upper half, the upper half of `bytes[p + 1]` the new lower half.
pub open spec fn ov_byte(bytes: Seq<u8>, p: int) -> u8 {
    ((bytes[p] & 0x0fu8) << 4u8) | (bytes[p + 1] >> 4u8)
}

/// The bytes an overlap copy emits for source byte range `[start, end)`:
/// one boundary-crossing byte per adjacent pair, and, when `include_last`
/// is set, a final byte holding only the lower half of `bytes[end - 1]`.
pub open spec fn ov_bytes(bytes: Seq<u8>, start: int, end: int, include_last: bool) -> Seq<u8> {
    Seq::new((end - 1 - start) as nat, |k: int| ov_byte(bytes, start + k)) + (if include_last {
        seq![(bytes[end - 1] & 0x0fu8) << 4u8]
    } else {
        Seq::<u8>::empty()
    })
}

/// How many nibbles an overlap copy over source byte range `[start, end)`
/// carries across.
pub open spec fn ov_count(start: int, end: int, include_last: bool) -> int {
    2 * (end - 1 - start) + if include_last {
        1int
    } else {
        0int
    }
}

/// An overlap copy appends, at the nibble level, exactly the source nibbles
/// from position `2 * start + 1` on, provided the destination ends on a byte
/// boundary.
proof fn lemma_overlap_unpack(
    src: Seq<u8>,
    start: int,
    end: int,
    include_last: bool,
    dst: Seq<u8>,
    dst_len: int,
)
    requires
        0 <= start < end <= src.len(),
        dst_len % 2 == 0,
        0 <= dst_len,
        dst.len() == dst_len / 2,
    ensures
        unpack(dst + ov_bytes(src, start, end, include_last), (dst_len + ov_count(
            start,
            end,
            include_last,
        )) as nat) == unpack(dst, dst_len as nat) + unpack(src, 2 * src.len()).subrange(
            2 * start + 1,
            2 * start + 1 + ov_count(start, end, include_last),
        ),
{
    let c = ov_count(start, end, include_last);
    let body = ov_bytes(src, start, end, include_last);
    let lhs = unpack(dst + body, (dst_len + c) as nat);
    let rhs = unpack(dst, dst_len as nat) + unpack(src, 2 * src.len()).subrange(
        2 * start + 1,
        2 * start + 1 + c,
    );
    assert(lhs.len() == rhs.len());
    assert forall|t: int| 0 <= t < lhs.len() implies lhs[t] == rhs[t] by {
        if t < dst_len {
            assert(t / 2 < dst.len());
            assert((dst + body)[t / 2] == dst[t / 2]);
        } else {
            let u = t - dst_len;
            assert(t / 2 == dst_len / 2 + u / 2) by (nonlinear_arith)
                requires
                    dst_len % 2 == 0,
                    0 <= dst_len,
                    0 <= u,
                    t == dst_len + u,
            ;
            assert(t % 2 == u % 2) by (nonlinear_arith)
                requires
                    dst_len % 2 == 0,
                    0 <= dst_len,
                    0 <= u,
                    t == dst_len + u,
            ;
            let sidx = 2 * start + 1 + u;
            if u % 2 == 0 {
                assert(sidx % 2 == 1 && sidx / 2 == start + u / 2) by (nonlinear_arith)
                    requires
                        u % 2 == 0,
                        0 <= u,
                        0 <= start,
                        sidx == 2 * start + 1 + u,
                ;
                if u / 2 < end - 1 - start {
                    let a = src[start + u / 2];
                    let b = src[start + u / 2 + 1];
                    assert((dst + body)[t / 2] == ov_byte(src, start + u / 2));
                    assert((((a & 0x0fu8) << 4u8) | (b >> 4u8)) >> 4u8 == a & 0x0fu8)
                        by (bit_vector);
                } else {
                    // The final half byte of an odd-count copy.
                    assert(include_last && u / 2 == end - 1 - start);
                    let a = src[end - 1];
                    assert((dst + body)[t / 2] == ((a & 0x0fu8) << 4u8));
                    assert(((a & 0x0fu8) << 4u8) >> 4u8 == a & 0x0fu8) by (bit_vector);
                    assert(sidx / 2 == end - 1);
                }
            } else {
                assert(sidx % 2 == 0 && sidx / 2 == start + u / 2 + 1) by (nonlinear_arith)
                    requires
                        u % 2 == 1,
                        0 <= u,
                        0 <= start,
                        sidx == 2 * start + 1 + u,
                ;
                assert(u / 2 < end - 1 - start);
                let a = src[start + u / 2];
                let b = src[start + u / 2 + 1];
                assert((dst + body)[t / 2] == ov_byte(src, start + u / 2));
                assert((((a & 0x0fu8) << 4u8) | (b >> 4u8)) & 0x0fu8 == b >> 4u8) by (bit_vector);
            }
        }
    }
    assert(lhs =~= rhs);
}

impl View for NibbleVec {
    type V = Seq<u8>;

    /// The logical contents: the sequence of nibble values, in order.
    closed spec fn view(&self) -> Seq<u8> {
        unpack(self.data@, self.length as nat)
    }
}

impl NibbleVec {
    /// The packed byte buffer, exposed for stating the representation invariant.
    pub closed spec fn repr(&self) -> Seq<u8> {
        self.data@
    }

    /// Representation invariant: the buffer holds exactly `ceil(len / 2)`
    /// bytes, and when the length is odd the lower four bits of the final
    /// byte are zero.
    pub open spec fn inv(&self) -> bool {
        &&& self.repr().len() == (self@.len() + 1) / 2
        &&& self@.len() % 2 == 1 ==> self.repr()[self.repr().len() - 1] & 0x0fu8 == 0
    }

    /// Create an empty nibble vector.
    pub fn new() -> (r: NibbleVec)
        ensures
            r.inv(),
            r@ == Seq::<u8>::empty(),
    {
        let r = NibbleVec { length: 0, data: Vec::new() };
        proof {
            assert(r@ =~= Seq::<u8>::empty());
        }
        r
    }

    /// Create a nibble vector from a vector of bytes.
    ///
    /// Each byte is taken as fully populated: the result holds two nibbles per
    /// byte, so its length is twice the byte count.
    pub fn from_byte_vec(vec: Vec<u8>) -> (r: NibbleVec)
        requires
            2 * vec@.len() <= usize::MAX,
        ensures
            r.inv(),
            r@ == unpack(vec@, 2 * vec@.len()),
    {
        let length = 2 * vec.len();
        NibbleVec { length, data: vec }
    }

    /// The number of nibbles stored in the vector.
    pub fn len(&self) -> (r: usize)
        ensures
            r == self@.len(),
    {
        self.length
    }

    /// Fetch a single nibble from the vector; the result lies in `[0, 15]`.
    ///
    /// Out-of-bounds access is a contract violation: `idx` must be below the
    /// length, and the contract rules the call out otherwise.
    pub fn get(&self, idx: usize) -> (r: u8)
        requires
            self.inv(),
            idx < self@.len(),
        ensures
            r == self@[idx as int],
            r < 16,
    {
        let vec_idx = idx / 2;
        assert(idx / 2 < (self.length + 1) / 2);
        if idx % 2 == 0 {
            // Even index: the most significant half of the byte.
            let r = self.data[vec_idx] >> 4;
            proof {
                let b = self.data@[vec_idx as int];
                assert(b >> 4u8 < 16) by (bit_vector);
            }
            r
        } else {
            // Odd index: the least significant half.
            let r = self.data[vec_idx] & 0x0f;
            proof {
                let b = self.data@[vec_idx as int];
                assert(b & 0x0fu8 < 16) by (bit_vector);
            }
            r
        }
    }

    /// Split the vector into two parts.
    ///
    /// All nibbles at or following position `idx` are removed and returned in
    /// a new, independently owned `NibbleVec`; exactly `idx` nibbles remain
    /// in this vector. Splitting past the end is a contract violation: `idx`
    /// may be at most the length.
    pub fn split(&mut self, idx: usize) -> (tail: NibbleVec)
        requires
            old(self).inv(),
            idx <= old(self)@.len(),
        ensures
            final(self).inv(),
            tail.inv(),
            final(self)@ == old(self)@.take(idx as int),
            tail@ == old(self)@.skip(idx as int),
    {
        if idx == self.length {
            // Boundary case: nothing moves, the tail is empty.
            let tail = NibbleVec::new();
            proof {
                assert(old(self)@.take(idx as int) =~= old(self)@);
                assert(old(self)@.skip(idx as int) =~= Seq::<u8>::empty());
            }
            tail
        } else if idx % 2 == 0 {
            self.split_even(idx)
        } else {
            self.split_odd(idx)
        }
    }

    /// Split at a mid-byte cut: the tail is rebuilt by an overlap copy from
    /// byte `idx / 2` on, and the lower half of the cut byte is zeroed so that
    /// the receiver, now of odd length, keeps the padding invariant.
    #[verifier::loop_isolation(false)]
    fn split_odd(&mut self, idx: usize) -> (tail: NibbleVec)
        requires
            old(self).inv(),
            idx % 2 == 1,
            idx < old(self)@.len(),
        ensures
            final(self).inv(),
            tail.inv(),
            final(self)@ == old(self)@.take(idx as int),
            tail@ == old(self)@.skip(idx as int),
    {
        let ghost n = old(self)@.len() as int;
        let ghost idxi = idx as int;
        let ghost half = idxi / 2;
        let end = self.data.len();
        proof {
            assert(2 * half + 1 == idxi);
            assert(half < end && ov_count(half, end as int, (n - idxi) % 2 == 1) == n
                - idxi) by (nonlinear_arith)
                requires
                    idxi == 2 * half + 1,
                    0 <= idxi < n,
                    end as int == (n + 1) / 2,
                    n == 2 * ((n + 1) / 2) || n == 2 * ((n + 1) / 2) - 1,
            ;
        }

        // Perform an overlap copy, taking the final source nibble on its own
        // only when the tail's nibble count is odd.
        let tail_nibbles = self.length - idx;
        let take_last = tail_nibbles % 2 == 1;
        let mut tail_data: Vec<u8> = Vec::new();
        let mut tail_length: usize = 0;
        self.overlap_copy(idx / 2, end, &mut tail_data, &mut tail_length, take_last);

        // Remove the copied bytes, keeping the cut byte itself.
        while self.data.len() > idx / 2 + 1
            invariant
                idx / 2 + 1 <= self.data@.len() <= old(self).data@.len(),
                self.data@ == old(self).data@.subrange(0, self.data@.len() as int),
                self.length == old(self).length,
            decreases self.data@.len(),
        {
            self.data.pop();
            proof {
                assert(self.data@ =~= old(self).data@.subrange(0, self.data@.len() as int));
            }
        }

        // Zero the second half of the cut byte to keep the padding invariant.
        let b = self.data[idx / 2];
        self.data[idx / 2] = b & 0xf0;

        self.length = idx;
        let tail = NibbleVec { length: tail_length, data: tail_data };
        proof {
            // The receiver retains the first `idx` nibbles.
            assert forall|i: int| 0 <= i < idxi implies self@[i] == old(self)@[i] by {
                if i / 2 < half {
                    assert(self.data@[i / 2] == old(self).data@[i / 2]);
                } else {
                    assert(i == idx - 1 && i % 2 == 0 && i / 2 == half);
                    assert((b & 0xf0u8) >> 4u8 == b >> 4u8) by (bit_vector);
                }
            }
            assert(self@ =~= old(self)@.take(idxi));
            assert((b & 0xf0u8) & 0x0fu8 == 0) by (bit_vector);

            // The tail holds the nibbles from `idx` on.
            let full = unpack(old(self).repr(), 2 * old(self).repr().len());
            assert(unpack(Seq::<u8>::empty(), 0) =~= Seq::<u8>::empty());
            assert(tail@ == full.subrange(idxi, n));
            assert forall|j: int| 0 <= j < n - idxi implies tail@[j] == old(self)@.skip(
                idxi,
            )[j] by {
                assert(full[idxi + j] == old(self)@[idxi + j]);
            }
            assert(tail@ =~= old(self)@.skip(idxi));
            assert(tail.repr().len() == (tail@.len() + 1) / 2) by (nonlinear_arith)
                requires
                    tail.repr().len() == (end as int - 1 - half) + if take_last {
                        1int
                    } else {
                        0int
                    },
                    tail@.len() == n - idxi,
                    take_last <==> (n - idxi) % 2 == 1,
                    idxi == 2 * half + 1,
                    0 <= idxi < n,
                    end as int == (n + 1) / 2,
                    n == 2 * ((n + 1) / 2) || n == 2 * ((n + 1) / 2) - 1,
            ;
        }
        tail
    }

    /// Split at a byte-aligned cut: every byte from position `idx / 2` on
    /// belongs wholly to the tail and moves verbatim.
    #[verifier::loop_isolation(false)]
    fn split_even(&mut self, idx: usize) -> (tail: NibbleVec)
        requires
            old(self).inv(),
            idx % 2 == 0,
            idx <= old(self)@.len(),
        ensures
            final(self).inv(),
            tail.inv(),
            final(self)@ == old(self)@.take(idx as int),
            tail@ == old(self)@.skip(idx as int),
    {
        let mut tail_data: Vec<u8> = Vec::new();

        // Copy the bytes.
        let mut i: usize = idx / 2;
        while i < self.data.len()
            invariant
                idx / 2 <= i <= self.data.len(),
                self == old(self),
                tail_data@ == self.data@.subrange(idx as int / 2, i as int),
            decreases self.data@.len() - i,
        {
            tail_data.push(self.data[i]);
            i = i + 1;
            proof {
                assert(tail_data@ =~= self.data@.subrange(idx as int / 2, i as int));
            }
        }

        // Pop the same bytes.
        while self.data.len() > idx / 2
            invariant
                idx / 2 <= self.data@.len() <= old(self).data@.len(),
                self.data@ == old(self).data@.subrange(0, self.data@.len() as int),
                self.length == old(self).length,
            decreases self.data@.len(),
        {
            self.data.pop();
            proof {
                assert(self.data@ =~= old(self).data@.subrange(0, self.data@.len() as int));
            }
        }

        // Update the lengths.
        let tail_length = self.length - idx;
        self.length = idx;
        let tail = NibbleVec { length: tail_length, data: tail_data };
        proof {
            let n = old(self)@.len() as int;
            let half = idx as int / 2;
            assert(2 * half == idx as int);
            assert(self@ =~= old(self)@.take(idx as int));
            assert forall|j: int| 0 <= j < tail@.len() implies tail@[j] == old(self)@.skip(
                idx as int,
            )[j] by {
                assert((idx as int + j) / 2 == half + j / 2 && (idx as int + j) % 2 == j % 2)
                    by (nonlinear_arith)
                    requires
                        0 <= j,
                        0 <= half,
                        idx as int == 2 * half,
                ;
                assert(j / 2 < tail.data@.len()) by (nonlinear_arith)
                    requires
                        0 <= j < n - 2 * half,
                        tail.data@.len() == (n + 1) / 2 - half,
                        n == 2 * ((n + 1) / 2) || n == 2 * ((n + 1) / 2) - 1,
                ;
                assert(tail.data@[j / 2] == old(self).data@[half + j / 2]);
            }
            assert(tail@ =~= old(self)@.skip(idx as int));
            assert(tail.repr().len() == (tail@.len() + 1) / 2) by (nonlinear_arith)
                requires
                    tail.repr().len() == (n + 1) / 2 - half,
                    tail@.len() == n - 2 * half,
                    0 <= half,
                    2 * half <= n,
            ;
        }
        tail
    }

    /// Copy the nibbles between the second half of `self.data[start]` and the
    /// end of `self.data[end - 1]` onto the packed buffer `vec`, whose nibble
    /// count `length` must be even on entry. The second half of the last
    /// source byte is included only when `include_last` is set.
    #[verifier::loop_isolation(false)]
    fn overlap_copy(
        &self,
        start: usize,
        end: usize,
        vec: &mut Vec<u8>,
        length: &mut usize,
        include_last: bool,
    )
        requires
            start < end,
            end <= self.repr().len(),
            *old(length) % 2 == 0,
            2 * old(vec)@.len() == *old(length),
            *old(length) + ov_count(start as int, end as int, include_last) <= usize::MAX,
        ensures
            final(vec)@ == old(vec)@ + ov_bytes(
                self.repr(),
                start as int,
                end as int,
                include_last,
            ),
            *final(length) == *old(length) + ov_count(start as int, end as int, include_last),
            unpack(final(vec)@, *final(length) as nat) == unpack(old(vec)@, *old(length) as nat)
                + unpack(self.repr(), 2 * self.repr().len()).subrange(
                2 * start + 1,
                2 * start + 1 + ov_count(start as int, end as int, include_last),
            ),
            include_last ==> final(vec)@[final(vec)@.len() - 1] & 0x0fu8 == 0,
    {
        let ghost dst0 = vec@;
        let ghost len0 = *length;
        // Copy whole bytes, each built from the lower half of one source byte
        // and the upper half of the next.
        let mut i: usize = start;
        while i < end - 1
            invariant
                start <= i <= end - 1,
                vec@ == dst0 + Seq::new((i - start) as nat, |k: int| ov_byte(self.repr(), start + k)),
                *length == len0 + 2 * (i - start),
            decreases end - 1 - i,
        {
            let first_half = self.data[i] & 0x0f;
            let second_half = self.data[i + 1] >> 4;
            vec.push((first_half << 4) | second_half);
            *length = *length + 2;
            i = i + 1;
            proof {
                assert(vec@ =~= dst0 + Seq::new(
                    (i - start) as nat,
                    |k: int| ov_byte(self.repr(), start + k),
                ));
            }
        }
        if include_last {
            // The copied nibble count is odd: emit the final source nibble on
            // its own, upper half only, lower half zero.
            let last = self.data[end - 1] & 0x0f;
            vec.push(last << 4);
            *length = *length + 1;
            proof {
                let a = self.repr()[end - 1];
                assert(((a & 0x0fu8) << 4u8) & 0x0fu8 == 0) by (bit_vector);
            }
        }
        proof {
            assert(vec@ =~= dst0 + ov_bytes(self.repr(), start as int, end as int, include_last));
            lemma_overlap_unpack(
                self.repr(),
                start as int,
                end as int,
                include_last,
                dst0,
                len0 as int,
            );
        }
    }

    /// Add a single nibble to the vector.
    ///
    /// Only the four least significant bits of the value are used.
    pub fn push(&mut self, val: u8)
        requires
            old(self).inv(),
            old(self)@.len() < usize::MAX,
        ensures
            final(self).inv(),
            final(self)@ == old(self)@.push(val & 0x0fu8),
    {
        if self.length % 2 == 0 {
            // Start a new byte, with the value in its upper half and the
            // lower half implicitly zero.
            self.data.push(val << 4);
            self.length = self.length + 1;
            proof {
                let olds = old(self)@;
                let news = self@;
                assert(news.len() == olds.len() + 1);
                assert forall|i: int| 0 <= i < news.len() implies news[i] == olds.push(
                    val & 0x0fu8,
                )[i] by {
                    if i < olds.len() {
                        assert(i / 2 < old(self).data@.len());
                        assert(self.data@[i / 2] == old(self).data@[i / 2]);
                    } else {
                        assert(i % 2 == 0);
                        assert(i / 2 == old(self).data@.len());
                        assert((val << 4u8) >> 4u8 == val & 0x0fu8) by (bit_vector);
                    }
                }
                assert(news =~= olds.push(val & 0x0fu8));
                assert((val << 4u8) & 0x0fu8 == 0) by (bit_vector);
            }
        } else {
            let vec_len = self.data.len();
            let b = self.data[vec_len - 1];
            // Clear the lower half of the last byte before writing, so that a
            // byte kept from a previous, larger use cannot leak stale bits.
            self.data[vec_len - 1] = (b & 0xf0) | (val & 0x0f);
            self.length = self.length + 1;
            proof {
                let olds = old(self)@;
                let news = self@;
                let k = old(self).data@.len() - 1;
                assert(news.len() == olds.len() + 1);
                assert forall|i: int| 0 <= i < news.len() implies news[i] == olds.push(
                    val & 0x0fu8,
                )[i] by {
                    if i < olds.len() {
                        if i / 2 < k {
                            assert(self.data@[i / 2] == old(self).data@[i / 2]);
                        } else {
                            assert(i == olds.len() - 1 && i % 2 == 0 && i / 2 == k);
                            assert(((b & 0xf0u8) | (val & 0x0fu8)) >> 4u8 == b >> 4u8)
                                by (bit_vector);
                        }
                    } else {
                        assert(i % 2 == 1 && i / 2 == k);
                        assert(((b & 0xf0u8) | (val & 0x0fu8)) & 0x0fu8 == val & 0x0fu8)
                            by (bit_vector);
                    }
                }
                assert(news =~= olds.push(val & 0x0fu8));
            }
        }
    }

    /// Append another nibble vector, consuming the receiver and borrowing the
    /// other vector, which is left unmodified.
    #[verifier::loop_isolation(false)]
    pub fn join(self, other: &NibbleVec) -> (r: NibbleVec)
        requires
            self.inv(),
            other.inv(),
            self@.len() + other@.len() <= usize::MAX,
        ensures
            r.inv(),
            r@ == self@ + other@,
    {
        let mut this = self;
        let ghost s0 = this@;
        let ghost l1 = this@.len() as int;
        let ghost l2 = other@.len() as int;

        // If the receiver's length is even, the byte buffers concatenate
        // directly; no bit shifting is needed.
        if this.length % 2 == 0 {
            let ghost d0 = this.data@;
            this.length = this.length + other.length;
            let mut i: usize = 0;
            while i < other.data.len()
                invariant
                    0 <= i <= other.data@.len(),
                    this.length == l1 + l2,
                    this.data@ == d0 + other.data@.subrange(0, i as int),
                decreases other.data@.len() - i,
            {
                this.data.push(other.data[i]);
                i = i + 1;
                proof {
                    assert(this.data@ =~= d0 + other.data@.subrange(0, i as int));
                }
            }
            proof {
                assert(this.data@ =~= d0 + other.data@);
                let news = this@;
                assert forall|i: int| 0 <= i < l1 + l2 implies news[i] == (s0 + other@)[i] by {
                    if i < l1 {
                        assert(i / 2 < d0.len());
                        assert(this.data@[i / 2] == d0[i / 2]);
                    } else {
                        let j = i - l1;
                        assert(i / 2 == l1 / 2 + j / 2 && i % 2 == j % 2) by (nonlinear_arith)
                            requires
                                l1 % 2 == 0,
                                0 <= l1,
                                0 <= j,
                                i == l1 + j,
                        ;
                        assert(j / 2 < other.data@.len()) by (nonlinear_arith)
                            requires
                                0 <= j < l2,
                                other.data@.len() == (l2 + 1) / 2,
                                l2 == 2 * ((l2 + 1) / 2) || l2 == 2 * ((l2 + 1) / 2) - 1,
                        ;
                        assert(this.data@[i / 2] == other.data@[j / 2]);
                    }
                }
                assert(news =~= s0 + other@);
                assert(this.repr().len() == (news.len() + 1) / 2) by (nonlinear_arith)
                    requires
                        this.repr().len() == l1 / 2 + (l2 + 1) / 2,
                        l1 % 2 == 0,
                        0 <= l1,
                        0 <= l2,
                        news.len() == l1 + l2,
                ;
            }
            return this;
        }

        // If the other vector is empty, the receiver is already the result.
        if other.length == 0 {
            proof {
                assert(this@ =~= s0 + other@);
            }
            return this;
        }

        // The receiver's length is odd: push the other vector's first nibble
        // to get back to a byte boundary, then overlap-copy the rest.
        let first = other.get(0);
        this.push(first);
        proof {
            assert(first & 0x0fu8 == first) by (bit_vector)
                requires
                    first < 16,
            ;
            assert(2 * this.data@.len() == this.length) by (nonlinear_arith)
                requires
                    this.data@.len() == ((l1 + 1) + 1) / 2,
                    this.length == l1 + 1,
                    l1 % 2 == 1,
                    0 <= l1,
            ;
            assert(ov_count(0, other.repr().len() as int, l2 % 2 == 0) == l2 - 1)
                by (nonlinear_arith)
                requires
                    0 < l2,
                    other.repr().len() == (l2 + 1) / 2,
                    l2 == 2 * ((l2 + 1) / 2) || l2 == 2 * ((l2 + 1) / 2) - 1,
            ;
        }

        let ghost mid_data = this.data@;
        let ghost mid_len = this.length as int;
        let take_last = other.length % 2 == 0;
        let end = other.data.len();
        let NibbleVec { mut length, mut data } = this;
        other.overlap_copy(0, end, &mut data, &mut length, take_last);
        let r = NibbleVec { length, data };
        proof {
            let full2 = unpack(other.repr(), 2 * other.repr().len());
            assert(r@ == unpack(mid_data, mid_len as nat) + full2.subrange(1, l2));
            assert forall|i: int| 0 <= i < l1 + l2 implies r@[i] == (s0 + other@)[i] by {
                if i < l1 + 1 {
                    assert(r@[i] == (s0.push(first))[i]);
                } else {
                    assert(r@[i] == full2[i - l1]);
                    assert(full2[i - l1] == other@[i - l1]);
                }
            }
            assert(r@ =~= s0 + other@);
            assert(r.repr().len() == (r@.len() + 1) / 2) by (nonlinear_arith)
                requires
                    r.repr().len() == (l1 + 1) / 2 + ((l2 + 1) / 2 - 1) + if take_last {
                        1int
                    } else {
                        0int
                    },
                    take_last <==> l2 % 2 == 0,
                    l1 % 2 == 1,
                    0 <= l1,
                    0 < l2,
                    r@.len() == l1 + l2,
                    l2 == 2 * ((l2 + 1) / 2) || l2 == 2 * ((l2 + 1) / 2) - 1,
            ;
        }
        r
    }

    /// Compare against a raw sequence of nibble values: lengths first, then
    /// each nibble in logical order.
    #[verifier::loop_isolation(false)]
    pub fn eq_nibbles(&self, other: &[u8]) -> (r: bool)
        requires
            self.inv(),
        ensures
            r == (self@ == other@),
    {
        if other.len() != self.len() {
            proof {
                assert(self@ != other@);
            }
            return false;
        }
        let n = other.len();
        let mut i: usize = 0;
        while i < n
            invariant
                0 <= i <= n,
                forall|j: int| 0 <= j < i ==> self@[j] == other@[j],
            decreases n - i,
        {
            if self.get(i) != other[i] {
                proof {
                    assert(self@ != other@);
                }
                return false;
            }
            i = i + 1;
        }
        proof {
            assert(self@ =~= other@);
        }
        true
    }

    /// Render the logical contents, as the debug form of the vector: the
    /// nibble values, comma separated, in logical order, inside brackets.
    #[verifier::loop_isolation(false)]
    pub fn debug_string(&self) -> (r: String)
        requires
            self.inv(),
        ensures
            r@ == render(self@),
    {
        let mut s = String::from_str("NibbleVec [");
        if self.len() > 0 {
            s.append(nib_str(self.get(0)));
            proof {
                assert(self@.take(1) =~= seq![self@[0]]);
            }
            let mut i: usize = 1;
            while i < self.len()
                invariant
                    1 <= i <= self@.len(),
                    s@ == "NibbleVec ["@ + render_nibs(self@.take(i as int)),
                decreases self@.len() - i,
            {
                s.append(", ");
                s.append(nib_str(self.get(i)));
                i = i + 1;
                proof {
                    reveal_strlit(", ");
                    assert(", "@ =~= seq![',', ' ']);
                    let t = self@.take(i as int);
                    assert(t.drop_last() =~= self@.take(i as int - 1));
                    assert(t.last() == self@[i as int - 1]);
                    assert(s@ =~= "NibbleVec ["@ + render_nibs(t));
                }
            }
            proof {
                assert(self@.take(self@.len() as int) =~= self@);
            }
        } else {
            proof {
                assert(s@ =~= "NibbleVec ["@ + render_nibs(self@));
            }
        }
        s.append("]");
        proof {
            assert(s@ =~= render(self@));
        }
        s
    }

    /// Every stored nibble lies in `[0, 15]`.
    pub proof fn lemma_nibble_range(&self, i: int)
        requires
            0 <= i < self@.len(),
        ensures
            self@[i] < 16,
    {
        let b = self.repr()[i / 2];
        assert(b >> 4u8 < 16 && b & 0x0fu8 < 16) by (bit_vector);
    }

    /// Canonical representation: under the invariant, the packed buffer is
    /// exactly the buffer re-derived from the logical nibble values alone, so
    /// byte-level and nibble-level equality coincide. In particular, the
    /// lower half of the final byte of an odd-length sequence is zero.
    pub proof fn lemma_canonical_repr(&self)
        requires
            self.inv(),
        ensures
            self.repr() == pack(self@),
    {
        let n = self@.len() as int;
        assert forall|j: int| 0 <= j < self.repr().len() implies self.repr()[j] == pack(
            self@,
        )[j] by {
            let b = self.repr()[j];
            assert(0 <= 2 * j && 2 * j < n) by (nonlinear_arith)
                requires
                    0 <= j,
                    j < (n + 1) / 2,
                    n == 2 * ((n + 1) / 2) || n == 2 * ((n + 1) / 2) - 1,
            ;
            assert(2 * j % 2 == 0 && 2 * j / 2 == j && (2 * j + 1) % 2 == 1 && (2 * j + 1) / 2
                == j) by (nonlinear_arith)
                requires
                    0 <= j,
            ;
            if 2 * j + 1 < n {
                assert((((b >> 4u8) & 0x0fu8) << 4u8) | ((b & 0x0fu8) & 0x0fu8) == b)
                    by (bit_vector);
            } else {
                assert(j == self.repr().len() - 1 && n % 2 == 1);
                assert(((b >> 4u8) & 0x0fu8) << 4u8 == b) by (bit_vector)
                    requires
                        b & 0x0fu8 == 0,
                ;
            }
        }
        assert(self.repr() =~= pack(self@));
    }

    /// For well-formed vectors, structural equality of length and packed
    /// buffer holds exactly when the logical nibble sequences are equal.
    pub proof fn lemma_eq_iff_view_eq(&self, other: &NibbleVec)
        requires
            self.inv(),
            other.inv(),
        ensures
            self.eq_spec(other) <==> self@ == other@,
    {
        if self.eq_spec(other) {
            assert(self@ =~= other@);
        }
        if self@ == other@ {
            self.lemma_canonical_repr();
            other.lemma_canonical_repr();
        }
    }
}

/// The decimal rendering of a single nibble value.
pub open spec fn nib_chars(v: u8) -> Seq<char> {
    if v == 0 {
        seq!['0']
    } else if v == 1 {
        seq!['1']
    } else if v == 2 {
        seq!['2']
    } else if v == 3 {
        seq!['3']
    } else if v == 4 {
        seq!['4']
    } else if v == 5 {
        seq!['5']
    } else if v == 6 {
        seq!['6']
    } else if v == 7 {
        seq!['7']
    } else if v == 8 {
        seq!['8']
    } else if v == 9 {
        seq!['9']
    } else if v == 10 {
        seq!['1', '0']
    } else if v == 11 {
        seq!['1', '1']
    } else if v == 12 {
        seq!['1', '2']
    } else if v == 13 {
        seq!['1', '3']
    } else if v == 14 {
        seq!['1', '4']
    } else {
        seq!['1', '5']
    }
}

/// The comma-separated decimal rendering of a run of nibble values.
pub open spec fn render_nibs(nibs: Seq<u8>) -> Seq<char>
    decreases nibs.len(),
{
    if nibs.len() == 0 {
        Seq::<char>::empty()
    } else if nibs.len() == 1 {
        nib_chars(nibs[0])
    } else {
        render_nibs(nibs.drop_last()) + seq![',', ' '] + nib_chars(nibs.last())
    }
}

/// The debug rendering of a nibble sequence: its values, comma separated, in
/// logical order, inside brackets.
pub open spec fn render(nibs: Seq<u8>) -> Seq<char> {
    "NibbleVec ["@ + render_nibs(nibs) + "]"@
}

/// The decimal rendering of one nibble value, as a string slice.
fn nib_str(v: u8) -> (r: &'static str)
    requires
        v < 16,
    ensures
        r@ == nib_chars(v),
{
    match v {
        0 => {
            proof {
                reveal_strlit("0");
                assert("0"@ =~= nib_chars(0));
            }
            "0"
        },
        1 => {
            proof {
                reveal_strlit("1");
                assert("1"@ =~= nib_chars(1));
            }
            "1"
        },
        2 => {
            proof {
                reveal_strlit("2");
                assert("2"@ =~= nib_chars(2));
            }
            "2"
        },
        3 => {
            proof {
                reveal_strlit("3");
                assert("3"@ =~= nib_chars(3));
            }
            "3"
        },
        4 => {
            proof {
                reveal_strlit("4");
                assert("4"@ =~= nib_chars(4));
            }
            "4"
        },
        5 => {
            proof {
                reveal_strlit("5");
                assert("5"@ =~= nib_chars(5));
            }
            "5"
        },
        6 => {
            proof {
                reveal_strlit("6");
                assert("6"@ =~= nib_chars(6));
            }
            "6"
        },
        7 => {
            proof {
                reveal_strlit("7");
                assert("7"@ =~= nib_chars(7));
            }
            "7"
        },
        8 => {
            proof {
                reveal_strlit("8");
                assert("8"@ =~= nib_chars(8));
            }
            "8"
        },
        9 => {
            proof {
                reveal_strlit("9");
                assert("9"@ =~= nib_chars(9));
            }
            "9"
        },
        10 => {
            proof {
                reveal_strlit("10");
                assert("10"@ =~= nib_chars(10));
            }
            "10"
        },
        11 => {
            proof {
                reveal_strlit("11");
                assert("11"@ =~= nib_chars(11));
            }
            "11"
        },
        12 => {
            proof {
                reveal_strlit("12");
                assert("12"@ =~= nib_chars(12));
            }
            "12"
        },
        13 => {
            proof {
                reveal_strlit("13");
                assert("13"@ =~= nib_chars(13));
            }
            "13"
        },
        14 => {
            proof {
                reveal_strlit("14");
                assert("14"@ =~= nib_chars(14));
            }
            "14"
        },
        _ => {
            proof {
                reveal_strlit("15");
                assert("15"@ =~= nib_chars(15));
            }
            "15"
        },
    }
}

impl PartialEq for NibbleVec {
    /// Structural equality: length and packed buffer compare directly. Since
    /// the padding of an odd-length buffer is always zero, this coincides
    /// with comparing the logical nibble sequences.
    fn eq(&self, other: &NibbleVec) -> (r: bool) {
        if self.length != other.length {
            return false;
        }
        let bytes_eq = self.data == other.data;
        proof {
            if bytes_eq {
                assert(self.data@ =~= other.data@);
            } else {
                if self.data@ == other.data@ {
                    assert(forall|i: int|
                        0 <= i < self.data@.len() ==> self.data@[i] == other.data@[i]);
                    assert(false);
                }
            }
        }
        bytes_eq
    }
}

impl Eq for NibbleVec {}

impl vstd::std_specs::cmp::PartialEqSpecImpl for NibbleVec {
    open spec fn obeys_eq_spec() -> bool {
        true
    }

    open spec fn eq_spec(&self, other: &NibbleVec) -> bool {
        self@.len() == other@.len() && self.repr() == other.repr()
    }
}

impl Clone for NibbleVec {
    /// A deep copy: the clone shares no storage with the original.
    fn clone(&self) -> (r: NibbleVec)
        ensures
            r@ == self@,
            r.repr() == self.repr(),
    {
        let mut data: Vec<u8> = Vec::new();
        let mut i: usize = 0;
        while i < self.data.len()
            invariant
                0 <= i <= self.data@.len(),
                data@ == self.data@.subrange(0, i as int),
            decreases self.data@.len() - i,
        {
            data.push(self.data[i]);
            i = i + 1;
            proof {
                assert(data@ =~= self.data@.subrange(0, i as int));
            }
        }
        proof {
            assert(data@ =~= self.data@);
        }
        NibbleVec { length: self.length, data }
    }
}

} // verus!
