//! Growable, bit-addressable byte buffer with a write cursor, and a reader
//! consuming bits from an owned byte snapshot.
//!
//! Bits are appended in big-endian order within each byte. The abstract view
//! of a stream is the `Seq<bool>` of the bits written so far; unwritten
//! positions of the last partial byte are kept zero.

use vstd::prelude::*;

verus! {

use crate::bits::{u64_bits, bits_val, lemma_bits_val_push};
use crate::{Bit, CodecError};
use vstd::arithmetic::power2::{pow2, lemma_pow2_unfold, lemma_pow2_pos, lemma2_to64,
    lemma2_to64_rest};

/// The bit at big-endian position `j` of byte `b`.
pub open spec fn byte_bit(b: u8, j: int) -> bool {
    (b >> ((7 - j) as u8)) & 1 == 1
}

/// Setting bit `p` of a byte leaves every other bit unchanged.
proof fn lemma_set_bit(o: u8, p: u8)
    by (bit_vector)
    requires
        p < 8,
    ensures
        ((o | (128u8 >> p)) >> ((7 - p) as u8)) & 1 == 1,
        forall|j: u8|
            j < 8 && j != p ==> #[trigger] (((o | (128u8 >> p)) >> ((7 - j) as u8)) & 1) == (o
                >> ((7 - j) as u8)) & 1,
{
}

/// The bits of the two bytes a fresh byte can start from.
proof fn lemma_fresh_byte()
    by (bit_vector)
    ensures
        (128u8 >> 7u8) & 1 == 1,
        forall|j: u8| 1 <= j < 8 ==> #[trigger] ((128u8 >> ((7 - j) as u8)) & 1) == 0,
        forall|j: u8| j < 8 ==> #[trigger] ((0u8 >> ((7 - j) as u8)) & 1) == 0,
{
}

/// A growable bit-level write buffer, reserving space by a bounded
/// geometric factor as it fills.
pub struct BitStream {
    buf: Vec<u8>,
    len_bits: usize,
    grow_at: usize,
}

/// The next capacity step: a fifth of the current length, floored at 1 KiB
/// and capped at 10 MiB.
fn grow_step(len: usize) -> (step: usize)
    ensures
        1024 <= step <= 10 * 1024 * 1024,
{
    let step = len / 5;
    if step < 1024 {
        1024
    } else if step > 10 * 1024 * 1024 {
        10 * 1024 * 1024
    } else {
        step
    }
}

impl BitStream {
    /// The bits written so far, in order.
    pub closed spec fn bits(&self) -> Seq<bool> {
        Seq::new(self.len_bits as nat, |i: int| byte_bit(self.buf@[i / 8], i % 8))
    }

    /// The buffer holds exactly the written bits, padded with zeros to a
    /// byte boundary.
    pub closed spec fn wf(&self) -> bool {
        &&& self.len_bits <= self.buf@.len() * 8
        &&& self.buf@.len() * 8 <= self.len_bits + 7
        &&& forall|i: int|
            self.len_bits <= i < self.buf@.len() * 8 ==> !byte_bit(#[trigger] self.buf@[i / 8], i
                % 8)
    }

    /// Number of whole bytes backing the stream.
    pub fn byte_len(&self) -> (n: usize)
        requires
            self.wf(),
        ensures
            self.bits().len() <= n * 8 <= self.bits().len() + 7,
    {
        proof {
            assert(self.len_bits as nat % 8 == self.len_bits % 8);
        }
        self.buf.len()
    }

    /// The exact number of bits written.
    pub fn bit_len(&self) -> (n: usize)
        ensures
            n == self.bits().len(),
    {
        self.len_bits
    }

    /// An empty stream.
    pub fn new() -> (s: BitStream)
        ensures
            s.wf(),
            s.bits() =~= Seq::<bool>::empty(),
    {
        BitStream { buf: Vec::new(), len_bits: 0, grow_at: 0 }
    }

    /// Append one bit.
    pub fn write_bit(&mut self, bit: Bit)
        requires
            old(self).wf(),
            old(self).bits().len() + 9 <= usize::MAX,
        ensures
            final(self).wf(),
            final(self).bits() =~= old(self).bits().push(bit.spec_bool()),
    {
        let b = bit.to_bool();
        let ghost n = self.len_bits as int;
        let pos = self.len_bits % 8;
        if pos == 0 {
            if self.buf.len() >= self.grow_at {
                let step = grow_step(self.buf.len());
                self.buf.reserve(step);
                self.grow_at = if self.buf.len() <= usize::MAX - step {
                    self.buf.len() + step
                } else {
                    usize::MAX
                };
            }
            proof {
                lemma_fresh_byte();
            }
            self.buf.push(if b {
                128
            } else {
                0
            });
        } else {
            let idx = self.len_bits / 8;
            proof {
                assert(idx < self.buf@.len());
            }
            if b {
                let old_byte = self.buf[idx];
                let sh: u8 = 128u8 >> (pos as u8);
                self.buf.set(idx, old_byte | sh);
                proof {
                    lemma_set_bit(old_byte, pos as u8);
                }
            } else {
                proof {
                    // the target position lies in the zero padding
                    assert(!byte_bit(self.buf@[n / 8], n % 8));
                }
            }
        }
        self.len_bits = self.len_bits + 1;
        proof {
            let news = self.bits();
            let olds = old(self).bits().push(b);
            assert forall|i: int| 0 <= i < news.len() implies news[i] == olds[i] by {
                if pos == 0 {
                    if i < n {
                        assert(self.buf@[i / 8] == old(self).buf@[i / 8]);
                    }
                } else {
                    if i < n && i / 8 != n / 8 {
                        assert(self.buf@[i / 8] == old(self).buf@[i / 8]);
                    } else if i < n {
                        assert(i % 8 != n % 8) by {
                            assert(i == 8 * (i / 8) + i % 8);
                            assert(n == 8 * (n / 8) + n % 8);
                        }
                    }
                }
            }
            assert forall|i: int|
                self.len_bits <= i < self.buf@.len() * 8 implies !byte_bit(
                #[trigger] self.buf@[i / 8],
                i % 8,
            ) by {
                if pos != 0 {
                    if i / 8 != n / 8 {
                        assert(self.buf@[i / 8] == old(self).buf@[i / 8]);
                    } else {
                        assert(i % 8 != n % 8) by {
                            assert(i == 8 * (i / 8) + i % 8);
                            assert(n == 8 * (n / 8) + n % 8);
                        }
                    }
                } else {
                    assert(i / 8 == n / 8 && 1 <= i % 8 < 8) by {
                        assert(n == 8 * (n / 8));
                    }
                }
            }
        }
    }

    /// Append the low `count` bits of `bits`, most significant first.
    pub fn write_bits(&mut self, bits: u64, count: u32)
        requires
            old(self).wf(),
            count <= 64,
            old(self).bits().len() + count + 9 <= usize::MAX,
        ensures
            final(self).wf(),
            final(self).bits() =~= old(self).bits() + u64_bits(bits, count as nat),
    {
        let ghost target = u64_bits(bits, count as nat);
        let mut i: u32 = 0;
        while i < count
            invariant
                self.wf(),
                i <= count <= 64,
                target == u64_bits(bits, count as nat),
                old(self).bits().len() + count + 9 <= usize::MAX,
                self.bits() =~= old(self).bits() + target.take(i as int),
            decreases count - i,
        {
            let sh: u32 = count - 1 - i;
            let b = ((bits >> (sh as u64)) & 1) == 1;
            self.write_bit(Bit::from_bool(b));
            proof {
                assert(target[i as int] == b);
                assert(old(self).bits() + target.take(i + 1 as int) =~= (old(self).bits()
                    + target.take(i as int)).push(b));
            }
            i = i + 1;
        }
        proof {
            assert(target.take(count as int) =~= target);
        }
    }

    /// Append one whole byte.
    pub fn write_byte(&mut self, byte: u8)
        requires
            old(self).wf(),
            old(self).bits().len() + 17 <= usize::MAX,
        ensures
            final(self).wf(),
            final(self).bits() =~= old(self).bits() + u64_bits(byte as u64, 8),
    {
        self.write_bits(byte as u64, 8);
    }

    /// An independent owned copy of the written bytes, for sealing.
    pub fn snapshot_bytes(&self) -> (out: Vec<u8>)
        requires
            self.wf(),
        ensures
            BitReader::bytes_hold(out@, self.bits()),
            out@.len() * 8 <= self.bits().len() + 7,
    {
        let mut out: Vec<u8> = Vec::new();
        let mut i: usize = 0;
        while i < self.buf.len()
            invariant
                i <= self.buf@.len(),
                out@ =~= self.buf@.take(i as int),
            decreases self.buf@.len() - i,
        {
            out.push(self.buf[i]);
            proof {
                assert(self.buf@.take(i + 1 as int) =~= self.buf@.take(i as int).push(
                    self.buf@[i as int],
                ));
            }
            i = i + 1;
        }
        proof {
            assert(out@ =~= self.buf@);
        }
        out
    }

    /// A reader positioned at the start of the written bits.
    pub fn reader(&self) -> (r: BitReader)
        requires
            self.wf(),
        ensures
            r.wf(),
            r.bits() =~= self.bits(),
            r.cursor() == 0,
    {
        let bytes = self.snapshot_bytes();
        let ghost gb = bytes@;
        let r = BitReader::new(bytes, self.len_bits);
        proof {
            assert forall|i: int| 0 <= i < self.bits().len() implies r.bits()[i]
                == self.bits()[i] by {
                assert(r.bits()[i] == byte_bit(gb[i / 8], i % 8));
                assert(self.bits()[i] == byte_bit(gb[i / 8], i % 8));
            }
        }
        r
    }
}

/// A bit-level reader over an owned byte snapshot.
pub struct BitReader {
    buf: Vec<u8>,
    len_bits: usize,
    cursor: usize,
}

impl BitReader {
    /// The readable bits.
    pub closed spec fn bits(&self) -> Seq<bool> {
        Seq::new(self.len_bits as nat, |i: int| byte_bit(self.buf@[i / 8], i % 8))
    }

    /// The read cursor: how many bits were consumed.
    pub closed spec fn cursor(&self) -> nat {
        self.cursor as nat
    }

    /// The cursor stays within the stream and the buffer covers it.
    pub closed spec fn wf(&self) -> bool {
        &&& self.cursor <= self.len_bits
        &&& self.len_bits <= self.buf@.len() * 8
    }

    /// The byte sequence `bytes` carries exactly the bit sequence `bits`.
    pub open spec fn bytes_hold(bytes: Seq<u8>, bits: Seq<bool>) -> bool {
        &&& bits.len() <= bytes.len() * 8
        &&& forall|i: int| 0 <= i < bits.len() ==> bits[i] == byte_bit(#[trigger] bytes[i / 8], i % 8)
    }

    /// A reader over `len_bits` bits stored in `bytes`.
    pub fn new(bytes: Vec<u8>, len_bits: usize) -> (r: BitReader)
        requires
            len_bits <= bytes@.len() * 8,
        ensures
            r.wf(),
            r.cursor() == 0,
            r.bits().len() == len_bits,
            BitReader::bytes_hold(bytes@, r.bits()),
    {
        BitReader { buf: bytes, len_bits, cursor: 0 }
    }

    /// Read one bit, advancing the cursor; end-of-stream once the cursor
    /// passes the written length.
    pub fn read_bit(&mut self) -> (r: Result<Bit, CodecError>)
        requires
            old(self).wf(),
        ensures
            final(self).wf(),
            final(self).bits() == old(self).bits(),
            old(self).cursor() < old(self).bits().len() ==> {
                &&& r matches Ok(b) && b.spec_bool() == old(self).bits()[old(self).cursor() as int]
                &&& final(self).cursor() == old(self).cursor() + 1
            },
            old(self).cursor() >= old(self).bits().len() ==> {
                &&& r == Result::<Bit, CodecError>::Err(CodecError::StreamExhausted)
                &&& final(self).cursor() == old(self).cursor()
            },
    {
        if self.cursor >= self.len_bits {
            return Err(CodecError::StreamExhausted);
        }
        let idx = self.cursor / 8;
        let pos = (self.cursor % 8) as u8;
        proof {
            assert(idx < self.buf@.len()) by {
                assert(self.cursor as int == 8 * (self.cursor as int / 8) + self.cursor as int
                    % 8);
            }
        }
        let byte = self.buf[idx];
        let b = ((byte >> (7 - pos)) & 1) == 1;
        self.cursor = self.cursor + 1;
        Ok(Bit::from_bool(b))
    }

    /// Read one whole byte.
    pub fn read_byte(&mut self) -> (r: Result<u8, CodecError>)
        requires
            old(self).wf(),
        ensures
            final(self).wf(),
            final(self).bits() == old(self).bits(),
            old(self).cursor() + 8 <= old(self).bits().len() ==> {
                &&& r matches Ok(v) && v == bits_val(
                    old(self).bits().subrange(
                        old(self).cursor() as int,
                        (old(self).cursor() + 8) as int,
                    ),
                )
                &&& final(self).cursor() == old(self).cursor() + 8
            },
            old(self).cursor() + 8 > old(self).bits().len() ==> {
                &&& r == Result::<u8, CodecError>::Err(CodecError::StreamExhausted)
                &&& final(self).cursor() == old(self).cursor()
            },
    {
        proof {
            lemma2_to64();
        }
        match self.read_bits(8) {
            Ok(v) => Ok(v as u8),
            Err(e) => Err(e),
        }
    }

    /// Read `count` bits into the low bits of a `u64`, most significant
    /// first; the cursor does not move when fewer bits remain.
    pub fn read_bits(&mut self, count: u32) -> (r: Result<u64, CodecError>)
        requires
            old(self).wf(),
            count <= 64,
        ensures
            final(self).wf(),
            final(self).bits() == old(self).bits(),
            old(self).cursor() + count <= old(self).bits().len() ==> {
                &&& r matches Ok(v) && v == bits_val(
                    old(self).bits().subrange(
                        old(self).cursor() as int,
                        old(self).cursor() + count,
                    ),
                ) && v < pow2(count as nat)
                &&& final(self).cursor() == old(self).cursor() + count
            },
            old(self).cursor() + count > old(self).bits().len() ==> {
                &&& r == Result::<u64, CodecError>::Err(CodecError::StreamExhausted)
                &&& final(self).cursor() == old(self).cursor()
            },
    {
        if count as usize > self.len_bits - self.cursor {
            return Err(CodecError::StreamExhausted);
        }
        let ghost c0 = self.cursor as int;
        let mut acc: u64 = 0;
        let mut i: u32 = 0;
        proof {
            lemma2_to64();
            lemma2_to64_rest();
        }
        while i < count
            invariant
                self.wf(),
                self.bits() == old(self).bits(),
                i <= count <= 64,
                self.cursor == c0 + i,
                0 <= c0,
                c0 + count <= self.bits().len(),
                acc == bits_val(self.bits().subrange(c0, c0 + i)),
                acc < pow2(i as nat),
            decreases count - i,
        {
            let b = match self.read_bit() {
                Ok(bit) => bit.to_bool(),
                Err(_) => {
                    proof {
                        assert(false);
                    }
                    false
                },
            };
            proof {
                lemma2_to64();
                lemma2_to64_rest();
                let s = self.bits().subrange(c0, c0 + i);
                assert(self.bits().subrange(c0, c0 + i + 1) =~= s.push(self.bits()[c0 + i]));
                lemma_bits_val_push(s, self.bits()[c0 + i]);
                lemma_pow2_unfold((i + 1) as nat);
                lemma_pow2_pos(i as nat);
                assert(pow2(i as nat) <= pow2(63)) by {
                    if i < 63 {
                        vstd::arithmetic::power2::lemma_pow2_strictly_increases(
                            i as nat,
                            63,
                        );
                    }
                }
                assert(acc < 0x8000_0000_0000_0000 ==> ((acc << 1u64) | 1u64) == 2 * acc + 1
                    && ((acc << 1u64) | 0u64) == 2 * acc) by (bit_vector);
            }
            acc = (acc << 1u64) | (if b {
                1
            } else {
                0
            });
            i = i + 1;
        }
        Ok(acc)
    }
}

} // verus!
