//! The executable encoder: a stateful compressor writing samples into a
//! bit stream, proved to produce exactly `encode_stream` of the samples it
//! accepted.

use vstd::prelude::*;

verus! {

use crate::{Sample, Bit};
use crate::bitstream::{BitStream, BitReader};
use crate::codec::{CState, init_state, st_inv, can_encode, sbits, dod_bits, xor_bits,
    sample_bits, step, advance, chain_ok, stream_tail, encode_stream, clamped_lead, delta_bound,
    dod_min, dod_end, lemma_step_inv, lemma_lead_trail, lemma_advance_push, lemma_chain_push,
    lemma_stream_tail_push, lemma_stream_tail_len};
use vstd::arithmetic::power2::{pow2, lemma_pow2_unfold, lemma_pow2_pos, lemma2_to64,
    lemma2_to64_rest};
use vstd::arithmetic::div_mod::{lemma_small_mod, lemma_mod_add_multiples_vanish};
use vstd::std_specs::bits::{u64_leading_zeros, u64_trailing_zeros};

/// Write the low `n` bits of `d` in two's complement.
fn write_signed(stream: &mut BitStream, d: i64, n: u32)
    requires
        old(stream).wf(),
        1 <= n <= 32,
        -pow2((n - 1) as nat) <= d as int,
        (d as int) < pow2((n - 1) as nat),
        old(stream).bits().len() + n + 9 <= usize::MAX,
    ensures
        final(stream).wf(),
        final(stream).bits() =~= old(stream).bits() + sbits(d as int, n as nat),
{
    proof {
        lemma2_to64();
        lemma_pow2_pos(n as nat);
        lemma_pow2_unfold(n as nat);
        assert(pow2(n as nat) <= pow2(32)) by {
            if n < 32 {
                vstd::arithmetic::power2::lemma_pow2_strictly_increases(n as nat, 32);
            }
        }
    }
    let u: u64 = if d >= 0 {
        proof {
            lemma_small_mod(d as nat, pow2(n as nat));
        }
        d as u64
    } else {
        let two_n: u64 = 1u64 << n;
        proof {
            vstd::bits::lemma_u64_shl_is_mul(1u64, n as u64);
            lemma_mod_add_multiples_vanish(d as int, pow2(n as nat) as int);
            lemma_small_mod((d + pow2(n as nat)) as nat, pow2(n as nat));
        }
        (d + (two_n as i64)) as u64
    };
    proof {
        assert(u == ((d as int) % (pow2(n as nat) as int)) as u64);
    }
    stream.write_bits(u, n);
}

/// A stateful compressor for one block.
///
/// The stream it builds is, at every moment, exactly `encode_stream` of the
/// block's start time and the samples accepted so far.
pub struct Encoder {
    stream: BitStream,
    time_begin: u64,
    stored_time: u64,
    stored_delta: i64,
    stored_value: u64,
    lead: u8,
    trail: u8,
    window: bool,
    first: bool,
    samples: Ghost<Seq<Sample>>,
}

impl Encoder {
    /// The codec state reached after the accepted samples.
    pub closed spec fn state(&self) -> CState {
        CState {
            started: true,
            time: self.stored_time as int,
            delta: self.stored_delta as int,
            value: self.stored_value,
            first: self.first,
            window: self.window,
            lead: self.lead as nat,
            trail: self.trail as nat,
        }
    }

    /// The samples accepted so far, in order.
    pub closed spec fn samples(&self) -> Seq<Sample> {
        self.samples@
    }

    /// The block's reference timestamp.
    pub closed spec fn begin(&self) -> u64 {
        self.time_begin
    }

    /// The bits written so far.
    pub closed spec fn bits(&self) -> Seq<bool> {
        self.stream.bits()
    }

    /// The timestamp of the last accepted sample (initially the reference).
    pub closed spec fn last_time(&self) -> int {
        self.stored_time as int
    }

    /// The last timestamp delta (initially zero).
    pub closed spec fn last_delta(&self) -> int {
        self.stored_delta as int
    }

    /// The stream is exactly the encoding of the accepted samples and the
    /// encoder state is the fold of the codec steps.
    pub closed spec fn wf(&self) -> bool {
        &&& self.stream.wf()
        &&& self.bits() == encode_stream(self.time_begin, self.samples@)
        &&& self.state() == advance(init_state(self.time_begin), self.samples@)
        &&& chain_ok(init_state(self.time_begin), self.samples@)
        &&& st_inv(self.state())
    }

    /// Whether `s` fits the coding buckets from the current state.
    pub open spec fn can_append(&self, s: Sample) -> bool {
        &&& -delta_bound() <= s.time as int - self.last_time() <= delta_bound()
        &&& dod_min() <= (s.time as int - self.last_time()) - self.last_delta() < dod_end()
    }

    /// A fresh encoder for a block starting at `time_begin`; writes the
    /// 64-bit reference timestamp.
    pub fn new(time_begin: u64) -> (e: Encoder)
        ensures
            e.wf(),
            e.samples() == Seq::<Sample>::empty(),
            e.begin() == time_begin,
            e.last_time() == time_begin as int,
            e.last_delta() == 0,
    {
        let mut stream = BitStream::new();
        stream.write_bits(time_begin, 64);
        let e = Encoder {
            stream,
            time_begin,
            stored_time: time_begin,
            stored_delta: 0,
            stored_value: 0,
            lead: 0,
            trail: 0,
            window: false,
            first: true,
            samples: Ghost(Seq::empty()),
        };
        proof {
            crate::bits::lemma_u64_lt_pow2_64(time_begin);
            assert(e.bits() =~= encode_stream(time_begin, Seq::<Sample>::empty()));
        }
        e
    }

    /// Number of bytes the stream occupies.
    pub fn byte_len(&self) -> (n: usize)
        requires
            self.wf(),
        ensures
            self.bits().len() <= n * 8 <= self.bits().len() + 7,
    {
        self.stream.byte_len()
    }

    /// Append one sample, growing the stream by exactly its record.
    #[verifier::rlimit(100)]
    pub fn encode(&mut self, s: Sample)
        requires
            old(self).wf(),
            old(self).can_append(s),
            128 * (old(self).samples().len() + 2) + 64 <= usize::MAX,
        ensures
            final(self).wf(),
            final(self).samples() == old(self).samples().push(s),
            final(self).begin() == old(self).begin(),
            final(self).last_time() == s.time as int,
            final(self).last_delta() == s.time as int - old(self).last_time(),
    {
        let ghost st0 = self.state();
        let ghost bits0 = self.bits();
        let ghost n0 = self.samples@.len();
        proof {
            lemma2_to64();
            lemma2_to64_rest();
            lemma_stream_tail_len(init_state(self.time_begin), self.samples@);
            assert(bits0.len() <= 64 + 128 * n0);
            assert(can_encode(st0, s));
        }
        let delta128: i128 = s.time as i128 - self.stored_time as i128;
        let dod128: i128 = delta128 - self.stored_delta as i128;
        let dod: i64 = dod128 as i64;
        let ghost dd = dod as int;
        // timestamp record
        if dod == 0 {
            self.stream.write_bit(Bit::Zero);
        } else if -64 <= dod && dod <= 63 {
            self.stream.write_bit(Bit::One);
            self.stream.write_bit(Bit::Zero);
            write_signed(&mut self.stream, dod, 7);
        } else if -256 <= dod && dod <= 255 {
            self.stream.write_bit(Bit::One);
            self.stream.write_bit(Bit::One);
            self.stream.write_bit(Bit::Zero);
            write_signed(&mut self.stream, dod, 9);
        } else if -2048 <= dod && dod <= 2047 {
            self.stream.write_bit(Bit::One);
            self.stream.write_bit(Bit::One);
            self.stream.write_bit(Bit::One);
            self.stream.write_bit(Bit::Zero);
            write_signed(&mut self.stream, dod, 12);
        } else {
            self.stream.write_bit(Bit::One);
            self.stream.write_bit(Bit::One);
            self.stream.write_bit(Bit::One);
            self.stream.write_bit(Bit::One);
            write_signed(&mut self.stream, dod, 32);
        }
        proof {
            assert(self.stream.bits() =~= bits0 + dod_bits(dd));
        }
        // value record
        if self.first {
            self.stream.write_bits(s.value, 64);
            self.first = false;
        } else {
            let x = s.value ^ self.stored_value;
            if x == 0 {
                self.stream.write_bit(Bit::Zero);
            } else {
                self.stream.write_bit(Bit::One);
                let xl: u32 = x.leading_zeros();
                let xt: u32 = x.trailing_zeros();
                proof {
                    lemma_lead_trail(x);
                }
                if self.window && xl >= self.lead as u32 && xt >= self.trail as u32 {
                    self.stream.write_bit(Bit::Zero);
                    let sig: u32 = 64 - self.lead as u32 - self.trail as u32;
                    self.stream.write_bits(x >> (self.trail as u64), sig);
                } else {
                    self.stream.write_bit(Bit::One);
                    let l: u32 = if xl > 31 {
                        31
                    } else {
                        xl
                    };
                    let sig: u32 = 64 - l - xt;
                    self.stream.write_bits(l as u64, 5);
                    self.stream.write_bits((sig & 63) as u64, 6);
                    self.stream.write_bits(x >> (xt as u64), sig);
                    proof {
                        assert((sig & 63) as u64 == (sig as u64) % 64) by (bit_vector);
                        assert(((((64 - clamped_lead(x)) - u64_trailing_zeros(x)) as nat) % 64)
                            as u64 == (sig as u64) % 64);
                    }
                    self.lead = l as u8;
                    self.trail = xt as u8;
                    self.window = true;
                }
            }
        }
        proof {
            assert(self.stream.bits() =~= bits0 + dod_bits(dd) + xor_bits(st0, s.value));
        }
        // state update
        self.stored_delta = delta128 as i64;
        self.stored_time = s.time;
        self.stored_value = s.value;
        proof {
            self.samples@ = self.samples@.push(s);
        }
        proof {
            let ist = init_state(self.time_begin);
            assert(self.state() == step(st0, s));
            lemma_step_inv(st0, s);
            lemma_advance_push(ist, old(self).samples@, s);
            lemma_chain_push(ist, old(self).samples@, s);
            lemma_stream_tail_push(ist, old(self).samples@, s);
            assert(self.bits() =~= encode_stream(self.time_begin, self.samples@));
        }
    }

    /// The stream bytes and bit length, leaving the encoder usable.
    pub fn snapshot(&self) -> (out: (Vec<u8>, usize))
        requires
            self.wf(),
        ensures
            out.1 == self.bits().len(),
            BitReader::bytes_hold(out.0@, self.bits()),
            out.0@.len() * 8 <= self.bits().len() + 7,
            self.bits() == encode_stream(self.begin(), self.samples()),
            chain_ok(init_state(self.begin()), self.samples()),
    {
        let bytes = self.stream.snapshot_bytes();
        let pos = self.stream.bit_len();
        (bytes, pos)
    }

    /// The current length of the stream in bits.
    pub fn bit_pos(&self) -> (n: usize)
        requires
            self.wf(),
        ensures
            n == self.bits().len(),
    {
        self.stream.bit_len()
    }

    /// Finish the block: hand out the bytes and the exact bit length.
    pub fn close(self) -> (out: (Vec<u8>, usize))
        requires
            self.wf(),
        ensures
            out.1 == self.bits().len(),
            BitReader::bytes_hold(out.0@, self.bits()),
            out.0@.len() * 8 <= self.bits().len() + 7,
    {
        self.snapshot()
    }

    /// A decoder over a snapshot of the current stream.
    pub fn get_decoder_reader(&self) -> (r: BitReader)
        requires
            self.wf(),
        ensures
            r.wf(),
            r.bits() =~= self.bits(),
            r.bits() == encode_stream(self.begin(), self.samples()),
            chain_ok(init_state(self.begin()), self.samples()),
            r.cursor() == 0,
    {
        let r = self.stream.reader();
        proof {
            assert(r.bits() =~= encode_stream(self.begin(), self.samples()));
        }
        r
    }
}

} // verus!
