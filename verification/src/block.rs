//! Time partitioning and the two block kinds: the open, append-only block
//! that owns a live encoder, and the closed, immutable byte snapshot.

use vstd::prelude::*;

verus! {

use crate::Sample;
use crate::bitstream::BitReader;
use crate::codec::{init_state, dec_init, chain_ok, encode_stream, prefix_pos, state_at,
    lemma_parse_at};
use crate::encode::Encoder;
use crate::decode::Decoder;
use vstd::arithmetic::div_mod::{lemma_fundamental_div_mod, lemma_mod_bound,
    lemma_mod_multiples_basic, lemma_small_mod};

/// Widest partition the codec's buckets accommodate.
pub open spec fn max_period() -> int {
    0x4000_0000
}

/// The partition holding `timestamp`: `begin` is `timestamp` rounded down
/// to a multiple of `period`, `end` is one period later.
pub open spec fn time_align_spec(timestamp: u64, period: u64) -> (int, int)
    recommends
        period >= 1,
{
    let b = timestamp as int - (timestamp as int % period as int);
    (b, b + period as int)
}

/// Partition correctness: every timestamp falls in its own partition, the
/// partition is exactly one period wide, and its start is aligned.
pub proof fn lemma_time_align_partition(timestamp: u64, period: u64)
    requires
        period >= 1,
    ensures
        time_align_spec(timestamp, period).0 <= timestamp as int,
        (timestamp as int) < time_align_spec(timestamp, period).1,
        time_align_spec(timestamp, period).1 - time_align_spec(timestamp, period).0
            == period as int,
        time_align_spec(timestamp, period).0 % (period as int) == 0,
        0 <= time_align_spec(timestamp, period).0,
{
    let t = timestamp as int;
    let p = period as int;
    lemma_mod_bound(t, p);
    lemma_fundamental_div_mod(t, p);
    lemma_mod_multiples_basic(t / p, p);
}

/// Aligning an already aligned partition start is the identity.
pub proof fn lemma_time_align_idempotent(timestamp: u64, period: u64)
    requires
        period >= 1,
    ensures
        time_align_spec((time_align_spec(timestamp, period).0) as u64, period)
            == time_align_spec(timestamp, period),
{
    let t = timestamp as int;
    let p = period as int;
    let b = time_align_spec(timestamp, period).0;
    lemma_time_align_partition(timestamp, period);
    lemma_small_mod(0, p as nat);
    assert(b % p == 0);
    assert((b as u64) as int == b);
}

/// Align `timestamp` down to its partition of width `period`, returning
/// the partition's half-open bounds.
pub fn time_align(timestamp: u64, period: u64) -> (r: (u64, u64))
    requires
        period >= 1,
        timestamp <= u64::MAX - period,
    ensures
        (r.0 as int, r.1 as int) == time_align_spec(timestamp, period),
        r.0 <= timestamp < r.1,
        r.1 - r.0 == period,
        r.0 % period == 0,
{
    proof {
        lemma_time_align_partition(timestamp, period);
    }
    let b = timestamp - timestamp % period;
    (b, b + period)
}

/// Decode every record of an encoded stream; total and exact.
fn decode_all(d: Decoder, Ghost(time_begin): Ghost<u64>, Ghost(ss): Ghost<Seq<Sample>>) -> (out:
    Vec<Sample>)
    requires
        d.wf(),
        d.pos() == 0,
        d.state() == dec_init(),
        d.bits() == encode_stream(time_begin, ss),
        chain_ok(init_state(time_begin), ss),
    ensures
        out@ == ss,
{
    let mut dec = d;
    let mut out: Vec<Sample> = Vec::new();
    loop
        invariant_except_break
            dec.pos() == prefix_pos(time_begin, ss, out@.len() as int),
            dec.state() == state_at(time_begin, ss, out@.len() as int),
        invariant
            dec.wf(),
            dec.bits() == encode_stream(time_begin, ss),
            chain_ok(init_state(time_begin), ss),
            out@.len() <= ss.len(),
            out@ =~= ss.take(out@.len() as int),
        ensures
            out@ =~= ss,
        decreases ss.len() - out@.len(),
    {
        let ghost k = out@.len() as int;
        proof {
            lemma_parse_at(time_begin, ss, k);
        }
        match dec.next() {
            Ok(s) => {
                proof {
                    assert(k < ss.len());
                    assert(s == ss[k]);
                    assert(ss.take(k + 1) =~= ss.take(k).push(s));
                }
                out.push(s);
            },
            Err(_) => {
                proof {
                    assert(k == ss.len());
                    assert(ss.take(k) =~= ss);
                }
                break ;
            },
        }
    }
    out
}

/// An independent copy of a byte vector.
fn copy_bytes(v: &Vec<u8>) -> (out: Vec<u8>)
    ensures
        out@ == v@,
{
    let mut out: Vec<u8> = Vec::new();
    let mut i: usize = 0;
    while i < v.len()
        invariant
            i <= v@.len(),
            out@ =~= v@.take(i as int),
        decreases v@.len() - i,
    {
        out.push(v[i]);
        proof {
            assert(v@.take(i + 1 as int) =~= v@.take(i as int).push(v@[i as int]));
        }
        i = i + 1;
    }
    proof {
        assert(out@ =~= v@);
    }
    out
}

/// A block still accepting samples: a half-open time range and one live
/// encoder seeded at the range's start.
pub struct AppendOnlyBlock {
    time_begin: u64,
    time_end: u64,
    encoder: Encoder,
}

impl AppendOnlyBlock {
    /// The samples encoded into this block, in arrival order.
    pub closed spec fn samples(&self) -> Seq<Sample> {
        self.encoder.samples()
    }

    /// The partition's inclusive start.
    pub closed spec fn begin_spec(&self) -> u64 {
        self.time_begin
    }

    /// The partition's exclusive end.
    pub closed spec fn end_spec(&self) -> u64 {
        self.time_end
    }

    /// The encoded stream held so far.
    pub closed spec fn bits(&self) -> Seq<bool> {
        self.encoder.bits()
    }

    /// The encoder tracks exactly this block's samples, every sample lies
    /// in the partition, and the partition fits the coding buckets.
    pub closed spec fn wf(&self) -> bool {
        &&& self.encoder.wf()
        &&& self.encoder.begin() == self.time_begin
        &&& self.time_begin < self.time_end
        &&& self.time_end - self.time_begin <= max_period()
        &&& forall|i: int|
            0 <= i < self.samples().len() ==> self.time_begin <= (#[trigger] self.samples()[i]).time
                < self.time_end
        &&& self.time_begin as int <= self.encoder.last_time() < self.time_end as int
        &&& -(self.time_end - self.time_begin) < self.encoder.last_delta() < self.time_end
            - self.time_begin
    }

    /// What well-formedness gives a caller: the partition is bounded and
    /// every stored sample lies in it.
    pub proof fn lemma_wf(&self)
        requires
            self.wf(),
        ensures
            self.begin_spec() < self.end_spec(),
            self.end_spec() - self.begin_spec() <= max_period(),
            forall|k: int|
                0 <= k < self.samples().len() ==> self.begin_spec() <= (
                #[trigger] self.samples()[k]).time < self.end_spec(),
    {
    }

    /// A fresh, empty block for the partition `[time_begin, time_end)`.
    pub fn new(time_begin: u64, time_end: u64) -> (b: AppendOnlyBlock)
        requires
            time_begin < time_end,
            time_end - time_begin <= max_period(),
        ensures
            b.wf(),
            b.begin_spec() == time_begin,
            b.end_spec() == time_end,
            b.samples() == Seq::<Sample>::empty(),
    {
        AppendOnlyBlock { time_begin, time_end, encoder: Encoder::new(time_begin) }
    }

    /// The partition's inclusive start.
    pub fn time_begin(&self) -> (t: u64)
        ensures
            t == self.begin_spec(),
    {
        self.time_begin
    }

    /// The partition's exclusive end.
    pub fn time_end(&self) -> (t: u64)
        ensures
            t == self.end_spec(),
    {
        self.time_end
    }

    /// Encode one sample lying in this block's partition.
    pub fn append(&mut self, s: Sample)
        requires
            old(self).wf(),
            old(self).begin_spec() <= s.time < old(self).end_spec(),
            128 * (old(self).samples().len() + 2) + 64 <= usize::MAX,
        ensures
            final(self).wf(),
            final(self).samples() == old(self).samples().push(s),
            final(self).begin_spec() == old(self).begin_spec(),
            final(self).end_spec() == old(self).end_spec(),
    {
        self.encoder.encode(s);
    }

    /// Replace this block wholesale with another.
    pub fn from(&mut self, other: AppendOnlyBlock)
        ensures
            final(self).samples() == other.samples(),
            final(self).begin_spec() == other.begin_spec(),
            final(self).end_spec() == other.end_spec(),
            final(self).wf() == other.wf(),
    {
        *self = other;
    }

    /// The stream length in bytes.
    pub fn len(&self) -> (n: u64)
        requires
            self.wf(),
        ensures
            self.bits().len() <= n * 8 <= self.bits().len() + 7,
    {
        self.encoder.byte_len() as u64
    }

    /// An independent copy of the encoded bytes.
    pub fn get_buffer(&self) -> (out: Vec<u8>)
        requires
            self.wf(),
        ensures
            BitReader::bytes_hold(out@, self.bits()),
            out@.len() * 8 <= self.bits().len() + 7,
    {
        let (bytes, _len) = self.encoder.snapshot();
        bytes
    }

    /// An independent copy of the encoded bytes with the exact bit length.
    pub fn snapshot(&self) -> (out: (Vec<u8>, usize))
        requires
            self.wf(),
        ensures
            out.1 == self.bits().len(),
            BitReader::bytes_hold(out.0@, self.bits()),
            out.0@.len() * 8 <= self.bits().len() + 7,
            self.bits() == encode_stream(self.begin_spec(), self.samples()),
            chain_ok(init_state(self.begin_spec()), self.samples()),
    {
        self.encoder.snapshot()
    }

    /// A fresh decoder over a snapshot of the current stream.
    pub fn get_decoder(&self) -> (d: Decoder)
        requires
            self.wf(),
        ensures
            d.wf(),
            d.pos() == 0,
            d.state() == dec_init(),
            d.bits() == encode_stream(self.begin_spec(), self.samples()),
            chain_ok(init_state(self.begin_spec()), self.samples()),
    {
        let reader = self.encoder.get_decoder_reader();
        let d = Decoder::from_reader(reader);
        proof {
            assert(d.bits() =~= encode_stream(self.begin_spec(), self.samples()));
        }
        d
    }

    /// Decode the block back into its samples.
    pub fn read(&self) -> (out: Vec<Sample>)
        requires
            self.wf(),
        ensures
            out@ == self.samples(),
    {
        let d = self.get_decoder();
        decode_all(d, Ghost(self.time_begin), Ghost(self.samples()))
    }
}

/// A sealed block: the partition bounds and an independently owned copy of
/// the encoded bytes, immutable after construction.
pub struct ClosedBlock {
    time_begin: u64,
    time_end: u64,
    bytes: Vec<u8>,
    bit_len: usize,
    samples: Ghost<Seq<Sample>>,
}

impl ClosedBlock {
    /// The samples sealed into this block.
    pub closed spec fn samples(&self) -> Seq<Sample> {
        self.samples@
    }

    /// The partition's inclusive start.
    pub closed spec fn begin_spec(&self) -> u64 {
        self.time_begin
    }

    /// The partition's exclusive end.
    pub closed spec fn end_spec(&self) -> u64 {
        self.time_end
    }

    /// The bytes hold exactly the encoding of the sealed samples.
    pub closed spec fn wf(&self) -> bool {
        &&& self.bit_len <= self.bytes@.len() * 8
        &&& self.bit_len == encode_stream(self.time_begin, self.samples@).len()
        &&& BitReader::bytes_hold(self.bytes@, encode_stream(self.time_begin, self.samples@))
        &&& chain_ok(init_state(self.time_begin), self.samples@)
        &&& self.time_begin < self.time_end
        &&& forall|i: int|
            0 <= i < self.samples@.len() ==> self.time_begin <= (#[trigger] self.samples@[i]).time
                < self.time_end
    }

    /// Seal a snapshot of an open block; the source is unaffected.
    pub fn new(append_only_block: &AppendOnlyBlock) -> (c: ClosedBlock)
        requires
            append_only_block.wf(),
        ensures
            c.wf(),
            c.samples() == append_only_block.samples(),
            c.begin_spec() == append_only_block.begin_spec(),
            c.end_spec() == append_only_block.end_spec(),
    {
        let (bytes, bit_len) = append_only_block.snapshot();
        ClosedBlock {
            time_begin: append_only_block.time_begin(),
            time_end: append_only_block.time_end(),
            bytes,
            bit_len,
            samples: Ghost(append_only_block.samples()),
        }
    }

    /// A fresh decoder over the sealed bytes.
    pub fn get_decoder(&self) -> (d: Decoder)
        requires
            self.wf(),
        ensures
            d.wf(),
            d.pos() == 0,
            d.state() == dec_init(),
            d.bits() == encode_stream(self.begin_spec(), self.samples()),
            chain_ok(init_state(self.begin_spec()), self.samples()),
    {
        let bytes = copy_bytes(&self.bytes);
        let ghost gb = self.bytes@;
        let d = Decoder::new(bytes, self.bit_len);
        proof {
            let es = encode_stream(self.begin_spec(), self.samples());
            assert forall|i: int| 0 <= i < d.bits().len() implies d.bits()[i] == es[i] by {
                assert(d.bits()[i] == crate::bitstream::byte_bit(gb[i / 8], i % 8));
                assert(es[i] == crate::bitstream::byte_bit(gb[i / 8], i % 8));
            }
            assert(d.bits() =~= es);
        }
        d
    }

    /// Decode the sealed block back into its samples.
    pub fn read(&self) -> (out: Vec<Sample>)
        requires
            self.wf(),
        ensures
            out@ == self.samples(),
    {
        let d = self.get_decoder();
        decode_all(d, Ghost(self.time_begin), Ghost(self.samples()))
    }
}

} // verus!
