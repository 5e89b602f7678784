//! The executable decoder: consumes a bit stream and yields samples, proved
//! to follow the parser `parse_sample` exactly on every input.

use vstd::prelude::*;

verus! {

use crate::{Sample, CodecError};
use crate::bitstream::BitReader;
use crate::codec::{CState, dec_init, header_state, st_inv, parse_signed, parse_dod, parse_value,
    parse_sample, take_val, NumOut, ValOut, ParseOut};
use vstd::arithmetic::power2::{pow2, lemma_pow2_unfold, lemma_pow2_pos, lemma2_to64,
    lemma2_to64_rest};

/// Read an `n`-bit two's-complement integer, as `parse_signed` describes.
fn read_signed(reader: &mut BitReader, n: u32) -> (r: Result<i64, CodecError>)
    requires
        old(reader).wf(),
        1 <= n <= 32,
    ensures
        final(reader).wf(),
        final(reader).bits() == old(reader).bits(),
        (parse_signed(old(reader).bits(), old(reader).cursor(), n as nat) matches NumOut::Val {
            v,
            end,
        } ==> r matches Ok(x) && x as int == v && final(reader).cursor() == end),
        (parse_signed(old(reader).bits(), old(reader).cursor(), n as nat) is Exhausted ==> r
            == Result::<i64, CodecError>::Err(CodecError::StreamExhausted)),
{
    proof {
        lemma2_to64();
        lemma_pow2_pos(n as nat);
        lemma_pow2_pos((n - 1) as nat);
        lemma_pow2_unfold(n as nat);
        assert(pow2(n as nat) <= pow2(32)) by {
            if n < 32 {
                vstd::arithmetic::power2::lemma_pow2_strictly_increases(n as nat, 32);
            }
        }
    }
    match reader.read_bits(n) {
        Err(_) => Err(CodecError::StreamExhausted),
        Ok(u) => {
            let half: u64 = 1u64 << ((n - 1) as u64);
            let two_n: i64 = (1u64 << (n as u64)) as i64;
            proof {
                vstd::bits::lemma_u64_shl_is_mul(1u64, (n - 1) as u64);
                vstd::bits::lemma_u64_shl_is_mul(1u64, n as u64);
            }
            let v: i64 = if u >= half {
                (u as i64) - two_n
            } else {
                u as i64
            };
            Ok(v)
        },
    }
}

/// A stateful decompressor over one block's bytes.
///
/// `next` follows the parser `parse_sample` exactly: on a stream the
/// encoder produced it yields the encoded samples in order and then
/// `StreamExhausted`; on malformed input it reports `StreamCorrupted`.
pub struct Decoder {
    reader: BitReader,
    stored_time: u64,
    stored_delta: i64,
    stored_value: u64,
    lead: u8,
    trail: u8,
    window: bool,
    first: bool,
    started: bool,
}

impl Decoder {
    /// The parser state this decoder is in.
    pub closed spec fn state(&self) -> CState {
        CState {
            started: self.started,
            time: self.stored_time as int,
            delta: self.stored_delta as int,
            value: self.stored_value,
            first: self.first,
            window: self.window,
            lead: self.lead as nat,
            trail: self.trail as nat,
        }
    }

    /// The bits being decoded.
    pub closed spec fn bits(&self) -> Seq<bool> {
        self.reader.bits()
    }

    /// How many bits were consumed.
    pub closed spec fn pos(&self) -> nat {
        self.reader.cursor()
    }

    /// The reader is sound and the state fits its carriers.
    pub closed spec fn wf(&self) -> bool {
        &&& self.reader.wf()
        &&& st_inv(self.state())
    }

    /// A decoder over `len_bits` bits stored in `bytes`, positioned at the
    /// start.
    pub fn new(bytes: Vec<u8>, len_bits: usize) -> (d: Decoder)
        requires
            len_bits <= bytes@.len() * 8,
        ensures
            d.wf(),
            d.pos() == 0,
            d.state() == dec_init(),
            d.bits().len() == len_bits,
            BitReader::bytes_hold(bytes@, d.bits()),
    {
        let reader = BitReader::new(bytes, len_bits);
        proof {
            lemma2_to64();
            lemma2_to64_rest();
        }
        Decoder {
            reader,
            stored_time: 0,
            stored_delta: 0,
            stored_value: 0,
            lead: 0,
            trail: 0,
            window: false,
            first: true,
            started: false,
        }
    }

    /// A decoder over an existing reader positioned at the start.
    pub fn from_reader(reader: BitReader) -> (d: Decoder)
        requires
            reader.wf(),
            reader.cursor() == 0,
        ensures
            d.wf(),
            d.pos() == 0,
            d.state() == dec_init(),
            d.bits() == reader.bits(),
    {
        proof {
            lemma2_to64();
            lemma2_to64_rest();
        }
        Decoder {
            reader,
            stored_time: 0,
            stored_delta: 0,
            stored_value: 0,
            lead: 0,
            trail: 0,
            window: false,
            first: true,
            started: false,
        }
    }

    /// Decode the next sample, following `parse_sample` exactly.
    #[verifier::rlimit(100)]
    pub fn next(&mut self) -> (r: Result<Sample, CodecError>)
        requires
            old(self).wf(),
        ensures
            final(self).wf(),
            final(self).bits() == old(self).bits(),
            (parse_sample(old(self).bits(), old(self).pos(), old(self).state())
                matches ParseOut::Good { s, end, st } ==> {
                &&& r matches Ok(got) && got == s
                &&& final(self).pos() == end
                &&& final(self).state() == st
            }),
            (parse_sample(old(self).bits(), old(self).pos(), old(self).state()) is Exhausted
                ==> r == Result::<Sample, CodecError>::Err(CodecError::StreamExhausted)),
            (parse_sample(old(self).bits(), old(self).pos(), old(self).state()) is Corrupt ==> r
                == Result::<Sample, CodecError>::Err(CodecError::StreamCorrupted)),
    {
        let ghost bits = self.reader.bits();
        let ghost pos0 = self.reader.cursor();
        let ghost st0 = self.state();
        proof {
            lemma2_to64();
            lemma2_to64_rest();
        }
        if !self.started {
            let hdr = match self.reader.read_bits(64) {
                Ok(v) => v,
                Err(_) => {
                    return Err(CodecError::StreamExhausted);
                },
            };
            self.stored_time = hdr;
            self.stored_delta = 0;
            self.stored_value = 0;
            self.lead = 0;
            self.trail = 0;
            self.window = false;
            self.first = true;
            self.started = true;
            proof {
                vstd::arithmetic::div_mod::lemma_small_mod(hdr as nat, pow2(64));
                assert(self.state() == header_state(take_val(bits, pos0, 64) as int));
            }
        }
        let ghost sth = self.state();
        let ghost ph = self.reader.cursor();
        // timestamp record
        let dod: i64 = {
            let b0 = match self.reader.read_bit() {
                Ok(b) => b.to_bool(),
                Err(_) => {
                    return Err(CodecError::StreamExhausted);
                },
            };
            if !b0 {
                0
            } else {
                let b1 = match self.reader.read_bit() {
                    Ok(b) => b.to_bool(),
                    Err(_) => {
                        return Err(CodecError::StreamExhausted);
                    },
                };
                if !b1 {
                    match read_signed(&mut self.reader, 7) {
                        Ok(v) => v,
                        Err(e) => {
                            return Err(e);
                        },
                    }
                } else {
                    let b2 = match self.reader.read_bit() {
                        Ok(b) => b.to_bool(),
                        Err(_) => {
                            return Err(CodecError::StreamExhausted);
                        },
                    };
                    if !b2 {
                        match read_signed(&mut self.reader, 9) {
                            Ok(v) => v,
                            Err(e) => {
                                return Err(e);
                            },
                        }
                    } else {
                        let b3 = match self.reader.read_bit() {
                            Ok(b) => b.to_bool(),
                            Err(_) => {
                                return Err(CodecError::StreamExhausted);
                            },
                        };
                        if !b3 {
                            match read_signed(&mut self.reader, 12) {
                                Ok(v) => v,
                                Err(e) => {
                                    return Err(e);
                                },
                            }
                        } else {
                            match read_signed(&mut self.reader, 32) {
                                Ok(v) => v,
                                Err(e) => {
                                    return Err(e);
                                },
                            }
                        }
                    }
                }
            }
        };
        proof {
            assert(parse_dod(bits, ph) == NumOut::Val { v: dod as int, end: self.reader.cursor() });
        }
        // the new delta and timestamp must fit their carriers
        let delta128: i128 = self.stored_delta as i128 + dod as i128;
        let time128: i128 = self.stored_time as i128 + delta128;
        if delta128 < -0x4000_0000_0000_0000i128 || delta128 > 0x4000_0000_0000_0000i128
            || time128 < 0 || time128 > u64::MAX as i128 {
            return Err(CodecError::StreamCorrupted);
        }
        // value record
        let ghost pv = self.reader.cursor();
        let value: u64;
        let nwindow: bool;
        let nlead: u8;
        let ntrail: u8;
        if self.first {
            let raw = match self.reader.read_bits(64) {
                Ok(v) => v,
                Err(_) => {
                    return Err(CodecError::StreamExhausted);
                },
            };
            proof {
                vstd::arithmetic::div_mod::lemma_small_mod(raw as nat, pow2(64));
            }
            value = raw;
            nwindow = self.window;
            nlead = self.lead;
            ntrail = self.trail;
        } else {
            let c0 = match self.reader.read_bit() {
                Ok(b) => b.to_bool(),
                Err(_) => {
                    return Err(CodecError::StreamExhausted);
                },
            };
            if !c0 {
                value = self.stored_value;
                nwindow = self.window;
                nlead = self.lead;
                ntrail = self.trail;
            } else {
                let c1 = match self.reader.read_bit() {
                    Ok(b) => b.to_bool(),
                    Err(_) => {
                        return Err(CodecError::StreamExhausted);
                    },
                };
                if !c1 {
                    if !self.window {
                        return Err(CodecError::StreamCorrupted);
                    }
                    let sig: u32 = 64 - self.lead as u32 - self.trail as u32;
                    let ub = match self.reader.read_bits(sig) {
                        Ok(v) => v,
                        Err(_) => {
                            return Err(CodecError::StreamExhausted);
                        },
                    };
                    value = self.stored_value ^ (ub << (self.trail as u64));
                    nwindow = self.window;
                    nlead = self.lead;
                    ntrail = self.trail;
                } else {
                    let l = match self.reader.read_bits(5) {
                        Ok(v) => v,
                        Err(_) => {
                            return Err(CodecError::StreamExhausted);
                        },
                    };
                    let s6 = match self.reader.read_bits(6) {
                        Ok(v) => v,
                        Err(_) => {
                            return Err(CodecError::StreamExhausted);
                        },
                    };
                    let sig64: u64 = if s6 == 0 {
                        64
                    } else {
                        s6
                    };
                    if l + sig64 > 64 {
                        return Err(CodecError::StreamCorrupted);
                    }
                    let ub = match self.reader.read_bits(sig64 as u32) {
                        Ok(v) => v,
                        Err(_) => {
                            return Err(CodecError::StreamExhausted);
                        },
                    };
                    let t: u64 = 64 - l - sig64;
                    value = self.stored_value ^ (ub << t);
                    nwindow = true;
                    nlead = l as u8;
                    ntrail = t as u8;
                }
            }
        }
        proof {
            assert(parse_value(bits, pv, sth) == ValOut::Val {
                value,
                end: self.reader.cursor(),
                window: nwindow,
                lead: nlead as nat,
                trail: ntrail as nat,
            });
        }
        // commit the new state
        self.stored_time = time128 as u64;
        self.stored_delta = delta128 as i64;
        self.stored_value = value;
        self.first = false;
        self.window = nwindow;
        self.lead = nlead;
        self.trail = ntrail;
        Ok(Sample { time: time128 as u64, value })
    }
}

} // verus!
