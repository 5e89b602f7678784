//! Mathematical model of the compression format.
//!
//! A stream is a 64-bit reference timestamp followed by one variable-length
//! record per sample. Timestamps are coded as the second difference of
//! consecutive times (delta-of-delta) in nested signed buckets selected by a
//! control-bit prefix; values are coded as the XOR of consecutive bit
//! patterns, either inside the previous leading/trailing-zero window or with
//! a freshly described window.
//!
//! This module defines the codec state, the exact bit pattern each sample
//! appends, the parser over bit sequences, and the round-trip theorem; the
//! executable encoder and decoder are proved against these definitions.

use vstd::prelude::*;

verus! {

use crate::Sample;
use crate::bits::{u64_bits, bits_val, lemma_bits_val_exact, lemma_bits_val_of_u64_bits,
    lemma_u64_lt_pow2_64};
use vstd::arithmetic::power2::{pow2, lemma_pow2_unfold, lemma_pow2_pos, lemma2_to64,
    lemma2_to64_rest};
use vstd::arithmetic::div_mod::{lemma_small_mod, lemma_mod_add_multiples_vanish, lemma_mod_bound};
use vstd::std_specs::bits::{u64_leading_zeros, u64_trailing_zeros, axiom_u64_leading_zeros,
    axiom_u64_trailing_zeros};

/// The widest delta-of-delta bucket is 32-bit two's complement.
pub open spec fn dod_min() -> int {
    -0x8000_0000
}

/// One past the largest encodable delta-of-delta.
pub open spec fn dod_end() -> int {
    0x8000_0000
}

/// Bound kept on the running delta so it always fits an `i64`.
pub open spec fn delta_bound() -> int {
    0x4000_0000_0000_0000
}

/// The codec state shared by the encoder and the decoder.
pub ghost struct CState {
    /// Whether the leading 64-bit reference timestamp was consumed; an
    /// encoder writes it on construction and always has it.
    pub started: bool,
    /// The reference timestamp, then the last sample's timestamp.
    pub time: int,
    /// The last timestamp delta.
    pub delta: int,
    /// The last value bit pattern.
    pub value: u64,
    /// Whether the next sample is the first (its value is stored raw).
    pub first: bool,
    /// Whether a leading/trailing-zero window has been established.
    pub window: bool,
    /// The current window's leading-zero count (clamped to 31).
    pub lead: nat,
    /// The current window's trailing-zero count.
    pub trail: nat,
}

/// The state a decoder reaches right after consuming the reference
/// timestamp `t`, and an encoder starts from.
pub open spec fn header_state(t: int) -> CState {
    CState {
        started: true,
        time: t,
        delta: 0,
        value: 0,
        first: true,
        window: false,
        lead: 0,
        trail: 0,
    }
}

/// The encoder's initial state for a block starting at `time_begin`.
pub open spec fn init_state(time_begin: u64) -> CState {
    header_state(time_begin as int)
}

/// The state a decoder starts from, before the reference timestamp.
pub open spec fn dec_init() -> CState {
    CState {
        started: false,
        time: 0,
        delta: 0,
        value: 0,
        first: true,
        window: false,
        lead: 0,
        trail: 0,
    }
}

/// Well-formedness of a codec state: every field fits its machine carrier.
pub open spec fn st_inv(st: CState) -> bool {
    &&& 0 <= st.time < pow2(64)
    &&& -delta_bound() <= st.delta <= delta_bound()
    &&& st.lead <= 31
    &&& st.trail <= 63
    &&& st.window ==> st.lead + st.trail <= 63
}

/// Whether `s` can be appended to a stream in state `st`: the new delta and
/// the delta-of-delta must fit their buckets.
pub open spec fn can_encode(st: CState, s: Sample) -> bool {
    let delta = s.time as int - st.time;
    let dod = delta - st.delta;
    &&& -delta_bound() <= delta <= delta_bound()
    &&& dod_min() <= dod < dod_end()
}

/// The `n`-bit two's-complement pattern of `d`.
pub open spec fn sbits(d: int, n: nat) -> Seq<bool>
    recommends
        n <= 64,
{
    u64_bits((d % (pow2(n) as int)) as u64, n)
}

/// The timestamp record: a control-bit prefix selecting the smallest signed
/// bucket that holds the delta-of-delta.
pub open spec fn dod_bits(dod: int) -> Seq<bool> {
    if dod == 0 {
        seq![false]
    } else if -64 <= dod <= 63 {
        seq![true, false] + sbits(dod, 7)
    } else if -256 <= dod <= 255 {
        seq![true, true, false] + sbits(dod, 9)
    } else if -2048 <= dod <= 2047 {
        seq![true, true, true, false] + sbits(dod, 12)
    } else {
        seq![true, true, true, true] + sbits(dod, 32)
    }
}

/// The leading-zero count of `x`, clamped to the 5-bit field.
pub open spec fn clamped_lead(x: u64) -> nat {
    if u64_leading_zeros(x) > 31 {
        31
    } else {
        u64_leading_zeros(x) as nat
    }
}

/// Whether the XOR `x` fits the established window.
pub open spec fn fits_window(st: CState, x: u64) -> bool {
    st.window && u64_leading_zeros(x) >= st.lead && u64_trailing_zeros(x) >= st.trail
}

/// The value record: raw for the first sample, then XOR-coded.
pub open spec fn xor_bits(st: CState, v: u64) -> Seq<bool> {
    if st.first {
        u64_bits(v, 64)
    } else {
        let x = v ^ st.value;
        if x == 0 {
            seq![false]
        } else if fits_window(st, x) {
            seq![true, false] + u64_bits(x >> (st.trail as u64), ((64 - st.lead) - st.trail) as nat)
        } else {
            let l = clamped_lead(x);
            let t = u64_trailing_zeros(x) as nat;
            let sig = ((64 - l) - t) as nat;
            seq![true, true] + u64_bits(l as u64, 5) + u64_bits((sig % 64) as u64, 6) + u64_bits(
                x >> (t as u64),
                sig,
            )
        }
    }
}

/// The full record one sample appends in state `st`.
pub open spec fn sample_bits(st: CState, s: Sample) -> Seq<bool> {
    dod_bits((s.time as int - st.time) - st.delta) + xor_bits(st, s.value)
}

/// The window fields after coding value `v` in state `st`.
pub open spec fn next_window(st: CState, v: u64) -> (bool, nat, nat) {
    if st.first {
        (st.window, st.lead, st.trail)
    } else {
        let x = v ^ st.value;
        if x == 0 || fits_window(st, x) {
            (st.window, st.lead, st.trail)
        } else {
            (true, clamped_lead(x), u64_trailing_zeros(x) as nat)
        }
    }
}

/// The state after encoding `s` in state `st`.
pub open spec fn step(st: CState, s: Sample) -> CState {
    let w = next_window(st, s.value);
    CState {
        started: true,
        time: s.time as int,
        delta: s.time as int - st.time,
        value: s.value,
        first: false,
        window: w.0,
        lead: w.1,
        trail: w.2,
    }
}

/// A nonzero word has a highest one bit, so its leading and trailing zero
/// counts leave at least one significant bit between them.
pub proof fn lemma_lead_trail(x: u64)
    requires
        x != 0,
    ensures
        0 <= u64_leading_zeros(x) <= 63,
        0 <= u64_trailing_zeros(x) <= 63,
        u64_leading_zeros(x) + u64_trailing_zeros(x) <= 63,
{
    axiom_u64_leading_zeros(x);
    axiom_u64_trailing_zeros(x);
    let lz = u64_leading_zeros(x) as u64;
    let tz = u64_trailing_zeros(x) as u64;
    if 63 - lz < tz {
        assert((x >> ((63 - lz) as u64)) & 1u64 == 0u64);
    }
}

/// One step preserves state well-formedness.
pub proof fn lemma_step_inv(st: CState, s: Sample)
    requires
        st_inv(st),
        can_encode(st, s),
    ensures
        st_inv(step(st, s)),
{
    lemma_u64_lt_pow2_64(s.time);
    if !st.first {
        let x = s.value ^ st.value;
        if x != 0 && !fits_window(st, x) {
            lemma_lead_trail(x);
        }
    }
}

/// Record lengths: a timestamp record is at most 36 bits, a value record at
/// most 77, so one sample appends at most 128 bits.
pub proof fn lemma_sample_bits_len(st: CState, s: Sample)
    requires
        st_inv(st),
    ensures
        1 <= sample_bits(st, s).len() <= 128,
{
    if !st.first {
        let x = s.value ^ st.value;
        if x != 0 && !fits_window(st, x) {
            lemma_lead_trail(x);
        }
    }
}


/// The outcome of parsing one signed bucket.
pub ghost enum NumOut {
    Val { v: int, end: nat },
    Exhausted,
}

/// The outcome of parsing one value record.
pub ghost enum ValOut {
    Val { value: u64, end: nat, window: bool, lead: nat, trail: nat },
    Exhausted,
    Corrupt,
}

/// The outcome of parsing one whole sample record.
pub ghost enum ParseOut {
    Good { s: Sample, end: nat, st: CState },
    Exhausted,
    Corrupt,
}

/// Whether `n` bits are available at `pos`.
pub open spec fn have(bits: Seq<bool>, pos: nat, n: nat) -> bool {
    pos + n <= bits.len()
}

/// The unsigned value of the `n` bits at `pos`.
pub open spec fn take_val(bits: Seq<bool>, pos: nat, n: nat) -> nat {
    bits_val(bits.subrange(pos as int, (pos + n) as int))
}

/// Parse an `n`-bit two's-complement integer.
pub open spec fn parse_signed(bits: Seq<bool>, pos: nat, n: nat) -> NumOut
    recommends
        1 <= n <= 64,
{
    if !have(bits, pos, n) {
        NumOut::Exhausted
    } else {
        let u = take_val(bits, pos, n);
        let v = if u >= pow2((n - 1) as nat) {
            u - pow2(n)
        } else {
            u as int
        };
        NumOut::Val { v, end: pos + n }
    }
}

/// Parse a timestamp record: the control-bit prefix selects the bucket.
pub open spec fn parse_dod(bits: Seq<bool>, pos: nat) -> NumOut {
    if !have(bits, pos, 1) {
        NumOut::Exhausted
    } else if !bits[pos as int] {
        NumOut::Val { v: 0, end: pos + 1 }
    } else if !have(bits, pos + 1, 1) {
        NumOut::Exhausted
    } else if !bits[pos as int + 1] {
        parse_signed(bits, pos + 2, 7)
    } else if !have(bits, pos + 2, 1) {
        NumOut::Exhausted
    } else if !bits[pos as int + 2] {
        parse_signed(bits, pos + 3, 9)
    } else if !have(bits, pos + 3, 1) {
        NumOut::Exhausted
    } else if !bits[pos as int + 3] {
        parse_signed(bits, pos + 4, 12)
    } else {
        parse_signed(bits, pos + 4, 32)
    }
}

/// Parse a value record in state `st`.
pub open spec fn parse_value(bits: Seq<bool>, pos: nat, st: CState) -> ValOut {
    if st.first {
        if !have(bits, pos, 64) {
            ValOut::Exhausted
        } else {
            ValOut::Val {
                value: take_val(bits, pos, 64) as u64,
                end: pos + 64,
                window: st.window,
                lead: st.lead,
                trail: st.trail,
            }
        }
    } else if !have(bits, pos, 1) {
        ValOut::Exhausted
    } else if !bits[pos as int] {
        ValOut::Val {
            value: st.value,
            end: pos + 1,
            window: st.window,
            lead: st.lead,
            trail: st.trail,
        }
    } else if !have(bits, pos + 1, 1) {
        ValOut::Exhausted
    } else if !bits[pos as int + 1] {
        if !st.window {
            ValOut::Corrupt
        } else {
            let sig = ((64 - st.lead) - st.trail) as nat;
            if !have(bits, pos + 2, sig) {
                ValOut::Exhausted
            } else {
                let u = take_val(bits, pos + 2, sig) as u64;
                ValOut::Val {
                    value: st.value ^ (u << (st.trail as u64)),
                    end: pos + 2 + sig,
                    window: st.window,
                    lead: st.lead,
                    trail: st.trail,
                }
            }
        }
    } else {
        if !have(bits, pos + 2, 11) {
            ValOut::Exhausted
        } else {
            let l = take_val(bits, pos + 2, 5);
            let s6 = take_val(bits, pos + 7, 6);
            let sig: nat = if s6 == 0 {
                64
            } else {
                s6
            };
            if l + sig > 64 {
                ValOut::Corrupt
            } else if !have(bits, pos + 13, sig) {
                ValOut::Exhausted
            } else {
                let u = take_val(bits, pos + 13, sig) as u64;
                let t = ((64 - l) - sig) as nat;
                ValOut::Val {
                    value: st.value ^ (u << (t as u64)),
                    end: pos + 13 + sig,
                    window: true,
                    lead: l,
                    trail: t,
                }
            }
        }
    }
}

/// Parse one sample record from a state that has the header.
pub open spec fn parse_body(bits: Seq<bool>, pos: nat, st: CState) -> ParseOut {
    match parse_dod(bits, pos) {
        NumOut::Exhausted => ParseOut::Exhausted,
        NumOut::Val { v: dod, end: p1 } => {
            let delta = st.delta + dod;
            let time = st.time + delta;
            if delta < -delta_bound() || delta > delta_bound() || time < 0 || time >= pow2(64) {
                ParseOut::Corrupt
            } else {
                match parse_value(bits, p1, st) {
                    ValOut::Exhausted => ParseOut::Exhausted,
                    ValOut::Corrupt => ParseOut::Corrupt,
                    ValOut::Val { value, end: p2, window, lead, trail } => ParseOut::Good {
                        s: Sample { time: time as u64, value },
                        end: p2,
                        st: CState {
                            started: true,
                            time,
                            delta,
                            value,
                            first: false,
                            window,
                            lead,
                            trail,
                        },
                    },
                }
            }
        },
    }
}

/// Parse one sample record, consuming the 64-bit header first if the state
/// has not seen it yet.
pub open spec fn parse_sample(bits: Seq<bool>, pos: nat, st: CState) -> ParseOut {
    if st.started {
        parse_body(bits, pos, st)
    } else if !have(bits, pos, 64) {
        ParseOut::Exhausted
    } else {
        parse_body(bits, pos + 64, header_state(take_val(bits, pos, 64) as int))
    }
}



/// Constructor shorthands used in contracts.
pub open spec fn num_val(v: int, end: nat) -> NumOut {
    NumOut::Val { v, end }
}

/// Constructor shorthand for a parsed value record.
pub open spec fn val_out(value: u64, end: nat, window: bool, lead: nat, trail: nat) -> ValOut {
    ValOut::Val { value, end, window, lead, trail }
}

/// Constructor shorthand for a parsed sample record.
pub open spec fn good_out(s: Sample, end: nat, st: CState) -> ParseOut {
    ParseOut::Good { s, end, st }
}

/// XOR facts used to undo the value coding.
proof fn lemma_xor_facts(a: u64, b: u64)
    by (bit_vector)
    ensures
        (a ^ b == 0) ==> a == b,
        b ^ (a ^ b) == a,
        a >> 0u64 == a,
        a << 0u64 == a,
{
}

/// A word whose low bits are zero survives shifting them out and back in:
/// `x << w == 0` says only the low `64 - w` bits of `x` can be set.
proof fn lemma_shr_shl_exact(x: u64, t: u64, w: u64)
    by (bit_vector)
    requires
        t + w <= 64,
        x << w == 0,
    ensures
        (x >> t) << t == x,
{
}

/// A word with `u` significant low bits, shifted right by `t`, fits in any
/// field of `s` bits with `t + l + s == 64` and `l + u <= 64`.
proof fn lemma_shr_bound(x: u64, t: u64, l: u64, u: u64, s: u64)
    by (bit_vector)
    requires
        x >> u == 0,
        l + u <= 64,
        t + l + s == 64,
        s <= 63,
    ensures
        (x >> t) < (1u64 << s),
{
}


/// A window of a matching region equals the corresponding window of the
/// pattern.
proof fn lemma_sub_slice(bits: Seq<bool>, pos: nat, s: Seq<bool>, a: int, b: int)
    requires
        pos + s.len() <= bits.len(),
        bits.subrange(pos as int, (pos + s.len()) as int) == s,
        0 <= a <= b <= s.len(),
    ensures
        bits.subrange(pos + a, pos + b) =~= s.subrange(a, b),
{
    assert forall|k: int| 0 <= k < b - a implies bits.subrange(pos + a, pos + b)[k] == s.subrange(
        a,
        b,
    )[k] by {
        assert(s[a + k] == bits.subrange(pos as int, (pos + s.len()) as int)[a + k]);
    }
}

/// One bit of a matching region equals the corresponding bit of the
/// pattern.
proof fn lemma_sub_index(bits: Seq<bool>, pos: nat, s: Seq<bool>, i: int)
    requires
        pos + s.len() <= bits.len(),
        bits.subrange(pos as int, (pos + s.len()) as int) == s,
        0 <= i < s.len(),
    ensures
        bits[pos + i] == s[i],
{
    assert(s[i] == bits.subrange(pos as int, (pos + s.len()) as int)[i]);
}

/// A two's-complement pattern written for an in-range integer parses back
/// to that integer.
proof fn lemma_parse_sbits(bits: Seq<bool>, pos: nat, d: int, n: nat)
    requires
        1 <= n <= 32,
        -pow2((n - 1) as nat) <= d < pow2((n - 1) as nat),
        pos + n <= bits.len(),
        bits.subrange(pos as int, (pos + n) as int) == sbits(d, n),
    ensures
        parse_signed(bits, pos, n) == num_val(d, pos + n),
{
    lemma_pow2_pos(n);
    lemma_pow2_pos((n - 1) as nat);
    lemma_pow2_unfold(n);
    lemma2_to64();
    assert(pow2(n) <= pow2(32)) by {
        if n < 32 {
            vstd::arithmetic::power2::lemma_pow2_strictly_increases(n, 32);
        }
    }
    let p = pow2(n) as int;
    let m = d % p;
    lemma_mod_bound(d, p);
    let u = take_val(bits, pos, n);
    assert(u == bits_val(u64_bits(m as u64, n)));
    lemma_bits_val_exact(m as u64, n);
    if d >= 0 {
        lemma_small_mod(d as nat, pow2(n));
        assert(m == d);
    } else {
        lemma_mod_add_multiples_vanish(d, p);
        lemma_small_mod((d + p) as nat, pow2(n));
        assert(m == d + p);
    }
}

/// A timestamp record parses back to the delta-of-delta it was written for.
proof fn lemma_parse_dod_bits(bits: Seq<bool>, pos: nat, dod: int)
    requires
        dod_min() <= dod < dod_end(),
        pos + dod_bits(dod).len() <= bits.len(),
        bits.subrange(pos as int, (pos + dod_bits(dod).len()) as int) == dod_bits(dod),
    ensures
        parse_dod(bits, pos) == num_val(dod, pos + dod_bits(dod).len()),
{
    let db = dod_bits(dod);
    lemma2_to64();
    lemma2_to64_rest();
    if dod == 0 {
        lemma_sub_index(bits, pos, db, 0);
    } else if -64 <= dod <= 63 {
        lemma_sub_index(bits, pos, db, 0);
        lemma_sub_index(bits, pos, db, 1);
        lemma_sub_slice(bits, pos, db, 2, 9);
        assert(db.subrange(2, 9) =~= sbits(dod, 7));
        lemma_parse_sbits(bits, (pos + 2) as nat, dod, 7);
    } else if -256 <= dod <= 255 {
        lemma_sub_index(bits, pos, db, 0);
        lemma_sub_index(bits, pos, db, 1);
        lemma_sub_index(bits, pos, db, 2);
        lemma_sub_slice(bits, pos, db, 3, 12);
        assert(db.subrange(3, 12) =~= sbits(dod, 9));
        lemma_parse_sbits(bits, (pos + 3) as nat, dod, 9);
    } else if -2048 <= dod <= 2047 {
        lemma_sub_index(bits, pos, db, 0);
        lemma_sub_index(bits, pos, db, 1);
        lemma_sub_index(bits, pos, db, 2);
        lemma_sub_index(bits, pos, db, 3);
        lemma_sub_slice(bits, pos, db, 4, 16);
        assert(db.subrange(4, 16) =~= sbits(dod, 12));
        lemma_parse_sbits(bits, (pos + 4) as nat, dod, 12);
    } else {
        lemma_sub_index(bits, pos, db, 0);
        lemma_sub_index(bits, pos, db, 1);
        lemma_sub_index(bits, pos, db, 2);
        lemma_sub_index(bits, pos, db, 3);
        lemma_sub_slice(bits, pos, db, 4, 36);
        assert(db.subrange(4, 36) =~= sbits(dod, 32));
        lemma_parse_sbits(bits, (pos + 4) as nat, dod, 32);
    }
}

/// A value record parses back to the value it was written for, with the
/// window fields the encoder keeps.
#[verifier::rlimit(100)]
#[verifier::spinoff_prover]
proof fn lemma_parse_xor_bits(bits: Seq<bool>, pos: nat, st: CState, v: u64)
    requires
        st_inv(st),
        pos + xor_bits(st, v).len() <= bits.len(),
        bits.subrange(pos as int, (pos + xor_bits(st, v).len()) as int) == xor_bits(st, v),
    ensures
        parse_value(bits, pos, st) == val_out(
            v,
            pos + xor_bits(st, v).len(),
            next_window(st, v).0,
            next_window(st, v).1,
            next_window(st, v).2,
        ),
{
    let xb = xor_bits(st, v);
    lemma2_to64();
    lemma2_to64_rest();
    if st.first {
        lemma_sub_slice(bits, pos, xb, 0, 64);
        assert(bits.subrange(pos as int, (pos + 64) as int) =~= u64_bits(v, 64));
        lemma_u64_lt_pow2_64(v);
        lemma_bits_val_exact(v, 64);
    } else {
        let x = v ^ st.value;
        lemma_xor_facts(v, st.value);
        if x == 0 {
            lemma_sub_index(bits, pos, xb, 0);
        } else if fits_window(st, x) {
            axiom_u64_leading_zeros(x);
            axiom_u64_trailing_zeros(x);
            lemma_lead_trail(x);
            let lz = u64_leading_zeros(x);
            let tz = u64_trailing_zeros(x) as int;
            let t = st.trail as u64;
            let w: u64 = (64 - tz) as u64;
            assert(x << w == 0);
            lemma_shr_shl_exact(x, t, w);
            let sig = ((64 - st.lead) - st.trail) as nat;
            lemma_sub_index(bits, pos, xb, 0);
            lemma_sub_index(bits, pos, xb, 1);
            lemma_sub_slice(bits, pos, xb, 2, (2 + sig) as int);
            assert(xb.subrange(2, (2 + sig) as int) =~= u64_bits(x >> t, sig));
            let u = take_val(bits, (pos + 2) as nat, sig);
            lemma_bits_val_of_u64_bits(x >> t, sig);
            if sig == 64 {
                lemma_u64_lt_pow2_64(x >> t);
                lemma_small_mod((x >> t) as nat, pow2(64));
            } else {
                let uu: u64 = (64 - lz) as u64;
                assert(x >> uu == 0);
                lemma_shr_bound(x, t, st.lead as u64, uu, sig as u64);
                vstd::bits::lemma_u64_shl_is_mul(1u64, sig as u64);
                lemma_small_mod((x >> t) as nat, pow2(sig));
            }
            assert(u == (x >> t) as nat);
        } else {
            axiom_u64_leading_zeros(x);
            axiom_u64_trailing_zeros(x);
            lemma_lead_trail(x);
            let lz = u64_leading_zeros(x);
            let tz = u64_trailing_zeros(x) as int;
            let l = clamped_lead(x);
            let t = tz as u64;
            let sig = ((64 - l) - tz) as nat;
            // the three fields
            lemma_sub_index(bits, pos, xb, 0);
            lemma_sub_index(bits, pos, xb, 1);
            lemma_sub_slice(bits, pos, xb, 2, 7);
            lemma_sub_slice(bits, pos, xb, 7, 13);
            lemma_sub_slice(bits, pos, xb, 13, (13 + sig) as int);
            assert(xb.subrange(2, 7) =~= u64_bits(l as u64, 5));
            assert(xb.subrange(7, 13) =~= u64_bits((sig % 64) as u64, 6));
            assert(xb.subrange(13, (13 + sig) as int) =~= u64_bits(x >> t, sig));
            lemma_bits_val_exact(l as u64, 5);
            lemma_bits_val_exact((sig % 64) as u64, 6);
            assert(take_val(bits, (pos + 2) as nat, 5) == l);
            assert(take_val(bits, (pos + 7) as nat, 6) == sig % 64);
            if sig < 64 {
                lemma_small_mod(sig, 64);
            }
            // the significant bits
            let w: u64 = (64 - tz) as u64;
            assert(x << w == 0);
            lemma_shr_shl_exact(x, t, w);
            let u = take_val(bits, (pos + 13) as nat, sig);
            lemma_bits_val_of_u64_bits(x >> t, sig);
            if sig == 64 {
                lemma_u64_lt_pow2_64(x >> t);
                lemma_small_mod((x >> t) as nat, pow2(64));
            } else {
                let uu: u64 = (64 - lz) as u64;
                assert(x >> uu == 0);
                lemma_shr_bound(x, t, l as u64, uu, sig as u64);
                vstd::bits::lemma_u64_shl_is_mul(1u64, sig as u64);
                lemma_small_mod((x >> t) as nat, pow2(sig));
            }
            assert(u == (x >> t) as nat);
        }
    }
}

/// The heart of the round trip: a record written in state `st` parses back
/// to the same sample and the same next state.
/// The heart of the round trip: a record written in state `st` parses back
/// to the same sample and the same next state.
pub proof fn lemma_parse_record(bits: Seq<bool>, pos: nat, st: CState, smp: Sample)
    requires
        st.started == true,
        st_inv(st),
        can_encode(st, smp),
        pos + sample_bits(st, smp).len() <= bits.len(),
        bits.subrange(pos as int, (pos + sample_bits(st, smp).len()) as int) == sample_bits(st, smp),
    ensures
        parse_body(bits, pos, st) == good_out(smp, pos + sample_bits(st, smp).len(), step(st, smp)),
{
    let dod = (smp.time as int - st.time) - st.delta;
    let db = dod_bits(dod);
    let xb = xor_bits(st, smp.value);
    let sb = sample_bits(st, smp);
    assert(sb == db + xb);
    lemma_sub_slice(bits, pos, sb, 0, db.len() as int);
    lemma_sub_slice(bits, pos, sb, db.len() as int, sb.len() as int);
    assert(sb.subrange(0, db.len() as int) =~= db);
    assert(sb.subrange(db.len() as int, sb.len() as int) =~= xb);
    lemma_parse_dod_bits(bits, pos, dod);
    let p1 = (pos + db.len()) as nat;
    lemma_parse_xor_bits(bits, p1, st, smp.value);
    lemma_u64_lt_pow2_64(smp.time);
    assert(st.time + (st.delta + dod) == smp.time as int);
}


/// The codec state after encoding each sample of `samples` in turn.
pub open spec fn advance(st: CState, samples: Seq<Sample>) -> CState
    decreases samples.len(),
{
    if samples.len() == 0 {
        st
    } else {
        advance(step(st, samples[0]), samples.drop_first())
    }
}

/// Whether every sample of `samples` is encodable in turn from `st`.
pub open spec fn chain_ok(st: CState, samples: Seq<Sample>) -> bool
    decreases samples.len(),
{
    samples.len() == 0 || (can_encode(st, samples[0]) && chain_ok(
        step(st, samples[0]),
        samples.drop_first(),
    ))
}

/// The records of `samples` encoded in turn from `st`.
pub open spec fn stream_tail(st: CState, samples: Seq<Sample>) -> Seq<bool>
    decreases samples.len(),
{
    if samples.len() == 0 {
        Seq::empty()
    } else {
        sample_bits(st, samples[0]) + stream_tail(step(st, samples[0]), samples.drop_first())
    }
}

/// The whole stream of a block: the 64-bit reference timestamp, then one
/// record per sample.
pub open spec fn encode_stream(time_begin: u64, samples: Seq<Sample>) -> Seq<bool> {
    u64_bits(time_begin, 64) + stream_tail(init_state(time_begin), samples)
}

/// Folding one more sample steps the final state once.
pub proof fn lemma_advance_push(st: CState, ss: Seq<Sample>, smp: Sample)
    ensures
        advance(st, ss.push(smp)) == step(advance(st, ss), smp),
    decreases ss.len(),
{
    if ss.len() == 0 {
        reveal_with_fuel(advance, 2);
        assert(ss.push(smp)[0] == smp);
        assert(ss.push(smp).drop_first() =~= Seq::<Sample>::empty());
    } else {
        assert(ss.push(smp)[0] == ss[0]);
        assert(ss.push(smp).drop_first() =~= ss.drop_first().push(smp));
        lemma_advance_push(step(st, ss[0]), ss.drop_first(), smp);
    }
}

/// Appending one encodable sample keeps the chain valid.
pub proof fn lemma_chain_push(st: CState, ss: Seq<Sample>, smp: Sample)
    requires
        chain_ok(st, ss),
        can_encode(advance(st, ss), smp),
    ensures
        chain_ok(st, ss.push(smp)),
    decreases ss.len(),
{
    if ss.len() == 0 {
        reveal_with_fuel(chain_ok, 2);
        assert(ss.push(smp)[0] == smp);
        assert(ss.push(smp).drop_first() =~= Seq::<Sample>::empty());
    } else {
        assert(ss.push(smp)[0] == ss[0]);
        assert(ss.push(smp).drop_first() =~= ss.drop_first().push(smp));
        lemma_chain_push(step(st, ss[0]), ss.drop_first(), smp);
    }
}

/// Encoding one more sample appends exactly its record.
pub proof fn lemma_stream_tail_push(st: CState, ss: Seq<Sample>, smp: Sample)
    ensures
        stream_tail(st, ss.push(smp)) =~= stream_tail(st, ss) + sample_bits(
            advance(st, ss),
            smp,
        ),
    decreases ss.len(),
{
    if ss.len() == 0 {
        reveal_with_fuel(stream_tail, 2);
        assert(ss.push(smp)[0] == smp);
        assert(ss.push(smp).drop_first() =~= Seq::<Sample>::empty());
    } else {
        assert(ss.push(smp)[0] == ss[0]);
        assert(ss.push(smp).drop_first() =~= ss.drop_first().push(smp));
        lemma_stream_tail_push(step(st, ss[0]), ss.drop_first(), smp);
    }
}

/// A valid chain keeps the state well formed and started.
pub proof fn lemma_advance_inv(st: CState, ss: Seq<Sample>)
    requires
        st_inv(st),
        chain_ok(st, ss),
    ensures
        st_inv(advance(st, ss)),
        advance(st, ss).started == st.started || ss.len() > 0,
        ss.len() > 0 ==> advance(st, ss).started,
    decreases ss.len(),
{
    if ss.len() > 0 {
        lemma_step_inv(st, ss[0]);
        lemma_advance_inv(step(st, ss[0]), ss.drop_first());
    }
}

/// Each record is at most 128 bits, so a tail of `n` samples is at most
/// `128 * n` bits.
pub proof fn lemma_stream_tail_len(st: CState, ss: Seq<Sample>)
    requires
        st_inv(st),
        chain_ok(st, ss),
    ensures
        stream_tail(st, ss).len() <= 128 * ss.len(),
    decreases ss.len(),
{
    if ss.len() > 0 {
        lemma_sample_bits_len(st, ss[0]);
        lemma_step_inv(st, ss[0]);
        lemma_stream_tail_len(step(st, ss[0]), ss.drop_first());
    }
}

/// A successful parse consumes at least one bit and stays in the stream.
pub proof fn lemma_parse_bounds(bits: Seq<bool>, pos: nat, st: CState)
    ensures
        (parse_sample(bits, pos, st) matches ParseOut::Good { s, end, st: st2 } ==> pos < end
            <= bits.len()),
{
}

/// Parse records until the stream is exhausted; `None` on corruption.
pub open spec fn decode_from(bits: Seq<bool>, pos: nat, st: CState) -> Option<Seq<Sample>>
    decreases bits.len() - pos,
    via decode_from_dec
{
    match parse_sample(bits, pos, st) {
        ParseOut::Good { s, end, st: st2 } => match decode_from(bits, end, st2) {
            Option::Some(rest) => Option::Some(seq![s] + rest),
            Option::None => Option::None,
        },
        ParseOut::Exhausted => Option::Some(Seq::empty()),
        ParseOut::Corrupt => Option::None,
    }
}

#[via_fn]
proof fn decode_from_dec(bits: Seq<bool>, pos: nat, st: CState) {
    lemma_parse_bounds(bits, pos, st);
}

/// The samples a whole stream stands for, or `None` if it is corrupt.
pub open spec fn decode_stream(bits: Seq<bool>) -> Option<Seq<Sample>> {
    decode_from(bits, 0, dec_init())
}

/// A run of records parses back to the samples that produced it.
proof fn lemma_decode_tail(bits: Seq<bool>, pos: nat, st: CState, samples: Seq<Sample>)
    requires
        st.started == true,
        st_inv(st),
        chain_ok(st, samples),
        bits.len() == pos + stream_tail(st, samples).len(),
        bits.subrange(pos as int, bits.len() as int) == stream_tail(st, samples),
    ensures
        decode_from(bits, pos, st) == (Some(samples)),
    decreases samples.len(),
{
    if samples.len() == 0 {
        assert(parse_sample(bits, pos, st) == ParseOut::Exhausted);
        assert(samples =~= Seq::<Sample>::empty());
    } else {
        let s0 = samples[0];
        let rest = samples.drop_first();
        let sb = sample_bits(st, s0);
        let tail = stream_tail(st, samples);
        assert(tail == sb + stream_tail(step(st, s0), rest));
        lemma_sub_slice(bits, pos, tail, 0, sb.len() as int);
        assert(tail.subrange(0, sb.len() as int) =~= sb);
        lemma_parse_record(bits, pos, st, s0);
        lemma_step_inv(st, s0);
        lemma_sub_slice(bits, pos, tail, sb.len() as int, tail.len() as int);
        assert(tail.subrange(sb.len() as int, tail.len() as int) =~= stream_tail(
            step(st, s0),
            rest,
        ));
        lemma_decode_tail(bits, (pos + sb.len()) as nat, step(st, s0), rest);
        assert(samples =~= seq![s0] + rest);
    }
}

/// Round trip: a stream encoded from any encodable sample sequence decodes
/// back to exactly that sequence.
pub proof fn lemma_encode_then_decode(time_begin: u64, samples: Seq<Sample>)
    requires
        chain_ok(init_state(time_begin), samples),
    ensures
        (decode_stream(encode_stream(time_begin, samples)) == Some(samples)),
{
    let bits = encode_stream(time_begin, samples);
    let hdr = u64_bits(time_begin, 64);
    let ist = init_state(time_begin);
    let tail = stream_tail(ist, samples);
    assert(bits == hdr + tail);
    assert(bits.subrange(0, 64) =~= hdr);
    lemma_u64_lt_pow2_64(time_begin);
    lemma_bits_val_exact(time_begin, 64);
    assert(take_val(bits, 0, 64) == time_begin);
    assert(header_state(time_begin as int) == ist);
    assert(bits.subrange(64, bits.len() as int) =~= tail);
    if samples.len() == 0 {
        assert(parse_dod(bits, 64) == NumOut::Exhausted);
        assert(parse_sample(bits, 0, dec_init()) == ParseOut::Exhausted);
        assert(samples =~= Seq::<Sample>::empty());
    } else {
        let s0 = samples[0];
        let rest = samples.drop_first();
        let sb = sample_bits(ist, s0);
        lemma_sub_slice(bits, 64, tail, 0, sb.len() as int);
        assert(tail.subrange(0, sb.len() as int) =~= sb);
        lemma_parse_record(bits, 64, ist, s0);
        lemma_step_inv(ist, s0);
        lemma_sub_slice(bits, 64, tail, sb.len() as int, tail.len() as int);
        assert(tail.subrange(sb.len() as int, tail.len() as int) =~= stream_tail(
            step(ist, s0),
            rest,
        ));
        lemma_decode_tail(bits, (64 + sb.len()) as nat, step(ist, s0), rest);
        assert(parse_sample(bits, 0, dec_init()) == good_out(s0, 64 + sb.len(), step(ist, s0)));
        assert(samples =~= seq![s0] + rest);
    }
}


/// The bit position right before the `k`-th record (0 is before the
/// header).
pub open spec fn prefix_pos(time_begin: u64, samples: Seq<Sample>, k: int) -> nat {
    if k == 0 {
        0
    } else {
        (64 + stream_tail(init_state(time_begin), samples.take(k)).len()) as nat
    }
}

/// The decoder state right before the `k`-th record.
pub open spec fn state_at(time_begin: u64, samples: Seq<Sample>, k: int) -> CState {
    if k == 0 {
        dec_init()
    } else {
        advance(init_state(time_begin), samples.take(k))
    }
}

/// A tail splits at any index into the records before it and the records
/// from it on, and a valid chain splits with it.
proof fn lemma_stream_tail_split(st: CState, ss: Seq<Sample>, k: int)
    requires
        0 <= k <= ss.len(),
    ensures
        stream_tail(st, ss) =~= stream_tail(st, ss.take(k)) + stream_tail(
            advance(st, ss.take(k)),
            ss.skip(k),
        ),
        chain_ok(st, ss) ==> chain_ok(st, ss.take(k)) && chain_ok(
            advance(st, ss.take(k)),
            ss.skip(k),
        ),
    decreases k,
{
    if k == 0 {
        assert(ss.take(0) =~= Seq::<Sample>::empty());
        assert(ss.skip(0) =~= ss);
    } else {
        let s0 = ss[0];
        let rest = ss.drop_first();
        assert(ss.take(k)[0] == s0);
        assert(ss.take(k).drop_first() =~= rest.take(k - 1));
        assert(ss.skip(k) =~= rest.skip(k - 1));
        lemma_stream_tail_split(step(st, s0), rest, k - 1);
    }
}

/// What the parser does at the `k`-th record boundary of an encoded
/// stream: it yields the `k`-th sample, or exhaustion at the end.
pub proof fn lemma_parse_at(time_begin: u64, samples: Seq<Sample>, k: int)
    requires
        chain_ok(init_state(time_begin), samples),
        0 <= k <= samples.len(),
    ensures
        k < samples.len() ==> parse_sample(
            encode_stream(time_begin, samples),
            prefix_pos(time_begin, samples, k),
            state_at(time_begin, samples, k),
        ) == good_out(
            samples[k],
            prefix_pos(time_begin, samples, k + 1),
            state_at(time_begin, samples, k + 1),
        ),
        k == samples.len() ==> parse_sample(
            encode_stream(time_begin, samples),
            prefix_pos(time_begin, samples, k),
            state_at(time_begin, samples, k),
        ) == ParseOut::Exhausted,
{
    let ist = init_state(time_begin);
    let bits = encode_stream(time_begin, samples);
    let hdr = u64_bits(time_begin, 64);
    let tail = stream_tail(ist, samples);
    let before = stream_tail(ist, samples.take(k));
    let stk = advance(ist, samples.take(k));
    lemma_u64_lt_pow2_64(time_begin);
    lemma_bits_val_exact(time_begin, 64);
    assert(bits == hdr + tail);
    assert(bits.subrange(0, 64) =~= hdr);
    assert(take_val(bits, 0, 64) == time_begin);
    assert(bits.subrange(64, bits.len() as int) =~= tail);
    lemma_stream_tail_split(ist, samples, k);
    lemma_advance_inv(ist, samples.take(k));
    if k < samples.len() {
        let sk = samples[k];
        assert(samples.skip(k)[0] == sk);
        let sb = sample_bits(stk, sk);
        let after = stream_tail(step(stk, sk), samples.skip(k).drop_first());
        assert(stream_tail(stk, samples.skip(k)) == sb + after);
        assert(tail.subrange(before.len() as int, (before.len() + sb.len()) as int) =~= sb);
        lemma_sub_slice(bits, 64, tail, before.len() as int, (before.len() + sb.len()) as int);
        assert(can_encode(stk, sk));
        lemma_parse_record(bits, (64 + before.len()) as nat, stk, sk);
        lemma_stream_tail_push(ist, samples.take(k), sk);
        lemma_advance_push(ist, samples.take(k), sk);
        assert(samples.take(k + 1) =~= samples.take(k).push(sk));
        assert(prefix_pos(time_begin, samples, k + 1) == 64 + before.len() + sb.len());
        assert(state_at(time_begin, samples, k + 1) == step(stk, sk));
        if k == 0 {
            assert(samples.take(0) =~= Seq::<Sample>::empty());
            assert(stk == ist);
            assert(parse_sample(bits, 0, dec_init()) == parse_body(bits, 64, ist));
        }
    } else {
        assert(samples.take(k) =~= samples);
        assert(samples.skip(k) =~= Seq::<Sample>::empty());
        assert(64 + before.len() == bits.len());
        assert(parse_dod(bits, (64 + before.len()) as nat) == NumOut::Exhausted);
        if k == 0 {
            assert(parse_sample(bits, 0, dec_init()) == parse_body(
                bits,
                64,
                header_state(time_begin as int),
            ));
        }
    }
}

} // verus!
