//! Round-trip and error behaviour of the bit stream and the codec.

use tsdb::bitstream::BitStream;
use tsdb::{Bit, CodecError, Decoder, Encoder, Sample};

#[test]
fn bitstream_roundtrip_test() {
    let mut s = BitStream::new();
    s.write_bit(Bit::One);
    s.write_bit(Bit::Zero);
    s.write_bits(0b1011, 4);
    s.write_byte(0xA5);
    s.write_bits(0xDEAD_BEEF_0123_4567, 64);
    let mut r = s.reader();
    assert_eq!(r.read_bit().unwrap().to_u64(), 1);
    assert_eq!(r.read_bit().unwrap().to_u64(), 0);
    assert_eq!(r.read_bits(4).unwrap(), 0b1011);
    assert_eq!(r.read_bits(8).unwrap(), 0xA5);
    assert_eq!(r.read_bits(64).unwrap(), 0xDEAD_BEEF_0123_4567);
    assert_eq!(r.read_bit(), Err(CodecError::StreamExhausted));
}

#[test]
fn bit_to_u64_test() {
    assert_eq!(Bit::Zero.to_u64(), 0);
    assert_eq!(Bit::One.to_u64(), 1);
}

/// Deterministic byte store/reload over a stream much longer than one
/// growth step.
#[test]
fn buffer_test() {
    let size = 10240;
    let mut vec: Vec<u8> = Vec::with_capacity(size);
    for i in 0..size {
        let mut n = (i * 37 % 256) as u8;
        if n == 255 {
            n = 254;
        }
        vec.push(n);
    }

    let mut buffer = BitStream::new();
    for i in 0..size {
        buffer.write_byte(vec[i]);
    }

    println!("validate by read");
    let mut r = buffer.reader();
    for i in 0..size {
        assert_eq!(r.read_byte().unwrap(), vec[i]);
    }

    println!("validate by snapshot");
    let bytes = buffer.snapshot_bytes();
    for i in 0..size {
        assert_eq!(bytes[i], vec[i]);
    }

    println!("end");
}

const DATA: &str = "1482892270,1.76
1482892280,7.78
1482892288,7.95
1482892292,5.53
1482892310,4.41
1482892323,5.30
1482892334,5.30
1482892341,2.92
1482892350,0.73
1482892360,-1.33
1482892370,-1.78
1482892390,-12.45
1482892401,-34.76
1482892490,78.9
1482892500,335.67
1482892800,12908.12
";

#[test]
fn integration_test() {
    let mut encoder = Encoder::new(1482892260);

    let mut original_datapoints = Vec::new();

    for line in DATA.lines() {
        let substrings: Vec<&str> = line.split(",").collect();
        let t = substrings[0].parse::<u64>().unwrap();
        let v = substrings[1].parse::<f64>().unwrap();
        let dp = Sample::new(t, v.to_bits());
        original_datapoints.push(dp);
    }

    for dp in &original_datapoints {
        encoder.encode(*dp);
    }

    let (bytes, bit_len) = encoder.close();
    let mut decoder = Decoder::new(bytes, bit_len);

    let mut new_datapoints = Vec::new();

    let mut done = false;
    while !done {
        match decoder.next() {
            Ok(dp) => new_datapoints.push(dp),
            Err(err) => {
                if err == CodecError::StreamExhausted {
                    done = true;
                } else {
                    panic!("Received an error from decoder: {:?}", err);
                }
            }
        };
    }

    assert_eq!(original_datapoints, new_datapoints);
}

/// Every delta-of-delta bucket and both value-window paths survive a
/// round trip.
#[test]
fn codec_buckets_test() {
    let samples = vec![
        Sample::new(1000, 1.0f64.to_bits()),      // first: raw value
        Sample::new(1010, 1.0f64.to_bits()),      // xor == 0
        Sample::new(1020, 1.5f64.to_bits()),      // new window
        Sample::new(1030, 1.25f64.to_bits()),     // new window again
        Sample::new(1040, 1.375f64.to_bits()),    // window reuse
        Sample::new(1041, 2.0f64.to_bits()),      // 7-bit bucket
        Sample::new(1241, (-2.0f64).to_bits()),     // 9-bit bucket
        Sample::new(3000, 0.0f64.to_bits()),      // 12-bit bucket
        Sample::new(90000, f64::MAX.to_bits()),   // 32-bit bucket
        Sample::new(90100, f64::MIN.to_bits()),
        Sample::new(90101, 0.1f64.to_bits()),
    ];
    let mut encoder = Encoder::new(0);
    for s in &samples {
        encoder.encode(*s);
    }
    let (bytes, bit_len) = encoder.close();
    let mut decoder = Decoder::new(bytes, bit_len);
    for s in &samples {
        assert_eq!(decoder.next(), Ok(*s));
    }
    assert_eq!(decoder.next(), Err(CodecError::StreamExhausted));
    // exhaustion is stable
    assert_eq!(decoder.next(), Err(CodecError::StreamExhausted));
}

#[test]
fn empty_stream_test() {
    let encoder = Encoder::new(77);
    let (bytes, bit_len) = encoder.close();
    assert_eq!(bit_len, 64);
    let mut decoder = Decoder::new(bytes, bit_len);
    assert_eq!(decoder.next(), Err(CodecError::StreamExhausted));
}

/// A window-reuse control pattern before any window was described is
/// corrupt by construction.
#[test]
fn corrupted_stream_test() {
    let mut s = BitStream::new();
    s.write_bits(0, 64); // reference timestamp
    // first record: dod == 0, raw value
    s.write_bit(Bit::Zero);
    s.write_bits(42, 64);
    // second record: dod == 0, then value control "1 0" (reuse) with no window
    s.write_bit(Bit::Zero);
    s.write_bit(Bit::One);
    s.write_bit(Bit::Zero);
    let bit_len = s.bit_len();
    let bytes = s.snapshot_bytes();
    let mut decoder = Decoder::new(bytes, bit_len);
    assert_eq!(decoder.next(), Ok(Sample::new(0, 42)));
    assert_eq!(decoder.next(), Err(CodecError::StreamCorrupted));
}

/// A truncated stream signals exhaustion, not corruption.
#[test]
fn truncated_stream_test() {
    let mut s = BitStream::new();
    s.write_bits(0, 64);
    s.write_bit(Bit::One); // start of a longer timestamp record, then cut off
    let bit_len = s.bit_len();
    let bytes = s.snapshot_bytes();
    let mut decoder = Decoder::new(bytes, bit_len);
    assert_eq!(decoder.next(), Err(CodecError::StreamExhausted));
}
