use lzw::bitstream::{BitStream, Mode, StreamError};
use lzw::lzw::{decode, encode, from_le_bytes_to_u32, get_word, DecodeError};

fn codes_of(bytes: Vec<u8>, widths: &[usize]) -> Vec<u32> {
    let mut r = BitStream::new_file(bytes, Mode::Read);
    widths.iter().map(|w| from_le_bytes_to_u32(&r.read_bit_sequence(*w).unwrap())).collect()
}

fn stream_of(codes: &[(u32, usize)]) -> Vec<u8> {
    let mut w = BitStream::new_file(Vec::new(), Mode::Write);
    for (code, width) in codes {
        w.write_bit_sequence(&code.to_le_bytes(), *width).unwrap();
    }
    w.close().unwrap()
}

#[test]
fn le_bytes_value() {
    assert_eq!(from_le_bytes_to_u32(&[]), 0);
    assert_eq!(from_le_bytes_to_u32(&[0x01]), 1);
    assert_eq!(from_le_bytes_to_u32(&[0x34, 0x12]), 0x1234);
    assert_eq!(from_le_bytes_to_u32(&[0x78, 0x56, 0x34, 0x12]), 0x12345678);
    assert_eq!(from_le_bytes_to_u32(&[0xff, 0xff, 0xff, 0xff]), u32::MAX);
}

#[test]
fn word_follows_the_chain() {
    let dict: Vec<(u8, Option<usize>)> = vec![(b'a', None), (b'b', Some(0)), (b'c', Some(1))];
    assert_eq!(get_word(&dict[2], &dict), b"abc".to_vec());
    assert_eq!(get_word(&(b'z', Some(1)), &dict), b"abz".to_vec());
    assert_eq!(get_word(&(b'q', None), &dict), b"q".to_vec());
}

#[test]
fn encode_one_byte() {
    // the code of 'A' and the end code, both 9 bits wide
    let out = encode(b"A");
    assert_eq!(codes_of(out.clone(), &[9, 9]), vec![65, 257]);
    assert_eq!(out.len(), 3);
}

#[test]
fn encode_repeats() {
    // "ABABABA": A, B, AB (258), ABA (260), end
    let out = encode(b"ABABABA");
    assert_eq!(codes_of(out, &[9, 9, 9, 9, 9]), vec![65, 66, 258, 260, 257]);
}

#[test]
fn roundtrip_small_inputs() {
    let inputs: Vec<&[u8]> = vec![
        b"A",
        b"AA",
        b"AAA",
        b"ABABABA",
        b"TOBEORNOTTOBEORTOBEORNOT",
        b"\x00\x00\x00\xff\xff\x00",
        b"aaaaaaaaaaaaaaaaaaaaaaaaaaaaaaaaaaaaaaaaaaaaaaaaaaaaaaaaaaaaaaaaaa",
    ];
    for input in inputs {
        let packed = encode(input);
        assert_eq!(decode(packed), Ok(input.to_vec()));
    }
}

fn pseudo_random(n: usize, seed: u32, alphabet: u32) -> Vec<u8> {
    let mut x = seed;
    (0..n)
        .map(|_| {
            x = x.wrapping_mul(1664525).wrapping_add(1013904223);
            ((x >> 16) % alphabet) as u8
        })
        .collect()
}

#[test]
fn roundtrip_wider_codes() {
    // enough distinct words for the codes to grow past 9 and 10 bits
    let input = pseudo_random(20000, 7, 256);
    assert_eq!(decode(encode(&input)), Ok(input));
}

#[test]
fn roundtrip_through_a_clear_code() {
    // enough words for the codes to reach 20 bits, so the dictionary starts over
    let input = pseudo_random(1_600_000, 11, 256);
    let packed = encode(&input);
    assert_eq!(decode(packed), Ok(input));
}

#[test]
fn decode_kwkwk_code() {
    // 'A', then the code that is being defined (258 = "AA"), then end
    let packed = stream_of(&[(65, 9), (258, 9), (257, 9)]);
    assert_eq!(decode(packed), Ok(b"AAA".to_vec()));
}

#[test]
fn decode_stops_where_no_code_remains() {
    // no end code: decoding ends with the last whole code
    let packed = stream_of(&[(72, 9), (105, 9)]);
    assert_eq!(decode(packed), Ok(b"Hi".to_vec()));
}

#[test]
fn decode_errors() {
    assert_eq!(decode(vec![0x41]), Err(DecodeError::Stream(StreamError::UnexpectedEof)));
    assert_eq!(decode(stream_of(&[(300, 9)])), Err(DecodeError::InvalidCode));
    // a word whose chain points past the last entry
    assert_eq!(
        decode(stream_of(&[(65, 9), (400, 9), (66, 9), (259, 9)])),
        Err(DecodeError::InvalidCode)
    );
    // a clear code with nothing after it
    assert_eq!(
        decode(stream_of(&[(65, 9), (256, 9)])),
        Err(DecodeError::Stream(StreamError::UnexpectedEof))
    );
    // the first code is the end code's own, so a later word points at a chain that never ends
    assert_eq!(decode(stream_of(&[(257, 9), (66, 9), (258, 9)])), Err(DecodeError::InvalidCode));
}

#[test]
fn decode_after_clear_code() {
    let packed = stream_of(&[(65, 9), (256, 9), (66, 9), (66, 9), (258, 9), (257, 9)]);
    assert_eq!(decode(packed), Ok(b"ABBBB".to_vec()));
}

#[test]
fn decode_code_past_next_free_code() {
    // a code past the next free one stands for the previous word and its first byte
    assert_eq!(decode(stream_of(&[(65, 9), (400, 9)])), Ok(b"AAA".to_vec()));
    assert_eq!(decode(vec![0x41, 0x06, 0x06, 0x04]), Ok(b"AAA".to_vec()));
}
