use lzw::bitstream::{BitStream, Mode, StreamError};

fn written(parts: &[(&[u8], usize)]) -> Vec<u8> {
    let mut a = BitStream::new_file(Vec::new(), Mode::Write);
    for (seq, len) in parts {
        a.write_bit_sequence(seq, *len).unwrap();
    }
    a.close().unwrap()
}

#[test]
fn write_test1() {
    let a1 = [0xe1, 0x03];
    let a2 = [0xee, 0x00];
    let buf = written(&[(&a1, 9), (&a2, 9)]);
    let expected = vec![0xe1, 0xdd, 0x01]; // 0b11100001, 0b11011101, 0b00000001
    assert_eq!(buf, expected);
}

#[test]
fn read_test10() {
    let mut a = BitStream::new_file(vec![0xe1, 0xdd, 0x01], Mode::Read);
    let a1 = a.read_bit_sequence(18).unwrap();
    assert_eq!(a1, [0xe1, 0xdd, 0x01]);
}

#[test]
fn read_test1() {
    let mut a = BitStream::new_file(vec![0xe1, 0xdd, 0x01], Mode::Read);
    let a1 = a.read_bit_sequence(3).unwrap(); // 0b001
    let a2 = a.read_bit_sequence(5).unwrap(); // 0b11100
    let a3 = a.read_bit_sequence(4).unwrap(); // 0b1101
    let a4 = a.read_bit_sequence(3).unwrap(); // 0b101
    let a5 = a.read_bit_sequence(2).unwrap(); // 0b11

    assert_eq!(a1, [0b001]);
    assert_eq!(a2, [0b11100]);
    assert_eq!(a3, [0b1101]);
    assert_eq!(a4, [0b101]);
    assert_eq!(a5, [0b11]);
}

#[test]
fn read_test11() {
    let mut a = BitStream::new_file(vec![0xe1, 0xdd, 0x01], Mode::Read);
    let a1 = a.read_bit_sequence(11).unwrap();
    let a2 = a.read_bit_sequence(7).unwrap();
    assert_eq!(a1, [0xe1, 0x05]);
    assert_eq!(a2, [0x3b]);
}

#[test]
fn read_test2() {
    let mut a = BitStream::new_file(vec![0b00001010, 0b1111], Mode::Read);
    let a1 = a.read_bit_sequence(3).unwrap();
    let a2 = a.read_bit_sequence(1).unwrap();
    let a3 = a.read_bit_sequence(5).unwrap();
    let a4 = a.read_bit_sequence(4).unwrap();
    assert_eq!(a1, [0b010]);
    assert_eq!(a2, [0b1]);
    assert_eq!(a3, [0b10000]);
    assert_eq!(a4, [0b111]);
}

#[test]
fn write_test2() {
    let a1 = [0b00001010, 0b01001111];
    let a2 = [0b01010011, 0b00000101];
    let buf = written(&[(&a1, 10), (&a2, 3)]);
    let expected = vec![0b00001010, 0b1111];
    assert_eq!(buf, expected);
}

#[test]
fn write_test3() {
    let a1 = [0b01001011];
    let a2 = [0b01010011];
    let buf = written(&[(&a1, 5), (&a2, 4)]);
    let expected = vec![0b01101011, 0b0];
    assert_eq!(buf, expected);
}

#[test]
fn write_test4() {
    let a1 = [0b01001011];
    let a2 = [0b01010001];
    let a3 = [0b0011111];
    let a4 = [0b0101010];
    let buf = written(&[(&a1, 8), (&a2, 7), (&a3, 6), (&a4, 8)]);
    let expected = vec![0b01001011, 0b11010001, 0b01001111, 0b0101];
    assert_eq!(buf, expected);
}

#[test]
fn read_test4() {
    let mut a = BitStream::new_file(vec![0b01001011, 0b11010001, 0b01001111, 0b0101], Mode::Read);
    let a1 = a.read_bit_sequence(11).unwrap();
    let a2 = a.read_bit_sequence(9).unwrap();
    let a3 = a.read_bit_sequence(4).unwrap();
    let a4 = a.read_bit_sequence(3).unwrap();
    assert_eq!(a1, [0b01001011, 0b001]);
    assert_eq!(a2, [0b11111010, 0b1]);
    assert_eq!(a3, [0b0100]);
    assert_eq!(a4, [0b101]);
}

#[test]
fn read_past_end_fails_and_keeps_position() {
    let mut a = BitStream::new_file(vec![0xff, 0x01], Mode::Read);
    assert_eq!(a.read_bit_sequence(10), Ok(vec![0xff, 0x01]));
    assert_eq!(a.read_bit_sequence(7), Err(StreamError::UnexpectedEof));
    assert_eq!(a.read_bit_sequence(6), Ok(vec![0]));
    assert_eq!(a.read_bit_sequence(0), Err(StreamError::UnexpectedEof));
}

#[test]
fn read_zero_bits_before_end() {
    let mut a = BitStream::new_file(vec![0xab], Mode::Read);
    assert_eq!(a.read_bit_sequence(0), Ok(vec![]));
    assert_eq!(a.read_bit_sequence(8), Ok(vec![0xab]));
}

#[test]
fn wrong_mode_does_nothing() {
    let mut r = BitStream::new_file(vec![1, 2], Mode::Read);
    assert_eq!(r.write_bit_sequence(&[1], 1), Ok(()));
    assert_eq!(r.write_bit_sequence(&[], 40), Ok(()));
    assert_eq!(r.read_bit_sequence(8), Ok(vec![1]));
    let mut w = BitStream::new_file(Vec::new(), Mode::Write);
    w.write_bit_sequence(&[0b101], 3).unwrap();
    assert_eq!(w.read_bit_sequence(1), Ok(vec![0]));
    assert_eq!(w.read_bit_sequence(17), Ok(vec![0, 0, 0]));
    assert_eq!(w.read_bit_sequence(0), Ok(vec![]));
    assert_eq!(w.close(), Ok(vec![0b101]));
}

#[test]
fn close_on_a_reader_cuts_after_its_position() {
    let mut r = BitStream::new_file(vec![0x0f, 0xf0, 0xaa], Mode::Read);
    assert_eq!(r.read_bit_sequence(4), Ok(vec![0x0f]));
    assert_eq!(r.close(), Err(StreamError::WrongMode));
    assert_eq!(r.read_bit_sequence(5), Err(StreamError::UnexpectedEof));
    assert_eq!(r.read_bit_sequence(4), Ok(vec![0]));
    assert_eq!(r.read_bit_sequence(1), Err(StreamError::UnexpectedEof));

    let mut s = BitStream::new_file(vec![0x0f, 0xf0, 0xaa], Mode::Read);
    assert_eq!(s.read_bit_sequence(8), Ok(vec![0x0f]));
    assert_eq!(s.close(), Err(StreamError::WrongMode));
    assert_eq!(s.read_bit_sequence(1), Err(StreamError::UnexpectedEof));
}

#[test]
fn writer_keeps_existing_bytes_and_starts_over_after_close() {
    let mut w = BitStream::new_file(vec![0x12], Mode::Write);
    w.write_bit_sequence(&[0b101], 3).unwrap();
    assert_eq!(w.close(), Ok(vec![0x12, 0b101]));
    w.write_bit_sequence(&[0xff, 0xff], 12).unwrap();
    assert_eq!(w.close(), Ok(vec![0xff, 0x0f]));
    assert_eq!(w.close(), Ok(vec![]));
}

#[test]
fn high_bits_beyond_length_are_ignored() {
    let buf = written(&[(&[0xff], 1), (&[0xff], 2), (&[0x00, 0xff], 9)]);
    assert_eq!(buf, vec![0b0000_0111, 0b0000_1000]);
}

#[test]
fn what_is_written_reads_back() {
    let parts: Vec<(Vec<u8>, usize)> = vec![
        (vec![0x5a, 0x03, 0x00], 17),
        (vec![0x07], 3),
        (vec![0xaa, 0xbb, 0xcc, 0xdd], 32),
        (vec![0x01], 1),
        (vec![0x34, 0x12], 13),
    ];
    let mut w = BitStream::new_file(Vec::new(), Mode::Write);
    for (seq, len) in &parts {
        w.write_bit_sequence(seq, *len).unwrap();
    }
    let bytes = w.close().unwrap();
    let mut r = BitStream::new_file(bytes, Mode::Read);
    for (seq, len) in &parts {
        let got = r.read_bit_sequence(*len).unwrap();
        let mut want = seq[..(len + 7) / 8].to_vec();
        if len % 8 != 0 {
            let last = want.len() - 1;
            want[last] &= 0xff >> (8 - len % 8);
        }
        assert_eq!(got, want);
    }
}
