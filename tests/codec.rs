use lzw::encoder::ratio_exceeded;
use lzw::packing::{pack, unpack};
use lzw::{compress, decompress, Compressor, DecodeError, Decompressor, EOF, EOS, FLUSH_DICTIONARY, NOOP};

fn uncompressed() -> Vec<u8> {
    "Lorem ipsum dolor sit amet, consectetur adipiscing elit.
        Vestibulum ipsum nulla, pretium at leo sed, condimentum
        consectetur nisi."
        .as_bytes()
        .to_vec()
}

fn compressed() -> Vec<u8> {
    vec![
        76, 6, 240, 114, 6, 80, 109, 2, 0, 105, 7, 0, 115, 7, 80, 2, 22, 64, 111, 6, 192, 111, 7,
        32, 32, 7, 48, 105, 7, 64, 32, 6, 16, 109, 6, 80, 116, 2, 192, 32, 6, 48, 111, 6, 224, 115,
        6, 80, 99, 7, 64, 101, 7, 64, 117, 7, 32, 10, 22, 64, 3, 22, 144, 115, 6, 48, 105, 6, 224,
        103, 2, 0, 101, 6, 192, 9, 18, 224, 10, 2, 0, 32, 2, 0, 27, 18, 0, 27, 21, 96, 101, 7, 48,
        116, 6, 144, 98, 7, 80, 108, 7, 80, 2, 22, 144, 112, 7, 48, 117, 6, 208, 32, 6, 224, 117,
        6, 192, 108, 6, 16, 44, 2, 0, 112, 7, 32, 17, 22, 144, 36, 18, 0, 97, 7, 64, 32, 6, 192,
        101, 6, 240, 8, 22, 80, 100, 2, 192, 13, 22, 240, 110, 6, 64, 105, 6, 208, 101, 6, 224,
        116, 7, 80, 109, 0, 160, 28, 18, 0, 55, 22, 48, 14, 23, 48, 101, 6, 48, 116, 6, 80, 53, 23,
        32, 37, 22, 144, 115, 6, 144, 46, 15, 191, 254, 255, 239,
    ]
}

fn round_trip(input: &[u8]) -> Vec<u8> {
    let mut packed: Vec<u8> = Vec::new();
    let (r, w) = compress(input, &mut packed);
    assert_eq!(r, input.len());
    assert_eq!(w, packed.len());
    let mut out: Vec<u8> = Vec::new();
    let (r2, w2) = decompress(&packed, &mut out).unwrap();
    assert_eq!(r2, packed.len());
    assert_eq!(w2, out.len());
    out
}

fn noise(n: usize, seed: u32) -> Vec<u8> {
    let mut x = seed;
    let mut v = Vec::with_capacity(n);
    for _ in 0..n {
        x = x.wrapping_mul(1_103_515_245).wrapping_add(12_345);
        v.push((x >> 16) as u8);
    }
    v
}

#[test]
fn test_simple_compress() {
    let input: &[u8] = "          ".as_bytes();
    let expected: Vec<u8> = vec![32, 2, 0, 0, 18, 0, 1, 18, 0, 32, 15, 191, 254, 255, 239];
    let mut output: Vec<u8> = Vec::new();
    let (r, w) = compress(input, &mut output);
    assert_eq!((r, w), (10, 15));
    assert_eq!(expected, output);
}

#[test]
fn test_simple_decompress() {
    let input: Vec<u8> = vec![32, 2, 0, 0, 18, 0, 1, 18, 0, 32, 15, 191, 254, 255, 239];
    let expected: Vec<u8> = "          ".as_bytes().to_vec();
    let mut output: Vec<u8> = Vec::new();
    let (r, w) = decompress(&input, &mut output).unwrap();
    assert_eq!((r, w), (15, 10));
    assert_eq!(expected, output);
}

#[test]
fn test_compress() {
    let input = uncompressed();
    let expected: Vec<u8> = compressed();
    let mut output: Vec<u8> = Vec::new();
    let (r, w) = compress(&input, &mut output);
    assert_eq!((r, w), (input.len(), expected.len()));
    assert_eq!(expected, output);
}

#[test]
fn test_decompress() {
    let input = compressed();
    let expected: Vec<u8> = uncompressed();
    let mut output: Vec<u8> = Vec::new();
    let (r, w) = decompress(&input, &mut output).unwrap();
    assert_eq!((r, w), (input.len(), expected.len()));
    assert_eq!(expected, output);
}

#[test]
fn empty_input_is_only_the_eof_frame() {
    let mut output: Vec<u8> = Vec::new();
    assert_eq!(compress(&[], &mut output), (0, 3));
    assert_eq!(output, vec![254, 255, 239]);
}

#[test]
fn single_byte_is_one_literal_then_eof_frame() {
    let mut output: Vec<u8> = Vec::new();
    assert_eq!(compress(&[65], &mut output), (1, 6));
    assert_eq!(output, vec![65, 15, 191, 254, 255, 239]);
    let (a, b) = unpack(output[0], output[1], output[2]);
    assert_eq!((a, b), (65, NOOP));
}

#[test]
fn compress_appends_to_existing_output() {
    let mut output: Vec<u8> = vec![7, 7];
    compress(&[65], &mut output);
    assert_eq!(output, vec![7, 7, 65, 15, 191, 254, 255, 239]);
}

#[test]
fn eof_frame_alone_decompresses_to_nothing() {
    let mut output2: Vec<u8> = Vec::new();
    assert_eq!(decompress(&[254, 255, 239], &mut output2), Ok((3, 0)));
    assert!(output2.is_empty());
}

#[test]
fn pack_splits_codes_by_half_bytes() {
    assert_eq!(pack(0xABC, 0x123), [0xBC, 0xA2, 0x31]);
    assert_eq!(pack(EOF, EOF), [254, 255, 239]);
    assert_eq!(pack(EOS, EOS), [255, 255, 255]);
    assert_eq!(unpack(0xBC, 0xA2, 0x31), (0xABC, 0x123));
}

#[test]
fn unpack_inverts_pack_on_many_codes() {
    let mut a: u16 = 0;
    while a < 4096 {
        let mut b: u16 = 0;
        while b < 4096 {
            let g = pack(a, b);
            assert_eq!(unpack(g[0], g[1], g[2]), (a, b));
            b += 37;
        }
        a += 41;
    }
    let g = pack(4095, 0);
    assert_eq!(unpack(g[0], g[1], g[2]), (4095, 0));
}

#[test]
fn compressing_twice_gives_the_same_bytes() {
    let input = noise(500, 7);
    let mut a: Vec<u8> = Vec::new();
    let mut b: Vec<u8> = Vec::new();
    compress(&input, &mut a);
    compress(&input, &mut b);
    assert_eq!(a, b);
}

#[test]
fn round_trip_on_assorted_inputs() {
    assert_eq!(round_trip(&[]), Vec::<u8>::new());
    assert_eq!(round_trip(&[0]), vec![0]);
    assert_eq!(round_trip(&[255, 255, 255, 255]), vec![255, 255, 255, 255]);
    assert_eq!(round_trip(b"abababababababab"), b"abababababababab".to_vec());
    let lorem = uncompressed();
    assert_eq!(round_trip(&lorem), lorem);
    let n = noise(700, 3);
    assert_eq!(round_trip(&n), n);
}

#[test]
fn round_trip_past_a_full_dictionary() {
    let input = noise(12_000, 11);
    let mut packed: Vec<u8> = Vec::new();
    compress(&input, &mut packed);
    let mut out: Vec<u8> = Vec::new();
    decompress(&packed, &mut out).unwrap();
    assert_eq!(out, input);
}

#[test]
fn every_stream_ends_with_eof_in_the_first_slot() {
    for input in [vec![], vec![1], vec![1, 2], noise(301, 5)] {
        let mut output: Vec<u8> = Vec::new();
        compress(&input, &mut output);
        let n = output.len();
        assert_eq!(n % 3, 0);
        let (a, b) = unpack(output[n - 3], output[n - 2], output[n - 1]);
        assert_eq!((a, b), (EOF, EOF));
    }
}

#[test]
fn unknown_code_is_a_corrupt_stream() {
    let g = pack(300, 0);
    let mut output: Vec<u8> = Vec::new();
    assert_eq!(decompress(&g, &mut output), Err(DecodeError::CorruptStream));
    let r = pack(4092, EOF);
    let mut output2: Vec<u8> = Vec::new();
    assert_eq!(decompress(&r, &mut output2), Err(DecodeError::CorruptStream));
}

#[test]
fn corrupt_code_keeps_what_was_written() {
    let mut input: Vec<u8> = pack(72, 300).to_vec();
    input.extend_from_slice(&pack(EOF, EOF));
    let mut output: Vec<u8> = Vec::new();
    assert_eq!(decompress(&input, &mut output), Err(DecodeError::CorruptStream));
    assert_eq!(output, vec![72]);
}

#[test]
fn truncated_stream_stops_cleanly() {
    let mut output: Vec<u8> = Vec::new();
    assert_eq!(decompress(&[254, 255], &mut output), Ok((2, 0)));
    let mut input: Vec<u8> = pack(72, 105).to_vec();
    input.push(1);
    let mut output2: Vec<u8> = Vec::new();
    assert_eq!(decompress(&input, &mut output2), Ok((4, 2)));
    assert_eq!(output2, b"Hi".to_vec());
}

#[test]
fn reading_stops_after_the_terminator() {
    let mut input: Vec<u8> = vec![254, 255, 239];
    input.extend_from_slice(&pack(65, 66));
    let mut output: Vec<u8> = Vec::new();
    assert_eq!(decompress(&input, &mut output), Ok((3, 0)));
    assert!(output.is_empty());
}

#[test]
fn flush_code_resets_the_decoder_table() {
    // "AB" admits code 256, which then decodes; after a flush it is unknown.
    let mut input: Vec<u8> = pack(65, 66).to_vec();
    input.extend_from_slice(&pack(65, 66));
    input.extend_from_slice(&pack(256, EOF));
    let mut out: Vec<u8> = Vec::new();
    assert_eq!(decompress(&input, &mut out), Ok((9, 6)));
    assert_eq!(out, b"ABABAB".to_vec());

    let mut flushed: Vec<u8> = pack(65, 66).to_vec();
    flushed.extend_from_slice(&pack(65, 66));
    flushed.extend_from_slice(&pack(FLUSH_DICTIONARY, NOOP));
    flushed.extend_from_slice(&pack(256, EOF));
    let mut out2: Vec<u8> = Vec::new();
    assert_eq!(decompress(&flushed, &mut out2), Err(DecodeError::CorruptStream));
    assert_eq!(out2, b"ABAB".to_vec());
}

#[test]
fn end_of_stream_frames_with_eos() {
    let mut c = Compressor::new();
    let mut output: Vec<u8> = Vec::new();
    let (r, w) = c.compress(b"hello", &mut output);
    let e = c.end_of_stream(&mut output);
    assert_eq!(r, 5);
    assert_eq!(w + e, output.len());
    assert_eq!(output[output.len() - 3..].to_vec(), vec![255, 255, 255]);
    let mut d = Decompressor::new();
    let mut out: Vec<u8> = Vec::new();
    let res = d.decompress(&output, &mut out);
    assert_eq!(res, Ok((output.len(), 5)));
    assert_eq!(out, b"hello".to_vec());
}

#[test]
fn end_of_file_pads_a_held_code() {
    let mut c = Compressor::new();
    let mut output: Vec<u8> = Vec::new();
    assert_eq!(c.end_of_file(&mut output), 3);
    assert_eq!(output, vec![254, 255, 239]);
}

#[test]
fn flush_dictionary_forgets_learned_phrases() {
    // Without a reset "abab" sends a, b, then the learned "ab" at the end.
    let mut plain = Compressor::new();
    let mut a: Vec<u8> = Vec::new();
    plain.compress(b"abab", &mut a);
    let mut reset = Compressor::new();
    let mut b: Vec<u8> = Vec::new();
    reset.compress(b"ab", &mut b);
    reset.flush_dictionary();
    reset.compress(b"ab", &mut b);
    assert_ne!(a, b);
    assert_eq!(a, vec![97, 6, 32, 0, 31, 191]);
}

#[test]
fn flush_heuristic_truncates_the_ratio() {
    assert!(ratio_exceeded(4001, 100, 201));
    assert!(!ratio_exceeded(4001, 100, 200));
    assert!(!ratio_exceeded(4001, 200, 401));
    assert!(ratio_exceeded(4001, 3, 7));
    assert!(!ratio_exceeded(4000, 1, 1000));
    assert!(!ratio_exceeded(4001, 0, 1000));
}

#[test]
fn single_byte_zero_and_max() {
    let mut zero: Vec<u8> = Vec::new();
    compress(&[0], &mut zero);
    assert_eq!(zero, vec![0, 15, 191, 254, 255, 239]);
    let mut max: Vec<u8> = Vec::new();
    compress(&[255], &mut max);
    assert_eq!(max, vec![255, 15, 191, 254, 255, 239]);
}
