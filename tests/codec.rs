use lzw::util::{BitIndex, BitSizeEnumerator, LZWDict, LZWDictEntry, LZWSearchTreeNode};
use lzw::{LZWReader, LZWWriter, LzwError};

fn encode(data: &[u8]) -> Vec<bool> {
    let mut writer = LZWWriter::new();
    assert_eq!(writer.write(data), Ok(data.len()));
    writer.finish().unwrap()
}

fn decode(bits: Vec<bool>) -> Result<Vec<u8>, LzwError> {
    let mut reader = LZWReader::new(bits);
    let mut all = Vec::new();
    loop {
        let chunk = reader.read(1000)?;
        if chunk.is_empty() {
            return Ok(all);
        }
        all.extend_from_slice(&chunk);
    }
}

fn code_bits(value: usize, width: usize) -> Vec<bool> {
    (0..width).map(|k| (value >> (width - 1 - k)) & 1 == 1).collect()
}

fn pseudo_random(n: usize) -> Vec<u8> {
    let mut x: u32 = 12345;
    (0..n)
        .map(|_| {
            x = x.wrapping_mul(1103515245).wrapping_add(12345);
            (x >> 16) as u8
        })
        .collect()
}

#[test]
fn test_lzw_writer() {
    let text = "This was a triumph! I'm making a note here: HUGE SUCCESS!";
    let mut writer = LZWWriter::new();
    assert!(writer.write(text.as_bytes()).is_ok());
    let bits = writer.finish();
    assert!(bits.is_ok());
    let mut reader = LZWReader::new(bits.unwrap());
    let mut result = Vec::new();
    loop {
        let chunk = reader.read(16);
        assert!(chunk.is_ok());
        let chunk = chunk.unwrap();
        if chunk.is_empty() {
            break;
        }
        result.extend_from_slice(&chunk);
    }
    let result = String::from_utf8(result).unwrap();
    assert_eq!(result, "This was a triumph! I'm making a note here: HUGE SUCCESS!");
}

#[test]
fn test_enumerator() {
    let mut it = BitSizeEnumerator::new(1);
    assert_eq!(it.next(), Some(1));
    assert_eq!(it.next(), Some(2));
    assert_eq!(it.next(), Some(2));
    assert_eq!(it.next(), Some(3));
}

#[test]
fn test_bit_index() {
    let test = BitIndex::new(84, 8);
    let bits = test.bits();
    assert_eq!(bits.len(), 8);
    let res = BitIndex::from_bits(&bits, 0, 8);
    assert!(res.is_some());
    let test2 = res.unwrap();
    assert_eq!(test, test2);
    assert_eq!(test2.as_usize(), 84);
}

#[test]
fn enumerator_from_one_follows_doubling() {
    let mut it = BitSizeEnumerator::new(1);
    let widths: Vec<usize> = (0..8).map(|_| it.next().unwrap()).collect();
    assert_eq!(widths, vec![1, 2, 2, 3, 3, 3, 3, 4]);
}

#[test]
fn enumerator_from_255_grows_at_256() {
    let mut it = BitSizeEnumerator::new(255);
    assert_eq!(it.next(), Some(8));
    assert_eq!(it.next(), Some(9));
}

#[test]
fn enumerator_boundaries_are_exact() {
    let mut it = BitSizeEnumerator::new(255);
    // count 255 gives 8 bits; counts 256..511 give 9; 512..1023 give 10.
    assert_eq!(it.next(), Some(8));
    for _ in 256..512 {
        assert_eq!(it.next(), Some(9));
    }
    for _ in 512..1024 {
        assert_eq!(it.next(), Some(10));
    }
    assert_eq!(it.next(), Some(11));
}

#[test]
fn enumerator_from_zero() {
    let mut it = BitSizeEnumerator::new(0);
    assert_eq!(it.next(), Some(0));
    assert_eq!(it.next(), Some(1));
    assert_eq!(it.next(), Some(2));
}

#[test]
fn bit_index_bits_are_most_significant_first() {
    assert_eq!(
        BitIndex::new(84, 8).bits(),
        vec![false, true, false, true, false, true, false, false]
    );
    assert_eq!(BitIndex::new(5, 4).bits(), vec![false, true, false, true]);
    assert!(BitIndex::new(7, 0).bits().is_empty());
}

#[test]
fn bit_index_next_hands_out_bits() {
    let mut idx = BitIndex::new(6, 3);
    assert_eq!(idx.next(), Some(true));
    assert_eq!(idx.next(), Some(true));
    assert_eq!(idx.next(), Some(false));
    assert_eq!(idx.next(), None);
}

#[test]
fn bit_index_from_bits_offset_and_short_input() {
    let bits = vec![true, true, false, true, true];
    let idx = BitIndex::from_bits(&bits, 1, 4).unwrap();
    assert_eq!(idx, BitIndex::new(0b1011, 4));
    assert!(BitIndex::from_bits(&bits, 2, 4).is_none());
}

#[test]
fn dict_starts_with_single_bytes() {
    let mut dict = LZWDict::new();
    assert_eq!(dict.len(), 256);
    assert_eq!(dict.index(200).symbol, 200);
    assert_eq!(dict.index(200).prefix, None);
    dict.push(LZWDictEntry { symbol: b'b', prefix: Some(b'a' as usize) });
    dict.push(LZWDictEntry { symbol: b'c', prefix: Some(256) });
    assert_eq!(dict.len(), 258);
    assert_eq!(dict.first_symbol(257), b'a');
    let mut out = Vec::new();
    dict.push_phrase_reversed(257, &mut out);
    assert_eq!(out, vec![b'c', b'b', b'a']);
}

#[test]
fn trie_node_starts_without_children() {
    let node = LZWSearchTreeNode::new();
    assert_eq!(node.children.len(), 256);
    assert!(node.children.iter().all(|c| c.is_none()));
}

#[test]
fn encoder_exact_codes() {
    // "ab": 'a' goes out with 8 bits when 'b' misses, 'b' with 9 at the end.
    let mut expected = code_bits(b'a' as usize, 8);
    expected.extend(code_bits(b'b' as usize, 9));
    assert_eq!(encode(b"ab"), expected);
}

#[test]
fn encoder_reuses_phrase() {
    // "abab": codes a(8) b(9) 256(9).
    let mut expected = code_bits(b'a' as usize, 8);
    expected.extend(code_bits(b'b' as usize, 9));
    expected.extend(code_bits(256, 9));
    assert_eq!(encode(b"abab"), expected);
}

#[test]
fn encoder_empty_input_gives_nothing() {
    assert!(encode(b"").is_empty());
}

#[test]
fn encoder_single_byte() {
    assert_eq!(encode(b"z"), code_bits(b'z' as usize, 8));
}

#[test]
fn round_trip_various() {
    let inputs: Vec<Vec<u8>> = vec![
        Vec::new(),
        vec![0],
        vec![255],
        vec![7; 1000],
        pseudo_random(5000),
        b"to be or not to be, that is the question; to be or not to be".repeat(40),
        (0..=255u8).collect(),
    ];
    for input in inputs {
        assert_eq!(decode(encode(&input)), Ok(input));
    }
}

#[test]
fn round_trip_crosses_width_boundaries() {
    // Enough distinct pairs to push the dictionary past 512 and 1024 entries.
    let input = pseudo_random(20000);
    let bits = encode(&input);
    assert_eq!(decode(bits), Ok(input));
}

#[test]
fn kwkwk_runs_round_trip() {
    for n in 5..40 {
        let input = vec![b'a'; n];
        assert_eq!(decode(encode(&input)), Ok(input));
    }
    // "aaa": a(8), then 256 = "aa" is used right when it is defined.
    let mut expected = code_bits(b'a' as usize, 8);
    expected.extend(code_bits(256, 9));
    assert_eq!(encode(b"aaa"), expected);
    assert_eq!(decode(expected), Ok(b"aaa".to_vec()));
}

#[test]
fn chunked_writes_match_one_write() {
    let input = b"abracadabra abracadabra abracadabra".repeat(10);
    let whole = encode(&input);
    let mut writer = LZWWriter::new();
    let mut bits = Vec::new();
    for chunk in input.chunks(3) {
        assert_eq!(writer.write(chunk), Ok(chunk.len()));
        bits.extend(writer.take_bits());
    }
    bits.extend(writer.finish().unwrap());
    assert_eq!(bits, whole);
}

#[test]
fn chunked_reads_match_one_read() {
    let input = b"abracadabra abracadabra abracadabra".repeat(10);
    let bits = encode(&input);
    let mut one = LZWReader::new(bits.clone());
    let whole = one.read(input.len() + 10).unwrap();
    assert_eq!(whole, input);
    let mut reader = LZWReader::new(bits);
    let mut pieces = Vec::new();
    loop {
        let chunk = reader.read(1).unwrap();
        if chunk.is_empty() {
            break;
        }
        assert_eq!(chunk.len(), 1);
        pieces.extend(chunk);
    }
    assert_eq!(pieces, whole);
}

#[test]
fn reading_past_the_end_yields_nothing() {
    let mut reader = LZWReader::new(encode(b"hello"));
    assert_eq!(reader.read(100), Ok(b"hello".to_vec()));
    assert_eq!(reader.read(100), Ok(Vec::new()));
    assert_eq!(reader.read(100), Ok(Vec::new()));
}

#[test]
fn read_of_zero_bytes_is_empty() {
    let mut reader = LZWReader::new(encode(b"hello"));
    assert_eq!(reader.read(0), Ok(Vec::new()));
    assert_eq!(reader.read(2), Ok(b"he".to_vec()));
}

#[test]
fn truncated_stream_is_malformed() {
    let mut bits = encode(b"hello hello");
    bits.truncate(bits.len() - 3);
    assert_eq!(decode(bits), Err(LzwError::MalformedStream));
    let mut bits = encode(b"x");
    bits.truncate(5);
    assert_eq!(decode(bits), Err(LzwError::MalformedStream));
}

#[test]
fn stream_cut_at_code_boundary_ends_cleanly() {
    let mut bits = code_bits(b'h' as usize, 8);
    bits.extend(code_bits(b'i' as usize, 9));
    assert_eq!(decode(bits.clone()), Ok(b"hi".to_vec()));
    bits.truncate(8);
    assert_eq!(decode(bits), Ok(b"h".to_vec()));
}

#[test]
fn unknown_code_is_malformed() {
    // After 'a' the dictionary holds 256 entries; code 300 is unknown.
    let mut bits = code_bits(b'a' as usize, 8);
    bits.extend(code_bits(300, 9));
    assert_eq!(decode(bits), Err(LzwError::MalformedStream));
}

#[test]
fn find_first_symbol_follows_prefixes() {
    let mut reader = LZWReader::new(encode(b"abab"));
    assert_eq!(reader.read(100), Ok(b"abab".to_vec()));
    assert_eq!(reader.find_first_symbol(b'q' as usize), b'q');
    assert_eq!(reader.find_first_symbol(256), b'a');
}

#[test]
fn decoder_entries_match_encoder_nodes() {
    // The encoder numbers "ab" as 256 and "ba" as 257 while writing "abab";
    // the decoder defines the same entries while reading the codes back.
    let mut expected = code_bits(b'a' as usize, 8);
    expected.extend(code_bits(b'b' as usize, 9));
    expected.extend(code_bits(256, 9));
    assert_eq!(encode(b"abab"), expected);
    let mut reader = LZWReader::new(expected);
    assert_eq!(reader.read(100), Ok(b"abab".to_vec()));
    assert_eq!(reader.find_first_symbol(256), b'a');
    assert_eq!(reader.find_first_symbol(257), b'b');
}
