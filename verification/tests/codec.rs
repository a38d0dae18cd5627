use cm_tool::bits::{read_bit, BitBuffer};
use cm_tool::code_table::CodeTable;
use cm_tool::decode::decode;
use cm_tool::encode::{assign_codes, encode, EncodedData};
use cm_tool::error::CodecError;
use cm_tool::helpers::{encoder, get_char_occurence, payload_symbols, push_to_bit};
use cm_tool::huffman::Tree;

fn table(entries: &[(char, &str)]) -> CodeTable {
    let mut codes = CodeTable::new();
    for (ch, code) in entries {
        codes.insert(*ch, code.to_string());
    }
    codes
}

#[test]
fn test_push_to_bits() {
    let line = String::from("abcaba");
    let codes = table(&[('a', "0"), ('b', "10"), ('c', "11")]);

    let mut bv = BitBuffer::new();
    push_to_bit(&mut bv, line, &codes).unwrap();
    let packed_bytes = bv.to_bytes();

    // abcaba into bits - 01011010 00000000
    // 01011010 binary - 90 (decimals)
    // 00000000 binary - 0 (decimals)
    assert_eq!(packed_bytes[0], 90);
    assert_eq!(packed_bytes[1], 0);
}

#[test]
fn bit_exact_packing() {
    let codes = table(&[('a', "0"), ('b', "10"), ('c', "11")]);
    let (data, total_bits) = encoder("abcaba", &codes).unwrap();
    assert_eq!(data, vec![0b0101_1010, 0b0000_0000]);
    assert_eq!(data, vec![90, 0]);
    assert_eq!(total_bits, 9);
    assert_eq!(data.len(), (total_bits + 7) / 8);
}

#[test]
fn packing_fills_a_byte_exactly() {
    let codes = table(&[('a', "0"), ('b', "10"), ('c', "11")]);
    let (data, total_bits) = encoder("abcab", &codes).unwrap();
    assert_eq!(total_bits, 8);
    assert_eq!(data, vec![0b0101_1010]);
}

#[test]
fn bit_buffer_packs_most_significant_bit_first() {
    let mut bv = BitBuffer::new();
    assert_eq!(bv.len(), 0);
    assert_eq!(bv.to_bytes(), Vec::<u8>::new());
    assert!(bv.push(true));
    assert_eq!(bv.to_bytes(), vec![0b1000_0000]);
    assert!(bv.push(false));
    assert!(bv.push(true));
    assert_eq!(bv.len(), 3);
    assert_eq!(bv.to_bytes(), vec![0b1010_0000]);
    bv.extend(&vec![true, true, true, true, true, false, true]);
    assert_eq!(bv.len(), 10);
    assert_eq!(bv.to_bytes(), vec![0b1011_1111, 0b0100_0000]);
    assert_eq!(bv.room(), usize::MAX / 8 - 10);
}

#[test]
fn read_bit_reads_most_significant_bit_first() {
    let data = vec![0b1000_0001u8, 0b0100_0000];
    let bits: Vec<bool> = (0..16).map(|i| read_bit(&data, i)).collect();
    let expected = [
        true, false, false, false, false, false, false, true, false, true, false, false, false,
        false, false, false,
    ];
    assert_eq!(bits, expected);
}

#[test]
fn unknown_symbol_is_refused_and_buffer_kept() {
    let codes = table(&[('a', "0"), ('b', "10")]);
    let mut bv = BitBuffer::new();
    bv.push(true);
    assert_eq!(
        push_to_bit(&mut bv, "abxa".to_string(), &codes),
        Err(CodecError::UnknownSymbol)
    );
    assert_eq!(bv.len(), 1);
    assert_eq!(bv.to_bytes(), vec![0b1000_0000]);
    assert_eq!(encoder("abc", &codes), Err(CodecError::UnknownSymbol));
}

#[test]
fn characters_other_than_one_count_as_zero() {
    let codes = table(&[('a', "1x1"), ('b', "0")]);
    let (data, total_bits) = encoder("ab", &codes).unwrap();
    assert_eq!(total_bits, 4);
    assert_eq!(data, vec![0b1010_0000]);
}

#[test]
fn line_terminators_are_no_symbols() {
    assert_eq!(payload_symbols("ab\ncd\r\nef\r"), vec!['a', 'b', 'c', 'd', 'e', 'f', '\r']);
    assert_eq!(payload_symbols("a\r\r\nb"), vec!['a', '\r', 'b']);
    assert_eq!(payload_symbols("\n\n"), Vec::<char>::new());
    assert_eq!(payload_symbols("a\rb"), vec!['a', '\r', 'b']);
}

#[test]
fn occurrences_are_counted_in_order_of_first_occurrence() {
    let char_map = get_char_occurence("This is a new line\nis");
    assert_eq!(char_map.get(&'i'), Some(4));
    assert_eq!(char_map.get(&'T'), Some(1));
    assert_eq!(char_map.get(&'s'), Some(3));
    assert_eq!(char_map.get(&'\n'), None);
    let entries = get_char_occurence("abca\nb").into_entries();
    assert_eq!(entries, vec![('a', 2), ('b', 2), ('c', 1)]);
    assert!(get_char_occurence("").is_empty());
}

#[test]
fn round_trip_text() {
    let artifact = encode("mississippi river").unwrap();
    assert_eq!(artifact.data.len(), (artifact.total_bits + 7) / 8);
    assert_eq!(decode(&artifact).unwrap(), "mississippi river");
}

#[test]
fn round_trip_exact_bits() {
    // a:3 b:2 c:1 -> c and b are joined (3), then a and that node
    let artifact = encode("abcaba").unwrap();
    assert_eq!(artifact.codes.get(&'a').unwrap(), "0");
    assert_eq!(artifact.codes.get(&'c').unwrap(), "10");
    assert_eq!(artifact.codes.get(&'b').unwrap(), "11");
    // 0 11 10 0 11 0
    assert_eq!(artifact.total_bits, 9);
    assert_eq!(artifact.data, vec![0b0111_0011, 0b0000_0000]);
    assert_eq!(decode(&artifact).unwrap(), "abcaba");
}

#[test]
fn multi_line_input_loses_its_newlines() {
    let artifact = encode("line one\nline two\n").unwrap();
    assert_eq!(decode(&artifact).unwrap(), "line oneline two");
}

#[test]
fn single_symbol_input_gets_a_one_bit_code() {
    let artifact = encode("aaaa").unwrap();
    assert_eq!(artifact.codes.get(&'a').unwrap(), "0");
    assert_eq!(artifact.total_bits, 4);
    assert_eq!(artifact.data, vec![0]);
    assert_eq!(decode(&artifact).unwrap(), "aaaa");
    let codes = assign_codes(Tree::Leaf { char: 'q', freq: 9 });
    assert_eq!(codes.get(&'q').unwrap(), "0");
}

#[test]
fn empty_input_is_refused() {
    assert!(matches!(encode(""), Err(CodecError::EmptyInput)));
    assert!(matches!(encode("\n\r\n"), Err(CodecError::EmptyInput)));
}

#[test]
fn round_trip_non_ascii() {
    let text = "naïve café — ünïcödé ✓✓";
    let artifact = encode(text).unwrap();
    assert_eq!(decode(&artifact).unwrap(), text);
}

#[test]
fn tampered_total_bits_is_malformed() {
    let mut artifact = encode("mississippi river").unwrap();
    artifact.total_bits = 8 * artifact.data.len() + 1;
    assert_eq!(decode(&artifact), Err(CodecError::MalformedArtifact));
    artifact.total_bits = usize::MAX;
    assert_eq!(decode(&artifact), Err(CodecError::MalformedArtifact));
}

#[test]
fn shared_code_is_malformed() {
    let artifact = EncodedData {
        codes: table(&[('a', "01"), ('b', "01")]),
        total_bits: 2,
        data: vec![0b0100_0000],
    };
    assert_eq!(decode(&artifact), Err(CodecError::MalformedArtifact));
    // the same bits under two spellings are shared too
    let artifact = EncodedData {
        codes: table(&[('a', "01"), ('b', "x1")]),
        total_bits: 2,
        data: vec![0b0100_0000],
    };
    assert_eq!(decode(&artifact), Err(CodecError::MalformedArtifact));
}

#[test]
fn empty_table_with_bits_is_malformed() {
    let artifact = EncodedData { codes: CodeTable::new(), total_bits: 3, data: vec![0] };
    assert_eq!(decode(&artifact), Err(CodecError::MalformedArtifact));
    let artifact = EncodedData { codes: CodeTable::new(), total_bits: 0, data: vec![] };
    assert_eq!(decode(&artifact).unwrap(), "");
}

#[test]
fn stream_cut_short_is_truncated() {
    let artifact = EncodedData {
        codes: table(&[('a', "0"), ('b', "10"), ('c', "11")]),
        total_bits: 2,
        data: vec![0b0100_0000],
    };
    assert_eq!(decode(&artifact), Err(CodecError::TruncatedStream));
}

#[test]
fn bits_longer_than_every_code_are_unknown() {
    let codes = [('a', "00"), ('b', "01")];
    // 00 gives a; then 1, 11 and 110 follow, and 110 is longer than every code
    let artifact = EncodedData { codes: table(&codes), total_bits: 5, data: vec![0b0011_0000] };
    assert_eq!(decode(&artifact), Err(CodecError::UnknownCode));
    // cut after 11, the candidate is as long as a code and may yet grow
    let artifact = EncodedData { codes: table(&codes), total_bits: 4, data: vec![0b0011_0000] };
    assert_eq!(decode(&artifact), Err(CodecError::TruncatedStream));
}

#[test]
fn padding_bits_are_ignored() {
    let codes = [('a', "0"), ('b', "10"), ('c', "11")];
    let clean = EncodedData { codes: table(&codes), total_bits: 9, data: vec![90, 0] };
    let dirty = EncodedData { codes: table(&codes), total_bits: 9, data: vec![90, 0b0111_1111] };
    assert_eq!(decode(&clean).unwrap(), "abcaba");
    assert_eq!(decode(&dirty).unwrap(), "abcaba");
}

#[test]
fn swapped_table_does_not_restore_the_text() {
    // the bits 010110100 of "abcaba" under a=0, b=10, c=11
    let own = EncodedData {
        codes: table(&[('a', "0"), ('b', "10"), ('c', "11")]),
        total_bits: 9,
        data: vec![90, 0],
    };
    assert_eq!(decode(&own).unwrap(), "abcaba");
    // the table of another text reads them as another text, or not at all
    let swapped = EncodedData {
        codes: table(&[('a', "00"), ('b', "01"), ('c', "1")]),
        total_bits: 9,
        data: vec![90, 0],
    };
    assert_eq!(decode(&swapped).unwrap(), "bbcba");
    let swapped = EncodedData {
        codes: table(&[('z', "111")]),
        total_bits: 9,
        data: vec![90, 0],
    };
    assert_eq!(decode(&swapped), Err(CodecError::UnknownCode));
    let swapped = EncodedData {
        codes: table(&[('z', "0101101000")]),
        total_bits: 9,
        data: vec![90, 0],
    };
    assert_eq!(decode(&swapped), Err(CodecError::TruncatedStream));
}
