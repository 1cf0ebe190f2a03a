use inverted_index::codec::CodecError;
use inverted_index::codec::vb_decode;
use inverted_index::codec::vb_encode;
use inverted_index::doc_index::InvertedIndex;
use inverted_index::document::DocumentId;
use inverted_index::persist::read_compressed;
use inverted_index::persist::read_decimal;
use inverted_index::persist::save_compressed;
use inverted_index::persist::write_decimal;
use inverted_index::two_word_index::TwoWordIndex;

#[test]
fn vb_encodes_three_hundred() {
    assert_eq!(vb_encode(300), vec![0x02, 0xAC]);
}

#[test]
fn vb_encodes_zero_as_continuation_byte() {
    assert_eq!(vb_encode(0), vec![0x80]);
}

#[test]
fn vb_boundaries() {
    assert_eq!(vb_encode(127), vec![0xFF]);
    assert_eq!(vb_encode(128), vec![0x01, 0x80]);
    assert_eq!(vb_encode(1), vec![0x81]);
}

#[test]
fn vb_round_trips() {
    for n in [0usize, 1, 5, 127, 128, 129, 300, 16383, 16384, 1 << 20, usize::MAX] {
        let bytes = vb_encode(n);
        let (value, used) = vb_decode(&bytes, 0).unwrap();
        assert_eq!(value, n);
        assert_eq!(used, bytes.len());
    }
}

#[test]
fn vb_round_trips_with_trailing_bytes() {
    let mut bytes = vb_encode(300);
    bytes.push(0x7F);
    bytes.push(0x81);
    let (value, used) = vb_decode(&bytes, 0).unwrap();
    assert_eq!(value, 300);
    assert_eq!(used, 2);
    let (second, used2) = vb_decode(&bytes, used + 1).unwrap();
    assert_eq!(second, 1);
    assert_eq!(used2, bytes.len());
}

#[test]
fn vb_decode_truncated_stream() {
    let bytes = vec![0x02, 0x03];
    assert_eq!(vb_decode(&bytes, 0).err(), Some(CodecError::Truncated));
}

#[test]
fn vb_encoded_length_grows_by_seven_bits() {
    assert_eq!(vb_encode(0).len(), 1);
    assert_eq!(vb_encode(127).len(), 1);
    assert_eq!(vb_encode(128).len(), 2);
    assert_eq!(vb_encode(16383).len(), 2);
    assert_eq!(vb_encode(16384).len(), 3);
}

#[test]
fn decimal_round_trips() {
    for n in [0usize, 1, 9, 10, 42, 999, 1000, usize::MAX] {
        let mut out: Vec<u8> = Vec::new();
        write_decimal(n, &mut out);
        let (value, used) = read_decimal(&out, 0).unwrap();
        assert_eq!(value, n);
        assert_eq!(used, out.len());
    }
}

#[test]
fn compressed_round_trips_structurally() {
    let mut idx = InvertedIndex::new();
    idx.add_term(String::from("tea"), DocumentId(3));
    idx.add_term(String::from("tea"), DocumentId(1));
    idx.add_term(String::from("teapot"), DocumentId(2));
    idx.add_term(String::from("pot"), DocumentId(0));
    idx.add_term(String::from("яке"), DocumentId(5));
    let bytes = save_compressed(&idx);
    let back = read_compressed(&bytes).unwrap();
    assert_eq!(back.unique_word_count(), idx.unique_word_count());
    for term in ["tea", "teapot", "pot", "яке", "missing"] {
        let before = idx.term_positions(term);
        let after = back.term_positions(term);
        assert_eq!(before.len(), after.len());
        for d in 0..8 {
            assert_eq!(before.contains(d), after.contains(d));
        }
    }
}

#[test]
fn compressed_dictionary_is_front_coded() {
    let mut idx = InvertedIndex::new();
    idx.add_term(String::from("tea"), DocumentId(1));
    idx.add_term(String::from("teapot"), DocumentId(2));
    let bytes = save_compressed(&idx);
    // Dictionary block: "0tea" then "3pot", then the zero terminator.
    let expect = [b'0', b't', b'e', b'a', b'3', b'p', b'o', b't', 0u8];
    assert_eq!(&bytes[..9], &expect);
}

#[test]
fn compressed_rejects_garbage() {
    let garbage = vec![0xFFu8, 0xFF, 0xFF];
    assert!(read_compressed(&garbage).is_err());
    let empty: Vec<u8> = Vec::new();
    assert!(read_compressed(&empty).is_err());
}

#[test]
fn textual_round_trips_structurally() {
    let mut idx = InvertedIndex::new();
    idx.add_term(String::from("tea"), DocumentId(3));
    idx.add_term(String::from("tea"), DocumentId(1));
    idx.add_term(String::from("pot"), DocumentId(0));
    let bytes = idx.save();
    let text = String::from_utf8(bytes.clone()).unwrap();
    assert!(text.lines().any(|l| l == "tea:1,3"));
    assert!(text.lines().any(|l| l == "pot:0"));
    let back = InvertedIndex::load(&bytes).unwrap();
    assert_eq!(back.unique_word_count(), idx.unique_word_count());
    for term in ["tea", "pot", "missing"] {
        let before = idx.term_positions(term);
        let after = back.term_positions(term);
        assert_eq!(before.len(), after.len());
        for d in 0..5 {
            assert_eq!(before.contains(d), after.contains(d));
        }
    }
}

#[test]
fn textual_load_rejects_bad_lines() {
    let bytes = b"tea".to_vec();
    assert!(InvertedIndex::load(&bytes).is_err());
    let bytes2 = b"tea:1,x\n".to_vec();
    assert!(InvertedIndex::load(&bytes2).is_err());
}

#[test]
fn indexes_survive_bigram_key_lookup_after_reload() {
    let mut two = TwoWordIndex::new();
    two.add_term(String::from("black"), DocumentId(0));
    two.add_term(String::from("tea"), DocumentId(0));
    let docs = two.get_term_documents("black_tea");
    assert!(docs.contains(0));
}
