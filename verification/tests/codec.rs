use arith_coding::decode::{decode, uncompress};
use arith_coding::encode::{compress, encode};
use arith_coding::table::Table;
use arith_coding::{proceed, Chunk, CodecError, CONTRACT, SCALE};

fn roundtrip(input: &[u8]) -> Vec<u8> {
    let data: Vec<u8> = input.to_vec();
    let enc = encode(&data).expect("encoding must succeed");
    decode(&enc.table, &enc.chunks).expect("decoding must succeed")
}

#[test]
fn roundtrip_two_bytes() {
    assert_eq!(roundtrip(b"ab"), b"ab".to_vec());
}

#[test]
fn roundtrip_single_byte() {
    assert_eq!(roundtrip(b"a"), b"a".to_vec());
}

#[test]
fn roundtrip_text() {
    let s = b"the quick brown fox jumps over the lazy dog";
    assert_eq!(roundtrip(s), s.to_vec());
}

#[test]
fn roundtrip_multiple_chunks() {
    let mut s: Vec<u8> = Vec::new();
    for _ in 0..40 {
        s.push(b'a');
        s.push(b'b');
    }
    let enc = encode(&s).expect("encoding must succeed");
    assert!(enc.chunks.len() > 1, "80 alternating bytes cannot fit one chunk");
    let back = decode(&enc.table, &enc.chunks).expect("decoding must succeed");
    assert_eq!(back, s);
}

#[test]
fn roundtrip_all_byte_values() {
    let s: Vec<u8> = (0u8..=255).collect();
    assert_eq!(roundtrip(&s), s);
}

#[test]
fn roundtrip_repeated_byte_long() {
    let s = vec![b'a'; 10_000];
    assert_eq!(roundtrip(&s), s);
}

#[test]
fn chunk_counts_cover_input() {
    let s = b"abracadabra, a magical incantation".to_vec();
    let enc = encode(&s).expect("encoding must succeed");
    let total: usize = enc.chunks.iter().map(|c| c.count).sum();
    assert_eq!(total, s.len());
}

#[test]
fn encoding_is_deterministic() {
    let s = b"determinism, bit for bit".to_vec();
    let a = encode(&s).expect("encoding must succeed");
    let b = encode(&s).expect("encoding must succeed");
    assert_eq!(a.chunks, b.chunks);
    assert_eq!(a.ratio_num, b.ratio_num);
    assert_eq!(a.ratio_den, b.ratio_den);
}

#[test]
fn single_byte_alphabet_table() {
    let s = vec![b'a'; 4];
    let t = Table::analyze(&s).expect("table must build");
    assert_eq!(t.total(), 4);
    assert_eq!(t.entry_count(), 1);
    let e = t.entry_at(0);
    assert_eq!(e.sym, b'a');
    assert_eq!(e.lo, 0);
    // One entry spans the whole range but for the contraction: its
    // upper bound is 4 * CONTRACT out of m = 4 * SCALE.
    assert_eq!(e.hi, 4 * CONTRACT as u128);
    assert_eq!(t.m_units(), 4 * SCALE as u128);
    assert_eq!(roundtrip(&s), s);
}

#[test]
fn known_small_example_table() {
    // "ab": 'a' owns the lower half of [0,1) and 'b' the upper half,
    // both contracted just below their exact bounds.
    let s = b"ab".to_vec();
    let t = Table::analyze(&s).expect("table must build");
    assert_eq!(t.entry_count(), 2);
    let a = t.entry_at(0);
    let b = t.entry_at(1);
    assert_eq!((a.sym, a.lo, a.hi), (b'a', 0, CONTRACT as u128));
    assert_eq!((b.sym, b.lo, b.hi), (b'b', CONTRACT as u128, 2 * CONTRACT as u128));
    assert_eq!(t.m_units(), 2 * SCALE as u128);
    assert_eq!(roundtrip(&s), s);
}

#[test]
fn table_partition_has_no_gaps() {
    let s = b"mississippi".to_vec();
    let t = Table::analyze(&s).expect("table must build");
    assert!(t.entry_count() > 0);
    assert_eq!(t.entry_at(0).lo, 0);
    let mut width: u128 = 0;
    for j in 0..t.entry_count() {
        let e = t.entry_at(j);
        assert!(e.lo < e.hi);
        if j + 1 < t.entry_count() {
            let next = t.entry_at(j + 1);
            assert!(e.sym < next.sym);
            assert_eq!(e.hi, next.lo);
        }
        width += e.hi - e.lo;
    }
    let m = t.m_units();
    assert!(width < m);
    assert_eq!((m - width) * SCALE as u128, m);
}

#[test]
fn empty_input_is_rejected() {
    let empty: Vec<u8> = Vec::new();
    assert!(matches!(encode(&empty), Err(CodecError::EmptyInput)));
    assert!(matches!(Table::analyze(&empty), Err(CodecError::EmptyInput)));
}

#[test]
fn mismatched_table_fails_lookup() {
    let t = Table::analyze(&b"ab".to_vec()).expect("table must build");
    let other = b"xyz".to_vec();
    assert!(matches!(compress(&t, &other, 0), Err(CodecError::Lookup)));
}

#[test]
fn compress_empty_remainder_yields_zero_chunk() {
    let s = b"ab".to_vec();
    let t = Table::analyze(&s).expect("table must build");
    let ch = compress(&t, &s, 2).expect("an empty remainder encodes");
    assert_eq!((ch.count, ch.value), (0, 0));
}

#[test]
fn decode_rejects_value_on_lower_boundary() {
    let t = Table::analyze(&b"ab".to_vec()).expect("table must build");
    assert!(matches!(uncompress(&t, 1, 0), Err(CodecError::Decode)));
}

#[test]
fn decode_rejects_value_at_one_and_beyond() {
    let t = Table::analyze(&b"ab".to_vec()).expect("table must build");
    assert!(matches!(uncompress(&t, 1, SCALE), Err(CodecError::Decode)));
    assert!(matches!(uncompress(&t, 1, u64::MAX), Err(CodecError::Decode)));
}

#[test]
fn decode_rejects_value_on_interior_boundary() {
    // For "ab" the first narrowing step splits the unit interval at
    // 8388607 units: 'a' ends there and 'b' begins there, so that
    // exact value lies strictly inside neither and must be rejected.
    let t = Table::analyze(&b"ab".to_vec()).expect("table must build");
    assert!(matches!(uncompress(&t, 1, 8388607), Err(CodecError::Decode)));
    assert!(matches!(uncompress(&t, 1, 16777215), Err(CodecError::Decode)));
}

#[test]
fn decode_interior_value_finds_symbol() {
    let t = Table::analyze(&b"ab".to_vec()).expect("table must build");
    assert_eq!(uncompress(&t, 1, 1).expect("strictly interior value decodes"), vec![b'a']);
    assert_eq!(uncompress(&t, 1, 8388608).expect("strictly interior value decodes"), vec![
        b'b',
    ]);
}

#[test]
fn decode_zero_count_chunk_is_empty() {
    let t = Table::analyze(&b"ab".to_vec()).expect("table must build");
    assert_eq!(uncompress(&t, 0, 0).expect("zero bytes decode to nothing"), Vec::<u8>::new());
}

#[test]
fn decode_mismatched_table_does_not_panic() {
    // A chunk decoded against a mismatched table either fails or
    // yields bytes; it must never panic or read out of bounds.
    let s = b"abcabcabc".to_vec();
    let enc = encode(&s).expect("encoding must succeed");
    let other = Table::analyze(&b"zq".to_vec()).expect("table must build");
    let _ = decode(&other, &enc.chunks);
}

#[test]
fn compression_ratio_is_chunks_times_value_size_over_length() {
    let s = b"aaaaaaaaaaaaaaaa".to_vec();
    let enc = encode(&s).expect("encoding must succeed");
    assert_eq!(enc.ratio_num, enc.chunks.len() as u128 * 8);
    assert_eq!(enc.ratio_den, 16);
}

#[test]
fn single_symbol_single_chunk() {
    // "a" encodes to one chunk holding one byte, value one unit above
    // the chunk interval's lower bound.
    let s = b"a".to_vec();
    let enc = encode(&s).expect("encoding must succeed");
    assert_eq!(enc.chunks, vec![Chunk { count: 1, value: 1 }]);
}

#[test]
fn proceed_returns_input_exactly() {
    let s = b"end to end, there and back".to_vec();
    assert_eq!(proceed(&s).expect("non-empty input must round-trip"), s);
    let empty: Vec<u8> = Vec::new();
    assert!(matches!(proceed(&empty), Err(CodecError::EmptyInput)));
}

#[test]
fn table_lookup_finds_present_bytes_only() {
    let t = Table::analyze(&b"ab".to_vec()).expect("table must build");
    let a = t.lookup(b'a').expect("present byte has an entry");
    assert_eq!(a.sym, b'a');
    assert!(t.lookup(b'z').is_none());
}
