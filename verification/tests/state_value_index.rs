use state_value_index::codec::{decode_key, decode_value, encode_key, encode_value,
    STATE_VALUE_INDEX_CF_NAME};
use state_value_index::error::CodecError;
use state_value_index::schema::{KeyCodec, StateValueIndexSchema, ValueCodec};
use state_value_index::index::{IndexEntry, StateValueIndex};
use state_value_index::state_key::StateKey;

fn key(bytes: &[u8]) -> StateKey {
    StateKey::decode(bytes).expect("test key must be well-formed")
}

#[test]
fn value_round_trip_all_bytes() {
    for b in 0..=255u8 {
        let encoded = encode_value(b);
        assert_eq!(encoded.len(), 1);
        assert_eq!(decode_value(&encoded), Ok(b));
    }
}

#[test]
fn value_boundary_failures() {
    assert_eq!(decode_value(&[]), Err(CodecError::LengthError));
    assert_eq!(decode_value(&[1, 2]), Err(CodecError::LengthError));
    assert_eq!(decode_value(&[0, 0, 0]), Err(CodecError::LengthError));
}

#[test]
fn key_round_trip() {
    for &version in &[0u64, 1, 255, 256, 1 << 40, u64::MAX - 1, u64::MAX] {
        for kb in [&[0u8][..], &[1][..], &[0, 1, 2, 3][..], &[1, 255, 0, 7, 9][..]] {
            let k = key(kb);
            let encoded = encode_key(&k, version);
            let (k2, v2) = decode_key(&encoded).expect("round trip must decode");
            assert_eq!(k2, k);
            assert_eq!(v2, version);
        }
    }
}

#[test]
fn encoded_layout_is_exact() {
    let k = key(&[0, 9]);
    let encoded = encode_key(&k, 0x0102030405060708);
    assert_eq!(encoded, vec![0, 9, 1, 2, 3, 4, 5, 6, 7, 8]);
    assert_eq!(encode_value(7), vec![7]);
    let (k2, v2) = decode_key(&[0u8, 1, 2, 3, 4, 5, 6, 7, 8]).unwrap();
    assert_eq!(k2, key(&[0]));
    assert_eq!(v2, 0x0102030405060708);
}

#[test]
fn key_boundary_failures() {
    assert_eq!(decode_key(&[]).unwrap_err(), CodecError::LengthError);
    assert_eq!(decode_key(&[0; 8]).unwrap_err(), CodecError::LengthError);
    // nine bytes, but the state-key prefix opens with an unknown discriminant
    assert_eq!(decode_key(&[9u8, 0, 0, 0, 0, 0, 0, 0, 0]).unwrap_err(),
        CodecError::InnerCodecError);
}

#[test]
fn inner_codec_failures() {
    assert_eq!(StateKey::decode(&[]).unwrap_err(), CodecError::InnerCodecError);
    assert_eq!(StateKey::decode(&[7]).unwrap_err(), CodecError::InnerCodecError);
    assert!(StateKey::decode(&[0]).is_ok());
    assert!(StateKey::decode(&[1, 42]).is_ok());
}

#[test]
fn same_key_version_order() {
    let k = key(&[1, 200, 3]);
    let versions = [0u64, 1, 2, 255, 256, 65535, 1 << 32, u64::MAX - 1, u64::MAX];
    for (a, &v1) in versions.iter().enumerate() {
        for &v2 in &versions[a + 1..] {
            assert!(encode_key(&k, v1) < encode_key(&k, v2), "v1={v1} v2={v2}");
        }
    }
}

#[test]
fn cross_key_order() {
    let k1 = key(&[0, 1]);
    let k2 = key(&[0, 2]);
    for &v1 in &[0u64, 7, u64::MAX] {
        for &v2 in &[0u64, 7, u64::MAX] {
            assert!(encode_key(&k1, v1) < encode_key(&k2, v2));
        }
    }
}

#[test]
fn prefix_keys_stay_unambiguous() {
    // one key's encoding is a proper prefix of the other's: the fixed-width
    // version suffix still keeps decoding unambiguous
    let k1 = key(&[0]);
    let k2 = key(&[0, 5]);
    let e1 = encode_key(&k1, 3);
    let e2 = encode_key(&k2, 3);
    assert_eq!(e1.len(), 9);
    assert_eq!(e2.len(), 10);
    assert_eq!(decode_key(&e1).unwrap(), (k1.clone(), 3));
    assert_eq!(decode_key(&e2).unwrap(), (k2.clone(), 3));

    let mut idx = StateValueIndex::new();
    idx.put(&k1, 3, 1);
    idx.put(&k2, 3, 2);
    assert_eq!(idx.lookup_at_or_before(&k1, 10), Some(1));
    assert_eq!(idx.lookup_at_or_before(&k2, 10), Some(2));
}

#[test]
fn point_lookup() {
    let k = key(&[1, 2, 3]);
    let mut idx = StateValueIndex::new();
    idx.put(&k, 10, 5);
    idx.put(&k, 20, 7);
    assert_eq!(idx.lookup_at_or_before(&k, 15), Some(5));
    assert_eq!(idx.lookup_at_or_before(&k, 25), Some(7));
    assert_eq!(idx.lookup_at_or_before(&k, 5), None);
    assert_eq!(idx.lookup_at_or_before(&k, 10), Some(5));
    assert_eq!(idx.lookup_at_or_before(&k, 20), Some(7));
}

#[test]
fn multi_key_interleave() {
    let k1 = key(&[0, 10]);
    let k2 = key(&[0, 20]);
    let mut idx = StateValueIndex::new();
    idx.put(&k1, 1, 1);
    idx.put(&k2, 2, 2);
    idx.put(&k1, 3, 3);
    assert_eq!(idx.lookup_at_or_before(&k1, 2), Some(1));
    assert_eq!(idx.lookup_at_or_before(&k2, 10), Some(2));
    assert_eq!(idx.lookup_at_or_before(&k1, 10), Some(3));
    assert_eq!(idx.lookup_at_or_before(&k2, 1), None);
}

#[test]
fn atomic_batch_visibility() {
    // one commit writes an index entry and its companion record for the same
    // version in a single batch: a reader sees both or neither
    let index_key = key(&[0, 77]);
    let leaf_key = key(&[1, 77]);
    let mut idx = StateValueIndex::new();
    assert_eq!(idx.lookup_at_or_before(&index_key, 100), None);
    assert_eq!(idx.lookup_at_or_before(&leaf_key, 100), None);
    assert_eq!(idx.num_entries(), 0);
    let batch = vec![
        IndexEntry { key: index_key.clone(), version: 5, nibbles: 4 },
        IndexEntry { key: leaf_key.clone(), version: 5, nibbles: 9 },
    ];
    idx.apply_batch(&batch);
    assert_eq!(idx.num_entries(), 2);
    assert_eq!(idx.lookup_at_or_before(&index_key, 100), Some(4));
    assert_eq!(idx.lookup_at_or_before(&leaf_key, 100), Some(9));
}

#[test]
fn put_same_pair_replaces_value() {
    let k = key(&[1]);
    let mut idx = StateValueIndex::new();
    idx.put(&k, 4, 10);
    idx.put(&k, 4, 11);
    assert_eq!(idx.num_entries(), 1);
    assert_eq!(idx.lookup_at_or_before(&k, 4), Some(11));
}

#[test]
fn range_scan_bounded_by_version() {
    let k1 = key(&[0, 1]);
    let k2 = key(&[0, 2]);
    let mut idx = StateValueIndex::new();
    idx.put(&k2, 1, 11);
    idx.put(&k1, 5, 22);
    idx.put(&k1, 9, 33);
    let scanned = idx.range_scan(5);
    assert_eq!(scanned.len(), 2);
    // stored key order: k1's records precede k2's
    assert_eq!(scanned[0], IndexEntry { key: k1.clone(), version: 5, nibbles: 22 });
    assert_eq!(scanned[1], IndexEntry { key: k2.clone(), version: 1, nibbles: 11 });
    let all = idx.range_scan(u64::MAX);
    assert_eq!(all.len(), 3);
    assert_eq!(idx.range_scan(0).len(), 0);
}

#[test]
fn column_family_name_is_stable() {
    assert_eq!(STATE_VALUE_INDEX_CF_NAME, "state_value_index");
    assert_eq!(StateValueIndexSchema::column_family_name(), "state_value_index");
}

#[test]
fn schema_codecs_round_trip() {
    let pair = (key(&[1, 4, 4]), 99u64);
    let encoded = pair.encode_key();
    assert_eq!(encoded, encode_key(&pair.0, pair.1));
    assert_eq!(<(StateKey, u64)>::decode_key(&encoded).unwrap(), pair);
    assert_eq!(<(StateKey, u64)>::decode_key(&[0; 8]).unwrap_err(), CodecError::LengthError);
    let v = 200u8;
    assert_eq!(v.encode_value(), vec![200]);
    assert_eq!(u8::decode_value(&v.encode_value()).unwrap(), 200);
    assert_eq!(u8::decode_value(&[]).unwrap_err(), CodecError::LengthError);
}

#[test]
fn genesis_version_is_valid() {
    let k = key(&[0]);
    let mut idx = StateValueIndex::new();
    idx.put(&k, 0, 1);
    assert_eq!(idx.lookup_at_or_before(&k, 0), Some(1));
    let encoded = encode_key(&k, 0);
    assert_eq!(decode_key(&encoded).unwrap(), (k, 0));
}
