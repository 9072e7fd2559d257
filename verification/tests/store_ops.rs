use vectdb::errors::DbError;
use vectdb::store::{DbConfig, Store};

fn open_fresh(dim: u32) -> Store {
    Store::open(Vec::new(), Vec::new(), DbConfig::new(dim)).unwrap()
}

fn bits(v: &[f32]) -> Vec<u32> {
    v.iter().map(|x| x.to_bits()).collect()
}

#[test]
fn put_then_get_returns_metadata() {
    let mut st = open_fresh(4);
    st.put(
        &"vec1".to_string(),
        &bits(&[1.0, 0.0, 0.0, 0.0]),
        &"{\"name\":\"v1\"}".to_string(),
    )
    .unwrap();
    st.put(
        &"vec2".to_string(),
        &bits(&[0.0, 1.0, 0.0, 0.0]),
        &"{\"name\":\"v2\"}".to_string(),
    )
    .unwrap();
    assert_eq!(st.get(&"vec1".to_string()).unwrap(), "{\"name\":\"v1\"}");
    assert_eq!(st.get(&"vec2".to_string()).unwrap(), "{\"name\":\"v2\"}");
}

#[test]
fn delete_then_get_is_not_found() {
    let mut st = open_fresh(4);
    st.put(&"vec1".to_string(), &bits(&[1.0, 0.0, 0.0, 0.0]), &"{}".to_string())
        .unwrap();
    let eff = st.delete(&"vec1".to_string()).unwrap();
    assert!(eff.is_some());
    match st.get(&"vec1".to_string()) {
        Err(DbError::NotFound(k)) => assert_eq!(k, "vec1"),
        other => panic!("expected NotFound, got {:?}", other.is_ok()),
    }
}

#[test]
fn delete_is_idempotent_and_writes_one_tombstone() {
    let mut st = open_fresh(2);
    st.put(&"a".to_string(), &bits(&[0.0, 0.0]), &"{}".to_string()).unwrap();
    let len_before = st.log_len();
    let first = st.delete(&"a".to_string()).unwrap();
    assert!(first.is_some());
    let len_after_first = st.log_len();
    assert!(len_after_first > len_before);
    let second = st.delete(&"a".to_string()).unwrap();
    assert!(second.is_none());
    assert_eq!(st.log_len(), len_after_first);
}

#[test]
fn delete_unknown_key_fails() {
    let mut st = open_fresh(2);
    assert!(matches!(
        st.delete(&"missing".to_string()),
        Err(DbError::NotFound(_))
    ));
}

#[test]
fn slot_reuse_keeps_file_small() {
    let mut st = open_fresh(2);
    st.put(&"a".to_string(), &bits(&[0.0, 0.0]), &"{}".to_string()).unwrap();
    st.put(&"b".to_string(), &bits(&[0.0, 0.0]), &"{}".to_string()).unwrap();
    st.delete(&"a".to_string()).unwrap();
    st.put(&"c".to_string(), &bits(&[0.0, 0.0]), &"{}".to_string()).unwrap();
    let s = st.stats();
    assert_eq!(s.total_vectors, 2);
    assert_eq!(s.active_vectors, 2);
    assert_eq!(s.deleted_vectors, 0);
    assert_eq!(s.free_list_size, 0);
}

#[test]
fn overwrite_replaces_in_place() {
    let mut st = open_fresh(1);
    st.put(&"k".to_string(), &bits(&[1.0]), &"{\"v\":1}".to_string()).unwrap();
    st.put(&"k".to_string(), &bits(&[2.0]), &"{\"v\":2}".to_string()).unwrap();
    assert_eq!(st.get(&"k".to_string()).unwrap(), "{\"v\":2}");
    let s = st.stats();
    assert_eq!(s.total_vectors, 1);
    assert_eq!(s.active_vectors, 1);
    assert_eq!(s.free_list_size, 0);
}

#[test]
fn stats_counts_are_consistent() {
    let mut st = open_fresh(1);
    for i in 0..10u32 {
        st.put(&format!("k{}", i), &bits(&[i as f32]), &"{}".to_string())
            .unwrap();
    }
    for i in 0..4u32 {
        st.delete(&format!("k{}", i)).unwrap();
    }
    let s = st.stats();
    assert_eq!(s.total_vectors, 10);
    assert_eq!(s.deleted_vectors, 4);
    assert_eq!(s.active_vectors, 6);
    assert_eq!(s.active_vectors + s.deleted_vectors, s.total_vectors);
    assert_eq!(s.free_list_size, 4);
    // the deletion ratio is exactly these two counts
    let ratio = s.deleted_vectors as f64 / s.total_vectors.max(1) as f64;
    assert!((ratio - 0.4).abs() < 1e-12);
}

#[test]
fn dimension_mismatch_is_reported() {
    let mut st = open_fresh(4);
    match st.put(&"x".to_string(), &bits(&[1.0, 2.0, 3.0]), &"{}".to_string()) {
        Err(DbError::DimensionMismatch { expected, got }) => {
            assert_eq!(expected, 4);
            assert_eq!(got, 3);
        }
        _ => panic!("expected DimensionMismatch"),
    }
}

#[test]
fn invalid_vector_is_rejected() {
    let mut st = open_fresh(4);
    let v = bits(&[f32::NAN, 0.0, 0.0, 0.0]);
    assert!(matches!(
        st.put(&"x".to_string(), &v, &"{}".to_string()),
        Err(DbError::InvalidVector(_))
    ));
    let v2 = bits(&[f32::INFINITY, 0.0, 0.0, 0.0]);
    assert!(matches!(
        st.put(&"x".to_string(), &v2, &"{}".to_string()),
        Err(DbError::InvalidVector(_))
    ));
}

#[test]
fn metadata_must_be_json() {
    let mut st = open_fresh(1);
    assert!(matches!(
        st.put(&"x".to_string(), &bits(&[0.0]), &"{not json".to_string()),
        Err(DbError::Serialization(_))
    ));
    // a well-formed document is accepted
    st.put(&"x".to_string(), &bits(&[0.0]), &"[1,2,3]".to_string()).unwrap();
    assert_eq!(st.get(&"x".to_string()).unwrap(), "[1,2,3]");
}

#[test]
fn reopen_reproduces_state() {
    let mut st = open_fresh(2);
    st.put(&"a".to_string(), &bits(&[1.0, 2.0]), &"{\"n\":1}".to_string()).unwrap();
    st.put(&"b".to_string(), &bits(&[3.0, 4.0]), &"{\"n\":2}".to_string()).unwrap();
    st.delete(&"a".to_string()).unwrap();
    let log = st.log_image().clone();
    let vf = st.vector_file_image();
    let st2 = Store::open(log, vf, DbConfig::new(2)).unwrap();
    assert_eq!(st2.get(&"b".to_string()).unwrap(), "{\"n\":2}");
    assert!(matches!(st2.get(&"a".to_string()), Err(DbError::NotFound(_))));
    let s1 = st.stats();
    let s2 = st2.stats();
    assert_eq!(s1.total_vectors, s2.total_vectors);
    assert_eq!(s1.deleted_vectors, s2.deleted_vectors);
    assert_eq!(s1.active_vectors, s2.active_vectors);
    assert_eq!(s1.free_list_size, s2.free_list_size);
    assert_eq!(st.slot_vector(1), st2.slot_vector(1));
}

#[test]
fn torn_log_tail_is_truncated_on_reopen() {
    let mut st = open_fresh(1);
    for i in 0..100u32 {
        st.put(&format!("k{}", i), &bits(&[i as f32]), &"{}".to_string())
            .unwrap();
    }
    let mut log = st.log_image().clone();
    let vf = st.vector_file_image();
    let cut = log.len() - 7;
    log.truncate(cut);
    let st2 = Store::open(log, vf, DbConfig::new(1)).unwrap();
    assert_eq!(st2.get(&"k98".to_string()).unwrap(), "{}");
    assert!(matches!(st2.get(&"k99".to_string()), Err(DbError::NotFound(_))));
    // files grow correctly on subsequent writes
    let mut st2 = st2;
    st2.put(&"k99".to_string(), &bits(&[99.0]), &"{}".to_string()).unwrap();
    assert_eq!(st2.get(&"k99".to_string()).unwrap(), "{}");
}

#[test]
fn vector_file_stays_slot_aligned() {
    let mut st = open_fresh(3);
    for i in 0..5u32 {
        st.put(&format!("k{}", i), &bits(&[i as f32, 0.0, 0.0]), &"{}".to_string())
            .unwrap();
    }
    st.delete(&"k2".to_string()).unwrap();
    let s = st.stats();
    assert_eq!((s.vector_file_size - 32) % (3 * 4), 0);
    assert_eq!(st.vector_file_image().len() as u64, s.vector_file_size);
}

#[test]
fn config_validation() {
    assert!(matches!(
        Store::open(Vec::new(), Vec::new(), DbConfig::new(0)),
        Err(DbError::ConfigError(_))
    ));
    assert!(matches!(
        Store::open(Vec::new(), Vec::new(), DbConfig::new(100_001)),
        Err(DbError::ConfigError(_))
    ));
    let c = DbConfig::new(4).with_compact_ratio(2_000_000);
    assert_eq!(c.compact_threshold_ppm, 1_000_000);
    let c = c.with_compact_count(3).with_auto_compact(false);
    assert_eq!(c.compact_threshold_count, 3);
    assert!(!c.enable_auto_compact);
}

#[test]
fn reopen_rejects_wrong_dimension() {
    let mut st = open_fresh(2);
    st.put(&"a".to_string(), &bits(&[0.0, 0.0]), &"{}".to_string()).unwrap();
    let log = st.log_image().clone();
    let vf = st.vector_file_image();
    match Store::open(log, vf, DbConfig::new(3)) {
        Err(DbError::DimensionMismatch { expected, got }) => {
            assert_eq!(expected, 3);
            assert_eq!(got, 2);
        }
        _ => panic!("expected DimensionMismatch"),
    }
}

#[test]
fn corrupt_record_stops_the_scan() {
    let mut st = open_fresh(1);
    st.put(&"a".to_string(), &bits(&[1.0]), &"{}".to_string()).unwrap();
    st.put(&"b".to_string(), &bits(&[2.0]), &"{}".to_string()).unwrap();
    let mut log = st.log_image().clone();
    let vf = st.vector_file_image();
    // flip one byte in the last record's payload: its checksum no longer matches
    let n = log.len();
    log[n - 1] ^= 0xff;
    let st2 = Store::open(log, vf, DbConfig::new(1)).unwrap();
    assert_eq!(st2.get(&"a".to_string()).unwrap(), "{}");
    assert!(matches!(st2.get(&"b".to_string()), Err(DbError::NotFound(_))));
}

#[test]
fn log_record_layout_matches_crc32_of_payload() {
    // build the expected record bytes by hand, checksum from the crc32 crate
    let mut st = open_fresh(1);
    let before = st.log_image().clone();
    st.put(&"ab".to_string(), &bits(&[1.5]), &"[7]".to_string()).unwrap();
    let after = st.log_image().clone();
    let rec = &after[before.len()..];

    let mut payload: Vec<u8> = Vec::new();
    payload.extend_from_slice(&0u32.to_be_bytes()); // slot id
    payload.extend_from_slice(&2u32.to_be_bytes()); // key length
    payload.extend_from_slice(&3u32.to_be_bytes()); // value length
    payload.push(0); // tombstone flag
    payload.extend_from_slice(b"ab");
    payload.extend_from_slice(b"[7]");
    let mut expected: Vec<u8> = Vec::new();
    expected.extend_from_slice(&crc32fast::hash(&payload).to_be_bytes());
    expected.extend_from_slice(&payload);
    assert_eq!(rec, expected.as_slice());
}

#[test]
fn header_layout() {
    let st = open_fresh(7);
    let img = st.vector_file_image();
    assert_eq!(img.len(), 32);
    assert_eq!(&img[0..4], &0x5645_4354u32.to_be_bytes());
    assert_eq!(img[4], 1); // version
    assert_eq!(img[5], 0); // flags
    assert_eq!(&img[6..10], &7u32.to_be_bytes());
    assert!(img[10..32].iter().all(|&b| b == 0));
}
