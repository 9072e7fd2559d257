use vectdb::store::{DbConfig, Store};

fn open_fresh(dim: u32) -> Store {
    Store::open(Vec::new(), Vec::new(), DbConfig::new(dim)).unwrap()
}

fn bits(v: &[f32]) -> Vec<u32> {
    v.iter().map(|x| x.to_bits()).collect()
}

/// The file layer's side of a search: squared distances for active slots.
fn distances(st: &Store, query: &[f32]) -> Vec<(usize, u32)> {
    let mut out = Vec::new();
    for s in 0..st.total_slots() {
        if !st.slot_is_deleted(s) {
            let v = st.slot_vector(s);
            let mut d2 = 0.0f32;
            for (q, w) in query.iter().zip(v.iter()) {
                let diff = q - f32::from_bits(*w);
                d2 += diff * diff;
            }
            out.push((s, d2.to_bits()));
        }
    }
    out
}

fn search(st: &Store, query: &[f32], k: usize) -> Vec<(String, f32)> {
    st.check_query(&bits(query)).unwrap();
    let dists = distances(st, query);
    st.search_select(&dists, k)
        .into_iter()
        .map(|(key, d2)| (key, f32::from_bits(d2).sqrt()))
        .collect()
}

#[test]
fn search_returns_nearest_first() {
    let mut st = open_fresh(4);
    st.put(
        &"vec1".to_string(),
        &bits(&[1.0, 0.0, 0.0, 0.0]),
        &"{\"name\":\"v1\"}".to_string(),
    )
    .unwrap();
    st.put(
        &"vec2".to_string(),
        &bits(&[0.0, 1.0, 0.0, 0.0]),
        &"{\"name\":\"v2\"}".to_string(),
    )
    .unwrap();
    let r = search(&st, &[1.0, 0.0, 0.0, 0.0], 2);
    assert_eq!(r.len(), 2);
    assert_eq!(r[0].0, "vec1");
    assert_eq!(r[0].1, 0.0);
    assert_eq!(r[1].0, "vec2");
    assert!((r[1].1 - 1.4142135).abs() < 1e-6);
}

#[test]
fn search_skips_deleted_and_caps_at_k() {
    let mut st = open_fresh(4);
    st.put(&"vec1".to_string(), &bits(&[1.0, 0.0, 0.0, 0.0]), &"{}".to_string())
        .unwrap();
    st.put(&"vec2".to_string(), &bits(&[0.0, 1.0, 0.0, 0.0]), &"{}".to_string())
        .unwrap();
    st.delete(&"vec1".to_string()).unwrap();
    let r = search(&st, &[1.0, 0.0, 0.0, 0.0], 2);
    assert_eq!(r.len(), 1);
    assert_eq!(r[0].0, "vec2");
    assert!((r[0].1 - 1.4142135).abs() < 1e-6);
}

#[test]
fn search_distances_are_non_decreasing() {
    let mut st = open_fresh(1);
    for i in 0..8u32 {
        st.put(&format!("k{}", i), &bits(&[(7 - i) as f32]), &"{}".to_string())
            .unwrap();
    }
    let r = search(&st, &[0.0], 5);
    assert_eq!(r.len(), 5);
    for w in r.windows(2) {
        assert!(w[0].1 <= w[1].1);
    }
    assert_eq!(r[0].0, "k7");
    assert_eq!(r[0].1, 0.0);
}

#[test]
fn search_rejects_bad_queries() {
    let st = open_fresh(4);
    assert!(st.check_query(&bits(&[1.0, 2.0])).is_err());
    assert!(st.check_query(&bits(&[f32::NAN, 0.0, 0.0, 0.0])).is_err());
    assert!(st.check_query(&bits(&[1.0, 2.0, 3.0, 4.0])).is_ok());
}

#[test]
fn compact_drops_every_deleted_slot() {
    let mut st = open_fresh(1);
    for i in 0..10u32 {
        st.put(&format!("k{}", i), &bits(&[i as f32]), &format!("[{}]", i))
            .unwrap();
    }
    for i in 0..4u32 {
        st.delete(&format!("k{}", i)).unwrap();
    }
    st.compact();
    let s = st.stats();
    assert_eq!(s.free_list_size, 0);
    assert_eq!(s.deleted_vectors, 0);
    assert_eq!(s.total_vectors, 6);
    assert_eq!(s.active_vectors, 6);
    assert_eq!(s.index_size, 6);
    // survivors keep their metadata and vectors
    for i in 4..10u32 {
        assert_eq!(st.get(&format!("k{}", i)).unwrap(), format!("[{}]", i));
    }
    let r = search(&st, &[9.0], 1);
    assert_eq!(r[0].0, "k9");
    assert_eq!(r[0].1, 0.0);
    // a second compaction changes nothing functionally
    st.compact();
    let s2 = st.stats();
    assert_eq!(s2.total_vectors, 6);
    assert_eq!(s2.deleted_vectors, 0);
    assert_eq!(s2.free_list_size, 0);
    for i in 4..10u32 {
        assert_eq!(st.get(&format!("k{}", i)).unwrap(), format!("[{}]", i));
    }
}

#[test]
fn compacted_images_reopen_cleanly() {
    let mut st = open_fresh(2);
    st.put(&"a".to_string(), &bits(&[1.0, 2.0]), &"{\"n\":1}".to_string()).unwrap();
    st.put(&"b".to_string(), &bits(&[3.0, 4.0]), &"{\"n\":2}".to_string()).unwrap();
    st.delete(&"a".to_string()).unwrap();
    st.compact();
    let st2 = Store::open(st.log_image().clone(), st.vector_file_image(), DbConfig::new(2))
        .unwrap();
    assert_eq!(st2.get(&"b".to_string()).unwrap(), "{\"n\":2}");
    assert!(st2.get(&"a".to_string()).is_err());
    assert_eq!(st2.stats().total_vectors, 1);
}

#[test]
fn auto_compaction_trigger_fires_past_the_thresholds() {
    let config = DbConfig::new(1)
        .with_compact_ratio(300_000)
        .with_compact_count(3)
        .with_auto_compact(true);
    let mut st = Store::open(Vec::new(), Vec::new(), config).unwrap();
    for i in 0..10u32 {
        let eff = st
            .put(&format!("k{}", i), &bits(&[i as f32]), &"{}".to_string())
            .unwrap();
        assert!(!eff.should_compact);
    }
    for i in 0..5u32 {
        st.delete(&format!("k{}", i)).unwrap();
    }
    // the put reclaims one freed slot: 4 deleted of 10 remain, so the
    // ratio passes 0.3 and the count passes 3
    let eff = st.put(&"fresh".to_string(), &bits(&[99.0]), &"{}".to_string()).unwrap();
    assert!(eff.should_compact);
    // the owner of the files runs the requested compaction
    st.compact();
    let s = st.stats();
    assert_eq!(s.deleted_vectors, 0);
    assert_eq!(s.free_list_size, 0);
}

#[test]
fn auto_compaction_respects_the_switch() {
    let config = DbConfig::new(1)
        .with_compact_ratio(100_000)
        .with_compact_count(0)
        .with_auto_compact(false);
    let mut st = Store::open(Vec::new(), Vec::new(), config).unwrap();
    st.put(&"a".to_string(), &bits(&[1.0]), &"{}".to_string()).unwrap();
    st.put(&"b".to_string(), &bits(&[2.0]), &"{}".to_string()).unwrap();
    st.delete(&"a".to_string()).unwrap();
    let eff = st.put(&"c".to_string(), &bits(&[3.0]), &"{}".to_string()).unwrap();
    assert!(!eff.should_compact);
}
