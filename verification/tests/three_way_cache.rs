use poker_core::three_way_cache::{index, CacheSizeError, ThreeWayCache, CACHE_FILE_BYTES, SENTINEL};

fn bits(v: [f64; 3]) -> [u32; 3] {
    [
        (v[0] as f32).to_bits(),
        (v[1] as f32).to_bits(),
        (v[2] as f32).to_bits(),
    ]
}

#[test]
fn three_way_cache_cache_get_or_compute_returns_same() {
    let mut cache = ThreeWayCache::new();
    let mut calls = 0;
    let first = match cache.get_bits(3, 7, 11, 0) {
        Some(b) => f32::from_bits(b) as f64,
        None => {
            calls += 1;
            let value = [0.42, 0.33, 0.25];
            cache.store_bits(3, 7, 11, bits(value));
            value[0]
        }
    };
    let second = match cache.get_bits(3, 7, 11, 0) {
        Some(b) => f32::from_bits(b) as f64,
        None => {
            calls += 1;
            0.99
        }
    };
    let sb = match cache.get_bits(3, 7, 11, 1) {
        Some(b) => f32::from_bits(b) as f64,
        None => {
            calls += 1;
            0.99
        }
    };
    assert!((first - 0.42).abs() < 1e-6, "first {first}");
    assert!((second - first).abs() < 1e-6, "second {second} != first {first}");
    assert!((sb - 0.33).abs() < 1e-6, "sb {sb}");
    assert_eq!(calls, 1);
    assert_eq!(cache.hit_count(), 2);
    assert_eq!(cache.miss_count(), 1);
}

#[test]
fn three_way_cache_cache_save_load_roundtrip() {
    let mut cache = ThreeWayCache::default();
    let cells = [
        (0_u8, 1_u8, 2_u8, [0.11_f64, 0.41, 0.48]),
        (5, 9, 14, [0.37, 0.22, 0.41]),
        (20, 40, 80, [0.58, 0.19, 0.23]),
        (168, 0, 42, [0.73, 0.12, 0.15]),
    ];
    for &(btn, sb, bb, value) in &cells {
        assert_eq!(cache.get_bits(btn, sb, bb, 0), None);
        cache.store_bits(btn, sb, bb, bits(value));
    }
    let bytes = cache.to_bytes();
    assert_eq!(bytes.len(), CACHE_FILE_BYTES);
    let mut loaded = ThreeWayCache::from_bytes(&bytes).expect("right size");
    for &(btn, sb, bb, value) in &cells {
        for player in 0..3 {
            let got = f32::from_bits(loaded.get_bits(btn, sb, bb, player).expect("hit")) as f64;
            assert!((got - value[player]).abs() < 1e-5);
        }
    }
    assert_eq!(loaded.hit_count(), cells.len() * 3);
    assert_eq!(loaded.miss_count(), 0);
}

#[test]
fn three_way_cache_wrong_size_is_refused() {
    let r = ThreeWayCache::from_bytes(&[0_u8; 16]);
    assert_eq!(
        r.err(),
        Some(CacheSizeError { expected: CACHE_FILE_BYTES, actual: 16 })
    );
}

#[test]
fn three_way_cache_sentinel_values_are_not_stored() {
    let mut cache = ThreeWayCache::new();
    cache.store_bits(1, 2, 3, [SENTINEL, 5, 6]);
    assert_eq!(cache.get_bits(1, 2, 3, 1), None);
    assert_eq!(index(0, 0, 0), 0);
    assert_eq!(index(1, 2, 3), 169 * 169 + 2 * 169 + 3);
}
