use voxel_core::pos::{chunked, unchunked, CHUNK_S1};

#[test]
fn chunked_positive() {
    assert_eq!(chunked(0), (0, 0));
    assert_eq!(chunked(31), (0, 31));
    assert_eq!(chunked(32), (1, 0));
    assert_eq!(chunked(100), (3, 4));
}

#[test]
fn chunked_negative_uses_euclidean_remainder() {
    assert_eq!(chunked(-1), (-1, 31));
    assert_eq!(chunked(-32), (-1, 0));
    assert_eq!(chunked(-33), (-2, 31));
    assert_eq!(chunked(-100), (-4, 28));
}

#[test]
fn chunked_offset_always_in_range() {
    for x in [-1000, -33, -32, -1, 0, 1, 31, 32, 1000, i32::MAX, i32::MIN] {
        let (_, dx) = chunked(x);
        assert!(dx < CHUNK_S1);
    }
}

#[test]
fn round_trip_over_many_coordinates() {
    for x in -300..300 {
        let (cx, dx) = chunked(x);
        assert_eq!(unchunked(cx, dx), x);
    }
    for x in [i32::MIN, i32::MIN + 1, i32::MAX, i32::MAX - 1] {
        let (cx, dx) = chunked(x);
        assert_eq!(unchunked(cx, dx), x);
    }
}
