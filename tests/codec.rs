use quadb::morton::{decode, encode};
use quadb::error::SpatialError;
use quadb::window::{codec_point, key_range, storage_key, within, window_corners};

#[test]
fn encode_interleaves_bits() {
    assert_eq!(encode(&vec![1, 0]), 2);
    assert_eq!(encode(&vec![0, 1]), 1);
    assert_eq!(encode(&vec![3, 0]), 10);
    assert_eq!(encode(&vec![1, 1, 1]), 7);
    assert_eq!(encode(&vec![0x8000]), 0x8000);
    assert_eq!(encode(&vec![0x8000, 0]), 0x8000_0000);
    assert_eq!(encode(&vec![65535, 65535, 65535, 65535]), u64::MAX);
    assert_eq!(encode(&vec![0, 0, 0]), 0);
}

#[test]
fn decode_inverts_encode() {
    let samples: Vec<Vec<u16>> = vec![
        vec![0, 0, 0],
        vec![10, 20, 30],
        vec![65535, 0, 12345],
        vec![7, 8, 9],
        vec![1, 2],
        vec![40000],
        vec![1, 65535, 3, 32768],
    ];
    for c in samples {
        let k = encode(&c);
        assert_eq!(decode(k, c.len()), c);
    }
    assert_eq!(decode(7, 3), vec![1, 1, 1]);
    assert_eq!(decode(2, 2), vec![1, 0]);
}

#[test]
fn window_corners_saturate() {
    let (lo, hi) = window_corners(&[1u16, 65530, 100], 10);
    assert_eq!(lo, vec![0, 65520, 90]);
    assert_eq!(hi, vec![11, 65535, 110]);
    let (lo, hi) = window_corners(&[5u16, 5], 100000);
    assert_eq!(lo, vec![0, 0]);
    assert_eq!(hi, vec![65535, 65535]);
}

#[test]
fn window_keys_cover_the_window() {
    let center = [20u16, 30, 40];
    let (lo, hi) = key_range(&center, 3);
    assert_eq!(lo, encode(&vec![17, 27, 37]));
    assert_eq!(hi, encode(&vec![23, 33, 43]));
    for x in 17..=23u16 {
        for y in 27..=33u16 {
            for z in 37..=43u16 {
                let k = storage_key(&[x, y, z]);
                assert!(lo <= k && k <= hi);
                assert!(within(&center, 3, &vec![x, y, z]));
            }
        }
    }
    assert!(!within(&center, 3, &vec![24, 30, 40]));
    assert!(!within(&center, 3, &vec![20, 30]));
}

#[test]
fn codec_point_checks_domain_and_dimension() {
    assert_eq!(codec_point::<3>(&vec![1, 2, 65535]), Ok(vec![1u16, 2, 65535]));
    assert_eq!(codec_point::<3>(&vec![1, 2]), Err(SpatialError::DimensionMismatch));
    assert_eq!(codec_point::<3>(&vec![1, -1, 2]), Err(SpatialError::OutOfDomain));
    assert_eq!(codec_point::<2>(&vec![65536, 0]), Err(SpatialError::OutOfDomain));
    assert_eq!(codec_point::<2>(&vec![0, 0, 0]), Err(SpatialError::DimensionMismatch));
}
