use icer::error::IcerError;
use icer::image::IcerPixelFormat;
use icer::plane_container::{encode_container, is_container, parse_container};

#[test]
fn sentinel_never_collides_with_single_plane() {
    let single = [0xAC, 0xED, 0x00, 0x00];
    assert!(!is_container(&single));
    let container = [0x00, 0x00, 0x01, 0x03];
    assert!(is_container(&container));
}

#[test]
fn roundtrip_three_planes() {
    let planes = vec![vec![1u8, 2, 3], vec![4u8, 5], vec![6u8, 7, 8, 9]];
    let framed = encode_container(IcerPixelFormat::Yuv444P, &planes).unwrap();
    assert!(is_container(&framed));
    let parsed = parse_container(&framed).unwrap();
    assert_eq!(parsed.format, IcerPixelFormat::Yuv444P);
    assert_eq!(parsed.plane_ranges.len(), 3);
    for (i, original) in planes.iter().enumerate() {
        assert_eq!(parsed.plane_bytes(&framed, i), original.as_slice());
    }
}

#[test]
fn wrong_plane_count_rejected() {
    let planes = vec![vec![1u8], vec![2u8]];
    let err = encode_container(IcerPixelFormat::Yuv444P, &planes).unwrap_err();
    assert!(matches!(err, IcerError::InvalidData(_)));
}

#[test]
fn truncated_substream_rejected() {
    let planes = vec![vec![1u8, 2, 3], vec![4u8, 5], vec![6u8, 7, 8, 9]];
    let mut framed = encode_container(IcerPixelFormat::Yuv444P, &planes).unwrap();
    framed.truncate(framed.len() - 2);
    assert!(matches!(
        parse_container(&framed),
        Err(IcerError::Truncated)
    ));
}

#[test]
fn deep_gray_roundtrip_carries_depth() {
    let inner = vec![vec![0xAAu8, 0xBB, 0xCC]];
    let framed = encode_container(IcerPixelFormat::GrayDeep { bits: 12 }, &inner).unwrap();
    assert!(is_container(&framed));
    assert_eq!(framed[2], 2, "format tag");
    assert_eq!(framed[3], 1, "plane count");
    assert_eq!(framed[4], 12, "depth byte");
    let parsed = parse_container(&framed).unwrap();
    assert_eq!(parsed.format, IcerPixelFormat::GrayDeep { bits: 12 });
    assert_eq!(parsed.plane_bytes(&framed, 0), inner[0].as_slice());
}

#[test]
fn deep_gray_invalid_depths_rejected() {
    for bits in [0u8, 8, 17, 255] {
        let err =
            encode_container(IcerPixelFormat::GrayDeep { bits }, &[vec![1u8]]).unwrap_err();
        assert!(matches!(err, IcerError::InvalidData(_)), "bits {bits}");

        let framed = vec![0u8, 0, 2, 1, bits, 0, 0, 0, 1, 1];
        assert!(parse_container(&framed).is_err(), "parse bits {bits}");
    }

    assert!(matches!(
        parse_container(&[0u8, 0, 2, 1]),
        Err(IcerError::Truncated)
    ));
}

#[test]
fn bad_format_tag_rejected() {
    let mut framed = [0x00u8, 0x00, 0x07, 0x03, 0, 0, 0, 0].to_vec();
    framed.extend_from_slice(&[0; 3]);
    assert!(matches!(
        parse_container(&framed),
        Err(IcerError::InvalidData(_))
    ));
}
