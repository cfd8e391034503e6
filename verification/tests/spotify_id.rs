use oggify_csv::spotify_id::{FileId, SpotifyId, SpotifyIdError};

const TRACK_BASE62: &str = "4uLU6hMCjMI75M1A2tKUQC";
const TRACK_BASE16: &str = "93bc414a606747b2b612491ef83d5a3e";
const TRACK_RAW: [u8; 16] = [
    147, 188, 65, 74, 96, 103, 71, 178, 182, 18, 73, 30, 248, 61, 90, 62,
];

#[test]
fn base62_reads_known_track() {
    assert!(SpotifyId::base62_in_range(TRACK_BASE62));
    let id = SpotifyId::from_base62(TRACK_BASE62).unwrap();
    assert_eq!(id.to_base16(), TRACK_BASE16);
    assert_eq!(id.to_raw(), TRACK_RAW);
}

#[test]
fn base16_reads_known_track() {
    assert!(SpotifyId::base16_in_range(TRACK_BASE16));
    let id = SpotifyId::from_base16(TRACK_BASE16).unwrap();
    assert_eq!(id.to_base62(), TRACK_BASE62);
}

#[test]
fn raw_reads_known_track() {
    let id = SpotifyId::from_raw(&TRACK_RAW).unwrap();
    assert_eq!(id.to_base62(), TRACK_BASE62);
    assert_eq!(id, SpotifyId::from_base16(TRACK_BASE16).unwrap());
}

#[test]
fn small_values_are_padded() {
    let id = SpotifyId::from_base16("1f").unwrap();
    assert_eq!(id.to_base16(), "0000000000000000000000000000001f");
    assert_eq!(id.to_base62(), "000000000000000000000v");
    let mut raw = [0u8; 16];
    raw[15] = 31;
    assert_eq!(id.to_raw(), raw);
    let empty = SpotifyId::from_base62("").unwrap();
    assert_eq!(empty.to_base16(), "00000000000000000000000000000000");
}

#[test]
fn base16_rejects_other_bytes() {
    assert_eq!(SpotifyId::from_base16("12G4"), Err(SpotifyIdError));
    assert_eq!(SpotifyId::from_base16("ABCD"), Err(SpotifyIdError));
    assert_eq!(SpotifyId::from_base16("é"), Err(SpotifyIdError));
}

#[test]
fn base62_rejects_other_bytes() {
    assert_eq!(SpotifyId::from_base62("abc-def"), Err(SpotifyIdError));
    assert_eq!(SpotifyId::from_base62(" "), Err(SpotifyIdError));
}

#[test]
fn raw_needs_sixteen_bytes() {
    assert_eq!(SpotifyId::from_raw(&[0u8; 15]), Err(SpotifyIdError));
    assert_eq!(SpotifyId::from_raw(&[0u8; 17]), Err(SpotifyIdError));
    assert!(SpotifyId::from_raw(&[0u8; 16]).is_ok());
}

#[test]
fn largest_id_round_trips() {
    let max = SpotifyId::from_raw(&[255u8; 16]).unwrap();
    assert_eq!(max.to_base16(), "ffffffffffffffffffffffffffffffff");
    assert_eq!(max.to_base62(), "7N42dgm5tFLK9N8MT7fHC7");
    assert_eq!(SpotifyId::from_base62("7N42dgm5tFLK9N8MT7fHC7").unwrap(), max);
    assert_eq!(SpotifyId::from_base16(&max.to_base16()).unwrap(), max);
}

#[test]
fn range_checks() {
    assert!(SpotifyId::base62_in_range("7N42dgm5tFLK9N8MT7fHC7"));
    assert!(!SpotifyId::base62_in_range("7N42dgm5tFLK9N8MT7fHC8"));
    assert!(!SpotifyId::base62_in_range("zzzzzzzzzzzzzzzzzzzzzzzz"));
    assert!(SpotifyId::base62_in_range("zz-zzzzzzzzzzzzzzzzzzzzzzzz"));
    assert!(!SpotifyId::base16_in_range("1ffffffffffffffffffffffffffffffff"));
    assert!(SpotifyId::base16_in_range("0ffffffffffffffffffffffffffffffff"));
    assert!(SpotifyId::base16_in_range("not hex at all, and very very long indeed"));
}

#[test]
fn round_trips_on_several_ids() {
    for i in 0u8..=255 {
        let mut raw = [0u8; 16];
        for (j, b) in raw.iter_mut().enumerate() {
            *b = i.wrapping_mul(31).wrapping_add((j as u8).wrapping_mul(17));
        }
        let id = SpotifyId::from_raw(&raw).unwrap();
        assert_eq!(id.to_raw(), raw);
        assert_eq!(SpotifyId::from_base16(&id.to_base16()).unwrap(), id);
        assert_eq!(SpotifyId::from_base62(&id.to_base62()).unwrap(), id);
        assert_eq!(id.to_base16().len(), 32);
        assert_eq!(id.to_base62().len(), 22);
    }
}

#[test]
fn file_id_hex() {
    let mut bytes = [0u8; 20];
    for (i, b) in bytes.iter_mut().enumerate() {
        *b = (i as u8) * 13;
    }
    let id = FileId(bytes);
    assert_eq!(id.to_base16(), "000d1a2734414e5b6875828f9ca9b6c3d0ddeaf7");
    assert_eq!(FileId([255u8; 20]).to_base16(), "f".repeat(40));
    assert_eq!(FileId([0u8; 20]).to_base16(), "0".repeat(40));
}

#[test]
fn hex_text_order_follows_numeric_order() {
    let ids: Vec<SpotifyId> = ["0", "1", "f", "10", "ff", "100", "93bc414a606747b2b612491ef83d5a3e"]
        .iter()
        .map(|t| SpotifyId::from_base16(t).unwrap())
        .collect();
    for (i, a) in ids.iter().enumerate() {
        for (j, b) in ids.iter().enumerate() {
            assert_eq!(i < j, a.to_base16() < b.to_base16());
            assert_eq!(i == j, a.to_base16() == b.to_base16());
        }
    }
}

#[test]
fn base16_is_raw_bytes_in_hex() {
    let id = SpotifyId::from_raw(&[7u8, 0, 255, 16, 1, 2, 3, 4, 5, 6, 7, 8, 9, 10, 171, 205]).unwrap();
    let hex: String = id.to_raw().iter().map(|b| format!("{:02x}", b)).collect();
    assert_eq!(id.to_base16(), hex);
}

#[test]
fn file_id_text_orders_as_its_bytes() {
    let mut a = [0u8; 20];
    let mut b = [0u8; 20];
    a[3] = 0x0f;
    b[3] = 0xf0;
    let mut c = b;
    c[19] = 1;
    let ids = [FileId([0u8; 20]), FileId(a), FileId(b), FileId(c), FileId([255u8; 20])];
    for (i, x) in ids.iter().enumerate() {
        for (j, y) in ids.iter().enumerate() {
            assert_eq!(i < j, x.to_base16() < y.to_base16());
            assert_eq!(x.0 < y.0, x.to_base16() < y.to_base16());
            assert_eq!(i == j, x.to_base16() == y.to_base16());
        }
    }
}

#[test]
fn leading_zero_reads_the_same() {
    assert_eq!(SpotifyId::from_base62(&format!("0{}", TRACK_BASE62)), SpotifyId::from_base62(TRACK_BASE62));
    assert_eq!(SpotifyId::from_base16(&format!("0{}", TRACK_BASE16)), SpotifyId::from_base16(TRACK_BASE16));
    assert_eq!(SpotifyId::from_base16("0"), SpotifyId::from_base16(""));
    assert_eq!(SpotifyId::from_base62("0x-"), SpotifyId::from_base62("x-"));
}
