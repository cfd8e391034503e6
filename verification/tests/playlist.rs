use oggify_csv::playlist::{
    audio_payload, duration_millis, playlist_file, playlist_stem, preferred_quality, release_year, track_id_from_capture,
    track_row, year_from_parts, OggQuality, TrackUriPattern, AUDIO_HEADER_LEN,
};
use oggify_csv::playlist::{after_rename, track_file_action, TrackFileAction};

#[test]
fn year_prefers_the_parsed_date() {
    assert_eq!(year_from_parts(Some(1987), "whatever"), 1987);
}

#[test]
fn year_falls_back_to_the_first_four_bytes() {
    assert_eq!(year_from_parts(None, "1967-09"), 1967);
    assert_eq!(year_from_parts(None, "1999"), 1999);
    assert_eq!(year_from_parts(None, "+123"), 123);
    assert_eq!(year_from_parts(None, "-123x"), -123);
    assert_eq!(year_from_parts(None, "0042"), 42);
}

#[test]
fn year_without_four_digits_is_1666() {
    assert_eq!(year_from_parts(None, ""), 1666);
    assert_eq!(year_from_parts(None, "199"), 1666);
    assert_eq!(year_from_parts(None, "19x9"), 1666);
    assert_eq!(year_from_parts(None, "+-12"), 1666);
    assert_eq!(year_from_parts(None, "abcdef"), 1666);
    assert_eq!(year_from_parts(None, "ab\u{e9}"), 1666);
}

#[test]
fn release_year_of_dates() {
    assert_eq!(release_year("2009-05-12"), Some(2009));
    assert_eq!(release_year("unknown"), Some(1666));
    assert_eq!(release_year("abc\u{e9}"), None);
    assert_eq!(release_year("2021-02-21+9900"), None);
    assert_eq!(release_year("2021-02-21 10:00 +24:00"), None);
    assert_eq!(release_year("2021-02-21+0800").map(|y| y >= 2021), Some(true));
}

#[test]
fn release_year_with_offset_text_outside_a_date_shape() {
    assert_eq!(release_year("2009+2400"), Some(2009));
    assert_eq!(release_year("2021-02-21x+2400"), Some(2021));
    assert_eq!(release_year("1999 foo +2500"), Some(1999));
}

#[test]
fn release_year_with_out_of_range_offset_in_a_date_shape() {
    assert_eq!(release_year("10:00 +2400"), None);
    assert_eq!(release_year("May 02, 2021 15:51 +2400"), None);
    assert_eq!(release_year("2021-02-21 10:00:00.123 +2400"), None);
    assert_eq!(release_year("2021-02-21 10:00:00 -24:30"), None);
}

#[test]
fn track_file_steps() {
    assert_eq!(track_file_action(true, true), TrackFileAction::Keep { delete_legacy: true });
    assert_eq!(track_file_action(true, false), TrackFileAction::Keep { delete_legacy: false });
    assert_eq!(track_file_action(false, true), TrackFileAction::RenameLegacy);
    assert_eq!(track_file_action(false, false), TrackFileAction::Download);
    assert_eq!(after_rename(true), TrackFileAction::Keep { delete_legacy: false });
    assert_eq!(after_rename(false), TrackFileAction::Download);
}

#[test]
fn track_row_picks_the_columns() {
    let fields: Vec<String> = (0..13).map(|i| format!("c{}", i)).collect();
    let row = track_row(&fields);
    assert_eq!(row.uri, "c0");
    assert_eq!(row.name, "c1");
    assert_eq!(row.artist, "c3");
    assert_eq!(row.album, "c5");
    assert_eq!(row.release_date, "c8");
    assert_eq!(row.disc, "c10");
    assert_eq!(row.track, "c11");
    assert_eq!(row.duration_ms, "c12");
}

#[test]
fn track_id_from_uri() {
    let pattern = TrackUriPattern::new();
    let id = pattern.track_id("spotify:track:4uLU6hMCjMI75M1A2tKUQC").unwrap();
    assert_eq!(id.to_base16(), "93bc414a606747b2b612491ef83d5a3e");
    assert!(pattern.track_id("spotify:album:4uLU6hMCjMI75M1A2tKUQC").is_none());
    assert!(pattern.track_id("spotify:track:zzzzzzzzzzzzzzzzzzzzzzzzzz").is_none());
    let id = pattern.track_id("x spotify:track:1f-rest").unwrap();
    assert_eq!(id.to_base62(), "000000000000000000001f");
}

#[test]
fn capture_to_track_id() {
    assert!(track_id_from_capture("4uLU6hMCjMI75M1A2tKUQC").is_some());
    assert!(track_id_from_capture("7N42dgm5tFLK9N8MT7fHC8").is_none());
    assert!(track_id_from_capture("bad-id").is_none());
}

#[test]
fn quality_preference() {
    assert_eq!(preferred_quality(true, true, true), Some(OggQuality::Kbps320));
    assert_eq!(preferred_quality(false, true, true), Some(OggQuality::Kbps160));
    assert_eq!(preferred_quality(false, false, true), Some(OggQuality::Kbps96));
    assert_eq!(preferred_quality(false, false, false), None);
}

#[test]
fn payload_skips_the_header() {
    let data: Vec<u8> = (0..200u32).map(|i| i as u8).collect();
    let payload = audio_payload(&data);
    assert_eq!(payload.len(), 200 - AUDIO_HEADER_LEN);
    assert_eq!(payload[0], 0xa7);
    assert_eq!(audio_payload(&data[..AUDIO_HEADER_LEN]).len(), 0);
}

#[test]
fn playlist_paths() {
    assert_eq!(playlist_stem("dir/My List.csv"), Some("dir/My List"));
    assert_eq!(playlist_stem("dir/élan.csv"), Some("dir/élan"));
    assert_eq!(playlist_stem("notes.txt"), None);
    assert_eq!(playlist_stem("csv"), None);
    assert_eq!(playlist_file("dir/My List"), "dir/My List.m3u");
}

#[test]
fn duration_in_milliseconds() {
    assert_eq!(duration_millis("215000"), Some(215000));
    assert_eq!(duration_millis("+5"), Some(5));
    assert_eq!(duration_millis("4294967295"), Some(u32::MAX));
    assert_eq!(duration_millis("4294967296"), None);
    assert_eq!(duration_millis(""), None);
    assert_eq!(duration_millis("+"), None);
    assert_eq!(duration_millis("-5"), None);
    assert_eq!(duration_millis("12a"), None);
}
