use oggify_csv::naming::{
    encode, entry_title, legacy_file_name, playlist_entry_path, sanitize, track_file_name,
    truncate, MAX_PATH_LEN,
};

fn artists(n: usize) -> String {
    (0..n).map(|i| format!("Artist {}", i)).collect::<Vec<_>>().join(", ")
}

#[test]
fn sanitize_drops_and_replaces() {
    assert_eq!(sanitize(&String::from("a:b/c\\d<e>f|g?h*i")), "abcdefghi");
    assert_eq!(sanitize(&String::from("say \"hi\" now")), "say_'hi'_now");
    assert_eq!(sanitize(&String::from("plain")), "plain");
    assert_eq!(sanitize(&String::from("")), "");
    assert_eq!(sanitize(&String::from("héllo wörld")), "héllo_wörld");
}

#[test]
fn sanitize_twice_is_sanitize_once() {
    let once = sanitize(&String::from("a \"b\": c/d"));
    assert_eq!(sanitize(&once), once);
}

#[test]
fn encode_escapes_hash() {
    assert_eq!(encode(&String::from("Track #1/#2")), "Track %231/%232");
    assert_eq!(encode(&String::from("no hash")), "no hash");
    assert!(!encode(&String::from("###")).contains('#'));
}

#[test]
fn truncate_counts_characters() {
    assert_eq!(truncate("héllo wörld", 3), "hél");
    assert_eq!(truncate("héllo", 10), "héllo");
    assert_eq!(truncate("héllo", 5), "héllo");
    assert_eq!(truncate("abc", 0), "");
    assert_eq!(truncate("", 4), "");
}

#[test]
fn readme_file_name() {
    let name = track_file_name(
        "Bil Bless",
        "Life Mechanism (1 of 2)",
        2009,
        "1",
        "2",
        "Wanting You",
        10,
    ).unwrap();
    assert_eq!(name, "Bil_Bless-Life_Mechanism_(1_of_2)(2009)-D01-T02-Wanting_You.ogg");
}

#[test]
fn file_name_pads_and_signs() {
    let name = track_file_name("A, B", "C", -5, "", "123", "N", 0).unwrap();
    assert_eq!(name, "A,B-C(-5)-D00-T123-N.ogg");
}

#[test]
fn long_artist_list_is_cut_at_a_comma() {
    let name = track_file_name(&artists(40), "Big Album", 2020, "1", "10", "Song", 20).unwrap();
    assert_eq!(name, "Artist_0,Artist_1,Artist_2,Artist_3,Artist_4,Artist_5,Artist_6,Artist_7,Artist_8,Artist_9,Artist_10,Artist_11,Artist_12,Artist_13,Artist_14,Artist_15,Artist_16,Artist_17,Artist_18,Artist_19,Artist_20,Artist_2,etc.-Song.ogg");
}

#[test]
fn long_artist_without_comma_is_cut_at_the_limit() {
    let artist = "A".repeat(300);
    let name = track_file_name(&artist, "Alb", 2020, "1", "1", "Song", 20).unwrap();
    assert_eq!(name, format!("{}...-Song.ogg", "A".repeat(MAX_PATH_LEN - 4 - 5)));
    let artist = format!("Ab{}", "c".repeat(250));
    let name = track_file_name(&artist, "Alb", 2020, "1", "1", "Song", 0).unwrap();
    assert_eq!(name, format!("Ab{}...-Song.ogg", "c".repeat(229)));
}

#[test]
fn comma_only_at_start_cuts_at_the_limit() {
    let artist = format!(",x{}", "c".repeat(250));
    let name = track_file_name(&artist, "Alb", 2020, "1", "1", "Song", 0).unwrap();
    assert_eq!(name, format!(",x{}...-Song.ogg", "c".repeat(229)));
}

#[test]
fn long_album_drops_to_artist_and_name() {
    let album = "A".repeat(230);
    let name = track_file_name("Short Artist", &album, 1999, "1", "1", "Name", 0).unwrap();
    assert_eq!(name, "Short_Artist-Name.ogg");
    let name = track_file_name("Someone", &"Alb".repeat(80), -5, "", "123", "Song: \"x\"", 20).unwrap();
    assert_eq!(name, "Someone-Song_'x'.ogg");
}

#[test]
fn folder_length_decides() {
    let short = track_file_name("Art", "Alb", 2001, "1", "1", "Name", 0).unwrap();
    assert_eq!(short, "Art-Alb(2001)-D01-T01-Name.ogg");
    let len = short.len();
    let at_limit = track_file_name("Art", "Alb", 2001, "1", "1", "Name", MAX_PATH_LEN - len - 1).unwrap();
    assert_eq!(at_limit, short);
    let over = track_file_name("Art", "Alb", 2001, "1", "1", "Name", MAX_PATH_LEN - len).unwrap();
    assert_eq!(over, "Art-Name.ogg");
}

#[test]
fn every_file_name_ends_with_ogg() {
    for folder in [0usize, 100, 200, 239] {
        let name = track_file_name(&artists(30), "A, B", 1990, "2", "7", "x, y", folder).unwrap();
        assert!(name.ends_with(".ogg"));
    }
}

#[test]
fn legacy_name_has_the_placeholder_year() {
    let name = legacy_file_name("Bil Bless", "Life Mechanism (1 of 2)", "1", "2", "Wanting You");
    assert_eq!(name, "Bil_Bless-Life_Mechanism_(1_of_2)(1666)-D01-T02-Wanting_You.ogg");
}

#[test]
fn entry_title_and_path() {
    assert_eq!(entry_title("Bil Bless", "Wanting You"), "Bil Bless - Wanting You");
    assert_eq!(
        playlist_entry_path("My #1 list", "A#B.ogg"),
        "My %231 list/A%23B.ogg"
    );
}

#[test]
fn name_without_room_for_an_artist_is_refused() {
    let name = "N".repeat(236);
    assert!(track_file_name("Art", "Alb", 2001, "1", "1", &name, 0).is_none());
    let name = "N".repeat(235);
    assert_eq!(
        track_file_name("Art", "Alb", 2001, "1", "1", &name, 0).unwrap(),
        format!("...-{}.ogg", name)
    );
    assert!(track_file_name("Art", "Alb", 2001, "1", "1", "Name", usize::MAX).is_none());
}

#[test]
fn encode_is_undone_by_replacing_escapes() {
    for text in ["a#b", "#23", "%#", "%2#", "##", "plain", "%2"] {
        let encoded = encode(&String::from(text));
        assert_eq!(encoded.replace("%23", "#"), text);
    }
}
