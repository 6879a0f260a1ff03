use song_catalog::catalog::Catalog;
use song_catalog::codec::{catalog_text, header_text, parse_catalog_text, row_text, CodecError};
use song_catalog::numeric::{parse_u64, u64_to_digits};
use song_catalog::song::Song;

fn song(id: u64, title: &str, artist: &str, genre: &str, play_count: u64) -> Song {
    Song {
        id,
        title: title.to_string(),
        artist: artist.to_string(),
        genre: genre.to_string(),
        play_count,
    }
}

#[test]
fn header_is_the_expected_row() {
    assert_eq!(header_text(), "id,title,artist,genre,play_count\n");
}

#[test]
fn plain_row_renders_verbatim() {
    let s = song(1, "Love Story", "Taylor Swift", "Pop", 4);
    assert_eq!(row_text(&s), "1,Love Story,Taylor Swift,Pop,4\n");
}

#[test]
fn special_characters_are_quoted_and_doubled() {
    let s = song(7, "He said \"hi\", bye", "A\nB", "Pop", 0);
    assert_eq!(row_text(&s), "7,\"He said \"\"hi\"\", bye\",\"A\nB\",Pop,0\n");
}

#[test]
fn empty_catalog_renders_header_only() {
    let songs: Vec<Song> = Vec::new();
    assert_eq!(catalog_text(&songs), "id,title,artist,genre,play_count\n");
}

#[test]
fn round_trip_plain_records() {
    let songs = vec![
        song(1, "Love Story", "Taylor Swift", "Pop", 2),
        song(2, "Nocturne", "Chopin", "Classical", 0),
    ];
    let text = catalog_text(&songs);
    let back = parse_catalog_text(&text).expect("rendered text parses");
    assert_eq!(back, songs);
}

#[test]
fn round_trip_quoted_records() {
    let songs = vec![
        song(1, "a,b", "c\"d", "e\nf", 0),
        song(2, "", "\"\"", ",", 18446744073709551615),
        song(3, "plain", "also plain", "jazz", 9),
    ];
    let text = catalog_text(&songs);
    let back = parse_catalog_text(&text).expect("rendered text parses");
    assert_eq!(back, songs);
}

#[test]
fn round_trip_empty_catalog() {
    let songs: Vec<Song> = Vec::new();
    let text = catalog_text(&songs);
    let back = parse_catalog_text(&text).expect("header alone parses");
    assert_eq!(back, songs);
}

#[test]
fn catalog_text_matches_appended_rows() {
    let songs = vec![song(1, "A", "B", "C", 0), song(2, "D", "E", "F", 1)];
    let mut by_hand = header_text();
    by_hand.push_str(&row_text(&songs[0]));
    by_hand.push_str(&row_text(&songs[1]));
    assert_eq!(catalog_text(&songs), by_hand);
}

#[test]
fn missing_header_is_malformed() {
    let r = parse_catalog_text("1,A,B,C,0\n");
    assert_eq!(r, Err(CodecError::Malformed));
}

#[test]
fn truncated_row_is_malformed() {
    let text = format!("{}1,A,B\n", header_text());
    assert_eq!(parse_catalog_text(&text), Err(CodecError::Malformed));
}

#[test]
fn non_numeric_id_is_malformed() {
    let text = format!("{}x,A,B,C,0\n", header_text());
    assert_eq!(parse_catalog_text(&text), Err(CodecError::Malformed));
}

#[test]
fn unterminated_quote_is_malformed() {
    let text = format!("{}1,\"A,B,C,0\n", header_text());
    assert_eq!(parse_catalog_text(&text), Err(CodecError::Malformed));
}

#[test]
fn oversized_count_is_malformed() {
    let text = format!("{}1,A,B,C,18446744073709551616\n", header_text());
    assert_eq!(parse_catalog_text(&text), Err(CodecError::Malformed));
}

#[test]
fn digits_render_and_parse_back() {
    assert_eq!(u64_to_digits(0), vec!['0']);
    assert_eq!(u64_to_digits(905), vec!['9', '0', '5']);
    let max = u64_to_digits(18446744073709551615);
    assert_eq!(parse_u64(&max), Some(18446744073709551615));
    assert_eq!(parse_u64(&vec!['0', '4', '2']), Some(42));
    assert_eq!(parse_u64(&Vec::new()), None);
    assert_eq!(parse_u64(&vec!['4', 'x']), None);
}

#[test]
fn loaded_catalog_behaves_like_the_saved_one() {
    let mut c = Catalog::new();
    c.add("Love Story".to_string(), "Taylor Swift".to_string(), "Pop".to_string());
    c.add("Nocturne".to_string(), "Chopin".to_string(), "Classical".to_string());
    c.play(1).expect("id 1 exists");
    let text = catalog_text(c.songs());
    let reloaded = parse_catalog_text(&text).expect("rendered text parses");
    let mut c2 = Catalog::from_songs(reloaded);
    assert_eq!(c2.len(), 2);
    let played = c2.play(1).expect("id 1 exists");
    assert_eq!(played.play_count, 2);
}
