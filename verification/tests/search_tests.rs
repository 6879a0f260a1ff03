use song_catalog::catalog::Catalog;
use song_catalog::search::matches_filter;
use song_catalog::song::{SearchFilter, Song};

fn song(title: &str, artist: &str, genre: &str) -> Song {
    Song {
        id: 1,
        title: title.to_string(),
        artist: artist.to_string(),
        genre: genre.to_string(),
        play_count: 0,
    }
}

#[test]
fn filter_is_case_insensitive_on_both_sides() {
    let s = song("LOVE STORY", "Taylor Swift", "Pop");
    let lower = SearchFilter { title: Some("love".to_string()), artist: None, genre: None };
    assert!(matches_filter(&s, &lower));
    let mixed = SearchFilter { title: Some("VE sTo".to_string()), artist: None, genre: None };
    assert!(matches_filter(&s, &mixed));
    let absent = SearchFilter { title: Some("xyz".to_string()), artist: None, genre: None };
    assert!(!matches_filter(&s, &absent));
}

#[test]
fn empty_fragment_matches_any_field() {
    let s = song("", "", "");
    let f = SearchFilter {
        title: Some(String::new()),
        artist: Some(String::new()),
        genre: Some(String::new()),
    };
    assert!(matches_filter(&s, &f));
}

#[test]
fn fragment_longer_than_field_never_matches() {
    let s = song("ab", "x", "y");
    let f = SearchFilter { title: Some("abc".to_string()), artist: None, genre: None };
    assert!(!matches_filter(&s, &f));
}

#[test]
fn empty_fields_are_allowed_in_the_catalog() {
    let mut c = Catalog::new();
    let s = c.add(String::new(), String::new(), String::new());
    assert_eq!(s.id, 1);
    let all = c.search(&SearchFilter::empty());
    assert_eq!(all.len(), 1);
}
