use song_catalog::catalog::{Catalog, CatalogError};
use song_catalog::song::SearchFilter;

fn seeded() -> Catalog {
    let mut c = Catalog::new();
    c.add("Love Story".to_string(), "Taylor Swift".to_string(), "Pop".to_string());
    c.add("Nocturne".to_string(), "Chopin".to_string(), "Classical".to_string());
    c.add("Bohemian Rhapsody".to_string(), "Queen".to_string(), "Rock".to_string());
    c
}

#[test]
fn add_assigns_next_id_and_zero_plays() {
    let mut c = Catalog::new();
    let a = c.add("Love Story".to_string(), "Taylor Swift".to_string(), "Pop".to_string());
    assert_eq!(a.id, 1);
    assert_eq!(a.play_count, 0);
    assert_eq!(a.title, "Love Story");
    assert_eq!(a.artist, "Taylor Swift");
    assert_eq!(a.genre, "Pop");
    let b = c.add("Nocturne".to_string(), "Chopin".to_string(), "Classical".to_string());
    assert_eq!(b.id, 2);
    assert_eq!(b.play_count, 0);
    assert_eq!(c.len(), 2);
}

#[test]
fn empty_filter_returns_all_in_order() {
    let c = seeded();
    let all = c.search(&SearchFilter::empty());
    assert_eq!(all.len(), 3);
    assert_eq!(all[0].title, "Love Story");
    assert_eq!(all[1].title, "Nocturne");
    assert_eq!(all[2].title, "Bohemian Rhapsody");
    assert_eq!(all[0].id, 1);
    assert_eq!(all[1].id, 2);
    assert_eq!(all[2].id, 3);
}

#[test]
fn title_fragment_matches_case_insensitively() {
    let c = seeded();
    let filter = SearchFilter { title: Some("ove".to_string()), artist: None, genre: None };
    let hits = c.search(&filter);
    assert_eq!(hits.len(), 1);
    assert_eq!(hits[0].title, "Love Story");

    let upper = SearchFilter { title: Some("LOVE".to_string()), artist: None, genre: None };
    let hits = c.search(&upper);
    assert_eq!(hits.len(), 1);
    assert_eq!(hits[0].title, "Love Story");
}

#[test]
fn artist_and_genre_filters_combine() {
    let c = seeded();
    let filter = SearchFilter {
        title: None,
        artist: Some("queen".to_string()),
        genre: Some("rock".to_string()),
    };
    let hits = c.search(&filter);
    assert_eq!(hits.len(), 1);
    assert_eq!(hits[0].title, "Bohemian Rhapsody");

    let none = SearchFilter {
        title: None,
        artist: Some("queen".to_string()),
        genre: Some("pop".to_string()),
    };
    assert_eq!(c.search(&none).len(), 0);
}

#[test]
fn play_increments_once_then_twice() {
    let mut c = seeded();
    let first = c.play(2).expect("id 2 exists");
    assert_eq!(first.id, 2);
    assert_eq!(first.play_count, 1);
    assert_eq!(first.title, "Nocturne");
    assert_eq!(first.artist, "Chopin");
    assert_eq!(first.genre, "Classical");
    let second = c.play(2).expect("id 2 exists");
    assert_eq!(second.play_count, 2);
    let all = c.search(&SearchFilter::empty());
    assert_eq!(all[1].play_count, 2);
    assert_eq!(all[0].play_count, 0);
    assert_eq!(all[2].play_count, 0);
}

#[test]
fn play_unknown_id_reports_not_found_and_changes_nothing() {
    let mut c = seeded();
    let before = c.search(&SearchFilter::empty());
    let r = c.play(99);
    assert_eq!(r, Err(CatalogError::NotFound));
    let after = c.search(&SearchFilter::empty());
    assert_eq!(before, after);
    assert_eq!(c.len(), 3);
}

#[test]
fn from_songs_keeps_records() {
    let mut c = Catalog::new();
    c.add("A".to_string(), "B".to_string(), "C".to_string());
    let songs = c.songs().clone();
    let rebuilt = Catalog::from_songs(songs);
    assert_eq!(rebuilt.len(), 1);
    assert_eq!(rebuilt.songs()[0].title, "A");
}
