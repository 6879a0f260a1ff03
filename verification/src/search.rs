//! The search predicate: which songs a filter keeps.

use vstd::prelude::*;

use crate::song::{FilterView, SearchFilter, Song, SongView};
use crate::text::{chars_of, contains_chars, is_substring, lower_of, lowercase};

verus! {

/// A present pattern must occur, case-insensitively, inside the field;
/// an absent pattern constrains nothing.
pub open spec fn field_matches(field: Seq<char>, pat: Option<Seq<char>>) -> bool {
    match pat {
        None => true,
        Some(p) => is_substring(lower_of(p), lower_of(field)),
    }
}

/// A song matches a filter when each of the filter's present fields
/// occurs, case-insensitively, inside the song's corresponding field.
pub open spec fn song_matches(s: SongView, f: FilterView) -> bool {
    &&& field_matches(s.title, f.title)
    &&& field_matches(s.artist, f.artist)
    &&& field_matches(s.genre, f.genre)
}

/// The songs of `s` that match `f`, in their order in `s`.
pub open spec fn matching(s: Seq<SongView>, f: FilterView) -> Seq<SongView> {
    s.filter(|x: SongView| song_matches(x, f))
}

/// Extending the catalog by one song extends its matches by that song
/// exactly when the song matches the filter.
pub proof fn lemma_matching_push(s: Seq<SongView>, x: SongView, f: FilterView)
    ensures
        matching(s.push(x), f) == if song_matches(x, f) {
            matching(s, f).push(x)
        } else {
            matching(s, f)
        },
{
    reveal(Seq::filter);
    assert(s.push(x).drop_last() =~= s);
    assert(s.push(x).last() == x);
}

/// A filter with no present field keeps every song, in catalog order:
/// searching with it returns the whole catalog.
pub proof fn lemma_matching_empty_filter(s: Seq<SongView>, f: FilterView)
    requires
        f.title is None,
        f.artist is None,
        f.genre is None,
    ensures
        matching(s, f) == s,
    decreases s.len(),
{
    reveal(Seq::filter);
    if s.len() == 0 {
    } else {
        lemma_matching_empty_filter(s.drop_last(), f);
        assert(s.drop_last().push(s.last()) =~= s);
        lemma_matching_push(s.drop_last(), s.last(), f);
    }
}

fn field_contains(field: &str, pat: &str) -> (r: bool)
    ensures
        r == is_substring(lower_of(pat@), lower_of(field@)),
{
    let lf = lowercase(field);
    let lp = lowercase(pat);
    let hay = chars_of(lf.as_str());
    let needle = chars_of(lp.as_str());
    contains_chars(&hay, &needle)
}

/// Whether `song` matches `filter`.
pub fn matches_filter(song: &Song, filter: &SearchFilter) -> (r: bool)
    ensures
        r == song_matches(song@, filter@),
{
    let title_ok = match &filter.title {
        None => true,
        Some(p) => field_contains(song.title.as_str(), p.as_str()),
    };
    let artist_ok = match &filter.artist {
        None => true,
        Some(p) => field_contains(song.artist.as_str(), p.as_str()),
    };
    let genre_ok = match &filter.genre {
        None => true,
        Some(p) => field_contains(song.genre.as_str(), p.as_str()),
    };
    title_ok && artist_ok && genre_ok
}

} // verus!
