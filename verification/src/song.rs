//! The song record and the search filter, with their mathematical views.

use vstd::prelude::*;

verus! {

/// One record of the catalog: a unique identifier, three text fields,
/// and a play counter that starts at zero.
#[derive(Debug, Clone, PartialEq, Eq)]
pub struct Song {
    pub id: u64,
    pub title: String,
    pub artist: String,
    pub genre: String,
    pub play_count: u64,
}

/// The mathematical value of a [`Song`]: integers without a machine
/// bound and the text fields as character sequences.
pub ghost struct SongView {
    pub id: int,
    pub title: Seq<char>,
    pub artist: Seq<char>,
    pub genre: Seq<char>,
    pub play_count: int,
}

impl View for Song {
    type V = SongView;

    open spec fn view(&self) -> SongView {
        SongView {
            id: self.id as int,
            title: self.title@,
            artist: self.artist@,
            genre: self.genre@,
            play_count: self.play_count as int,
        }
    }
}

impl DeepView for Song {
    type V = SongView;

    open spec fn deep_view(&self) -> SongView {
        self.view()
    }
}

impl Song {
    /// A copy of the record, equal to it field by field.
    pub fn duplicate(&self) -> (r: Song)
        ensures
            r@ == self@,
    {
        Song {
            id: self.id,
            title: self.title.clone(),
            artist: self.artist.clone(),
            genre: self.genre.clone(),
            play_count: self.play_count,
        }
    }
}

/// A search filter: an absent field means "no constraint"; a present
/// field asks for a case-insensitive substring match on that field.
#[derive(Debug, Clone)]
pub struct SearchFilter {
    pub title: Option<String>,
    pub artist: Option<String>,
    pub genre: Option<String>,
}

/// The mathematical value of a [`SearchFilter`].
pub ghost struct FilterView {
    pub title: Option<Seq<char>>,
    pub artist: Option<Seq<char>>,
    pub genre: Option<Seq<char>>,
}

impl View for SearchFilter {
    type V = FilterView;

    open spec fn view(&self) -> FilterView {
        FilterView {
            title: match self.title {
                Some(ref t) => Some(t@),
                None => None,
            },
            artist: match self.artist {
                Some(ref a) => Some(a@),
                None => None,
            },
            genre: match self.genre {
                Some(ref g) => Some(g@),
                None => None,
            },
        }
    }
}

impl SearchFilter {
    /// The filter with no constraints: every song matches it.
    pub fn empty() -> (r: SearchFilter)
        ensures
            r@ == (FilterView { title: None, artist: None, genre: None }),
    {
        SearchFilter { title: None, artist: None, genre: None }
    }
}

} // verus!
