//! The in-memory catalog: an ordered collection of songs supporting
//! append, filtered search, and a per-song play counter.

use vstd::prelude::*;

use crate::search::{lemma_matching_push, matches_filter, matching};
use crate::song::{SearchFilter, Song, SongView};

verus! {

/// The one application-level error: the play operation was asked for an
/// identifier that no record carries.
#[derive(Debug, Clone, Copy, PartialEq, Eq, Structural)]
pub enum CatalogError {
    NotFound,
}

/// The position of the first record carrying `id`, or `-1` if none does.
pub open spec fn first_match(s: Seq<SongView>, id: u64) -> int
    decreases s.len(),
{
    if s.len() == 0 {
        -1
    } else if s[0].id == id {
        0
    } else {
        let r = first_match(s.subrange(1, s.len() as int), id);
        if r == -1 {
            -1
        } else {
            r + 1
        }
    }
}

/// What `first_match` finds: a position in range whose record carries
/// `id`, with no earlier record carrying it; or `-1` exactly when no
/// record carries `id`.
pub proof fn lemma_first_match(s: Seq<SongView>, id: u64)
    ensures
        first_match(s, id) == -1 <==> (forall|j: int| 0 <= j < s.len() ==> s[j].id != id),
        first_match(s, id) != -1 ==> {
            let i = first_match(s, id);
            &&& 0 <= i < s.len()
            &&& s[i].id == id
            &&& forall|j: int| 0 <= j < i ==> s[j].id != id
        },
    decreases s.len(),
{
    if s.len() == 0 {
    } else if s[0].id == id {
    } else {
        let tail = s.subrange(1, s.len() as int);
        lemma_first_match(tail, id);
        if first_match(tail, id) == -1 {
            assert forall|j: int| 0 <= j < s.len() implies s[j].id != id by {
                if j >= 1 {
                    assert(tail[j - 1].id != id);
                }
            }
        } else {
            let t = first_match(tail, id);
            assert(s[t + 1] == tail[t]);
            assert forall|j: int| 0 <= j < t + 1 implies s[j].id != id by {
                if j >= 1 {
                    assert(tail[j - 1].id != id);
                }
            }
        }
    }
}

/// The record `s` after one play: the counter one higher, every other
/// field unchanged.
pub open spec fn played(s: SongView) -> SongView {
    SongView { play_count: s.play_count + 1, ..s }
}

/// The catalog after a successful play of `id`: the first record
/// carrying `id` replaced by its played version.
pub open spec fn after_play(s: Seq<SongView>, id: u64) -> Seq<SongView> {
    s.update(first_match(s, id), played(s[first_match(s, id)]))
}

/// The ordered collection of song records.
pub struct Catalog {
    songs: Vec<Song>,
}

impl View for Catalog {
    type V = Seq<SongView>;

    closed spec fn view(&self) -> Seq<SongView> {
        self.songs.deep_view()
    }
}

impl Catalog {
    /// Identifiers are assigned as position + 1, so they are unique and
    /// increase along the catalog.
    pub open spec fn wf(&self) -> bool {
        forall|i: int| 0 <= i < self@.len() ==> #[trigger] self@[i].id == i + 1
    }

    /// The empty catalog.
    pub fn new() -> (r: Catalog)
        ensures
            r@ == Seq::<SongView>::empty(),
            r.wf(),
    {
        Catalog { songs: Vec::new() }
    }

    /// A catalog holding exactly the given records, in their order.
    pub fn from_songs(songs: Vec<Song>) -> (r: Catalog)
        ensures
            r@ == songs.deep_view(),
    {
        Catalog { songs }
    }

    /// How many records the catalog holds.
    pub fn len(&self) -> (n: usize)
        ensures
            n == self@.len(),
    {
        self.songs.len()
    }

    /// The records themselves, in catalog order.
    pub fn songs(&self) -> (r: &Vec<Song>)
        ensures
            r.deep_view() == self@,
    {
        &self.songs
    }

    /// Appends a new song. Its identifier is the catalog's size before
    /// the insertion plus one, and its play counter starts at zero; the
    /// returned record equals the one appended.
    pub fn add(&mut self, title: String, artist: String, genre: String) -> (song: Song)
        requires
            old(self)@.len() < u64::MAX,
        ensures
            song@.id == old(self)@.len() + 1,
            song@.title == title@,
            song@.artist == artist@,
            song@.genre == genre@,
            song@.play_count == 0,
            final(self)@ == old(self)@.push(song@),
            old(self).wf() ==> final(self).wf(),
    {
        let id: u64 = (self.songs.len() as u64) + 1;
        let song = Song { id, title, artist, genre, play_count: 0 };
        let copy = song.duplicate();
        self.songs.push(song);
        proof {
            assert(copy@ == self@[self@.len() - 1]);
            if old(self).wf() {
                assert forall|i: int| 0 <= i < self@.len() implies #[trigger] self@[i].id == i
                    + 1 by {
                    if i < old(self)@.len() {
                        assert(old(self)@[i].id == i + 1);
                    }
                }
            }
        }
        copy
    }

    /// Increments the play counter of the first record carrying `id` by
    /// exactly one, leaving its other fields and every other record
    /// unchanged, and returns a copy of the updated record. When no
    /// record carries `id`, reports `NotFound` and changes nothing.
    pub fn play(&mut self, id: u64) -> (r: Result<Song, CatalogError>)
        requires
            first_match(old(self)@, id) != -1 ==> old(self)@[first_match(old(self)@, id)].play_count
                < u64::MAX,
        ensures
            r is Ok <==> first_match(old(self)@, id) != -1,
            r is Err ==> r == Result::<Song, CatalogError>::Err(CatalogError::NotFound)
                && final(self)@ == old(self)@,
            r is Ok ==> final(self)@ == after_play(old(self)@, id)
                && r->Ok_0@ == played(old(self)@[first_match(old(self)@, id)]),
            old(self).wf() ==> final(self).wf(),
    {
        proof {
            lemma_first_match(old(self)@, id);
        }
        let n = self.songs.len();
        let mut i: usize = 0;
        while i < n
            invariant
                n == self@.len(),
                0 <= i <= n,
                self@ == old(self)@,
                forall|j: int| 0 <= j < i ==> self@[j].id != id,
                first_match(old(self)@, id) != -1 ==> old(self)@[first_match(old(self)@, id)].play_count < u64::MAX,
            decreases n - i,
        {
            if self.songs[i].id == id {
                proof {
                    lemma_first_match(self@, id);
                    let fm = first_match(self@, id);
                    assert(self@[i as int].id == id);
                    assert(fm != -1);
                    if fm < i {
                        assert(self@[fm].id != id);
                    }
                    if fm > i {
                        assert(self@[i as int].id != id);
                    }
                    assert(fm == i);
                }
                let old_song = &self.songs[i];
                let mut updated = old_song.duplicate();
                updated.play_count = updated.play_count + 1;
                let copy = updated.duplicate();
                self.songs.set(i, updated);
                proof {
                    assert(self@ =~= after_play(old(self)@, id));
                }
                return Ok(copy);
            }
            i += 1;
        }
        proof {
            lemma_first_match(self@, id);
        }
        Err(CatalogError::NotFound)
    }

    /// Returns copies of exactly the records that match the filter, in
    /// catalog order. The filter with no constraints returns every
    /// record.
    pub fn search(&self, filter: &SearchFilter) -> (r: Vec<Song>)
        ensures
            r.deep_view() == matching(self@, filter@),
    {
        let n = self.songs.len();
        let mut out: Vec<Song> = Vec::new();
        let mut i: usize = 0;
        proof {
            reveal(Seq::filter);
            assert(out.deep_view() =~= matching(self@.subrange(0, 0), filter@));
        }
        while i < n
            invariant
                n == self@.len(),
                0 <= i <= n,
                out.deep_view() == matching(self@.subrange(0, i as int), filter@),
            decreases n - i,
        {
            let ghost prefix = self@.subrange(0, i as int);
            let ghost prefix1 = self@.subrange(0, i + 1 as int);
            proof {
                assert(prefix1 =~= prefix.push(self@[i as int]));
                lemma_matching_push(prefix, self@[i as int], filter@);
            }
            if matches_filter(&self.songs[i], filter) {
                let copy = self.songs[i].duplicate();
                out.push(copy);
                proof {
                    assert(out.deep_view() =~= matching(prefix, filter@).push(self@[i as int]));
                }
            }
            i += 1;
        }
        proof {
            assert(self@.subrange(0, n as int) =~= self@);
        }
        out
    }

    /// Playing the same identifier twice raises the play counter of its
    /// first record by exactly two and leaves every other record, and
    /// the record's other fields, unchanged.
    pub proof fn lemma_play_twice(s: Seq<SongView>, id: u64)
        requires
            first_match(s, id) != -1,
        ensures
            ({
                let i = first_match(s, id);
                let s2 = after_play(after_play(s, id), id);
                &&& first_match(after_play(s, id), id) == i
                &&& s2.len() == s.len()
                &&& s2[i].play_count == s[i].play_count + 2
                &&& s2[i].id == s[i].id
                &&& s2[i].title == s[i].title
                &&& s2[i].artist == s[i].artist
                &&& s2[i].genre == s[i].genre
                &&& forall|j: int| 0 <= j < s.len() && j != i ==> s2[j] == s[j]
            }),
    {
        let i = first_match(s, id);
        lemma_first_match(s, id);
        let s1 = after_play(s, id);
        lemma_first_match(s1, id);
        assert(s1[i].id == id);
        let i1 = first_match(s1, id);
        assert(i1 != -1);
        assert(forall|j: int| 0 <= j < i ==> s1[j].id != id);
        assert(0 <= i1 <= i);
        assert(i1 == i);
    }
}

} // verus!
