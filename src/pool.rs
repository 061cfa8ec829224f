use vstd::prelude::*;
use crate::track::{Track, TrackView, track_views};

verus! {

/// What metadata extraction found for one source file.
pub enum Metadata {
    /// The file's metadata could not be read.
    Unreadable,
    /// The metadata was read but holds no title.
    Untitled,
    /// The metadata holds this title.
    Titled(String),
}

/// One file offered to the pool, with the result of reading its metadata.
pub struct SourceItem {
    pub source: String,
    pub metadata: Metadata,
}

/// Why the pool could not be populated; each names the offending source.
#[derive(Debug)]
pub enum PoolError {
    ExtractionError(String),
    MissingTitleError(String),
}

/// The tracks not yet claimed by any playlist, in discovery order.
pub struct TrackPool {
    tracks: Vec<Track>,
}

pub open spec fn is_titled(item: SourceItem) -> bool {
    item.metadata is Titled
}

/// The track that a titled source item becomes.
pub open spec fn item_track(item: SourceItem) -> TrackView {
    TrackView { title: item.metadata->Titled_0@, source: item.source@ }
}

/// The error that an untitled or unreadable source item causes.
pub open spec fn item_error(item: SourceItem, e: PoolError) -> bool {
    match item.metadata {
        Metadata::Unreadable => e is ExtractionError && e->ExtractionError_0@ == item.source@,
        Metadata::Untitled => e is MissingTitleError && e->MissingTitleError_0@ == item.source@,
        Metadata::Titled(_) => false,
    }
}

/// The index of the first track of `pool` whose title is `title`.
pub open spec fn first_match(pool: Seq<TrackView>, title: Seq<char>) -> Option<int>
    decreases pool.len(),
{
    if pool.len() == 0 {
        None
    } else if pool[0].title == title {
        Some(0)
    } else {
        match first_match(pool.drop_first(), title) {
            Some(i) => Some(i + 1),
            None => None,
        }
    }
}

/// `first_match` is the least index with a matching title.
pub proof fn lemma_first_match(pool: Seq<TrackView>, title: Seq<char>, i: int)
    requires
        0 <= i <= pool.len(),
        forall|j: int| 0 <= j < i ==> pool[j].title != title,
    ensures
        i < pool.len() && pool[i].title == title ==> first_match(pool, title) == Some(i),
        i == pool.len() ==> first_match(pool, title) is None,
    decreases i,
{
    if i > 0 {
        let rest = pool.drop_first();
        assert forall|j: int| 0 <= j < i - 1 implies rest[j].title != title by {
            assert(rest[j] == pool[j + 1]);
        }
        lemma_first_match(rest, title, i - 1);
        if i < pool.len() {
            assert(rest[i - 1] == pool[i]);
        }
    }
}

impl View for TrackPool {
    type V = Seq<TrackView>;

    closed spec fn view(&self) -> Seq<TrackView> {
        track_views(self.tracks@)
    }
}

impl TrackPool {
    /// Builds the pool from every source item; fails on the first item whose
    /// metadata is unreadable or untitled, and then builds no pool at all.
    pub fn populate(items: &Vec<SourceItem>) -> (r: Result<TrackPool, PoolError>)
        ensures
            r is Ok <==> forall|i: int| 0 <= i < items@.len() ==> is_titled(#[trigger] items@[i]),
            r is Ok ==> r->Ok_0@ == items@.map_values(|it: SourceItem| item_track(it)),
            r is Err ==> exists|i: int|
                0 <= i < items@.len() && (forall|j: int| 0 <= j < i ==> is_titled(#[trigger] items@[j]))
                    && item_error(#[trigger] items@[i], r->Err_0),
    {
        let mut tracks: Vec<Track> = Vec::new();
        let mut i: usize = 0;
        while i < items.len()
            invariant
                i <= items@.len(),
                forall|j: int| 0 <= j < i ==> is_titled(#[trigger] items@[j]),
                track_views(tracks@) == items@.take(i as int).map_values(|it: SourceItem| item_track(it)),
            decreases items@.len() - i,
        {
            let item = &items[i];
            match &item.metadata {
                Metadata::Unreadable => {
                    return Err(PoolError::ExtractionError(item.source.clone()));
                },
                Metadata::Untitled => {
                    return Err(PoolError::MissingTitleError(item.source.clone()));
                },
                Metadata::Titled(t) => {
                    let track = Track::new(t.clone(), item.source.clone());
                    assert(track@ == item_track(items@[i as int]));
                    let ghost before = tracks@;
                    tracks.push(track);
                    assert(track_views(tracks@) =~= track_views(before).push(track@));
                },
            }
            proof {
                assert(items@.take(i + 1) == items@.take(i as int).push(items@[i as int]));
                assert(track_views(tracks@) =~= items@.take(i + 1).map_values(
                    |it: SourceItem| item_track(it),
                ));
            }
            i = i + 1;
        }
        assert(items@.take(i as int) == items@);
        Ok(TrackPool { tracks })
    }

    /// A pool holding exactly the given tracks, in order.
    pub fn from_tracks(tracks: Vec<Track>) -> (r: TrackPool)
        ensures
            r@ == track_views(tracks@),
    {
        TrackPool { tracks }
    }

    pub fn len(&self) -> (r: usize)
        ensures
            r == self@.len(),
    {
        self.tracks.len()
    }

    pub fn is_empty(&self) -> (r: bool)
        ensures
            r == (self@.len() == 0),
    {
        self.tracks.len() == 0
    }

    /// The title of the track at `index`.
    pub fn title_at(&self, index: usize) -> (r: &String)
        requires
            index < self@.len(),
        ensures
            r@ == self@[index as int].title,
    {
        &self.tracks[index].title
    }

    /// The index of the first track whose title equals `title`, if any.
    pub fn find_by_title(&self, title: &String) -> (r: Option<usize>)
        ensures
            r matches Some(i) ==> i < self@.len(),
            r matches Some(i) ==> first_match(self@, title@) == Some(i as int),
            r is None ==> first_match(self@, title@) is None,
    {
        let mut i: usize = 0;
        while i < self.tracks.len()
            invariant
                i <= self@.len(),
                forall|j: int| 0 <= j < i ==> self@[j].title != title@,
            decreases self@.len() - i,
        {
            if self.tracks[i].title == *title {
                proof {
                    lemma_first_match(self@, title@, i as int);
                }
                return Some(i);
            }
            i = i + 1;
        }
        proof {
            lemma_first_match(self@, title@, i as int);
        }
        None
    }

    /// Removes the track at `index` and hands it over; no later lookup sees it.
    pub fn claim(&mut self, index: usize) -> (r: Track)
        requires
            index < old(self)@.len(),
        ensures
            r@ == old(self)@[index as int],
            final(self)@ == old(self)@.remove(index as int),
    {
        let t = self.tracks.remove(index);
        proof {
            assert(track_views(self.tracks@) =~= track_views(old(self).tracks@).remove(index as int));
        }
        t
    }

    /// Removes and returns the most recently discovered track still present.
    pub fn take_last(&mut self) -> (r: Option<Track>)
        ensures
            old(self)@.len() == 0 ==> r is None && final(self)@ == old(self)@,
            old(self)@.len() > 0 ==> (r matches Some(t) && t@ == old(self)@.last()
                && final(self)@ == old(self)@.drop_last()),
    {
        let r = self.tracks.pop();
        proof {
            assert(track_views(self.tracks@) =~= if old(self)@.len() == 0 { old(self)@ } else { old(self)@.drop_last() });
        }
        r
    }
}

} // verus!
