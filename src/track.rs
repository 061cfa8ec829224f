use vstd::prelude::*;

verus! {

/// One media file of the pool: its embedded title and where its bytes live.
pub struct Track {
    pub title: String,
    pub source: String,
}

/// The mathematical value of a `Track`.
pub ghost struct TrackView {
    pub title: Seq<char>,
    pub source: Seq<char>,
}

impl View for Track {
    type V = TrackView;

    open spec fn view(&self) -> TrackView {
        TrackView { title: self.title@, source: self.source@ }
    }
}

impl Track {
    pub fn new(title: String, source: String) -> (r: Track)
        ensures
            r.title@ == title@,
            r.source@ == source@,
    {
        Track { title, source }
    }
}

/// The views of a sequence of tracks.
pub open spec fn track_views(ts: Seq<Track>) -> Seq<TrackView> {
    ts.map_values(|t: Track| t@)
}

} // verus!
