use vstd::prelude::*;
use vstd::multiset::Multiset;
use crate::track::{Track, TrackView};

verus! {

/// A track placed at a position of a playlist.
pub struct Slot {
    pub position: usize,
    pub track: Track,
}

/// A named playlist: a mapping from position to track, kept in ascending
/// order of position.
pub struct Playlist {
    name: String,
    slots: Vec<Slot>,
}

/// Positions strictly ascend along the entries, so each is held once.
pub open spec fn ascending(es: Seq<(usize, TrackView)>) -> bool {
    forall|i: int, j: int| 0 <= i < j < es.len() ==> es[i].0 < es[j].0
}

/// The position-to-track mapping that a sequence of entries describes.
pub open spec fn map_of(es: Seq<(usize, TrackView)>) -> Map<usize, TrackView> {
    Map::new(
        |p: usize| exists|i: int| 0 <= i < es.len() && es[i].0 == p,
        |p: usize| es[choose|i: int| 0 <= i < es.len() && es[i].0 == p].1,
    )
}

/// The tracks of a sequence of entries, in order.
pub open spec fn tracks_of(es: Seq<(usize, TrackView)>) -> Seq<TrackView> {
    es.map_values(|e: (usize, TrackView)| e.1)
}

/// The multiset holding the view of the track in `o`, if any.
pub open spec fn option_multiset(o: Option<Track>) -> Multiset<TrackView> {
    match o {
        Some(t) => Multiset::singleton(t@),
        None => Multiset::empty(),
    }
}

pub proof fn lemma_map_of_index(es: Seq<(usize, TrackView)>, i: int)
    requires
        ascending(es),
        0 <= i < es.len(),
    ensures
        map_of(es).contains_key(es[i].0),
        map_of(es)[es[i].0] == es[i].1,
{
    let p = es[i].0;
    assert(map_of(es).dom().contains(p));
    let j = choose|j: int| 0 <= j < es.len() && es[j].0 == p;
    assert(j == i);
}

impl Playlist {
    /// The playlist's entries, (position, track), in ascending position.
    pub closed spec fn entries(&self) -> Seq<(usize, TrackView)> {
        self.slots@.map_values(|s: Slot| (s.position, s.track@))
    }

    pub closed spec fn name_view(&self) -> Seq<char> {
        self.name@
    }

    pub open spec fn wf(&self) -> bool {
        ascending(self.entries())
    }

    pub open spec fn slot_map(&self) -> Map<usize, TrackView> {
        map_of(self.entries())
    }

    pub open spec fn tracks(&self) -> Seq<TrackView> {
        tracks_of(self.entries())
    }

    /// An empty playlist with the given name.
    pub fn new(name: String) -> (r: Playlist)
        ensures
            r.wf(),
            r.name_view() == name@,
            r.entries().len() == 0,
    {
        Playlist { name, slots: Vec::new() }
    }

    pub fn name(&self) -> (r: &String)
        ensures
            r@ == self.name_view(),
    {
        &self.name
    }

    /// The number of occupied positions.
    pub fn len(&self) -> (r: usize)
        ensures
            r == self.entries().len(),
    {
        self.slots.len()
    }

    /// The position of the `i`-th slot in ascending order.
    pub fn position_at(&self, i: usize) -> (r: usize)
        requires
            i < self.entries().len(),
        ensures
            r == self.entries()[i as int].0,
    {
        self.slots[i].position
    }

    /// The track of the `i`-th slot in ascending order.
    pub fn track_at(&self, i: usize) -> (r: &Track)
        requires
            i < self.entries().len(),
        ensures
            r@ == self.entries()[i as int].1,
    {
        &self.slots[i].track
    }

    /// Puts `track` at `position`, past every occupied position.
    pub fn append(&mut self, position: usize, track: Track)
        requires
            old(self).wf(),
            forall|i: int| 0 <= i < old(self).entries().len() ==> #[trigger] old(self).entries()[i].0 < position,
        ensures
            final(self).wf(),
            final(self).name_view() == old(self).name_view(),
            final(self).entries() == old(self).entries().push((position, track@)),
    {
        self.slots.push(Slot { position, track });
        assert(self.entries() =~= old(self).entries().push((position, track@)));
    }

    /// Puts `track` at `position`. A track already there is overwritten:
    /// it leaves the playlist and is handed back.
    pub fn place(&mut self, position: usize, track: Track) -> (displaced: Option<Track>)
        requires
            old(self).wf(),
        ensures
            final(self).wf(),
            final(self).name_view() == old(self).name_view(),
            final(self).slot_map() == old(self).slot_map().insert(position, track@),
            displaced is Some <==> old(self).slot_map().contains_key(position),
            displaced matches Some(d) ==> d@ == old(self).slot_map()[position],
            final(self).tracks().to_multiset().add(option_multiset(displaced))
                == old(self).tracks().to_multiset().insert(track@),
    {
        let ghost es = self.entries();
        let mut k: usize = 0;
        while k < self.slots.len() && self.slots[k].position < position
            invariant
                k <= es.len(),
                es == self.entries(),
                forall|j: int| 0 <= j < k ==> es[j].0 < position,
            decreases es.len() - k,
        {
            k = k + 1;
        }
        let ghost e = (position, track@);
        if k < self.slots.len() && self.slots[k].position == position {
            let old_slot = self.slots.remove(k);
            self.slots.insert(k, Slot { position, track });
            proof {
                let nes = self.entries();
                assert(nes =~= es.update(k as int, e));
                lemma_map_of_index(es, k as int);
                assert forall|q: usize| #[trigger] map_of(nes).contains_key(q) <==> map_of(es).insert(position, track@).contains_key(q) by {
                    if map_of(es).contains_key(q) {
                        let i = choose|i: int| 0 <= i < es.len() && es[i].0 == q;
                        assert(nes[i].0 == q);
                    }
                    if map_of(nes).contains_key(q) {
                        let i = choose|i: int| 0 <= i < nes.len() && nes[i].0 == q;
                        assert(es[i].0 == q);
                    }
                }
                assert forall|q: usize| #[trigger] map_of(nes).contains_key(q) implies map_of(nes)[q] == map_of(es).insert(position, track@)[q] by {
                    let i = choose|i: int| 0 <= i < nes.len() && nes[i].0 == q;
                    lemma_map_of_index(nes, i);
                    if i != k {
                        lemma_map_of_index(es, i);
                    }
                }
                assert(map_of(nes) =~= map_of(es).insert(position, track@));
                assert(tracks_of(nes) =~= tracks_of(es).update(k as int, track@));
                vstd::seq_lib::to_multiset_update(tracks_of(es), k as int, track@);
                assert(option_multiset(Some(old_slot.track)) =~= Multiset::singleton(es[k as int].1));
                assert(tracks_of(es)[k as int] == es[k as int].1);
                vstd::seq_lib::to_multiset_contains(tracks_of(es), es[k as int].1);
                assert(tracks_of(es).contains(es[k as int].1));
                broadcast use vstd::multiset::group_multiset_axioms;
                assert(tracks_of(nes).to_multiset().add(option_multiset(Some(old_slot.track)))
                    =~= tracks_of(es).to_multiset().insert(track@));
            }
            Some(old_slot.track)
        } else {
            self.slots.insert(k, Slot { position, track });
            proof {
                let nes = self.entries();
                assert(nes =~= es.insert(k as int, e));
                assert(k < es.len() ==> position < es[k as int].0);
                assert forall|i: int, j: int| 0 <= i < j < nes.len() implies nes[i].0 < nes[j].0 by {
                    if j < k {
                    } else if j == k {
                    } else if i < k {
                        assert(es[k as int].0 <= es[j - 1].0);
                    } else if i == k {
                        assert(es[k as int].0 <= es[j - 1].0);
                    } else {
                    }
                }
                assert(!map_of(es).contains_key(position)) by {
                    if map_of(es).contains_key(position) {
                        let i = choose|i: int| 0 <= i < es.len() && es[i].0 == position;
                        if i >= k {
                            assert(es[k as int].0 <= es[i].0);
                        }
                    }
                }
                assert forall|q: usize| #[trigger] map_of(nes).contains_key(q) <==> map_of(es).insert(position, track@).contains_key(q) by {
                    if map_of(es).contains_key(q) {
                        let i = choose|i: int| 0 <= i < es.len() && es[i].0 == q;
                        if i < k {
                            assert(nes[i].0 == q);
                        } else {
                            assert(nes[i + 1].0 == q);
                        }
                    }
                    if q == position {
                        assert(nes[k as int].0 == q);
                    }
                    if map_of(nes).contains_key(q) {
                        let i = choose|i: int| 0 <= i < nes.len() && nes[i].0 == q;
                        if i < k {
                            assert(es[i].0 == q);
                        } else if i > k {
                            assert(es[i - 1].0 == q);
                        }
                    }
                }
                assert forall|q: usize| #[trigger] map_of(nes).contains_key(q) implies map_of(nes)[q] == map_of(es).insert(position, track@)[q] by {
                    let i = choose|i: int| 0 <= i < nes.len() && nes[i].0 == q;
                    lemma_map_of_index(nes, i);
                    if i < k {
                        lemma_map_of_index(es, i);
                    } else if i > k {
                        lemma_map_of_index(es, i - 1);
                    }
                }
                assert(map_of(nes) =~= map_of(es).insert(position, track@));
                assert(tracks_of(nes) =~= tracks_of(es).insert(k as int, track@));
                vstd::seq_lib::to_multiset_insert(tracks_of(es), k as int, track@);
                assert(tracks_of(nes).to_multiset().add(option_multiset(None))
                    =~= tracks_of(es).to_multiset().insert(track@));
            }
            None
        }
    }
}

} // verus!
