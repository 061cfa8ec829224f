use vstd::prelude::*;
use vstd::multiset::Multiset;
use crate::track::{Track, TrackView, track_views};
use crate::pool::{TrackPool, first_match};
use crate::playlist::{Playlist, option_multiset};
use crate::descriptor::Descriptor;

verus! {

/// The view of a descriptor: its decoded title and its position.
pub type DescriptorView = (Seq<char>, usize);

pub open spec fn descriptor_views(ds: Seq<Descriptor>) -> Seq<DescriptorView> {
    ds.map_values(|d: Descriptor| (d.title@, d.position))
}

/// The state of one reconciliation pass after some descriptors.
pub ghost struct Outcome {
    /// What is left in the pool.
    pub pool: Seq<TrackView>,
    /// The playlist's slots.
    pub slots: Map<usize, TrackView>,
    /// The tracks claimed from the pool, in order.
    pub claimed: Seq<TrackView>,
    /// The tracks overwritten by a later claim at the same position.
    pub displaced: Seq<TrackView>,
    /// The indices of the descriptors that matched no track.
    pub unmatched: Seq<int>,
}

/// One descriptor, the `index`-th, applied to an outcome: the first track of
/// the pool with its title is claimed and put at its position.
pub open spec fn step(o: Outcome, d: DescriptorView, index: int) -> Outcome {
    match first_match(o.pool, d.0) {
        Some(i) => Outcome {
            pool: o.pool.remove(i),
            slots: o.slots.insert(d.1, o.pool[i]),
            claimed: o.claimed.push(o.pool[i]),
            displaced: if o.slots.contains_key(d.1) {
                o.displaced.push(o.slots[d.1])
            } else {
                o.displaced
            },
            unmatched: o.unmatched,
        },
        None => Outcome { unmatched: o.unmatched.push(index), ..o },
    }
}

/// The outcome of reconciling the descriptors `ds`, in order, against `pool`.
pub open spec fn reconciled(pool: Seq<TrackView>, ds: Seq<DescriptorView>) -> Outcome
    decreases ds.len(),
{
    if ds.len() == 0 {
        Outcome {
            pool,
            slots: Map::empty(),
            claimed: Seq::empty(),
            displaced: Seq::empty(),
            unmatched: Seq::empty(),
        }
    } else {
        step(reconciled(pool, ds.drop_last()), ds.last(), ds.len() - 1)
    }
}

/// The tracks that a pass leaves in its playlist.
pub open spec fn outcome_tracks(o: Outcome) -> Multiset<TrackView> {
    o.claimed.to_multiset().sub(o.displaced.to_multiset())
}

/// An assembled playlist and what its pass reported.
pub struct ReconcileReport {
    pub playlist: Playlist,
    /// Indices of the descriptors whose title matched no pooled track.
    pub unmatched: Vec<usize>,
    /// Tracks that a later descriptor at the same position overwrote.
    pub displaced: Vec<Track>,
}

/// Whether a report is the outcome `o` under the name `name`.
pub open spec fn report_is(r: ReconcileReport, name: Seq<char>, o: Outcome) -> bool {
    &&& r.playlist.wf()
    &&& r.playlist.name_view() == name
    &&& r.playlist.slot_map() == o.slots
    &&& r.playlist.tracks().to_multiset() == outcome_tracks(o)
    &&& r.unmatched@.map_values(|i: usize| i as int) == o.unmatched
    &&& track_views(r.displaced@) == o.displaced
}

proof fn lemma_tracks_balance(t: Multiset<TrackView>, d: Multiset<TrackView>, c: Multiset<TrackView>)
    requires
        t.add(d) == c,
    ensures
        t == c.sub(d),
{
    assert(t =~= c.sub(d));
}

/// Reconciles one playlist: every descriptor, in order, claims the first
/// pooled track with its title and puts it at its position; a descriptor
/// that matches nothing is recorded and skipped.
pub fn reconcile(pool: &mut TrackPool, name: String, descriptors: &Vec<Descriptor>) -> (r: ReconcileReport)
    ensures
        report_is(r, name@, reconciled(old(pool)@, descriptor_views(descriptors@))),
        final(pool)@ == reconciled(old(pool)@, descriptor_views(descriptors@)).pool,
{
    let ghost ds = descriptor_views(descriptors@);
    let ghost pool0 = pool@;
    let ghost name0 = name@;
    let mut playlist = Playlist::new(name);
    let mut unmatched: Vec<usize> = Vec::new();
    let mut displaced: Vec<Track> = Vec::new();
    let mut k: usize = 0;
    proof {
        broadcast use vstd::seq_lib::group_to_multiset_ensures;
        assert(ds.take(0) =~= Seq::<DescriptorView>::empty());
        assert(playlist.slot_map() =~= Map::empty());
        assert(unmatched@.map_values(|i: usize| i as int) =~= Seq::<int>::empty());
        assert(track_views(displaced@) =~= Seq::<TrackView>::empty());
        assert(playlist.tracks() =~= Seq::<TrackView>::empty());
        assert(Seq::<TrackView>::empty().to_multiset() =~= Multiset::empty()) by {
            broadcast use vstd::multiset::group_multiset_axioms;
            vstd::seq_lib::to_multiset_len(Seq::<TrackView>::empty());
        }
    }
    while k < descriptors.len()
        invariant
            k <= descriptors@.len(),
            ds == descriptor_views(descriptors@),
            ({
                let o = reconciled(pool0, ds.take(k as int));
                &&& playlist.wf()
                &&& playlist.name_view() == name0
                &&& playlist.slot_map() == o.slots
                &&& playlist.tracks().to_multiset().add(track_views(displaced@).to_multiset())
                    == o.claimed.to_multiset()
                &&& unmatched@.map_values(|i: usize| i as int) == o.unmatched
                &&& track_views(displaced@) == o.displaced
                &&& pool@ == o.pool
            }),
        decreases descriptors@.len() - k,
    {
        let ghost o = reconciled(pool0, ds.take(k as int));
        proof {
            assert(ds.take(k + 1).drop_last() =~= ds.take(k as int));
            assert(ds.take(k + 1).last() == ds[k as int]);
        }
        let d = &descriptors[k];
        match pool.find_by_title(&d.title) {
            Some(i) => {
                let track = pool.claim(i);
                let ghost before = displaced@;
                let ghost old_tracks = playlist.tracks().to_multiset();
                let ghost tv = track@;
                let out = playlist.place(d.position, track);
                match out {
                    Some(t) => {
                        displaced.push(t);
                    },
                    None => {},
                }
                proof {
                    broadcast use vstd::seq_lib::group_to_multiset_ensures;
                    broadcast use vstd::multiset::group_multiset_axioms;
                    let o2 = reconciled(pool0, ds.take(k + 1));
                    assert(track_views(displaced@) =~= o2.displaced);
                    assert(track_views(displaced@).to_multiset() =~= track_views(before).to_multiset().add(option_multiset(out)));
                    assert(o2.claimed == o.claimed.push(o.pool[i as int]));
                    assert(o2.claimed.to_multiset() == o.claimed.to_multiset().insert(o.pool[i as int]));
                    assert(tv == o.pool[i as int]);
                    assert(old_tracks.add(track_views(before).to_multiset()) == o.claimed.to_multiset());
                    assert(playlist.tracks().to_multiset().add(option_multiset(out)) == old_tracks.insert(tv));
                    let nt = playlist.tracks().to_multiset();
                    let nd = track_views(displaced@).to_multiset();
                    let bd = track_views(before).to_multiset();
                    assert forall|x: TrackView| #[trigger] nt.add(nd).count(x) == o2.claimed.to_multiset().count(x) by {
                        assert(nt.add(option_multiset(out)).count(x) == old_tracks.insert(tv).count(x));
                        assert(nd.count(x) == bd.count(x) + option_multiset(out).count(x));
                        assert(old_tracks.add(bd).count(x) == o.claimed.to_multiset().count(x));
                    }
                    assert(nt.add(nd) =~= o2.claimed.to_multiset());
                }
            },
            None => {
                unmatched.push(k);
                proof {
                    assert(unmatched@.map_values(|i: usize| i as int) =~= o.unmatched.push(k as int));
                }
            },
        }
        k = k + 1;
    }
    proof {
        assert(ds.take(k as int) =~= ds);
        let o = reconciled(pool0, ds);
        lemma_tracks_balance(playlist.tracks().to_multiset(), track_views(displaced@).to_multiset(), o.claimed.to_multiset());
    }
    ReconcileReport { playlist, unmatched, displaced }
}

} // verus!
