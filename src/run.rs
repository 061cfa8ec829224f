use vstd::prelude::*;
use vstd::multiset::Multiset;
use vstd::string::*;
use crate::track::TrackView;
use crate::pool::TrackPool;
use crate::playlist::{Playlist, tracks_of};
use crate::descriptor::Descriptor;
use crate::reconcile::{
    DescriptorView, Outcome, ReconcileReport, descriptor_views, reconcile, reconciled, report_is,
    outcome_tracks,
};

verus! {

/// The name of the playlist that collects the tracks no descriptor claimed.
pub open spec fn misc_name() -> Seq<char> {
    "Misc"@
}

/// One playlist to rebuild: its name and its descriptors, in the order read.
pub struct PlaylistInput {
    pub name: String,
    pub descriptors: Vec<Descriptor>,
}

pub open spec fn input_views(inputs: Seq<PlaylistInput>) -> Seq<Seq<DescriptorView>> {
    inputs.map_values(|p: PlaylistInput| descriptor_views(p.descriptors@))
}

/// The pool left after reconciling the playlists `lists` in order.
pub open spec fn run_pool(pool: Seq<TrackView>, lists: Seq<Seq<DescriptorView>>) -> Seq<TrackView>
    decreases lists.len(),
{
    if lists.len() == 0 {
        pool
    } else {
        reconciled(run_pool(pool, lists.drop_last()), lists.last()).pool
    }
}

/// The outcome of each playlist's pass, when the playlists `lists` are
/// reconciled in order against one shared pool.
pub open spec fn run_outcomes(pool: Seq<TrackView>, lists: Seq<Seq<DescriptorView>>) -> Seq<Outcome>
    decreases lists.len(),
{
    if lists.len() == 0 {
        Seq::empty()
    } else {
        run_outcomes(pool, lists.drop_last()).push(
            reconciled(run_pool(pool, lists.drop_last()), lists.last()),
        )
    }
}

/// All tracks claimed by the passes `os`.
pub open spec fn claimed_total(os: Seq<Outcome>) -> Multiset<TrackView>
    decreases os.len(),
{
    if os.len() == 0 {
        Multiset::empty()
    } else {
        claimed_total(os.drop_last()).add(os.last().claimed.to_multiset())
    }
}

/// All tracks that the passes `os` leave in their playlists.
pub open spec fn playlist_total(os: Seq<Outcome>) -> Multiset<TrackView>
    decreases os.len(),
{
    if os.len() == 0 {
        Multiset::empty()
    } else {
        playlist_total(os.drop_last()).add(outcome_tracks(os.last()))
    }
}

pub proof fn lemma_run_outcomes_len(pool: Seq<TrackView>, lists: Seq<Seq<DescriptorView>>)
    ensures
        run_outcomes(pool, lists).len() == lists.len(),
    decreases lists.len(),
{
    if lists.len() > 0 {
        lemma_run_outcomes_len(pool, lists.drop_last());
    }
}

/// No two descriptors of a list share a position.
pub open spec fn distinct_positions(ds: Seq<DescriptorView>) -> bool {
    forall|i: int, j: int| 0 <= i < j < ds.len() ==> ds[i].1 != ds[j].1
}

/// Reconciles every playlist in order against the one shared pool.
pub fn reconcile_all(pool: &mut TrackPool, inputs: &Vec<PlaylistInput>) -> (r: Vec<ReconcileReport>)
    ensures
        r@.len() == inputs@.len(),
        forall|k: int| 0 <= k < r@.len() ==> report_is(
            #[trigger] r@[k],
            inputs@[k].name@,
            run_outcomes(old(pool)@, input_views(inputs@))[k],
        ),
        final(pool)@ == run_pool(old(pool)@, input_views(inputs@)),
{
    let ghost pool0 = pool@;
    let ghost lists = input_views(inputs@);
    let mut reports: Vec<ReconcileReport> = Vec::new();
    let mut k: usize = 0;
    proof {
        assert(lists.take(0) =~= Seq::<Seq<DescriptorView>>::empty());
    }
    while k < inputs.len()
        invariant
            k <= inputs@.len(),
            lists == input_views(inputs@),
            reports@.len() == k,
            forall|j: int| 0 <= j < k ==> report_is(
                #[trigger] reports@[j],
                inputs@[j].name@,
                run_outcomes(pool0, lists.take(k as int))[j],
            ),
            pool@ == run_pool(pool0, lists.take(k as int)),
        decreases inputs@.len() - k,
    {
        proof {
            assert(lists.take(k + 1).drop_last() =~= lists.take(k as int));
            assert(lists.take(k + 1).last() == lists[k as int]);
        }
        let input = &inputs[k];
        let report = reconcile(pool, input.name.clone(), &input.descriptors);
        reports.push(report);
        proof {
            lemma_run_outcomes_len(pool0, lists.take(k as int));
            assert(run_outcomes(pool0, lists.take(k + 1)) == run_outcomes(pool0, lists.take(k as int)).push(
                reconciled(run_pool(pool0, lists.take(k as int)), lists[k as int])));
        }
        k = k + 1;
    }
    proof {
        assert(lists.take(k as int) =~= lists);
    }
    reports
}

/// Wraps whatever the pool still holds into the "Misc" playlist, at
/// positions counted from zero as the pool is drained from its end; no
/// playlist where the pool is empty.
pub fn collect_leftovers(pool: &mut TrackPool) -> (r: Option<Playlist>)
    ensures
        final(pool)@.len() == 0,
        r is None <==> old(pool)@.len() == 0,
        r matches Some(p) ==> {
            &&& p.wf()
            &&& p.name_view() == misc_name()
            &&& p.entries().len() == old(pool)@.len()
            &&& forall|k: int| 0 <= k < p.entries().len() ==> #[trigger] p.entries()[k] == (
                k as usize,
                old(pool)@[old(pool)@.len() - 1 - k],
            )
            &&& p.tracks().to_multiset() == old(pool)@.to_multiset()
        },
{
    if pool.is_empty() {
        return None;
    }
    let ghost pool0 = pool@;
    let n0 = pool.len();
    let ghost n = pool0.len();
    let mut misc = Playlist::new(String::from_str("Misc"));
    let mut index: usize = 0;
    proof {
        broadcast use vstd::seq_lib::group_to_multiset_ensures;
        assert(pool0.take(n as int) =~= pool0);
        assert(tracks_of(misc.entries()) =~= Seq::<TrackView>::empty());
        assert(misc.tracks().to_multiset() =~= Multiset::empty()) by {
            broadcast use vstd::multiset::group_multiset_axioms;
            vstd::seq_lib::to_multiset_len(misc.tracks());
        }
    }
    while !pool.is_empty()
        invariant
            index <= n,
            n == pool0.len(),
            n == n0,
            pool@ == pool0.take(n - index),
            misc.wf(),
            misc.name_view() == misc_name(),
            misc.entries().len() == index,
            forall|k: int| 0 <= k < index ==> #[trigger] misc.entries()[k] == (k as usize, pool0[n - 1 - k]),
            misc.tracks().to_multiset().add(pool@.to_multiset()) == pool0.to_multiset(),
        decreases pool@.len(),
    {
        assert(pool@.len() == n - index);
        let t = pool.take_last().unwrap();
        let ghost before = misc.entries();
        proof {
            assert(pool0.take(n - index).drop_last() =~= pool0.take(n - index - 1));
        }
        misc.append(index, t);
        proof {
            broadcast use vstd::seq_lib::group_to_multiset_ensures;
            assert(tracks_of(misc.entries()) =~= tracks_of(before).push(t@));
            assert(pool0.take(n - index) =~= pool0.take(n - index - 1).push(t@));
        }
        index = index + 1;
    }
    Some(misc)
}

} // verus!
