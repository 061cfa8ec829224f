use vstd::prelude::*;
use vstd::multiset::Multiset;
use crate::track::TrackView;
use crate::pool::{first_match, lemma_first_match};
use crate::reconcile::{DescriptorView, Outcome, reconciled, outcome_tracks};
use crate::run::{run_pool, run_outcomes, claimed_total, playlist_total, distinct_positions};

verus! {

broadcast use vstd::seq_lib::group_to_multiset_ensures, vstd::multiset::group_multiset_axioms;

/// One pass moves tracks from the pool to its claimed tracks, losing none;
/// it leaves only tracks of the pool in the pool and in its slots.
proof fn lemma_pass_conserves(pool: Seq<TrackView>, ds: Seq<DescriptorView>)
    ensures
        pool.to_multiset() == reconciled(pool, ds).pool.to_multiset().add(
            reconciled(pool, ds).claimed.to_multiset(),
        ),
        forall|x: TrackView| reconciled(pool, ds).pool.contains(x) ==> pool.contains(x),
        forall|p: usize| #[trigger] reconciled(pool, ds).slots.contains_key(p) ==> pool.contains(
            reconciled(pool, ds).slots[p],
        ),
        forall|p: usize| #[trigger] reconciled(pool, ds).slots.contains_key(p) ==> exists|j: int|
            0 <= j < ds.len() && ds[j].1 == p,
        distinct_positions(ds) ==> reconciled(pool, ds).displaced.len() == 0,
    decreases ds.len(),
{
    if ds.len() > 0 {
        let prev = ds.drop_last();
        lemma_pass_conserves(pool, prev);
        let o = reconciled(pool, prev);
        let d = ds.last();
        assert(forall|j: int| 0 <= j < prev.len() ==> prev[j] == ds[j]);
        match first_match(o.pool, d.0) {
            Some(i) => {
                lemma_first_match_in_range(o.pool, d.0);
                let x = o.pool[i];
                assert(o.pool.contains(x));
                assert(o.pool.remove(i).to_multiset() == o.pool.to_multiset().remove(x));
                assert(o.pool.to_multiset() =~= o.pool.remove(i).to_multiset().add(
                    o.claimed.push(x).to_multiset(),
                ).sub(o.claimed.to_multiset()));
                assert(pool.to_multiset() =~= o.pool.remove(i).to_multiset().add(
                    o.claimed.push(x).to_multiset(),
                ));
                assert forall|y: TrackView| o.pool.remove(i).contains(y) implies pool.contains(y) by {
                    let m = choose|m: int| 0 <= m < o.pool.remove(i).len() && o.pool.remove(i)[m] == y;
                    if m < i {
                        assert(o.pool[m] == y);
                    } else {
                        assert(o.pool[m + 1] == y);
                    }
                }
                assert forall|p: usize| #[trigger] o.slots.insert(d.1, x).contains_key(p) implies exists|j: int|
                    0 <= j < ds.len() && ds[j].1 == p by {
                    if p == d.1 {
                        assert(ds[ds.len() - 1].1 == p);
                    } else {
                        let j = choose|j: int| 0 <= j < prev.len() && prev[j].1 == p;
                        assert(ds[j].1 == p);
                    }
                }
                if distinct_positions(ds) {
                    assert(distinct_positions(prev));
                    if o.slots.contains_key(d.1) {
                        let j = choose|j: int| 0 <= j < prev.len() && prev[j].1 == d.1;
                        assert(ds[j].1 == ds[ds.len() - 1].1);
                    }
                }
            },
            None => {
                if distinct_positions(ds) {
                    assert(distinct_positions(prev));
                }
            },
        }
    } else {
        assert(Seq::<TrackView>::empty().to_multiset() =~= Multiset::empty()) by {
            vstd::seq_lib::to_multiset_len(Seq::<TrackView>::empty());
        }
        assert(pool.to_multiset() =~= pool.to_multiset().add(Seq::<TrackView>::empty().to_multiset()));
    }
}

proof fn lemma_first_match_in_range(pool: Seq<TrackView>, title: Seq<char>)
    ensures
        first_match(pool, title) matches Some(i) ==> 0 <= i < pool.len() && pool[i].title == title,
    decreases pool.len(),
{
    if pool.len() > 0 {
        lemma_first_match_in_range(pool.drop_first(), title);
    }
}

/// Reconciling playlists in order moves tracks from the pool into the
/// passes' claims, losing none and copying none.
proof fn lemma_run_conserves(pool: Seq<TrackView>, lists: Seq<Seq<DescriptorView>>)
    ensures
        pool.to_multiset() == run_pool(pool, lists).to_multiset().add(
            claimed_total(run_outcomes(pool, lists)),
        ),
        (forall|l: int| 0 <= l < lists.len() ==> distinct_positions(#[trigger] lists[l]))
            ==> playlist_total(run_outcomes(pool, lists)) == claimed_total(run_outcomes(pool, lists)),
    decreases lists.len(),
{
    if lists.len() == 0 {
        assert(pool.to_multiset() =~= pool.to_multiset().add(Multiset::empty()));
    } else {
        let prev = lists.drop_last();
        lemma_run_conserves(pool, prev);
        let p = run_pool(pool, prev);
        lemma_pass_conserves(p, lists.last());
        let os = run_outcomes(pool, lists);
        assert(os.drop_last() == run_outcomes(pool, prev));
        assert(pool.to_multiset() =~= run_pool(pool, lists).to_multiset().add(claimed_total(os)));
        if forall|l: int| 0 <= l < lists.len() ==> distinct_positions(#[trigger] lists[l]) {
            assert forall|l: int| 0 <= l < prev.len() implies distinct_positions(#[trigger] prev[l]) by {
                assert(prev[l] == lists[l]);
            }
            assert(distinct_positions(lists[lists.len() - 1]));
            let o = os.last();
            assert(o.displaced.to_multiset() =~= Multiset::empty()) by {
                vstd::seq_lib::to_multiset_len(o.displaced);
            }
            assert(outcome_tracks(o) =~= o.claimed.to_multiset());
        }
    }
}

/// Every track of the starting pool ends up exactly once either in a
/// playlist or in what the pool keeps (which becomes the "Misc" playlist),
/// whenever no two descriptors of one playlist share a position.
pub proof fn lemma_exhaustive_partition(pool: Seq<TrackView>, lists: Seq<Seq<DescriptorView>>)
    requires
        forall|l: int| 0 <= l < lists.len() ==> distinct_positions(#[trigger] lists[l]),
    ensures
        pool.to_multiset() == playlist_total(run_outcomes(pool, lists)).add(
            run_pool(pool, lists).to_multiset(),
        ),
{
    lemma_run_conserves(pool, lists);
    assert(pool.to_multiset() =~= playlist_total(run_outcomes(pool, lists)).add(
        run_pool(pool, lists).to_multiset(),
    ));
}

proof fn lemma_claimed_parts(os: Seq<Outcome>, i: int, j: int, t: TrackView)
    requires
        0 <= i < os.len(),
        0 <= j < os.len(),
    ensures
        os[i].claimed.to_multiset().count(t) <= claimed_total(os).count(t),
        i != j ==> os[i].claimed.to_multiset().count(t) + os[j].claimed.to_multiset().count(t)
            <= claimed_total(os).count(t),
    decreases os.len(),
{
    let last = os.len() - 1;
    if i < last && j < last {
        lemma_claimed_parts(os.drop_last(), i, j, t);
    } else if i < last {
        lemma_claimed_parts(os.drop_last(), i, i, t);
    } else if j < last {
        lemma_claimed_parts(os.drop_last(), j, j, t);
    }
}

/// Where the pool holds each track once, no track ends up in two playlists,
/// nor in a playlist and in what the pool keeps.
pub proof fn lemma_exclusivity(pool: Seq<TrackView>, lists: Seq<Seq<DescriptorView>>, i: int, j: int, t: TrackView)
    requires
        pool.no_duplicates(),
        0 <= i < lists.len(),
        0 <= j < lists.len(),
        i != j,
    ensures
        !(outcome_tracks(run_outcomes(pool, lists)[i]).count(t) > 0
            && outcome_tracks(run_outcomes(pool, lists)[j]).count(t) > 0),
        !(outcome_tracks(run_outcomes(pool, lists)[i]).count(t) > 0 && run_pool(pool, lists).contains(t)),
        outcome_tracks(run_outcomes(pool, lists)[i]).count(t) <= 1,
{
    let os = run_outcomes(pool, lists);
    lemma_run_conserves(pool, lists);
    crate::run::lemma_run_outcomes_len(pool, lists);
    pool.lemma_multiset_has_no_duplicates();
    lemma_claimed_parts(os, i, j, t);
    vstd::seq_lib::to_multiset_contains(run_pool(pool, lists), t);
    vstd::seq_lib::to_multiset_contains(pool, t);
}

proof fn lemma_skip_unmatched(pool: Seq<TrackView>, ds: Seq<DescriptorView>, k: int, n: int)
    requires
        0 <= k < n <= ds.len(),
        forall|m: int| 0 <= m < pool.len() ==> pool[m].title != ds[k].0,
    ensures
        reconciled(pool, ds.take(n)).pool == reconciled(pool, ds.remove(k).take(n - 1)).pool,
        reconciled(pool, ds.take(n)).slots == reconciled(pool, ds.remove(k).take(n - 1)).slots,
        reconciled(pool, ds.take(n)).unmatched.contains(k),
    decreases n,
{
    let short = ds.remove(k);
    assert(ds.take(n).drop_last() =~= ds.take(n - 1));
    assert(ds.take(n).last() == ds[n - 1]);
    if n == k + 1 {
        assert(short.take(k) =~= ds.take(k));
        let o = reconciled(pool, ds.take(k));
        lemma_pass_conserves(pool, ds.take(k));
        assert forall|j: int| 0 <= j < o.pool.len() implies o.pool[j].title != ds[k].0 by {
            assert(o.pool.contains(o.pool[j]));
            assert(pool.contains(o.pool[j]));
            let m = choose|m: int| 0 <= m < pool.len() && pool[m] == o.pool[j];
        }
        lemma_first_match(o.pool, ds[k].0, o.pool.len() as int);
        assert(reconciled(pool, ds.take(n)).unmatched == o.unmatched.push(k));
        assert(reconciled(pool, ds.take(n)).unmatched[o.unmatched.len() as int] == k);
    } else {
        lemma_skip_unmatched(pool, ds, k, n - 1);
        assert(short.take(n - 1).drop_last() =~= short.take(n - 2));
        assert(short.take(n - 1).last() == ds[n - 1]);
        let o = reconciled(pool, ds.take(n - 1));
        let u = o.unmatched;
        let i = choose|i: int| 0 <= i < u.len() && u[i] == k;
        assert(reconciled(pool, ds.take(n)).unmatched[i] == k);
    }
}

/// A descriptor whose title no pooled track carries puts nothing in the
/// playlist, is reported as unmatched, and leaves the rest of the pass as it
/// would be without it.
pub proof fn lemma_unmatched_tolerance(pool: Seq<TrackView>, ds: Seq<DescriptorView>, k: int)
    requires
        0 <= k < ds.len(),
        forall|m: int| 0 <= m < pool.len() ==> pool[m].title != ds[k].0,
    ensures
        reconciled(pool, ds).unmatched.contains(k),
        forall|p: usize| #[trigger] reconciled(pool, ds).slots.contains_key(p)
            ==> reconciled(pool, ds).slots[p].title != ds[k].0,
        reconciled(pool, ds).pool == reconciled(pool, ds.remove(k)).pool,
        reconciled(pool, ds).slots == reconciled(pool, ds.remove(k)).slots,
{
    lemma_skip_unmatched(pool, ds, k, ds.len() as int);
    assert(ds.take(ds.len() as int) =~= ds);
    assert(ds.remove(k).take(ds.len() - 1) =~= ds.remove(k));
    lemma_pass_conserves(pool, ds);
    assert forall|p: usize| #[trigger] reconciled(pool, ds).slots.contains_key(p)
        implies reconciled(pool, ds).slots[p].title != ds[k].0 by {
        let m = choose|m: int| 0 <= m < pool.len() && pool[m] == reconciled(pool, ds).slots[p];
    }
}

} // verus!
