//! Perceptual deduplication of a counted palette.
//!
//! A first pass goes through the palette in the order given and either
//! accepts a colour as a new cluster or records it as similar to the first
//! accepted cluster that it is close to. A second pass folds every recorded
//! colour into its cluster, in the order of recording. The clusters are then
//! ranked by their merged counts.
//!
//! The centroid of two weighted colours is arithmetic on their coordinates,
//! which this library does not read: the caller hands it in as `blend`, and
//! the contracts say to which arguments it is applied and where its results
//! go.

use vstd::prelude::*;

use lab::Lab;

use crate::color::{is_similar, similar};
use crate::rank::{
    descending, lemma_count_within_total, lemma_ranked_descending, lemma_ranked_positive,
    lemma_ranked_total, lemma_total_after_update, positive, ranked, sort_by_count, total_count,
};

verus! {

/// A colour that the first pass found similar to an accepted cluster.
#[derive(Clone, Copy, Debug)]
pub struct Similar {
    /// Index of the cluster among the accepted ones.
    pub cluster: usize,
    /// The colour itself.
    pub color: Lab,
    /// How often the colour was counted.
    pub count: usize,
}

/// Whether `at` is the first accepted cluster that `color` is similar to.
pub open spec fn is_first_similar(accepted: Seq<(Lab, usize)>, color: Lab, at: int) -> bool {
    &&& 0 <= at < accepted.len()
    &&& similar(color, accepted[at].0)
    &&& forall|j: int| 0 <= j < at ==> !similar(color, #[trigger] accepted[j].0)
}

/// The index of the first accepted cluster that `color` is similar to, if
/// there is one.
pub open spec fn first_similar(accepted: Seq<(Lab, usize)>, color: Lab) -> Option<int> {
    if exists|at: int| is_first_similar(accepted, color, at) {
        Some(choose|at: int| is_first_similar(accepted, color, at))
    } else {
        None
    }
}

/// The accepted clusters and the recorded similar colours after the first
/// pass over `palette`.
pub open spec fn assigned(palette: Seq<(Lab, usize)>) -> (Seq<(Lab, usize)>, Seq<Similar>)
    decreases palette.len(),
{
    if palette.len() == 0 {
        (Seq::empty(), Seq::empty())
    } else {
        let (accepted, similars) = assigned(palette.drop_last());
        let (color, count) = palette.last();
        match first_similar(accepted, color) {
            Some(at) => (accepted, similars.push(Similar { cluster: at as usize, color, count })),
            None => (accepted.push((color, count)), similars),
        }
    }
}

/// The sum of the counts of `similars`.
pub open spec fn total_similar(similars: Seq<Similar>) -> nat
    decreases similars.len(),
{
    if similars.len() == 0 {
        0
    } else {
        total_similar(similars.drop_last()) + similars.last().count as nat
    }
}

/// Whether `after` is `before` with `merge` folded into its cluster: the
/// cluster's colour is what `blend` made of the cluster so far, at its
/// running count, and the recorded colour, at its own count; the cluster's
/// count has grown by that count; and no other cluster has changed.
pub open spec fn folded<F: Fn(Lab, usize, Lab, usize) -> Lab>(
    blend: &F,
    before: Seq<(Lab, usize)>,
    merge: Similar,
    after: Seq<(Lab, usize)>,
) -> bool {
    &&& merge.cluster < before.len()
    &&& after.len() == before.len()
    &&& call_ensures(
        *blend,
        (before[merge.cluster as int].0, before[merge.cluster as int].1, merge.color, merge.count),
        after[merge.cluster as int].0,
    )
    &&& after[merge.cluster as int].1 == before[merge.cluster as int].1 + merge.count
    &&& forall|j: int|
        0 <= j < before.len() && j != merge.cluster ==> #[trigger] after[j] == before[j]
}

/// Whether `merged` is `clusters` with `similars` folded in one after the
/// other, each into the clusters as the ones before it left them.
pub open spec fn folded_all<F: Fn(Lab, usize, Lab, usize) -> Lab>(
    blend: &F,
    clusters: Seq<(Lab, usize)>,
    similars: Seq<Similar>,
    merged: Seq<(Lab, usize)>,
) -> bool
    decreases similars.len(),
{
    if similars.len() == 0 {
        merged == clusters
    } else {
        exists|mid: Seq<(Lab, usize)>|
            folded_all(blend, clusters, similars.drop_last(), mid) && #[trigger] folded(
                blend,
                mid,
                similars.last(),
                merged,
            )
    }
}

/// Whether `refined` is what deduplication makes of `palette` with `blend`:
/// the clusters of the first pass, with the similar colours folded in, ranked
/// by count.
pub open spec fn refined_from<F: Fn(Lab, usize, Lab, usize) -> Lab>(
    blend: &F,
    palette: Seq<(Lab, usize)>,
    refined: Seq<(Lab, usize)>,
) -> bool {
    exists|merged: Seq<(Lab, usize)>|
        #[trigger] folded_all(blend, assigned(palette).0, assigned(palette).1, merged) && refined
            == ranked(merged)
}

/// Looks for the first accepted cluster that `color` is similar to.
pub fn find_similar(accepted: &Vec<(Lab, usize)>, color: Lab) -> (found: Option<usize>)
    ensures
        match found {
            Some(at) => first_similar(accepted@, color) == Some(at as int),
            None => first_similar(accepted@, color) is None,
        },
{
    let mut at: usize = 0;
    while at < accepted.len()
        invariant
            at <= accepted.len(),
            forall|j: int| 0 <= j < at ==> !similar(color, #[trigger] accepted@[j].0),
        decreases accepted.len() - at,
    {
        if is_similar(color, accepted[at].0) {
            proof {
                lemma_first_similar_is(accepted@, color, at as int);
            }
            return Some(at);
        }
        at += 1;
    }
    proof {
        assert forall|k: int| !is_first_similar(accepted@, color, k) by {}
    }
    None
}

/// There is at most one first similar cluster.
pub proof fn lemma_first_similar_is(accepted: Seq<(Lab, usize)>, color: Lab, at: int)
    requires
        is_first_similar(accepted, color, at),
    ensures
        first_similar(accepted, color) == Some(at),
{
    let chosen = choose|k: int| is_first_similar(accepted, color, k);
    if chosen < at {
        assert(!similar(color, accepted[chosen].0));
    } else if at < chosen {
        assert(!similar(color, accepted[at].0));
    }
}

/// What the first pass makes of a palette with one more colour.
proof fn lemma_assigned_next(palette: Seq<(Lab, usize)>, n: int)
    requires
        0 <= n < palette.len(),
    ensures
        assigned(palette.take(n + 1)) == ({
            let (accepted, similars) = assigned(palette.take(n));
            let (color, count) = palette[n];
            match first_similar(accepted, color) {
                Some(at) => (
                    accepted,
                    similars.push(Similar { cluster: at as usize, color, count }),
                ),
                None => (accepted.push((color, count)), similars),
            }
        }),
{
    assert(palette.take(n + 1).drop_last() =~= palette.take(n));
    assert(palette.take(n + 1).last() == palette[n]);
}

/// The first pass: goes through `palette` in order. A colour that is similar
/// to an accepted cluster is recorded with the first such cluster; any other
/// colour is accepted as a new cluster, behind those accepted before.
pub fn assign_clusters(palette: &Vec<(Lab, usize)>) -> (passed: (Vec<(Lab, usize)>, Vec<Similar>))
    ensures
        (passed.0@, passed.1@) == assigned(palette@),
{
    let mut accepted: Vec<(Lab, usize)> = Vec::new();
    let mut similars: Vec<Similar> = Vec::new();
    let mut n: usize = 0;
    while n < palette.len()
        invariant
            n <= palette.len(),
            (accepted@, similars@) == assigned(palette@.take(n as int)),
        decreases palette.len() - n,
    {
        let (color, count) = palette[n];
        proof {
            lemma_assigned_next(palette@, n as int);
        }
        match find_similar(&accepted, color) {
            Some(at) => {
                similars.push(Similar { cluster: at, color, count });
            },
            None => {
                accepted.push((color, count));
            },
        }
        n += 1;
    }
    proof {
        assert(palette@.take(n as int) =~= palette@);
    }
    (accepted, similars)
}

/// Every colour of the palette is either accepted or recorded as similar to
/// a cluster that was accepted before it, and its count goes with it.
pub proof fn lemma_assigned_conserves(palette: Seq<(Lab, usize)>)
    ensures
        assigned(palette).0.len() + assigned(palette).1.len() == palette.len(),
        total_count(assigned(palette).0) + total_similar(assigned(palette).1) == total_count(
            palette,
        ),
        forall|k: int|
            0 <= k < assigned(palette).1.len() ==> (#[trigger] assigned(palette).1[k]).cluster
                < assigned(palette).0.len(),
    decreases palette.len(),
{
    if palette.len() > 0 {
        let (accepted, similars) = assigned(palette.drop_last());
        let (color, count) = palette.last();
        lemma_assigned_conserves(palette.drop_last());
        match first_similar(accepted, color) {
            Some(at) => {
                let merge = Similar { cluster: at as usize, color, count };
                assert(is_first_similar(accepted, color, at));
                assert(similars.push(merge).drop_last() =~= similars);
                assert forall|k: int| 0 <= k < similars.push(merge).len() implies (
                #[trigger] similars.push(merge)[k]).cluster < accepted.len() by {
                    if k < similars.len() {
                        assert(similars.push(merge)[k] == similars[k]);
                    }
                }
            },
            None => {
                assert(accepted.push((color, count)).drop_last() =~= accepted);
            },
        }
    }
}

/// No cluster that the first pass accepts is similar to one accepted before
/// it: the distance from the later to the earlier one is not below the
/// uniqueness threshold.
pub proof fn lemma_accepted_apart(palette: Seq<(Lab, usize)>, earlier: int, later: int)
    requires
        0 <= earlier < later < assigned(palette).0.len(),
    ensures
        !similar(assigned(palette).0[later].0, assigned(palette).0[earlier].0),
    decreases palette.len(),
{
    let (accepted, similars) = assigned(palette.drop_last());
    let (color, count) = palette.last();
    match first_similar(accepted, color) {
        Some(at) => {
            lemma_accepted_apart(palette.drop_last(), earlier, later);
        },
        None => {
            if later < accepted.len() {
                lemma_accepted_apart(palette.drop_last(), earlier, later);
            } else {
                lemma_none_similar(accepted, color, earlier);
            }
        },
    }
}

/// Where no first similar cluster exists, no accepted cluster is similar.
pub proof fn lemma_none_similar(accepted: Seq<(Lab, usize)>, color: Lab, at: int)
    requires
        first_similar(accepted, color) is None,
        0 <= at < accepted.len(),
    ensures
        !similar(color, accepted[at].0),
    decreases at,
{
    if similar(color, accepted[at].0) {
        if exists|j: int| 0 <= j < at && similar(color, accepted[j].0) {
            let j = choose|j: int| 0 <= j < at && similar(color, accepted[j].0);
            lemma_none_similar(accepted, color, j);
        } else {
            assert(is_first_similar(accepted, color, at));
        }
    }
}

/// The counts of the first `n` recorded colours sum to no more than those
/// of all of them.
pub proof fn lemma_total_similar_prefix(similars: Seq<Similar>, n: int)
    requires
        0 <= n <= similars.len(),
    ensures
        total_similar(similars.take(n)) <= total_similar(similars),
        n < similars.len() ==> total_similar(similars.take(n + 1)) == total_similar(
            similars.take(n),
        ) + similars[n].count,
    decreases similars.len(),
{
    if n < similars.len() {
        assert(similars.take(n + 1).drop_last() =~= similars.take(n));
        lemma_total_similar_prefix(similars.drop_last(), n);
        assert(similars.drop_last().take(n) =~= similars.take(n));
    } else {
        assert(similars.take(n) =~= similars);
    }
}

/// Folding one more recorded colour extends a chain of folds.
proof fn lemma_folded_all_next<F: Fn(Lab, usize, Lab, usize) -> Lab>(
    blend: &F,
    clusters: Seq<(Lab, usize)>,
    similars: Seq<Similar>,
    mid: Seq<(Lab, usize)>,
    merged: Seq<(Lab, usize)>,
)
    requires
        similars.len() > 0,
        folded_all(blend, clusters, similars.drop_last(), mid),
        folded(blend, mid, similars.last(), merged),
    ensures
        folded_all(blend, clusters, similars, merged),
{
}

/// Folding keeps the number of clusters and moves every recorded count into
/// a cluster: the merged counts sum to those of the clusters and of the
/// recorded colours together.
pub proof fn lemma_folded_all_conserves<F: Fn(Lab, usize, Lab, usize) -> Lab>(
    blend: &F,
    clusters: Seq<(Lab, usize)>,
    similars: Seq<Similar>,
    merged: Seq<(Lab, usize)>,
)
    requires
        folded_all(blend, clusters, similars, merged),
    ensures
        merged.len() == clusters.len(),
        total_count(merged) == total_count(clusters) + total_similar(similars),
    decreases similars.len(),
{
    if similars.len() > 0 {
        let mid = choose|mid: Seq<(Lab, usize)>|
            folded_all(blend, clusters, similars.drop_last(), mid) && #[trigger] folded(
                blend,
                mid,
                similars.last(),
                merged,
            );
        lemma_folded_all_conserves(blend, clusters, similars.drop_last(), mid);
        let at = similars.last().cluster as int;
        assert(merged =~= mid.update(at, merged[at]));
        lemma_total_after_update(mid, at, merged[at]);
    }
}

/// The second pass: folds each recorded colour into its cluster, in the
/// order of recording. `blend` is applied to the cluster's colour and count
/// as the earlier folds left them, then to the recorded colour and its
/// count; its result becomes the cluster's colour, and the recorded count is
/// added to the cluster's count.
pub fn merge_similars<F: Fn(Lab, usize, Lab, usize) -> Lab>(
    clusters: Vec<(Lab, usize)>,
    similars: &Vec<Similar>,
    blend: &F,
) -> (merged: Vec<(Lab, usize)>)
    requires
        forall|k: int| 0 <= k < similars@.len() ==> (#[trigger] similars@[k]).cluster < clusters@.len(),
        total_count(clusters@) + total_similar(similars@) <= usize::MAX,
        forall|x: Lab, n: usize, y: Lab, m: usize| call_requires(*blend, (x, n, y, m)),
    ensures
        folded_all(blend, clusters@, similars@, merged@),
        merged@.len() == clusters@.len(),
        total_count(merged@) == total_count(clusters@) + total_similar(similars@),
{
    let mut merged = clusters;
    let mut k: usize = 0;
    while k < similars.len()
        invariant
            k <= similars.len(),
            merged@.len() == clusters@.len(),
            folded_all(blend, clusters@, similars@.take(k as int), merged@),
            total_count(merged@) == total_count(clusters@) + total_similar(
                similars@.take(k as int),
            ),
            forall|j: int| 0 <= j < similars@.len() ==> (#[trigger] similars@[j]).cluster < clusters@.len(),
            total_count(clusters@) + total_similar(similars@) <= usize::MAX,
            forall|x: Lab, n: usize, y: Lab, m: usize| call_requires(*blend, (x, n, y, m)),
        decreases similars.len() - k,
    {
        let merge = similars[k];
        let (color, count) = merged[merge.cluster];
        proof {
            lemma_total_similar_prefix(similars@, k as int);
            lemma_total_similar_prefix(similars@, k + 1);
            lemma_count_within_total(merged@, merge.cluster as int);
        }
        let ghost before = merged@;
        let centroid = blend(color, count, merge.color, merge.count);
        merged.set(merge.cluster, (centroid, count + merge.count));
        proof {
            lemma_total_after_update(before, merge.cluster as int, (centroid, (count + merge.count) as usize));
            assert(similars@.take(k + 1).drop_last() =~= similars@.take(k as int));
            assert(similars@.take(k + 1).last() == merge);
            assert(folded(blend, before, merge, merged@));
            lemma_folded_all_next(blend, clusters@, similars@.take(k + 1), before, merged@);
        }
        k += 1;
    }
    proof {
        assert(similars@.take(k as int) =~= similars@);
    }
    merged
}

/// Removes the colours that are perceptually too close to a more frequent
/// one. The palette is taken in the order given: a colour is folded into the
/// first earlier cluster that it is similar to, and is a cluster of its own
/// where there is none. The clusters come back ranked by their merged
/// counts, which sum to what the counts of the palette sum to.
pub fn remove_similar_colors<F: Fn(Lab, usize, Lab, usize) -> Lab>(
    palette: Vec<(Lab, usize)>,
    blend: &F,
) -> (refined: Vec<(Lab, usize)>)
    requires
        total_count(palette@) <= usize::MAX,
        forall|x: Lab, n: usize, y: Lab, m: usize| call_requires(*blend, (x, n, y, m)),
    ensures
        refined_from(blend, palette@, refined@),
        refined@.len() == assigned(palette@).0.len(),
        descending(refined@),
        positive(palette@) ==> positive(refined@),
        total_count(refined@) == total_count(palette@),
{
    let (accepted, similars) = assign_clusters(&palette);
    proof {
        lemma_assigned_conserves(palette@);
    }
    let merged = merge_similars(accepted, &similars, blend);
    let refined = sort_by_count(merged);
    proof {
        if positive(palette@) {
            lemma_refined_positive(blend, palette@, refined@);
        }
    }
    refined
}

/// Whether `blend` gives one centroid only for any two weighted colours.
pub open spec fn single_valued<F: Fn(Lab, usize, Lab, usize) -> Lab>(blend: &F) -> bool {
    forall|x: Lab, n: usize, y: Lab, m: usize, first: Lab, second: Lab|
        call_ensures(*blend, (x, n, y, m), first) && call_ensures(*blend, (x, n, y, m), second)
            ==> first == second
}

/// With a `blend` that gives one centroid only, folding the same colours
/// into the same clusters gives the same clusters.
pub proof fn lemma_folded_all_unique<F: Fn(Lab, usize, Lab, usize) -> Lab>(
    blend: &F,
    clusters: Seq<(Lab, usize)>,
    similars: Seq<Similar>,
    first: Seq<(Lab, usize)>,
    second: Seq<(Lab, usize)>,
)
    requires
        single_valued(blend),
        folded_all(blend, clusters, similars, first),
        folded_all(blend, clusters, similars, second),
    ensures
        first == second,
    decreases similars.len(),
{
    if similars.len() > 0 {
        let merge = similars.last();
        let mid_first = choose|mid: Seq<(Lab, usize)>|
            folded_all(blend, clusters, similars.drop_last(), mid) && #[trigger] folded(
                blend,
                mid,
                merge,
                first,
            );
        let mid_second = choose|mid: Seq<(Lab, usize)>|
            folded_all(blend, clusters, similars.drop_last(), mid) && #[trigger] folded(
                blend,
                mid,
                merge,
                second,
            );
        lemma_folded_all_unique(blend, clusters, similars.drop_last(), mid_first, mid_second);
        let at = merge.cluster as int;
        assert(first[at].0 == second[at].0);
        assert forall|j: int| 0 <= j < first.len() implies first[j] == second[j] by {
            if j != at {
                assert(first[j] == mid_first[j]);
                assert(second[j] == mid_second[j]);
            }
        }
        assert(first =~= second);
    }
}

/// Removing similar colours is repeatable: with a `blend` that gives one
/// centroid only, one palette has one refined palette.
pub proof fn lemma_refined_unique<F: Fn(Lab, usize, Lab, usize) -> Lab>(
    blend: &F,
    palette: Seq<(Lab, usize)>,
    first: Seq<(Lab, usize)>,
    second: Seq<(Lab, usize)>,
)
    requires
        single_valued(blend),
        refined_from(blend, palette, first),
        refined_from(blend, palette, second),
    ensures
        first == second,
{
    let merged_first = choose|merged: Seq<(Lab, usize)>|
        #[trigger] folded_all(blend, assigned(palette).0, assigned(palette).1, merged) && first
            == ranked(merged);
    let merged_second = choose|merged: Seq<(Lab, usize)>|
        #[trigger] folded_all(blend, assigned(palette).0, assigned(palette).1, merged) && second
            == ranked(merged);
    lemma_folded_all_unique(
        blend,
        assigned(palette).0,
        assigned(palette).1,
        merged_first,
        merged_second,
    );
}

/// Removing similar colours moves counts and drops none: the refined counts
/// sum to what the counts of the palette sum to, there is one refined
/// colour for each cluster that the first pass accepted, and the refined
/// palette is in descending order of count.
pub proof fn lemma_refined_conserves<F: Fn(Lab, usize, Lab, usize) -> Lab>(
    blend: &F,
    palette: Seq<(Lab, usize)>,
    refined: Seq<(Lab, usize)>,
)
    requires
        refined_from(blend, palette, refined),
    ensures
        total_count(refined) == total_count(palette),
        refined.len() == assigned(palette).0.len(),
        refined.len() <= palette.len(),
        descending(refined),
{
    let merged = choose|merged: Seq<(Lab, usize)>|
        #[trigger] folded_all(blend, assigned(palette).0, assigned(palette).1, merged) && refined
            == ranked(merged);
    lemma_assigned_conserves(palette);
    lemma_folded_all_conserves(blend, assigned(palette).0, assigned(palette).1, merged);
    lemma_ranked_total(merged);
    lemma_ranked_descending(merged);
}

/// Every cluster that the first pass accepts is an entry of the palette, so
/// its count is at least 1 where theirs are.
pub proof fn lemma_assigned_positive(palette: Seq<(Lab, usize)>)
    requires
        positive(palette),
    ensures
        positive(assigned(palette).0),
    decreases palette.len(),
{
    if palette.len() > 0 {
        let front = palette.drop_last();
        let (accepted, similars) = assigned(front);
        assert forall|k: int| 0 <= k < front.len() implies (#[trigger] front[k]).1 >= 1 by {
            assert(front[k] == palette[k]);
        }
        lemma_assigned_positive(front);
        assert(palette[palette.len() - 1].1 >= 1);
        let out = assigned(palette).0;
        assert forall|k: int| 0 <= k < out.len() implies (#[trigger] out[k]).1 >= 1 by {
            if k < accepted.len() {
                assert(out[k] == accepted[k]);
            }
        }
    }
}

/// Folding only adds to counts: clusters whose counts are at least 1 keep
/// them so.
pub proof fn lemma_folded_all_positive<F: Fn(Lab, usize, Lab, usize) -> Lab>(
    blend: &F,
    clusters: Seq<(Lab, usize)>,
    similars: Seq<Similar>,
    merged: Seq<(Lab, usize)>,
)
    requires
        positive(clusters),
        folded_all(blend, clusters, similars, merged),
    ensures
        positive(merged),
    decreases similars.len(),
{
    if similars.len() > 0 {
        let mid = choose|mid: Seq<(Lab, usize)>|
            folded_all(blend, clusters, similars.drop_last(), mid) && #[trigger] folded(
                blend,
                mid,
                similars.last(),
                merged,
            );
        lemma_folded_all_positive(blend, clusters, similars.drop_last(), mid);
        let at = similars.last().cluster as int;
        assert forall|k: int| 0 <= k < merged.len() implies (#[trigger] merged[k]).1 >= 1 by {
            if k != at {
                assert(merged[k] == mid[k]);
            } else {
                assert(mid[at].1 >= 1);
            }
        }
    }
}

/// Where every count of the palette is at least 1, so is every refined
/// count.
pub proof fn lemma_refined_positive<F: Fn(Lab, usize, Lab, usize) -> Lab>(
    blend: &F,
    palette: Seq<(Lab, usize)>,
    refined: Seq<(Lab, usize)>,
)
    requires
        positive(palette),
        refined_from(blend, palette, refined),
    ensures
        positive(refined),
{
    let merged = choose|merged: Seq<(Lab, usize)>|
        #[trigger] folded_all(blend, assigned(palette).0, assigned(palette).1, merged) && refined
            == ranked(merged);
    lemma_assigned_positive(palette);
    lemma_folded_all_positive(blend, assigned(palette).0, assigned(palette).1, merged);
    lemma_ranked_positive(merged);
}

} // verus!
