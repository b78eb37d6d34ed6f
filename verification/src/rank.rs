//! Ranking by descending count, with ties left in the order they came in.

use vstd::prelude::*;

verus! {

/// The sum of the counts of `entries`.
pub open spec fn total_count<T>(entries: Seq<(T, usize)>) -> nat
    decreases entries.len(),
{
    if entries.len() == 0 {
        0
    } else {
        total_count(entries.drop_last()) + entries.last().1 as nat
    }
}

/// The entries of `entries` whose count is `count`, in their order.
pub open spec fn with_count<T>(entries: Seq<(T, usize)>, count: usize) -> Seq<(T, usize)>
    decreases entries.len(),
{
    if entries.len() == 0 {
        Seq::empty()
    } else if entries.last().1 == count {
        with_count(entries.drop_last(), count).push(entries.last())
    } else {
        with_count(entries.drop_last(), count)
    }
}

/// Whether no entry is followed by one with a larger count.
pub open spec fn descending<T>(entries: Seq<(T, usize)>) -> bool {
    forall|i: int, j: int| 0 <= i < j < entries.len() ==> entries[i].1 >= entries[j].1
}

/// No single count exceeds the sum of all of them.
pub proof fn lemma_count_within_total<T>(entries: Seq<(T, usize)>, at: int)
    requires
        0 <= at < entries.len(),
    ensures
        entries[at].1 <= total_count(entries),
    decreases entries.len(),
{
    if at < entries.len() - 1 {
        lemma_count_within_total(entries.drop_last(), at);
    }
}

/// Replacing one entry changes the sum of the counts by the difference of
/// the two counts.
pub proof fn lemma_total_after_update<T>(entries: Seq<(T, usize)>, at: int, entry: (T, usize))
    requires
        0 <= at < entries.len(),
    ensures
        total_count(entries.update(at, entry)) == total_count(entries) - entries[at].1 + entry.1,
    decreases entries.len(),
{
    let updated = entries.update(at, entry);
    if at < entries.len() - 1 {
        lemma_total_after_update(entries.drop_last(), at, entry);
        assert(updated.drop_last() =~= entries.drop_last().update(at, entry));
    } else {
        assert(updated.drop_last() =~= entries.drop_last());
    }
}

/// Whether every count is at least 1.
pub open spec fn positive<T>(entries: Seq<(T, usize)>) -> bool {
    forall|k: int| 0 <= k < entries.len() ==> (#[trigger] entries[k]).1 >= 1
}

/// Where every count is at least 1, the counts sum to at least the number
/// of entries.
pub proof fn lemma_total_covers_len<T>(entries: Seq<(T, usize)>)
    requires
        positive(entries),
    ensures
        entries.len() <= total_count(entries),
    decreases entries.len(),
{
    if entries.len() > 0 {
        let front = entries.drop_last();
        assert forall|k: int| 0 <= k < front.len() implies (#[trigger] front[k]).1 >= 1 by {
            assert(front[k] == entries[k]);
        }
        lemma_total_covers_len(front);
        assert(entries[entries.len() - 1].1 >= 1);
    }
}

/// `ranked` with `entry` put behind every entry whose count is at least as
/// large as its own, and before the others.
pub open spec fn placed<T>(ranked: Seq<(T, usize)>, entry: (T, usize)) -> Seq<(T, usize)>
    decreases ranked.len(),
{
    if ranked.len() == 0 || ranked.last().1 >= entry.1 {
        ranked.push(entry)
    } else {
        placed(ranked.drop_last(), entry).push(ranked.last())
    }
}

/// The entries of `entries` by descending count, entries of equal count in
/// the order in which they stand in `entries`.
pub open spec fn ranked<T>(entries: Seq<(T, usize)>) -> Seq<(T, usize)>
    decreases entries.len(),
{
    if entries.len() == 0 {
        Seq::empty()
    } else {
        placed(ranked(entries.drop_last()), entries.last())
    }
}

/// Putting an entry in its place is inserting it at the index behind which
/// every count is smaller and before which none is.
pub proof fn lemma_placed_is_insert<T>(ranked: Seq<(T, usize)>, entry: (T, usize), at: int)
    requires
        0 <= at <= ranked.len(),
        at > 0 ==> ranked[at - 1].1 >= entry.1,
        forall|k: int| at <= k < ranked.len() ==> ranked[k].1 < entry.1,
    ensures
        placed(ranked, entry) == ranked.insert(at, entry),
    decreases ranked.len() - at,
{
    if at == ranked.len() {
        assert(ranked.push(entry) =~= ranked.insert(at, entry));
    } else {
        let front = ranked.drop_last();
        lemma_placed_is_insert(front, entry, at);
        assert(front.insert(at, entry).push(ranked.last()) =~= ranked.insert(at, entry));
    }
}

/// Putting an entry in its place adds one entry and its count.
pub proof fn lemma_placed_total<T>(ranked: Seq<(T, usize)>, entry: (T, usize))
    ensures
        placed(ranked, entry).len() == ranked.len() + 1,
        total_count(placed(ranked, entry)) == total_count(ranked) + entry.1,
    decreases ranked.len(),
{
    if ranked.len() == 0 || ranked.last().1 >= entry.1 {
        assert(ranked.push(entry).drop_last() =~= ranked);
    } else {
        let front = placed(ranked.drop_last(), entry);
        lemma_placed_total(ranked.drop_last(), entry);
        assert(front.push(ranked.last()).drop_last() =~= front);
    }
}

/// Putting an entry in its place keeps a descending sequence descending.
pub proof fn lemma_placed_descending<T>(ranked: Seq<(T, usize)>, entry: (T, usize))
    requires
        descending(ranked),
    ensures
        descending(placed(ranked, entry)),
        forall|i: int|
            0 <= i < placed(ranked, entry).len() ==> (#[trigger] placed(ranked, entry)[i]
                == entry || ranked.contains(placed(ranked, entry)[i])),
    decreases ranked.len(),
{
    let out = placed(ranked, entry);
    if ranked.len() == 0 || ranked.last().1 >= entry.1 {
        assert forall|i: int| 0 <= i < out.len() implies (#[trigger] out[i] == entry
            || ranked.contains(out[i])) by {
            if i < ranked.len() {
                assert(ranked[i] == out[i]);
            }
        }
    } else {
        let front = ranked.drop_last();
        let inner = placed(front, entry);
        lemma_placed_descending(front, entry);
        lemma_placed_total(front, entry);
        assert forall|i: int| 0 <= i < out.len() implies (#[trigger] out[i] == entry
            || ranked.contains(out[i])) by {
            if i < inner.len() {
                assert(out[i] == inner[i]);
                if inner[i] != entry {
                    let k = choose|k: int| 0 <= k < front.len() && front[k] == inner[i];
                    assert(ranked[k] == out[i]);
                }
            } else {
                assert(ranked[ranked.len() - 1] == out[i]);
            }
        }
        assert forall|i: int, j: int| 0 <= i < j < out.len() implies out[i].1 >= out[j].1 by {
            if j < inner.len() {
                assert(out[i] == inner[i] && out[j] == inner[j]);
            } else {
                assert(out[i] == inner[i]);
                if inner[i] != entry {
                    let k = choose|k: int| 0 <= k < front.len() && front[k] == inner[i];
                    assert(ranked[k].1 >= ranked[ranked.len() - 1].1);
                }
            }
        }
    }
}

/// Putting an entry in its place puts it last among those of its count and
/// leaves the order of all the others as it was.
pub proof fn lemma_placed_with_count<T>(ranked: Seq<(T, usize)>, entry: (T, usize), count: usize)
    ensures
        with_count(placed(ranked, entry), count) == with_count(ranked.push(entry), count),
    decreases ranked.len(),
{
    if ranked.len() == 0 || ranked.last().1 >= entry.1 {
    } else {
        let front = ranked.drop_last();
        let inner = placed(front, entry);
        let last = ranked.last();
        lemma_placed_with_count(front, entry, count);
        assert(inner.push(last).drop_last() =~= inner);
        assert(inner.push(last).last() == last);
        assert(front.push(entry).drop_last() =~= front);
        assert(front.push(entry).last() == entry);
        assert(ranked.push(entry).drop_last() =~= ranked);
        assert(ranked.push(entry).last() == entry);
        assert(with_count(inner, count) == if entry.1 == count {
            with_count(front, count).push(entry)
        } else {
            with_count(front, count)
        });
        assert(with_count(ranked, count) == if last.1 == count {
            with_count(front, count).push(last)
        } else {
            with_count(front, count)
        });
    }
}

/// Putting an entry with a count of at least 1 in its place among such
/// entries leaves every count at least 1.
pub proof fn lemma_placed_positive<T>(ranked: Seq<(T, usize)>, entry: (T, usize))
    requires
        positive(ranked),
        entry.1 >= 1,
    ensures
        positive(placed(ranked, entry)),
    decreases ranked.len(),
{
    let out = placed(ranked, entry);
    if ranked.len() == 0 || ranked.last().1 >= entry.1 {
        assert forall|k: int| 0 <= k < out.len() implies (#[trigger] out[k]).1 >= 1 by {
            if k < ranked.len() {
                assert(out[k] == ranked[k]);
            }
        }
    } else {
        let front = ranked.drop_last();
        let inner = placed(front, entry);
        assert forall|k: int| 0 <= k < front.len() implies (#[trigger] front[k]).1 >= 1 by {
            assert(front[k] == ranked[k]);
        }
        lemma_placed_positive(front, entry);
        lemma_placed_total(front, entry);
        assert forall|k: int| 0 <= k < out.len() implies (#[trigger] out[k]).1 >= 1 by {
            if k < inner.len() {
                assert(out[k] == inner[k]);
            } else {
                assert(out[k] == ranked[ranked.len() - 1]);
            }
        }
    }
}

/// Ranking entries whose counts are at least 1 leaves every count at least
/// 1.
pub proof fn lemma_ranked_positive<T>(entries: Seq<(T, usize)>)
    requires
        positive(entries),
    ensures
        positive(ranked(entries)),
    decreases entries.len(),
{
    if entries.len() > 0 {
        let front = entries.drop_last();
        assert forall|k: int| 0 <= k < front.len() implies (#[trigger] front[k]).1 >= 1 by {
            assert(front[k] == entries[k]);
        }
        assert(entries[entries.len() - 1].1 >= 1);
        lemma_ranked_positive(front);
        lemma_placed_positive(ranked(front), entries.last());
    }
}

/// Ranking keeps the number of entries and the sum of their counts.
pub proof fn lemma_ranked_total<T>(entries: Seq<(T, usize)>)
    ensures
        ranked(entries).len() == entries.len(),
        total_count(ranked(entries)) == total_count(entries),
    decreases entries.len(),
{
    if entries.len() > 0 {
        lemma_ranked_total(entries.drop_last());
        lemma_placed_total(ranked(entries.drop_last()), entries.last());
    }
}

/// A ranked sequence is in descending order of count.
pub proof fn lemma_ranked_descending<T>(entries: Seq<(T, usize)>)
    ensures
        descending(ranked(entries)),
    decreases entries.len(),
{
    if entries.len() > 0 {
        lemma_ranked_descending(entries.drop_last());
        lemma_placed_descending(ranked(entries.drop_last()), entries.last());
    }
}

/// Ranking is stable: the entries of any one count come out in the order in
/// which they went in. With the descending order this fixes the whole
/// result, and it makes the result a rearrangement of the input.
pub proof fn lemma_ranked_stable<T>(entries: Seq<(T, usize)>, count: usize)
    ensures
        with_count(ranked(entries), count) == with_count(entries, count),
    decreases entries.len(),
{
    if entries.len() > 0 {
        let front = entries.drop_last();
        lemma_ranked_stable(front, count);
        lemma_placed_with_count(ranked(front), entries.last(), count);
        assert(ranked(front).push(entries.last()).drop_last() =~= ranked(front));
    }
}

/// Orders `entries` by descending count. Entries of equal count keep the
/// order in which they came.
pub fn sort_by_count<T: Copy>(entries: Vec<(T, usize)>) -> (sorted: Vec<(T, usize)>)
    ensures
        sorted@ == ranked(entries@),
        sorted@.len() == entries@.len(),
        descending(sorted@),
        total_count(sorted@) == total_count(entries@),
        positive(entries@) ==> positive(sorted@),
{
    let mut sorted: Vec<(T, usize)> = Vec::new();
    let mut i: usize = 0;
    while i < entries.len()
        invariant
            i <= entries.len(),
            sorted@ == ranked(entries@.take(i as int)),
            sorted@.len() == i,
        decreases entries.len() - i,
    {
        let entry = entries[i];
        let mut at: usize = sorted.len();
        while at > 0 && sorted[at - 1].1 < entry.1
            invariant
                at <= sorted.len(),
                forall|k: int| at <= k < sorted.len() ==> sorted@[k].1 < entry.1,
            decreases at,
        {
            at -= 1;
        }
        proof {
            lemma_placed_is_insert(sorted@, entry, at as int);
            assert(entries@.take(i + 1).drop_last() =~= entries@.take(i as int));
        }
        sorted.insert(at, entry);
        i += 1;
    }
    proof {
        assert(entries@.take(i as int) =~= entries@);
        lemma_ranked_total(entries@);
        lemma_ranked_descending(entries@);
        if positive(entries@) {
            lemma_ranked_positive(entries@);
        }
    }
    sorted
}

} // verus!
