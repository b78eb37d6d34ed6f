//! Counting how often each colour of a quantized palette occurs.
//!
//! The occurrences are counted in an ordered map, each colour under a key
//! that orders the colours by red, then green, then blue. The entries of the
//! map, taken in its order, are the tally.

use vstd::prelude::*;
use vstd::std_specs::btree::{
    axiom_increasing_seq_meaning, axiom_spec_btree_map_iter, increasing_seq,
};
use vstd::std_specs::cmp::OrdSpec;
use vstd::std_specs::iter::IteratorSpec;

use lab::Lab;
use std::collections::BTreeMap;

use crate::color::lab_of_rgb;
use crate::rank::{
    descending, lemma_count_within_total, lemma_ranked_descending, lemma_ranked_positive,
    lemma_ranked_total, lemma_total_covers_len, positive, ranked, sort_by_count, total_count,
};

verus! {

/// Whether `a` comes before `b` in the order of colours: by red, then by
/// green, then by blue.
pub open spec fn precedes(a: [u8; 3], b: [u8; 3]) -> bool {
    a[0] < b[0] || (a[0] == b[0] && (a[1] < b[1] || (a[1] == b[1] && a[2] < b[2])))
}

/// How often `color` occurs in `colors`.
pub open spec fn occurrences(colors: Seq<[u8; 3]>, color: [u8; 3]) -> nat
    decreases colors.len(),
{
    if colors.len() == 0 {
        0
    } else if colors.last() == color {
        occurrences(colors.drop_last(), color) + 1
    } else {
        occurrences(colors.drop_last(), color)
    }
}

/// Whether the colours of `tally` stand in strictly increasing order.
pub open spec fn increasing(tally: Seq<([u8; 3], usize)>) -> bool {
    forall|i: int, j: int| 0 <= i < j < tally.len() ==> precedes(tally[i].0, tally[j].0)
}

/// `tally` after one more occurrence of `color`: the count of its entry
/// grows by one, or, where it has none yet, it gets one with the count 1 at
/// its place in the order of colours.
pub open spec fn tallied(tally: Seq<([u8; 3], usize)>, color: [u8; 3]) -> Seq<([u8; 3], usize)>
    decreases tally.len(),
{
    if tally.len() == 0 {
        seq![(color, 1usize)]
    } else if precedes(color, tally.last().0) {
        tallied(tally.drop_last(), color).push(tally.last())
    } else if tally.last().0 == color {
        tally.drop_last().push((color, (tally.last().1 + 1) as usize))
    } else {
        tally.push((color, 1usize))
    }
}

/// The distinct colours of `colors` in increasing order, each with the
/// number of its occurrences.
pub open spec fn tally_of(colors: Seq<[u8; 3]>) -> Seq<([u8; 3], usize)>
    decreases colors.len(),
{
    if colors.len() == 0 {
        Seq::empty()
    } else {
        tallied(tally_of(colors.drop_last()), colors.last())
    }
}

/// The entries of `tally` with each colour taken to L\*a\*b\*.
pub open spec fn as_lab(tally: Seq<([u8; 3], usize)>) -> Seq<(Lab, usize)> {
    Seq::new(tally.len(), |i: int| (lab_of_rgb(tally[i].0), tally[i].1))
}

/// The distinct colours of `colors` in L\*a\*b\*, each with the number of
/// its occurrences, the most frequent first. Colours that occur equally
/// often stand in increasing order of their RGB values.
pub open spec fn counted(colors: Seq<[u8; 3]>) -> Seq<(Lab, usize)> {
    ranked(as_lab(tally_of(colors)))
}

/// The count that `tally` holds for `color`, 0 where it has no entry for it.
pub open spec fn count_in(tally: Seq<([u8; 3], usize)>, color: [u8; 3]) -> nat
    decreases tally.len(),
{
    if tally.len() == 0 {
        0
    } else if tally.last().0 == color {
        tally.last().1 as nat
    } else {
        count_in(tally.drop_last(), color)
    }
}

/// The order of colours is strict and total.
pub proof fn lemma_precedes_order(a: [u8; 3], b: [u8; 3], c: [u8; 3])
    ensures
        !precedes(a, a),
        precedes(a, b) && precedes(b, c) ==> precedes(a, c),
        precedes(a, b) || precedes(b, a) || a == b,
{
    if !precedes(a, b) && !precedes(b, a) {
        assert(a =~= b);
    }
}

/// A colour that no entry holds has the count 0, and a colour with a count
/// above 0 has an entry.
proof fn lemma_count_in_entry(tally: Seq<([u8; 3], usize)>, color: [u8; 3])
    ensures
        (forall|k: int| 0 <= k < tally.len() ==> (#[trigger] tally[k]).0 != color) ==> count_in(
            tally,
            color,
        ) == 0,
        count_in(tally, color) > 0 ==> exists|k: int|
            0 <= k < tally.len() && (#[trigger] tally[k]).0 == color,
    decreases tally.len(),
{
    if tally.len() > 0 {
        let front = tally.drop_last();
        lemma_count_in_entry(front, color);
        if tally.last().0 == color {
            assert(tally[tally.len() - 1].0 == color);
        } else {
            if forall|k: int| 0 <= k < tally.len() ==> (#[trigger] tally[k]).0 != color {
                assert forall|k: int| 0 <= k < front.len() implies (#[trigger] front[k]).0
                    != color by {
                    assert(tally[k] == front[k]);
                }
            }
            if count_in(tally, color) > 0 {
                let k = choose|k: int| 0 <= k < front.len() && (#[trigger] front[k]).0 == color;
                assert(tally[k] == front[k]);
            }
        }
    }
}

/// In an increasing tally every entry holds the count of its own colour.
proof fn lemma_count_in_own(tally: Seq<([u8; 3], usize)>, at: int)
    requires
        increasing(tally),
        0 <= at < tally.len(),
    ensures
        count_in(tally, tally[at].0) == tally[at].1,
    decreases tally.len(),
{
    if at < tally.len() - 1 {
        let front = tally.drop_last();
        lemma_precedes_order(tally[at].0, tally[at].0, tally[at].0);
        assert(precedes(tally[at].0, tally.last().0));
        assert forall|i: int, j: int| 0 <= i < j < front.len() implies precedes(
            front[i].0,
            front[j].0,
        ) by {
            assert(front[i] == tally[i] && front[j] == tally[j]);
        }
        lemma_count_in_own(front, at);
    }
}

/// One more occurrence keeps an increasing tally increasing, raises the
/// count of the colour by one and leaves every other count as it was.
proof fn lemma_tallied(tally: Seq<([u8; 3], usize)>, color: [u8; 3])
    requires
        increasing(tally),
        forall|k: int| 0 <= k < tally.len() ==> 1 <= (#[trigger] tally[k]).1 < usize::MAX,
    ensures
        increasing(tallied(tally, color)),
        forall|k: int|
            0 <= k < tallied(tally, color).len() ==> (#[trigger] tallied(tally, color)[k]).1 >= 1,
        forall|k: int|
            0 <= k < tallied(tally, color).len() ==> ((#[trigger] tallied(tally, color)[k]).0
                == color || exists|j: int|
                0 <= j < tally.len() && (#[trigger] tally[j]).0 == tallied(tally, color)[k].0),
        forall|other: [u8; 3]|
            count_in(tallied(tally, color), other) == #[trigger] count_in(tally, other) + (
            if other == color {
                1nat
            } else {
                0nat
            }),
    decreases tally.len(),
{
    let out = tallied(tally, color);
    if tally.len() == 0 {
        assert(out.drop_last() =~= Seq::empty());
        assert(out.last() == (color, 1usize));
        assert forall|other: [u8; 3]|
            count_in(out, other) == #[trigger] count_in(tally, other) + (if other == color {
                1nat
            } else {
                0nat
            }) by {
            assert(count_in(out.drop_last(), other) == 0);
        }
    } else {
        let front = tally.drop_last();
        let last = tally.last();
        assert forall|i: int, j: int| 0 <= i < j < front.len() implies precedes(
            front[i].0,
            front[j].0,
        ) by {
            assert(front[i] == tally[i] && front[j] == tally[j]);
        }
        assert forall|k: int| 0 <= k < front.len() implies 1 <= (#[trigger] front[k]).1
            < usize::MAX by {
            assert(front[k] == tally[k]);
        }
        if precedes(color, last.0) {
            let inner = tallied(front, color);
            lemma_tallied(front, color);
            assert(out.drop_last() =~= inner);
            assert(out.last() == last);
            lemma_precedes_order(color, color, color);
            assert forall|k: int| 0 <= k < out.len() implies ((#[trigger] out[k]).0 == color
                || exists|j: int| 0 <= j < tally.len() && (#[trigger] tally[j]).0 == out[k].0) by {
                if k < inner.len() {
                    assert(out[k] == inner[k]);
                    if inner[k].0 != color {
                        let j = choose|j: int|
                            0 <= j < front.len() && (#[trigger] front[j]).0 == inner[k].0;
                        assert(tally[j] == front[j]);
                    }
                } else {
                    assert(tally[tally.len() - 1].0 == out[k].0);
                }
            }
            assert forall|i: int, j: int| 0 <= i < j < out.len() implies precedes(
                out[i].0,
                out[j].0,
            ) by {
                assert(out[i] == inner[i]);
                if j < inner.len() {
                    assert(out[j] == inner[j]);
                } else if inner[i].0 != color {
                    let m = choose|m: int|
                        0 <= m < front.len() && (#[trigger] front[m]).0 == inner[i].0;
                    assert(tally[m] == front[m]);
                    assert(precedes(tally[m].0, tally[tally.len() - 1].0));
                }
            }
            assert forall|k: int| 0 <= k < out.len() implies (#[trigger] out[k]).1 >= 1 by {
                if k < inner.len() {
                    assert(out[k] == inner[k]);
                } else {
                    assert(out[k] == tally[tally.len() - 1]);
                }
            }
            assert forall|other: [u8; 3]|
                count_in(out, other) == #[trigger] count_in(tally, other) + (if other == color {
                    1nat
                } else {
                    0nat
                }) by {
                if last.0 != other {
                    assert(count_in(inner, other) == count_in(front, other) + (if other
                        == color {
                        1nat
                    } else {
                        0nat
                    }));
                }
            }
        } else if last.0 == color {
            let bumped = (color, (last.1 + 1) as usize);
            assert(tally[tally.len() - 1] == last);
            assert(out.drop_last() =~= front);
            assert(out.last() == bumped);
            assert forall|k: int| 0 <= k < out.len() implies ((#[trigger] out[k]).0 == color
                || exists|j: int| 0 <= j < tally.len() && (#[trigger] tally[j]).0 == out[k].0) by {
                if k < front.len() {
                    assert(out[k] == tally[k]);
                }
            }
            assert forall|i: int, j: int| 0 <= i < j < out.len() implies precedes(
                out[i].0,
                out[j].0,
            ) by {
                assert(out[i] == tally[i]);
                if j < front.len() {
                    assert(out[j] == tally[j]);
                }
            }
            assert forall|k: int| 0 <= k < out.len() implies (#[trigger] out[k]).1 >= 1 by {
                if k < front.len() {
                    assert(out[k] == tally[k]);
                }
            }
            assert forall|other: [u8; 3]|
                count_in(out, other) == #[trigger] count_in(tally, other) + (if other == color {
                    1nat
                } else {
                    0nat
                }) by {
                assert(count_in(tally, other) == if last.0 == other {
                    last.1 as nat
                } else {
                    count_in(front, other)
                });
            }
        } else {
            let fresh = (color, 1usize);
            lemma_precedes_order(color, last.0, color);
            assert(out.drop_last() =~= tally);
            assert(out.last() == fresh);
            assert forall|k: int| 0 <= k < tally.len() implies precedes(
                (#[trigger] tally[k]).0,
                color,
            ) by {
                lemma_precedes_order(tally[k].0, last.0, color);
                if k < tally.len() - 1 {
                    assert(precedes(tally[k].0, tally[tally.len() - 1].0));
                }
            }
            assert forall|k: int| 0 <= k < tally.len() implies (#[trigger] tally[k]).0
                != color by {
                lemma_precedes_order(color, color, color);
            }
            lemma_count_in_entry(tally, color);
            assert forall|k: int| 0 <= k < out.len() implies ((#[trigger] out[k]).0 == color
                || exists|j: int| 0 <= j < tally.len() && (#[trigger] tally[j]).0 == out[k].0) by {
                if k < tally.len() {
                    assert(out[k] == tally[k]);
                }
            }
            assert forall|i: int, j: int| 0 <= i < j < out.len() implies precedes(
                out[i].0,
                out[j].0,
            ) by {
                assert(out[i] == tally[i]);
                if j < tally.len() {
                    assert(out[j] == tally[j]);
                }
            }
            assert forall|k: int| 0 <= k < out.len() implies (#[trigger] out[k]).1 >= 1 by {
                if k < tally.len() {
                    assert(out[k] == tally[k]);
                }
            }
            assert forall|other: [u8; 3]|
                count_in(out, other) == #[trigger] count_in(tally, other) + (if other == color {
                    1nat
                } else {
                    0nat
                }) by {
                assert(count_in(out, other) == if other == color {
                    1nat
                } else {
                    count_in(tally, other)
                });
            }
        }
    }
}

/// One more occurrence adds one to the sum of the counts.
proof fn lemma_tallied_total(tally: Seq<([u8; 3], usize)>, color: [u8; 3])
    requires
        forall|k: int| 0 <= k < tally.len() ==> (#[trigger] tally[k]).1 < usize::MAX,
    ensures
        total_count(tallied(tally, color)) == total_count(tally) + 1,
    decreases tally.len(),
{
    let out = tallied(tally, color);
    if tally.len() == 0 {
        assert(out.drop_last() =~= Seq::empty());
        assert(out.last() == (color, 1usize));
        assert(total_count(out.drop_last()) == 0);
    } else {
        let front = tally.drop_last();
        let last = tally.last();
        assert(tally[tally.len() - 1] == last);
        if precedes(color, last.0) {
            assert forall|k: int| 0 <= k < front.len() implies (#[trigger] front[k]).1
                < usize::MAX by {
                assert(front[k] == tally[k]);
            }
            lemma_tallied_total(front, color);
            assert(out.drop_last() =~= tallied(front, color));
        } else if last.0 == color {
            assert(out.drop_last() =~= front);
        } else {
            assert(out.drop_last() =~= tally);
        }
    }
}

/// What the tally of a sequence of colours holds, stated with `count_in`.
proof fn lemma_tally_of_counts(colors: Seq<[u8; 3]>)
    requires
        colors.len() <= usize::MAX,
    ensures
        increasing(tally_of(colors)),
        total_count(tally_of(colors)) == colors.len(),
        forall|k: int| 0 <= k < tally_of(colors).len() ==> (#[trigger] tally_of(colors)[k]).1 >= 1,
        forall|color: [u8; 3]| #[trigger]
            count_in(tally_of(colors), color) == occurrences(colors, color),
    decreases colors.len(),
{
    if colors.len() > 0 {
        let front = colors.drop_last();
        let tally = tally_of(front);
        lemma_tally_of_counts(front);
        assert forall|k: int| 0 <= k < tally.len() implies 1 <= (#[trigger] tally[k]).1
            < usize::MAX by {
            lemma_count_within_total(tally, k);
        }
        lemma_tallied(tally, colors.last());
        lemma_tallied_total(tally, colors.last());
        assert forall|color: [u8; 3]| #[trigger]
            count_in(tally_of(colors), color) == occurrences(colors, color) by {
            assert(count_in(tally, color) == occurrences(front, color));
        }
    }
}

/// The tally of a sequence of colours holds each colour that occurs in it
/// once, in strictly increasing order, with the number of its occurrences,
/// and holds no other colour. Its counts sum to the number of colours that
/// were counted.
pub proof fn lemma_tally_of(colors: Seq<[u8; 3]>)
    requires
        colors.len() <= usize::MAX,
    ensures
        increasing(tally_of(colors)),
        total_count(tally_of(colors)) == colors.len(),
        forall|k: int|
            0 <= k < tally_of(colors).len() ==> 1 <= (#[trigger] tally_of(colors)[k]).1
                == occurrences(colors, tally_of(colors)[k].0),
        forall|color: [u8; 3]| #[trigger]
            occurrences(colors, color) > 0 ==> exists|k: int|
                0 <= k < tally_of(colors).len() && (#[trigger] tally_of(colors)[k]).0 == color,
{
    let tally = tally_of(colors);
    lemma_tally_of_counts(colors);
    assert forall|k: int| 0 <= k < tally.len() implies 1 <= (#[trigger] tally[k]).1
        == occurrences(colors, tally[k].0) by {
        lemma_count_in_own(tally, k);
        assert(count_in(tally, tally[k].0) == occurrences(colors, tally[k].0));
    }
    assert forall|color: [u8; 3]| #[trigger] occurrences(colors, color) > 0 implies exists|k: int|
        0 <= k < tally.len() && (#[trigger] tally[k]).0 == color by {
        assert(count_in(tally, color) == occurrences(colors, color));
        lemma_count_in_entry(tally, color);
    }
}

/// Taking the colours to L\*a\*b\* keeps the counts.
pub proof fn lemma_as_lab_total(tally: Seq<([u8; 3], usize)>)
    ensures
        as_lab(tally).len() == tally.len(),
        total_count(as_lab(tally)) == total_count(tally),
    decreases tally.len(),
{
    if tally.len() > 0 {
        lemma_as_lab_total(tally.drop_last());
        assert(as_lab(tally).drop_last() =~= as_lab(tally.drop_last()));
    }
}

/// Counting a palette loses no colour: the counts sum to its length.
pub proof fn lemma_counted_total(colors: Seq<[u8; 3]>)
    requires
        colors.len() <= usize::MAX,
    ensures
        total_count(counted(colors)) == colors.len(),
        counted(colors).len() <= colors.len(),
        descending(counted(colors)),
        positive(counted(colors)),
{
    lemma_tally_of(colors);
    lemma_total_covers_len(tally_of(colors));
    lemma_as_lab_total(tally_of(colors));
    lemma_ranked_positive(as_lab(tally_of(colors)));
    lemma_ranked_total(as_lab(tally_of(colors)));
    lemma_ranked_descending(as_lab(tally_of(colors)));
}

/// The number of RGB values, and so of keys.
pub const KEYS: u32 = 0x100_0000;

/// The key under which `color` is counted: its three channels as one
/// number, red first. Keys are ordered as the colours are.
pub open spec fn key_of(color: [u8; 3]) -> u32 {
    (color[0] as int * 65536 + color[1] as int * 256 + color[2] as int) as u32
}

/// The colour that is counted under `key`.
pub open spec fn color_of(key: u32) -> [u8; 3] {
    [(key / 65536) as u8, (key / 256 % 256) as u8, (key % 256) as u8]
}

/// Whether `counts` holds, under its key, the number of occurrences of each
/// colour that occurs in `colors`, and nothing else.
pub open spec fn tallies(counts: Map<u32, usize>, colors: Seq<[u8; 3]>) -> bool {
    &&& forall|key: u32| #[trigger]
        counts.contains_key(key) ==> key < KEYS && 1 <= counts[key] == occurrences(
            colors,
            color_of(key),
        )
    &&& forall|color: [u8; 3]|
        occurrences(colors, color) > 0 ==> counts.contains_key(#[trigger] key_of(color))
}

/// Keys and colours stand for each other, and the order of keys is the
/// order of colours.
pub proof fn lemma_keys(color: [u8; 3], other: [u8; 3], key: u32)
    ensures
        key_of(color) < KEYS,
        color_of(key_of(color)) == color,
        key < KEYS ==> key_of(color_of(key)) == key,
        precedes(color, other) <==> key_of(color) < key_of(other),
{
    assert(color_of(key_of(color)) =~= color);
}

/// A colour occurs no more often than there are colours.
pub proof fn lemma_occurrences_bound(colors: Seq<[u8; 3]>, color: [u8; 3])
    ensures
        occurrences(colors, color) <= colors.len(),
    decreases colors.len(),
{
    if colors.len() > 0 {
        lemma_occurrences_bound(colors.drop_last(), color);
    }
}

/// Two tallies in increasing order that hold the same count for every
/// colour, and no count below 1, are the same.
pub proof fn lemma_tally_unique(first: Seq<([u8; 3], usize)>, second: Seq<([u8; 3], usize)>)
    requires
        increasing(first),
        increasing(second),
        positive(first),
        positive(second),
        forall|color: [u8; 3]| count_in(first, color) == count_in(second, color),
    ensures
        first == second,
    decreases first.len(),
{
    if first.len() == 0 {
        if second.len() > 0 {
            assert(second[second.len() - 1].1 >= 1);
            assert(count_in(first, second.last().0) == count_in(second, second.last().0));
        }
        assert(first =~= second);
    } else {
        let a = first.last();
        assert(first[first.len() - 1].1 >= 1);
        assert(count_in(first, a.0) == count_in(second, a.0));
        lemma_count_in_entry(second, a.0);
        let b = second.last();
        assert(second[second.len() - 1].1 >= 1);
        assert(count_in(first, b.0) == count_in(second, b.0));
        lemma_count_in_entry(first, b.0);
        if a.0 != b.0 {
            let k = choose|k: int| 0 <= k < second.len() && (#[trigger] second[k]).0 == a.0;
            let m = choose|m: int| 0 <= m < first.len() && (#[trigger] first[m]).0 == b.0;
            assert(precedes(second[k].0, second[second.len() - 1].0));
            assert(precedes(first[m].0, first[first.len() - 1].0));
            lemma_precedes_order(a.0, b.0, a.0);
        }
        let front = first.drop_last();
        let other = second.drop_last();
        assert forall|i: int, j: int| 0 <= i < j < front.len() implies precedes(
            front[i].0,
            front[j].0,
        ) by {
            assert(front[i] == first[i] && front[j] == first[j]);
        }
        assert forall|i: int, j: int| 0 <= i < j < other.len() implies precedes(
            other[i].0,
            other[j].0,
        ) by {
            assert(other[i] == second[i] && other[j] == second[j]);
        }
        assert forall|k: int| 0 <= k < front.len() implies (#[trigger] front[k]).1 >= 1 by {
            assert(front[k] == first[k]);
        }
        assert forall|k: int| 0 <= k < other.len() implies (#[trigger] other[k]).1 >= 1 by {
            assert(other[k] == second[k]);
        }
        assert forall|color: [u8; 3]| count_in(front, color) == count_in(other, color) by {
            if color == a.0 {
                assert forall|k: int| 0 <= k < front.len() implies (#[trigger] front[k]).0
                    != color by {
                    assert(front[k] == first[k]);
                    assert(precedes(first[k].0, first[first.len() - 1].0));
                    lemma_precedes_order(color, color, color);
                }
                assert forall|k: int| 0 <= k < other.len() implies (#[trigger] other[k]).0
                    != color by {
                    assert(other[k] == second[k]);
                    assert(precedes(second[k].0, second[second.len() - 1].0));
                    lemma_precedes_order(color, color, color);
                }
                lemma_count_in_entry(front, color);
                lemma_count_in_entry(other, color);
            } else {
                assert(count_in(first, color) == count_in(second, color));
            }
        }
        lemma_tally_unique(front, other);
        assert(first =~= front.push(a));
        assert(second =~= other.push(b));
    }
}

/// A sequence of keys that an ordered map gives in its order is strictly
/// increasing.
proof fn lemma_keys_increase(keys: Seq<u32>)
    requires
        increasing_seq(keys),
    ensures
        forall|i: int, j: int| 0 <= i < j < keys.len() ==> keys[i] < keys[j],
{
    axiom_increasing_seq_meaning::<u32>(keys);
    assert forall|i: int, j: int| 0 <= i < j < keys.len() implies keys[i] < keys[j] by {
        assert(keys[i].cmp_spec(&keys[j]) is Less);
    }
}

/// The key under which `color` is counted.
pub fn color_key(color: &[u8; 3]) -> (key: u32)
    ensures
        key == key_of(*color),
        key < KEYS,
{
    (color[0] as u32) * 65536 + (color[1] as u32) * 256 + (color[2] as u32)
}

/// The colour that is counted under `key`.
pub fn key_color(key: u32) -> (color: [u8; 3])
    requires
        key < KEYS,
    ensures
        color == color_of(key),
{
    let color: [u8; 3] = [(key / 65536) as u8, (key / 256 % 256) as u8, (key % 256) as u8];
    proof {
        assert(color =~= color_of(key));
    }
    color
}

/// Counts the occurrences of each colour of `colors` under its key.
pub fn count_keys(colors: &Vec<[u8; 3]>) -> (counts: BTreeMap<u32, usize>)
    ensures
        tallies(counts@, colors@),
{
    let mut counts: BTreeMap<u32, usize> = BTreeMap::new();
    let mut i: usize = 0;
    while i < colors.len()
        invariant
            i <= colors.len(),
            tallies(counts@, colors@.take(i as int)),
        decreases colors.len() - i,
    {
        let color = colors[i];
        let key = color_key(&color);
        let ghost before = colors@.take(i as int);
        let ghost after = colors@.take(i + 1);
        let ghost earlier = counts@;
        proof {
            lemma_keys(color, color, key);
            lemma_occurrences_bound(before, color);
            assert(after.drop_last() =~= before);
            assert(after.last() == color);
        }
        let count: usize = match counts.get(&key) {
            Some(count) => *count + 1,
            None => 1,
        };
        counts.insert(key, count);
        proof {
            assert forall|k: u32| #[trigger] counts@.contains_key(k) implies k < KEYS && 1
                <= counts@[k] == occurrences(after, color_of(k)) by {
                if k != key {
                    assert(earlier.contains_key(k));
                    lemma_keys(color, color, k);
                }
            }
            assert forall|other: [u8; 3]| occurrences(after, other) > 0 implies counts@.contains_key(
                #[trigger] key_of(other),
            ) by {
                if other != color {
                    assert(earlier.contains_key(key_of(other)));
                }
            }
        }
        i += 1;
    }
    proof {
        assert(colors@.take(i as int) =~= colors@);
    }
    counts
}

/// Counts how often each colour occurs in `colors`. The distinct colours
/// come back in increasing order.
pub fn tally_colors(colors: &Vec<[u8; 3]>) -> (tally: Vec<([u8; 3], usize)>)
    ensures
        tally@ == tally_of(colors@),
        total_count(tally@) == colors@.len(),
{
    let counts = count_keys(colors);
    let mut tally: Vec<([u8; 3], usize)> = Vec::new();
    let iter = counts.iter();
    let ghost items = iter.remaining();
    proof {
        axiom_spec_btree_map_iter(&counts);
        let keys = items.map_values(|kv: (&u32, &usize)| *kv.0);
        lemma_keys_increase(keys);
        assert forall|i: int, j: int| 0 <= i < j < items.len() implies *items[i].0
            < *items[j].0 by {
            assert(keys[i] == *items[i].0 && keys[j] == *items[j].0);
        }
    }
    for kv in it: iter
        invariant
            it.seq() == items,
            tally@.len() == it.index(),
            tallies(counts@, colors@),
            forall|i: int, j: int| 0 <= i < j < items.len() ==> *items[i].0 < *items[j].0,
            forall|key: u32|
                counts@.contains_key(key) ==> items.contains((&key, &counts@[key])),
            forall|j: int|
                0 <= j < items.len() ==> counts@.contains_key(*(#[trigger] items[j]).0)
                    && counts@[*items[j].0] == *items[j].1,
            forall|j: int|
                0 <= j < tally@.len() ==> #[trigger] tally@[j] == (
                    color_of(*items[j].0),
                    *items[j].1,
                ),
    {
        let key = *kv.0;
        tally.push((key_color(key), *kv.1));
    }
    proof {
        assert(colors@.len() == colors.len());
        lemma_entries_tally(counts@, colors@, items, tally@);
    }
    tally
}

/// The entries of an ordered map that tallies `colors`, taken in its order
/// with each key turned into its colour, are the tally of `colors`.
proof fn lemma_entries_tally(
    counts: Map<u32, usize>,
    colors: Seq<[u8; 3]>,
    items: Seq<(&u32, &usize)>,
    tally: Seq<([u8; 3], usize)>,
)
    requires
        colors.len() <= usize::MAX,
        tallies(counts, colors),
        tally.len() == items.len(),
        forall|i: int, j: int| 0 <= i < j < items.len() ==> *items[i].0 < *items[j].0,
        forall|j: int|
            0 <= j < items.len() ==> counts.contains_key(*(#[trigger] items[j]).0)
                && counts[*items[j].0] == *items[j].1,
        forall|key: u32| counts.contains_key(key) ==> items.contains((&key, &counts[key])),
        forall|j: int|
            0 <= j < tally.len() ==> #[trigger] tally[j] == (color_of(*items[j].0), *items[j].1),
    ensures
        tally == tally_of(colors),
        total_count(tally) == colors.len(),
{
    assert forall|i: int, j: int| 0 <= i < j < tally.len() implies precedes(
        tally[i].0,
        tally[j].0,
    ) by {
        lemma_keys(tally[i].0, tally[j].0, *items[i].0);
        lemma_keys(tally[j].0, tally[i].0, *items[j].0);
        assert(counts.contains_key(*items[i].0) && counts.contains_key(*items[j].0));
    }
    assert forall|k: int| 0 <= k < tally.len() implies (#[trigger] tally[k]).1 >= 1 by {
        assert(counts.contains_key(*items[k].0));
    }
    lemma_tally_of_counts(colors);
    assert forall|color: [u8; 3]| count_in(tally, color) == count_in(
        tally_of(colors),
        color,
    ) by {
        assert(count_in(tally_of(colors), color) == occurrences(colors, color));
        if occurrences(colors, color) > 0 {
            let key = key_of(color);
            assert(counts.contains_key(key));
            assert(items.contains((&key, &counts[key])));
            let j = choose|j: int| 0 <= j < items.len() && items[j] == (&key, &counts[key]);
            lemma_keys(color, color, key);
            assert(tally[j].0 == color);
            lemma_count_in_own(tally, j);
        } else {
            assert forall|k: int| 0 <= k < tally.len() implies (#[trigger] tally[k]).0
                != color by {
                assert(counts.contains_key(*items[k].0));
            }
            lemma_count_in_entry(tally, color);
        }
    }
    lemma_tally_unique(tally, tally_of(colors));
}

/// Maps each distinct colour of the passed palette, taken to L\*a\*b\*, to
/// the number of times that it occurs there, the most frequent colour
/// first. Colours that occur equally often come in increasing order of
/// their RGB values. The counts sum to the length of the palette.
pub fn count_colors_as_lab(pixels: Vec<[u8; 3]>) -> (palette: Vec<(Lab, usize)>)
    ensures
        palette@ == counted(pixels@),
        descending(palette@),
        positive(palette@),
        total_count(palette@) == pixels@.len(),
{
    let tally = tally_colors(&pixels);
    let mut colors: Vec<(Lab, usize)> = Vec::new();
    let mut i: usize = 0;
    while i < tally.len()
        invariant
            i <= tally.len(),
            colors@ == as_lab(tally@.take(i as int)),
        decreases tally.len() - i,
    {
        let (rgb, count) = tally[i];
        colors.push((Lab::from_rgb(&rgb), count));
        proof {
            assert(colors@ =~= as_lab(tally@.take(i + 1)));
        }
        i += 1;
    }
    proof {
        assert(tally@.take(i as int) =~= tally@);
        lemma_as_lab_total(tally@);
        assert(pixels@.len() == pixels.len());
        lemma_counted_total(pixels@);
    }
    sort_by_count(colors)
}

} // verus!
