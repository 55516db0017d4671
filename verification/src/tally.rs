//! Counting names, and finding the one that occurs most often.

use counter::Counter;
use vstd::prelude::*;

verus! {

/// How often `x` occurs in `items`.
pub open spec fn occurrences(items: Seq<Seq<char>>, x: Seq<char>) -> nat
    decreases items.len(),
{
    if items.len() == 0 {
        0
    } else {
        occurrences(items.drop_last(), x) + if items.last() == x {
            1nat
        } else {
            0nat
        }
    }
}

/// No name occurs in `items` more often than `x` does.
pub open spec fn most_common_in(items: Seq<Seq<char>>, x: Seq<char>) -> bool {
    forall|y: Seq<char>| occurrences(items, y) <= occurrences(items, x)
}

/// `x` is the first name in `items` that no other name outnumbers.
pub open spec fn first_most_common(items: Seq<Seq<char>>, x: Seq<char>) -> bool {
    exists|k: int|
        0 <= k < items.len() && #[trigger] items[k] == x && most_common_in(items, x) && forall|
            j: int,
        |
            0 <= j < k ==> !most_common_in(items, #[trigger] items[j])
}

/// A name occurs at least once exactly if the list holds it.
pub proof fn lemma_occurs_iff_held(items: Seq<Seq<char>>, x: Seq<char>)
    ensures
        occurrences(items, x) > 0 <==> items.contains(x),
    decreases items.len(),
{
    if items.len() > 0 {
        lemma_occurs_iff_held(items.drop_last(), x);
        if items.drop_last().contains(x) {
            let k = choose|k: int| 0 <= k < items.drop_last().len() && items.drop_last()[k] == x;
            assert(items[k] == x);
        }
        if items.contains(x) {
            let k = choose|k: int| 0 <= k < items.len() && items[k] == x;
            if k < items.len() - 1 {
                assert(items.drop_last()[k] == x);
            }
        }
    }
}

/// At most one name is the first most common one.
pub proof fn lemma_first_most_common_is_one(items: Seq<Seq<char>>, x: Seq<char>, y: Seq<char>)
    requires
        first_most_common(items, x),
        first_most_common(items, y),
    ensures
        x == y,
{
    let k = choose|k: int|
        0 <= k < items.len() && #[trigger] items[k] == x && most_common_in(items, x) && forall|
            j: int,
        |
            0 <= j < k ==> !most_common_in(items, #[trigger] items[j]);
    let m = choose|m: int|
        0 <= m < items.len() && #[trigger] items[m] == y && most_common_in(items, y) && forall|
            j: int,
        |
            0 <= j < m ==> !most_common_in(items, #[trigger] items[j]);
    if k < m {
        assert(!most_common_in(items, items[k]));
    } else if m < k {
        assert(!most_common_in(items, items[m]));
    }
}

/// Counts the names with `counter::Counter` and calls its `most_common`.
/// The crate documents the result as the pairs of a name and its count,
/// most common first, with the order among equal counts left open; each
/// name that was counted stands in it once.
#[verifier::external_body]
pub(crate) fn most_common(items: &Vec<String>) -> (r: Vec<(String, usize)>)
    ensures
        forall|i: int|
            0 <= i < r.len() ==> (#[trigger] r[i]).1 > 0 && r[i].1 == occurrences(
                items.deep_view(),
                r[i].0@,
            ),
        forall|i: int, j: int| 0 <= i < j < r.len() ==> (#[trigger] r[i]).1 >= (#[trigger] r[j]).1,
        forall|i: int, j: int| 0 <= i < j < r.len() ==> (#[trigger] r[i]).0@ != (#[trigger] r[j]).0@,
        forall|k: int|
            0 <= k < items.len() ==> exists|i: int|
                0 <= i < r.len() && (#[trigger] r[i]).0@ == (#[trigger] items[k])@,
{
    let counts: Counter<String> = items.iter().cloned().collect();
    counts.most_common()
}

/// The count that `counts` holds for `name`.
fn count_of(counts: &Vec<(String, usize)>, name: &String) -> (r: Option<usize>)
    ensures
        match r {
            Some(n) => exists|i: int| 0 <= i < counts.len() && (#[trigger] counts[i]).0@ == name@ && counts[i].1 == n,
            None => forall|i: int| 0 <= i < counts.len() ==> (#[trigger] counts[i]).0@ != name@,
        },
{
    let mut i: usize = 0;
    while i < counts.len()
        invariant
            i <= counts.len(),
            forall|k: int| 0 <= k < i ==> (#[trigger] counts[k]).0@ != name@,
        decreases counts.len() - i,
    {
        if counts[i].0 == *name {
            return Some(counts[i].1);
        }
        i += 1;
    }
    None
}

/// The name that occurs most often in `items`; among several such names,
/// the one that occurs first. `None` for an empty list.
pub fn most_common_first_seen(items: &Vec<String>) -> (r: Option<String>)
    ensures
        match r {
            Some(x) => first_most_common(items.deep_view(), x@),
            None => items.len() == 0,
        },
{
    let ghost all = items.deep_view();
    if items.len() == 0 {
        return None;
    }
    let counts = most_common(items);
    assert(counts.len() > 0) by {
        assert(items[0]@ == items[0]@);
    }
    let top: usize = counts[0].1;
    proof {
        assert forall|y: Seq<char>| occurrences(all, y) <= top by {
            lemma_occurs_iff_held(all, y);
            if occurrences(all, y) > 0 {
                let k = choose|k: int| 0 <= k < all.len() && all[k] == y;
                assert(items[k]@ == y);
                let i = choose|i: int| 0 <= i < counts.len() && (#[trigger] counts[i]).0@ == items[k]@;
                assert(counts[i].1 == occurrences(all, y));
                if i > 0 {
                    assert(counts[0].1 >= counts[i].1);
                }
            }
        }
        assert(occurrences(all, counts[0].0@) == top);
    }
    let mut k: usize = 0;
    while k < items.len()
        invariant
            k <= items.len(),
            all == items.deep_view(),
            top > 0,
            forall|y: Seq<char>| occurrences(all, y) <= top,
            forall|i: int|
                0 <= i < counts.len() ==> (#[trigger] counts[i]).1 == occurrences(
                    all,
                    counts[i].0@,
                ),
            forall|j: int|
                0 <= j < items.len() ==> exists|i: int|
                    0 <= i < counts.len() && (#[trigger] counts[i]).0@ == (#[trigger] items[j])@,
            forall|j: int| 0 <= j < k ==> occurrences(all, #[trigger] all[j]) < top,
        decreases items.len() - k,
    {
        let found = count_of(&counts, &items[k]);
        proof {
            let i = choose|i: int| 0 <= i < counts.len() && (#[trigger] counts[i]).0@ == items[k as int]@;
            assert(counts[i].0@ == all[k as int]);
        }
        match found {
            Some(n) => {
                if n == top {
                    let name = items[k].clone();
                    proof {
                        assert(all[k as int] == name@);
                        assert(most_common_in(all, name@));
                        assert forall|j: int| 0 <= j < k implies !most_common_in(
                            all,
                            #[trigger] all[j],
                        ) by {
                            assert(occurrences(all, name@) > occurrences(all, all[j]));
                        }
                    }
                    return Some(name);
                }
            },
            None => {},
        }
        k += 1;
    }
    proof {
        lemma_occurs_iff_held(all, counts[0].0@);
        let j = choose|j: int| 0 <= j < all.len() && all[j] == counts[0].0@;
        assert(occurrences(all, all[j]) < top);
    }
    None
}

} // verus!
