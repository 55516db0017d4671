//! The order of texts by their characters, and lists of names kept in
//! that order without repeats.

use crate::text::{chars_of, code_of};
use vstd::prelude::*;

verus! {

/// `a` comes before `b` when both are compared character by character from
/// index `i` on: at the first index where they differ `a` holds the smaller
/// character, or `a` ends first.
pub open spec fn precedes_from(a: Seq<char>, b: Seq<char>, i: int) -> bool
    decreases a.len() - i,
{
    if i < 0 || i >= b.len() {
        false
    } else if i >= a.len() {
        true
    } else if a[i] != b[i] {
        (a[i] as int) < (b[i] as int)
    } else {
        precedes_from(a, b, i + 1)
    }
}

/// `a` comes before `b` in the order of texts.
pub open spec fn precedes(a: Seq<char>, b: Seq<char>) -> bool {
    precedes_from(a, b, 0)
}

/// Every name comes before each name that follows it.
pub open spec fn strictly_sorted(names: Seq<Seq<char>>) -> bool {
    forall|i: int, j: int| 0 <= i < j < names.len() ==> precedes(#[trigger] names[i], #[trigger] names[j])
}

/// No name occurs twice.
pub open spec fn distinct(names: Seq<Seq<char>>) -> bool {
    forall|i: int, j: int| 0 <= i < j < names.len() ==> #[trigger] names[i] != #[trigger] names[j]
}

/// The order is transitive.
pub proof fn lemma_precedes_transitive(a: Seq<char>, b: Seq<char>, c: Seq<char>, i: int)
    requires
        precedes_from(a, b, i),
        precedes_from(b, c, i),
    ensures
        precedes_from(a, c, i),
    decreases a.len() - i,
{
    if i < a.len() && a[i] == b[i] && b[i] == c[i] {
        lemma_precedes_transitive(a, b, c, i + 1);
    }
}

/// Two texts that agree before index `i` are equal, or one comes before the other.
pub proof fn lemma_precedes_total(a: Seq<char>, b: Seq<char>, i: int)
    requires
        0 <= i <= a.len(),
        i <= b.len(),
        forall|k: int| 0 <= k < i ==> a[k] == b[k],
    ensures
        a == b || precedes_from(a, b, i) || precedes_from(b, a, i),
    decreases a.len() - i,
{
    if i >= a.len() || i >= b.len() {
        if a.len() == b.len() {
            assert(a =~= b);
        }
    } else if a[i] == b[i] {
        lemma_precedes_total(a, b, i + 1);
    } else {
        assert(a[i] as int != b[i] as int);
    }
}

/// No text comes before itself, and of two texts at most one comes before the other.
pub proof fn lemma_precedes_asymmetric(a: Seq<char>, b: Seq<char>, i: int)
    requires
        precedes_from(a, b, i),
    ensures
        !precedes_from(b, a, i),
        a != b,
    decreases a.len() - i,
{
    if i < a.len() && a[i] == b[i] {
        lemma_precedes_asymmetric(a, b, i + 1);
    }
}

/// A strictly sorted list holds no name twice.
pub proof fn lemma_sorted_is_distinct(names: Seq<Seq<char>>)
    requires
        strictly_sorted(names),
    ensures
        distinct(names),
{
    assert forall|i: int, j: int| 0 <= i < j < names.len() implies #[trigger] names[i]
        != #[trigger] names[j] by {
        lemma_precedes_asymmetric(names[i], names[j], 0);
    }
}

/// `m` is the sorted list of the names that `a` or `b` holds.
pub open spec fn is_sorted_union(m: Seq<Seq<char>>, a: Seq<Seq<char>>, b: Seq<Seq<char>>) -> bool {
    strictly_sorted(m) && forall|x: Seq<char>|
        #[trigger] m.contains(x) <==> (a.contains(x) || b.contains(x))
}

/// The names of `a` and `b` together, each once, in order.
pub open spec fn sorted_union(a: Seq<Seq<char>>, b: Seq<Seq<char>>) -> Seq<Seq<char>> {
    choose|m: Seq<Seq<char>>| is_sorted_union(m, a, b)
}

/// Two strictly sorted lists that hold the same names are the same list.
pub proof fn lemma_sorted_unique(s: Seq<Seq<char>>, t: Seq<Seq<char>>)
    requires
        strictly_sorted(s),
        strictly_sorted(t),
        forall|x: Seq<char>| #[trigger] s.contains(x) <==> t.contains(x),
    ensures
        s == t,
    decreases s.len(),
{
    if s.len() == 0 {
        if t.len() > 0 {
            assert(t[0] == t[0]);
            assert(t.contains(t[0]));
            assert(s.contains(t[0]));
        }
        assert(s =~= t);
    } else {
        assert(s.contains(s[0]));
        assert(t.contains(s[0]));
        let a = s.last();
        let b = t.last();
        let n = s.len() as int;
        let m = t.len() as int;
        assert(s.contains(a)) by {
            assert(s[n - 1] == a);
        }
        assert(t.contains(b)) by {
            assert(t[m - 1] == b);
        }
        assert(t.contains(a));
        assert(s.contains(b));
        let j = choose|j: int| 0 <= j < t.len() && t[j] == a;
        let i = choose|i: int| 0 <= i < s.len() && s[i] == b;
        if a != b {
            assert(j < m - 1);
            assert(i < n - 1);
            assert(precedes(t[j], t[m - 1]));
            assert(precedes(s[i], s[n - 1]));
            lemma_precedes_asymmetric(a, b, 0);
        }
        let s1 = s.drop_last();
        let t1 = t.drop_last();
        assert forall|x: Seq<char>| #[trigger] s1.contains(x) <==> t1.contains(x) by {
            if s1.contains(x) {
                let k = choose|k: int| 0 <= k < s1.len() && s1[k] == x;
                assert(s[k] == x);
                assert(precedes(s[k], s[n - 1]));
                lemma_precedes_asymmetric(x, a, 0);
                assert(s.contains(x));
                assert(t.contains(x));
                let l = choose|l: int| 0 <= l < t.len() && t[l] == x;
                assert(l < m - 1);
                assert(t1[l] == x);
            }
            if t1.contains(x) {
                let k = choose|k: int| 0 <= k < t1.len() && t1[k] == x;
                assert(t[k] == x);
                assert(precedes(t[k], t[m - 1]));
                lemma_precedes_asymmetric(x, b, 0);
                assert(t.contains(x));
                assert(s.contains(x));
                let l = choose|l: int| 0 <= l < s.len() && s[l] == x;
                assert(l < n - 1);
                assert(s1[l] == x);
            }
        }
        assert(strictly_sorted(s1)) by {
            assert forall|p: int, q: int| 0 <= p < q < s1.len() implies precedes(
                #[trigger] s1[p],
                #[trigger] s1[q],
            ) by {
                assert(precedes(s[p], s[q]));
            }
        }
        assert(strictly_sorted(t1)) by {
            assert forall|p: int, q: int| 0 <= p < q < t1.len() implies precedes(
                #[trigger] t1[p],
                #[trigger] t1[q],
            ) by {
                assert(precedes(t[p], t[q]));
            }
        }
        lemma_sorted_unique(s1, t1);
        assert(s =~= s1.push(a));
        assert(t =~= t1.push(b));
    }
}

/// A list that is a sorted union of `a` and `b` is the sorted union.
pub proof fn lemma_sorted_union_is(m: Seq<Seq<char>>, a: Seq<Seq<char>>, b: Seq<Seq<char>>)
    requires
        is_sorted_union(m, a, b),
    ensures
        m == sorted_union(a, b),
{
    let u = sorted_union(a, b);
    assert(is_sorted_union(u, a, b));
    assert forall|x: Seq<char>| #[trigger] m.contains(x) <==> u.contains(x) by {
        assert(u.contains(x) <==> (a.contains(x) || b.contains(x)));
    }
    lemma_sorted_unique(m, u);
}

/// The sorted list `s` with `x` put in its place, unless `s` holds it.
pub open spec fn inserted(s: Seq<Seq<char>>, x: Seq<char>) -> Seq<Seq<char>>
    decreases s.len(),
{
    if s.len() == 0 {
        seq![x]
    } else if s.last() == x {
        s
    } else if precedes(s.last(), x) {
        s.push(x)
    } else {
        inserted(s.drop_last(), x).push(s.last())
    }
}

/// The names of a list, each once, in order.
pub open spec fn sorted_from(names: Seq<Seq<char>>) -> Seq<Seq<char>>
    decreases names.len(),
{
    if names.len() == 0 {
        Seq::empty()
    } else {
        inserted(sorted_from(names.drop_last()), names.last())
    }
}

/// Putting a name into a sorted list keeps it sorted, and adds that name
/// and no other.
pub proof fn lemma_inserted(s: Seq<Seq<char>>, x: Seq<char>)
    requires
        strictly_sorted(s),
    ensures
        strictly_sorted(inserted(s, x)),
        forall|k: Seq<char>| #[trigger] inserted(s, x).contains(k) <==> (s.contains(k) || k == x),
    decreases s.len(),
{
    let r = inserted(s, x);
    if s.len() == 0 {
        assert(r[0] == x);
        assert forall|k: Seq<char>| #[trigger] r.contains(k) <==> (s.contains(k) || k == x) by {
            if r.contains(k) {
                let i = choose|i: int| 0 <= i < r.len() && r[i] == k;
                assert(r[i] == x);
            }
        }
    } else if s.last() == x {
        assert(s[s.len() - 1] == x);
    } else if precedes(s.last(), x) {
        assert forall|i: int, j: int| 0 <= i < j < r.len() implies precedes(
            #[trigger] r[i],
            #[trigger] r[j],
        ) by {
            if j < s.len() {
                assert(precedes(s[i], s[j]));
            } else if i < s.len() - 1 {
                assert(precedes(s[i], s[s.len() - 1]));
                lemma_precedes_transitive(s[i], s.last(), x, 0);
            }
        }
        assert forall|k: Seq<char>| #[trigger] r.contains(k) <==> (s.contains(k) || k == x) by {
            if r.contains(k) {
                let i = choose|i: int| 0 <= i < r.len() && r[i] == k;
                if i < s.len() {
                    assert(s[i] == k);
                }
            }
            if s.contains(k) {
                let i = choose|i: int| 0 <= i < s.len() && s[i] == k;
                assert(r[i] == k);
            }
            if k == x {
                assert(r[s.len() as int] == k);
            }
        }
    } else {
        let head = s.drop_last();
        let last = s.last();
        let n = s.len() as int;
        assert(strictly_sorted(head)) by {
            assert forall|p: int, q: int| 0 <= p < q < head.len() implies precedes(
                #[trigger] head[p],
                #[trigger] head[q],
            ) by {
                assert(precedes(s[p], s[q]));
            }
        }
        lemma_inserted(head, x);
        let inner = inserted(head, x);
        lemma_precedes_total(last, x, 0);
        assert(precedes(x, last));
        assert forall|i: int, j: int| 0 <= i < j < r.len() implies precedes(
            #[trigger] r[i],
            #[trigger] r[j],
        ) by {
            if j < inner.len() {
                assert(precedes(inner[i], inner[j]));
            } else {
                assert(inner.contains(inner[i]));
                if head.contains(inner[i]) {
                    let p = choose|p: int| 0 <= p < head.len() && head[p] == inner[i];
                    assert(precedes(s[p], s[n - 1]));
                }
            }
        }
        assert forall|k: Seq<char>| #[trigger] r.contains(k) <==> (s.contains(k) || k == x) by {
            if r.contains(k) {
                let i = choose|i: int| 0 <= i < r.len() && r[i] == k;
                if i < inner.len() {
                    assert(inner[i] == k);
                    assert(inner.contains(k));
                    if head.contains(k) {
                        let p = choose|p: int| 0 <= p < head.len() && head[p] == k;
                        assert(s[p] == k);
                    }
                } else {
                    assert(s[n - 1] == k);
                }
            }
            if s.contains(k) {
                let i = choose|i: int| 0 <= i < s.len() && s[i] == k;
                if i < n - 1 {
                    assert(head[i] == k);
                    assert(head.contains(k));
                    assert(inner.contains(k));
                    let p = choose|p: int| 0 <= p < inner.len() && inner[p] == k;
                    assert(r[p] == k);
                } else {
                    assert(r[inner.len() as int] == k);
                }
            }
            if k == x {
                assert(inner.contains(k));
                let p = choose|p: int| 0 <= p < inner.len() && inner[p] == k;
                assert(r[p] == k);
            }
        }
    }
}

/// The sorted form of a list is sorted and holds the names of the list.
pub proof fn lemma_sorted_from(names: Seq<Seq<char>>)
    ensures
        strictly_sorted(sorted_from(names)),
        forall|k: Seq<char>| #[trigger] sorted_from(names).contains(k) <==> names.contains(k),
    decreases names.len(),
{
    if names.len() > 0 {
        let head = names.drop_last();
        lemma_sorted_from(head);
        lemma_inserted(sorted_from(head), names.last());
        let r = sorted_from(names);
        assert forall|k: Seq<char>| #[trigger] r.contains(k) <==> names.contains(k) by {
            assert(r.contains(k) <==> (sorted_from(head).contains(k) || k == names.last()));
            if head.contains(k) {
                let i = choose|i: int| 0 <= i < head.len() && head[i] == k;
                assert(names[i] == k);
            }
            if names.contains(k) {
                let i = choose|i: int| 0 <= i < names.len() && names[i] == k;
                if i < names.len() - 1 {
                    assert(head[i] == k);
                }
            }
            if k == names.last() {
                assert(names[names.len() - 1] == k);
            }
        }
    }
}

/// Any two lists have a sorted union: it is sorted, holds no name twice,
/// and holds exactly the names that one of the two lists holds.
pub proof fn lemma_sorted_union(a: Seq<Seq<char>>, b: Seq<Seq<char>>)
    ensures
        is_sorted_union(sorted_union(a, b), a, b),
        distinct(sorted_union(a, b)),
{
    let both = a + b;
    let m = sorted_from(both);
    lemma_sorted_from(both);
    assert forall|x: Seq<char>| #[trigger] m.contains(x) <==> (a.contains(x) || b.contains(x)) by {
        assert(m.contains(x) <==> both.contains(x));
        if both.contains(x) {
            let i = choose|i: int| 0 <= i < both.len() && both[i] == x;
            if i < a.len() {
                assert(a[i] == x);
            } else {
                assert(b[i - a.len()] == x);
            }
        }
        if a.contains(x) {
            let i = choose|i: int| 0 <= i < a.len() && a[i] == x;
            assert(both[i] == x);
        }
        if b.contains(x) {
            let i = choose|i: int| 0 <= i < b.len() && b[i] == x;
            assert(both[a.len() + i] == x);
        }
    }
    assert(is_sorted_union(m, a, b));
    lemma_sorted_is_distinct(sorted_union(a, b));
}

/// Tells whether `a` comes before `b`.
pub fn chars_lt(a: &Vec<char>, b: &Vec<char>) -> (r: bool)
    ensures
        r == precedes(a@, b@),
{
    let mut i: usize = 0;
    loop
        invariant
            i <= a.len(),
            i <= b.len(),
            precedes(a@, b@) == precedes_from(a@, b@, i as int),
        decreases a.len() - i,
    {
        if i >= b.len() {
            return false;
        }
        if i >= a.len() {
            return true;
        }
        let x: char = a[i];
        let y: char = b[i];
        if x != y {
            return code_of(x) < code_of(y);
        }
        i += 1;
    }
}

/// Tells whether `a` comes before `b`.
pub fn str_lt(a: &str, b: &str) -> (r: bool)
    ensures
        r == precedes(a@, b@),
{
    let x = chars_of(a);
    let y = chars_of(b);
    chars_lt(&x, &y)
}

/// Tells whether `names` holds `name`.
pub fn holds(names: &Vec<String>, name: &String) -> (r: bool)
    ensures
        r == names.deep_view().contains(name@),
{
    let mut i: usize = 0;
    while i < names.len()
        invariant
            i <= names.len(),
            forall|k: int| 0 <= k < i ==> names.deep_view()[k] != name@,
        decreases names.len() - i,
    {
        if names[i] == *name {
            assert(names.deep_view()[i as int] == name@);
            return true;
        }
        i += 1;
    }
    false
}

/// Puts `name` into the sorted list `names`, unless it is there already.
pub fn insert_sorted(names: &mut Vec<String>, name: String)
    requires
        strictly_sorted(old(names).deep_view()),
    ensures
        strictly_sorted(final(names).deep_view()),
        forall|x: Seq<char>|
            #[trigger] final(names).deep_view().contains(x) <==> (old(names).deep_view().contains(
                x,
            ) || x == name@),
{
    let ghost before = names.deep_view();
    let mut p: usize = 0;
    while p < names.len() && str_lt(names[p].as_str(), name.as_str())
        invariant
            p <= names.len(),
            names.deep_view() == before,
            forall|k: int| 0 <= k < p ==> precedes(#[trigger] before[k], name@),
        decreases names.len() - p,
    {
        p += 1;
    }
    if p < names.len() && names[p] == name {
        assert(before[p as int] == name@);
        return;
    }
    proof {
        if p < names.len() {
            lemma_precedes_total(before[p as int], name@, 0);
            assert forall|k: int| p < k < before.len() implies precedes(name@, #[trigger] before[k]) by {
                lemma_precedes_transitive(name@, before[p as int], before[k], 0);
            }
        }
        assert forall|k: int| 0 <= k < p implies before[k] != name@ by {
            lemma_precedes_asymmetric(before[k], name@, 0);
        }
    }
    let ghost added = name@;
    names.insert(p, name);
    proof {
        let after = names.deep_view();
        assert(after =~= before.insert(p as int, added));
        assert forall|x: Seq<char>| after.contains(x) <==> (before.contains(x) || x == added) by {
            if after.contains(x) {
                let k = choose|k: int| 0 <= k < after.len() && after[k] == x;
                if k < p {
                    assert(before[k] == x);
                } else if k > p {
                    assert(before[k - 1] == x);
                }
            }
            if before.contains(x) {
                let k = choose|k: int| 0 <= k < before.len() && before[k] == x;
                if k < p {
                    assert(after[k] == x);
                } else {
                    assert(after[k + 1] == x);
                }
            }
            if x == added {
                assert(after[p as int] == x);
            }
        }
    }
}

} // verus!
