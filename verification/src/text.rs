//! Text as sequences of characters: conversions between `String` and
//! `Vec<char>`, and the searching, trimming and replacing that the rest of
//! the crate is built on.

use vstd::prelude::*;

verus! {

/// `String::push` of std appends one character to the string.
pub assume_specification[ String::push ](s: &mut String, c: char)
    ensures
        final(s)@ == old(s)@.push(c),
;

/// The characters of `s`, in order.
pub fn chars_of(s: &str) -> (v: Vec<char>)
    ensures
        v@ == s@,
{
    let mut v: Vec<char> = Vec::new();
    for c in it: s.chars()
        invariant
            it.seq() == s@,
            v@ == it.seq().take(it.index()),
    {
        v.push(c);
    }
    v
}

/// The string made of the characters of `v`.
pub fn string_of(v: &Vec<char>) -> (s: String)
    ensures
        s@ == v@,
{
    let mut s = String::new();
    let mut i: usize = 0;
    while i < v.len()
        invariant
            i <= v.len(),
            s@ == v@.take(i as int),
        decreases v.len() - i,
    {
        s.push(v[i]);
        i += 1;
    }
    s
}


/// `pat` stands in `s` at index `i`.
pub open spec fn occurs_at(s: Seq<char>, pat: Seq<char>, i: int) -> bool {
    0 <= i && i + pat.len() <= s.len() && s.subrange(i, i + pat.len()) == pat
}

/// `s` begins with `pat`.
pub open spec fn has_prefix(s: Seq<char>, pat: Seq<char>) -> bool {
    occurs_at(s, pat, 0)
}

/// `s` ends with `pat`.
pub open spec fn has_suffix(s: Seq<char>, pat: Seq<char>) -> bool {
    occurs_at(s, pat, s.len() - pat.len())
}

/// The least index at or after `from` at which `pat` stands in `s`.
pub open spec fn first_occurrence(s: Seq<char>, pat: Seq<char>, from: int) -> Option<int>
    decreases s.len() - from,
{
    if from < 0 || from + pat.len() > s.len() {
        None
    } else if occurs_at(s, pat, from) {
        Some(from)
    } else if from >= s.len() {
        None
    } else {
        first_occurrence(s, pat, from + 1)
    }
}

/// The greatest index at or before `from` at which `pat` stands in `s`.
pub open spec fn last_occurrence(s: Seq<char>, pat: Seq<char>, from: int) -> Option<int>
    decreases from + 1,
{
    if from < 0 {
        None
    } else if occurs_at(s, pat, from) {
        Some(from)
    } else {
        last_occurrence(s, pat, from - 1)
    }
}

/// What lies before and after the first occurrence of `pat` in `s`.
pub open spec fn split_first(s: Seq<char>, pat: Seq<char>) -> Option<(Seq<char>, Seq<char>)> {
    match first_occurrence(s, pat, 0) {
        Some(i) => Some((s.subrange(0, i), s.subrange(i + pat.len(), s.len() as int))),
        None => None,
    }
}

/// What lies before and after the last occurrence of `pat` in `s`.
pub open spec fn split_last(s: Seq<char>, pat: Seq<char>) -> Option<(Seq<char>, Seq<char>)> {
    match last_occurrence(s, pat, s.len() - pat.len()) {
        Some(i) => Some((s.subrange(0, i), s.subrange(i + pat.len(), s.len() as int))),
        None => None,
    }
}

/// `s` from index `i` on, with every occurrence of `pat` met from left to
/// right replaced by `with`. An empty `pat` replaces nothing.
pub open spec fn replaced_from(s: Seq<char>, pat: Seq<char>, with: Seq<char>, i: int) -> Seq<char>
    decreases s.len() - i,
{
    if i < 0 || i >= s.len() {
        Seq::empty()
    } else if pat.len() > 0 && occurs_at(s, pat, i) {
        with + replaced_from(s, pat, with, i + pat.len())
    } else {
        seq![s[i]] + replaced_from(s, pat, with, i + 1)
    }
}

/// `s` with every occurrence of `pat` replaced by `with`.
pub open spec fn replaced(s: Seq<char>, pat: Seq<char>, with: Seq<char>) -> Seq<char> {
    replaced_from(s, pat, with, 0)
}

/// The characters that Unicode gives the property `White_Space`.
pub open spec fn is_space(c: char) -> bool {
    let n = c as int;
    (0x09 <= n <= 0x0D) || n == 0x20 || n == 0x85 || n == 0xA0 || n == 0x1680 || (0x2000 <= n
        <= 0x200A) || n == 0x2028 || n == 0x2029 || n == 0x202F || n == 0x205F || n == 0x3000
}

/// The index of the first character at or after `i` that is no space.
pub open spec fn skip_spaces(s: Seq<char>, i: int) -> int
    decreases s.len() - i,
{
    if 0 <= i < s.len() && is_space(s[i]) {
        skip_spaces(s, i + 1)
    } else {
        i
    }
}

/// The end of `s` once the spaces before index `j`, down to `lo`, are dropped.
pub open spec fn drop_spaces(s: Seq<char>, lo: int, j: int) -> int
    decreases j,
{
    if 0 <= lo < j <= s.len() && is_space(s[j - 1]) {
        drop_spaces(s, lo, j - 1)
    } else {
        j
    }
}

/// `s` without the spaces at its two ends.
pub open spec fn trimmed(s: Seq<char>) -> Seq<char> {
    let a = skip_spaces(s, 0);
    let b = drop_spaces(s, a, s.len() as int);
    s.subrange(a, b)
}

/// The parts in order, with `sep` between each two neighbours.
pub open spec fn joined(parts: Seq<Seq<char>>, sep: Seq<char>) -> Seq<char>
    decreases parts.len(),
{
    if parts.len() == 0 {
        Seq::empty()
    } else if parts.len() == 1 {
        parts[0]
    } else {
        joined(parts.drop_last(), sep) + sep + parts.last()
    }
}

/// The character that stands for the digit `d`.
pub open spec fn digit(d: nat) -> char {
    if d == 0 {
        '0'
    } else if d == 1 {
        '1'
    } else if d == 2 {
        '2'
    } else if d == 3 {
        '3'
    } else if d == 4 {
        '4'
    } else if d == 5 {
        '5'
    } else if d == 6 {
        '6'
    } else if d == 7 {
        '7'
    } else if d == 8 {
        '8'
    } else {
        '9'
    }
}

/// `n` written in decimal digits.
pub open spec fn decimal(n: nat) -> Seq<char>
    decreases n,
{
    if n < 10 {
        seq![digit(n)]
    } else {
        decimal(n / 10).push(digit(n % 10))
    }
}

/// The code of `c`, with the upper-case letters A to Z mapped to lower case.
pub open spec fn lower_code(c: char) -> int {
    let n = c as int;
    if 0x41 <= n <= 0x5A {
        n + 0x20
    } else {
        n
    }
}

/// `a` and `b` are equal but for the case of the letters A to Z.
pub open spec fn same_ignoring_case(a: Seq<char>, b: Seq<char>) -> bool {
    a.len() == b.len() && forall|i: int| 0 <= i < a.len() ==> lower_code(#[trigger] a[i]) == lower_code(b[i])
}

/// The number that stands for `c`.
pub fn code_of(c: char) -> (n: u32)
    ensures
        n as int == c as int,
{
    c as u32
}

/// The characters of `v` from index `from` up to `to`.
pub fn slice(v: &Vec<char>, from: usize, to: usize) -> (r: Vec<char>)
    requires
        from <= to <= v.len(),
    ensures
        r@ == v@.subrange(from as int, to as int),
{
    let mut r: Vec<char> = Vec::new();
    let mut i: usize = from;
    while i < to
        invariant
            from <= i <= to <= v.len(),
            r@ == v@.subrange(from as int, i as int),
        decreases to - i,
    {
        r.push(v[i]);
        i += 1;
    }
    r
}

/// A copy of `v`.
pub fn copy_chars(v: &Vec<char>) -> (r: Vec<char>)
    ensures
        r@ == v@,
{
    let r = slice(v, 0, v.len());
    assert(v@.subrange(0, v@.len() as int) =~= v@);
    r
}

/// Appends the characters of `v` to `out`.
pub fn append(out: &mut Vec<char>, v: &Vec<char>)
    ensures
        final(out)@ == old(out)@ + v@,
{
    let mut i: usize = 0;
    while i < v.len()
        invariant
            i <= v.len(),
            out@ == old(out)@ + v@.take(i as int),
        decreases v.len() - i,
    {
        out.push(v[i]);
        i += 1;
    }
}

/// Tells whether `pat` stands in `s` at index `i`.
pub fn has_at(s: &Vec<char>, pat: &Vec<char>, i: usize) -> (r: bool)
    ensures
        r == occurs_at(s@, pat@, i as int),
{
    if pat.len() > s.len() || i > s.len() - pat.len() {
        return false;
    }
    let mut k: usize = 0;
    while k < pat.len()
        invariant
            k <= pat.len(),
            i + pat.len() <= s.len(),
            forall|j: int| 0 <= j < k ==> s@[i + j] == pat@[j],
        decreases pat.len() - k,
    {
        if s[i + k] != pat[k] {
            assert(s@.subrange(i as int, i + pat.len())[k as int] == s@[i + k]);
            return false;
        }
        k += 1;
    }
    assert(s@.subrange(i as int, i + pat.len()) =~= pat@);
    true
}

/// Tells whether `s` begins with `pat`.
pub fn starts_with(s: &Vec<char>, pat: &Vec<char>) -> (r: bool)
    ensures
        r == has_prefix(s@, pat@),
{
    has_at(s, pat, 0)
}

/// Tells whether `s` ends with `pat`.
pub fn ends_with(s: &Vec<char>, pat: &Vec<char>) -> (r: bool)
    ensures
        r == has_suffix(s@, pat@),
{
    if pat.len() > s.len() {
        false
    } else {
        has_at(s, pat, s.len() - pat.len())
    }
}

/// Finds the first occurrence of `pat` in `s` at or after `from`.
pub fn find(s: &Vec<char>, pat: &Vec<char>, from: usize) -> (r: Option<usize>)
    ensures
        match r {
            Some(i) => first_occurrence(s@, pat@, from as int) == Some(i as int) && occurs_at(
                s@,
                pat@,
                i as int,
            ),
            None => first_occurrence(s@, pat@, from as int).is_none(),
        },
{
    if pat.len() > s.len() {
        return None;
    }
    let last: usize = s.len() - pat.len();
    if from > last {
        return None;
    }
    let mut i: usize = from;
    loop
        invariant
            last == s.len() - pat.len(),
            from <= i <= last,
            first_occurrence(s@, pat@, from as int) == first_occurrence(s@, pat@, i as int),
        decreases last - i,
    {
        if has_at(s, pat, i) {
            return Some(i);
        }
        if i == last {
            assert(first_occurrence(s@, pat@, i + 1).is_none());
            return None;
        }
        i += 1;
    }
}

/// Finds the last occurrence of `pat` in `s`.
pub fn rfind(s: &Vec<char>, pat: &Vec<char>) -> (r: Option<usize>)
    ensures
        match r {
            Some(i) => last_occurrence(s@, pat@, s@.len() - pat@.len()) == Some(i as int)
                && occurs_at(s@, pat@, i as int),
            None => last_occurrence(s@, pat@, s@.len() - pat@.len()).is_none(),
        },
{
    if pat.len() > s.len() {
        return None;
    }
    let mut i: usize = s.len() - pat.len();
    loop
        invariant
            i <= s.len() - pat.len(),
            last_occurrence(s@, pat@, s@.len() - pat@.len()) == last_occurrence(
                s@,
                pat@,
                i as int,
            ),
        decreases i,
    {
        if has_at(s, pat, i) {
            return Some(i);
        }
        if i == 0 {
            assert(last_occurrence(s@, pat@, -1).is_none());
            return None;
        }
        i -= 1;
    }
}

/// Splits `s` at the first occurrence of `pat`.
pub fn split_once(s: &Vec<char>, pat: &Vec<char>) -> (r: Option<(Vec<char>, Vec<char>)>)
    ensures
        match r {
            Some((a, b)) => split_first(s@, pat@) == Some((a@, b@)),
            None => split_first(s@, pat@).is_none(),
        },
{
    match find(s, pat, 0) {
        Some(i) => {
            let n: usize = s.len();
            Some((slice(s, 0, i), slice(s, i + pat.len(), n)))
        },
        None => None,
    }
}

/// Splits `s` at the last occurrence of `pat`.
pub fn rsplit_once(s: &Vec<char>, pat: &Vec<char>) -> (r: Option<(Vec<char>, Vec<char>)>)
    ensures
        match r {
            Some((a, b)) => split_last(s@, pat@) == Some((a@, b@)),
            None => split_last(s@, pat@).is_none(),
        },
{
    match rfind(s, pat) {
        Some(i) => {
            let n: usize = s.len();
            Some((slice(s, 0, i), slice(s, i + pat.len(), n)))
        },
        None => None,
    }
}

/// An occurrence found from `from` on lies at or after `from`, `pat` stands
/// there, and it stands nowhere between `from` and that index.
pub proof fn lemma_first_occurrence_fits(s: Seq<char>, pat: Seq<char>, from: int)
    ensures
        match first_occurrence(s, pat, from) {
            Some(i) => from <= i && occurs_at(s, pat, i) && forall|j: int|
                from <= j < i ==> !occurs_at(s, pat, j),
            None => forall|j: int| from <= j && 0 <= from ==> !occurs_at(s, pat, j),
        },
    decreases s.len() - from,
{
    if from < 0 || from + pat.len() > s.len() {
    } else if occurs_at(s, pat, from) {
    } else if from >= s.len() {
    } else {
        lemma_first_occurrence_fits(s, pat, from + 1);
    }
}

/// An occurrence found from `from` downwards lies at or before `from`, `pat`
/// stands there, and it stands nowhere between that index and `from`.
pub proof fn lemma_last_occurrence_fits(s: Seq<char>, pat: Seq<char>, from: int)
    ensures
        match last_occurrence(s, pat, from) {
            Some(i) => i <= from && occurs_at(s, pat, i) && forall|j: int|
                i < j <= from ==> !occurs_at(s, pat, j),
            None => forall|j: int| j <= from ==> !occurs_at(s, pat, j),
        },
    decreases from + 1,
{
    if from < 0 {
    } else if occurs_at(s, pat, from) {
    } else {
        lemma_last_occurrence_fits(s, pat, from - 1);
    }
}

/// The first character of `p` stands nowhere else in `p`, so that no two
/// occurrences of `p` overlap.
pub open spec fn starts_apart(p: Seq<char>) -> bool {
    p.len() > 0 && forall|i: int| 0 < i < p.len() ==> #[trigger] p[i] != p[0]
}

/// A text that ends with `w` still ends with it when something is put in
/// front.
pub proof fn lemma_suffix_after_prefix(a: Seq<char>, b: Seq<char>, w: Seq<char>)
    requires
        has_suffix(b, w),
    ensures
        has_suffix(a + b, w),
{
    let x = a + b;
    assert(x.subrange(x.len() - w.len(), x.len() as int) =~= b.subrange(
        b.len() - w.len(),
        b.len() as int,
    ));
}

/// Where `s` ends with `p`, and no two occurrences of `p` overlap, `s`
/// with `p` replaced by `w` ends with `w`, from whichever index at or
/// before that last occurrence the replacing starts.
pub proof fn lemma_replaced_end(s: Seq<char>, p: Seq<char>, w: Seq<char>, i: int)
    requires
        starts_apart(p),
        has_suffix(s, p),
        0 <= i <= s.len() - p.len(),
    ensures
        has_suffix(replaced_from(s, p, w, i), w),
    decreases s.len() - i,
{
    let n = s.len() as int;
    let m = p.len() as int;
    let r = replaced_from(s, p, w, i);
    if i == n - m {
        assert(replaced_from(s, p, w, n) =~= Seq::<char>::empty());
        assert(r =~= w);
        assert(r.subrange(0, r.len() as int) =~= r);
    } else if occurs_at(s, p, i) {
        if i + m > n - m {
            let d = n - m - i;
            assert(s.subrange(n - m, n)[0] == p[0]);
            assert(s.subrange(i, i + m)[d] == p[d]);
            assert(false);
        }
        lemma_replaced_end(s, p, w, i + m);
        lemma_suffix_after_prefix(w, replaced_from(s, p, w, i + m), w);
    } else {
        lemma_replaced_end(s, p, w, i + 1);
        lemma_suffix_after_prefix(seq![s[i]], replaced_from(s, p, w, i + 1), w);
    }
}

/// Replacing in a text without the character `c` by a text without it
/// gives a text without it.
pub proof fn lemma_replaced_without(s: Seq<char>, p: Seq<char>, w: Seq<char>, c: char, i: int)
    requires
        forall|k: int| 0 <= k < s.len() ==> #[trigger] s[k] != c,
        forall|k: int| 0 <= k < w.len() ==> #[trigger] w[k] != c,
    ensures
        forall|k: int|
            0 <= k < replaced_from(s, p, w, i).len() ==> #[trigger] replaced_from(s, p, w, i)[k]
                != c,
    decreases s.len() - i,
{
    let r = replaced_from(s, p, w, i);
    if i < 0 || i >= s.len() {
    } else if p.len() > 0 && occurs_at(s, p, i) {
        lemma_replaced_without(s, p, w, c, i + p.len());
        let tail = replaced_from(s, p, w, i + p.len());
        assert forall|k: int| 0 <= k < r.len() implies #[trigger] r[k] != c by {
            if k < w.len() {
                assert(r[k] == w[k]);
            } else {
                assert(r[k] == tail[k - w.len()]);
            }
        }
    } else {
        lemma_replaced_without(s, p, w, c, i + 1);
        let tail = replaced_from(s, p, w, i + 1);
        assert forall|k: int| 0 <= k < r.len() implies #[trigger] r[k] != c by {
            if k == 0 {
                assert(r[k] == s[i]);
            } else {
                assert(r[k] == tail[k - 1]);
            }
        }
    }
}

/// Replaces every occurrence of `pat` in `s` by `with`.
pub fn replace_all(s: &Vec<char>, pat: &Vec<char>, with: &Vec<char>) -> (r: Vec<char>)
    ensures
        r@ == replaced(s@, pat@, with@),
{
    let mut out: Vec<char> = Vec::new();
    let mut i: usize = 0;
    while i < s.len()
        invariant
            i <= s.len(),
            out@ + replaced_from(s@, pat@, with@, i as int) == replaced(s@, pat@, with@),
        decreases s.len() - i,
    {
        if pat.len() > 0 && has_at(s, pat, i) {
            append(&mut out, with);
            i += pat.len();
        } else {
            out.push(s[i]);
            i += 1;
        }
    }
    out
}

/// Tells whether `c` is a space.
pub fn is_space_char(c: char) -> (r: bool)
    ensures
        r == is_space(c),
{
    let n: u32 = code_of(c);
    (0x09 <= n && n <= 0x0D) || n == 0x20 || n == 0x85 || n == 0xA0 || n == 0x1680 || (0x2000 <= n
        && n <= 0x200A) || n == 0x2028 || n == 0x2029 || n == 0x202F || n == 0x205F || n == 0x3000
}

/// Drops the spaces at the two ends of `s`.
pub fn trim(s: &Vec<char>) -> (r: Vec<char>)
    ensures
        r@ == trimmed(s@),
{
    let mut a: usize = 0;
    while a < s.len() && is_space_char(s[a])
        invariant
            a <= s.len(),
            skip_spaces(s@, 0) == skip_spaces(s@, a as int),
        decreases s.len() - a,
    {
        a += 1;
    }
    let mut b: usize = s.len();
    while b > a && is_space_char(s[b - 1])
        invariant
            a <= b <= s.len(),
            drop_spaces(s@, a as int, s@.len() as int) == drop_spaces(s@, a as int, b as int),
        decreases b,
    {
        b -= 1;
    }
    slice(s, a, b)
}

/// Joins the parts from index `from` up to `to` with `sep` between them.
pub fn join(parts: &Vec<String>, from: usize, to: usize, sep: &Vec<char>) -> (r: Vec<char>)
    requires
        from <= to <= parts.len(),
    ensures
        r@ == joined(parts.deep_view().subrange(from as int, to as int), sep@),
{
    let ghost all = parts.deep_view();
    let mut out: Vec<char> = Vec::new();
    let mut i: usize = from;
    while i < to
        invariant
            from <= i <= to <= parts.len(),
            all == parts.deep_view(),
            out@ == joined(all.subrange(from as int, i as int), sep@),
        decreases to - i,
    {
        if i > from {
            append(&mut out, sep);
        }
        let piece = chars_of(parts[i].as_str());
        append(&mut out, &piece);
        proof {
            assert(all.subrange(from as int, i + 1).drop_last() =~= all.subrange(
                from as int,
                i as int,
            ));
            assert(all.subrange(from as int, i + 1).last() == parts[i as int]@);
        }
        i += 1;
    }
    out
}

/// The character that stands for the digit `d`.
pub fn digit_of(d: usize) -> (c: char)
    requires
        d < 10,
    ensures
        c == digit(d as nat),
{
    if d == 0 {
        '0'
    } else if d == 1 {
        '1'
    } else if d == 2 {
        '2'
    } else if d == 3 {
        '3'
    } else if d == 4 {
        '4'
    } else if d == 5 {
        '5'
    } else if d == 6 {
        '6'
    } else if d == 7 {
        '7'
    } else if d == 8 {
        '8'
    } else {
        '9'
    }
}

/// Writes `n` in decimal digits.
pub fn decimal_of(n: usize) -> (r: Vec<char>)
    ensures
        r@ == decimal(n as nat),
    decreases n,
{
    if n < 10 {
        let mut r: Vec<char> = Vec::new();
        r.push(digit_of(n));
        assert(r@ =~= seq![digit(n as nat)]);
        r
    } else {
        let mut r = decimal_of(n / 10);
        r.push(digit_of(n % 10));
        r
    }
}

/// The code of `c` with the letters A to Z in lower case.
pub fn lower_code_of(c: char) -> (r: u32)
    ensures
        r as int == lower_code(c),
{
    let n: u32 = code_of(c);
    if 0x41 <= n && n <= 0x5A {
        n + 0x20
    } else {
        n
    }
}

/// Tells whether `a` and `b` are equal but for the case of the letters A to Z.
pub fn eq_ignore_case(a: &Vec<char>, b: &Vec<char>) -> (r: bool)
    ensures
        r == same_ignoring_case(a@, b@),
{
    if a.len() != b.len() {
        return false;
    }
    let mut i: usize = 0;
    while i < a.len()
        invariant
            i <= a.len(),
            a.len() == b.len(),
            forall|j: int| 0 <= j < i ==> lower_code(#[trigger] a@[j]) == lower_code(b@[j]),
        decreases a.len() - i,
    {
        if lower_code_of(a[i]) != lower_code_of(b[i]) {
            return false;
        }
        i += 1;
    }
    true
}

/// The one-character text `c`.
pub open spec fn one(c: char) -> Seq<char> {
    seq![c]
}

/// The one-character text `c`.
pub fn single(c: char) -> (r: Vec<char>)
    ensures
        r@ == one(c),
{
    let mut r: Vec<char> = Vec::new();
    r.push(c);
    r
}

/// The text `a b c`.
pub fn three(a: char, b: char, c: char) -> (r: Vec<char>)
    ensures
        r@ == seq![a, b, c],
{
    let mut r: Vec<char> = Vec::new();
    r.push(a);
    r.push(b);
    r.push(c);
    assert(r@ =~= seq![a, b, c]);
    r
}

/// Tells whether the two texts are the same.
pub fn same_chars(a: &Vec<char>, b: &Vec<char>) -> (r: bool)
    ensures
        r == (a@ == b@),
{
    if a.len() != b.len() {
        return false;
    }
    let mut i: usize = 0;
    while i < a.len()
        invariant
            i <= a.len(),
            a.len() == b.len(),
            forall|k: int| 0 <= k < i ==> a@[k] == b@[k],
        decreases a.len() - i,
    {
        if a[i] != b[i] {
            return false;
        }
        i += 1;
    }
    assert(a@ =~= b@);
    true
}

/// A copy of the list `names`.
pub fn copy_names(names: &Vec<String>) -> (r: Vec<String>)
    ensures
        r.deep_view() == names.deep_view(),
{
    let mut r: Vec<String> = Vec::new();
    let mut i: usize = 0;
    while i < names.len()
        invariant
            i <= names.len(),
            r.deep_view() == names.deep_view().take(i as int),
        decreases names.len() - i,
    {
        let ghost before = r.deep_view();
        r.push(names[i].clone());
        assert(r.deep_view() =~= before.push(names[i as int]@));
        assert(names.deep_view().take(i + 1) =~= names.deep_view().take(i as int).push(
            names[i as int]@,
        ));
        i += 1;
    }
    assert(names.deep_view().take(names.len() as int) =~= names.deep_view());
    r
}

} // verus!
